//! Character-trigram to term postings, used to prune wildcard and fuzzy
//! expansion before the full pattern matcher runs.
//!
//! A wildcard leaf with a literal run of at least three characters only
//! matches terms that contain every overlapping trigram of that run, so the
//! intersection of those trigrams' term lists is a recall-safe candidate set.

use crate::text::{
    chars_of, compare_text, lemma_text_less_asymmetric, lemma_text_less_irreflexive,
    lemma_text_less_total, lemma_text_less_transitive, push_char, text_less, TextOrder,
};
use vstd::prelude::*;

verus! {

/// The overlapping three-character windows of `s`, in order.
pub open spec fn spec_char_trigrams(s: Seq<char>) -> Seq<Seq<char>> {
    if s.len() < 3 {
        Seq::empty()
    } else {
        Seq::new((s.len() - 2) as nat, |i: int| s.subrange(i, i + 3))
    }
}

/// The character sequences of `v`.
pub open spec fn texts(v: Seq<String>) -> Seq<Seq<char>> {
    v.map_values(|s: String| s@)
}

/// Every text of `s` sorts strictly before every later one.
pub open spec fn strictly_ascending(s: Seq<Seq<char>>) -> bool {
    forall|i: int, j: int| 0 <= i < j < s.len() ==> text_less(s[i], s[j])
}

/// The overlapping character trigrams of `term`, in order; a term of fewer
/// than three characters has none.
pub fn char_trigrams(term: &str) -> (grams: Vec<String>)
    ensures
        texts(grams@) == spec_char_trigrams(term@),
{
    let chars = chars_of(term);
    let mut grams: Vec<String> = Vec::new();
    if chars.len() < 3 {
        proof {
            assert(texts(grams@) =~= spec_char_trigrams(term@));
        }
        return grams;
    }
    let mut i: usize = 0;
    while i + 2 < chars.len()
        invariant
            chars@ == term@,
            chars.len() >= 3,
            i + 2 <= chars.len(),
            grams.len() == i,
            forall|k: int| 0 <= k < i ==> #[trigger] grams@[k]@ == term@.subrange(k, k + 3),
        decreases chars.len() - i,
    {
        let mut gram = String::new();
        push_char(&mut gram, chars[i]);
        push_char(&mut gram, chars[i + 1]);
        push_char(&mut gram, chars[i + 2]);
        proof {
            assert(gram@ =~= term@.subrange(i as int, i + 3));
        }
        grams.push(gram);
        i = i + 1;
    }
    proof {
        assert(texts(grams@) =~= spec_char_trigrams(term@));
    }
    grams
}

/// Some entry of `p` carries trigram `g`.
pub open spec fn has_gram(p: Seq<(String, Vec<String>)>, g: Seq<char>) -> bool {
    exists|i: int| #![trigger p[i]] 0 <= i < p.len() && p[i].0@ == g
}

/// The terms of the entries of `p` that carry trigram `g`.
pub open spec fn gram_terms(p: Seq<(String, Vec<String>)>, g: Seq<char>) -> Set<Seq<char>> {
    Set::new(
        |t: Seq<char>|
            exists|i: int|
                #![trigger p[i]]
                0 <= i < p.len() && p[i].0@ == g && texts(p[i].1@).contains(t),
    )
}

/// Trigram to term-set map of a posting sequence.
pub open spec fn posting_view(p: Seq<(String, Vec<String>)>) -> Map<Seq<char>, Set<Seq<char>>> {
    Map::new(|g: Seq<char>| has_gram(p, g), |g: Seq<char>| gram_terms(p, g))
}

/// No trigram is carried by two entries.
pub open spec fn distinct_grams(p: Seq<(String, Vec<String>)>) -> bool {
    forall|i: int, j: int| 0 <= i < j < p.len() ==> p[i].0@ != p[j].0@
}

/// Every entry holds a non-empty ascending term list.
pub open spec fn lists_ascending(p: Seq<(String, Vec<String>)>) -> bool {
    forall|i: int|
        0 <= i < p.len() ==> #[trigger] p[i].1@.len() > 0 && strictly_ascending(texts(p[i].1@))
}

/// An entry's trigram maps to exactly its terms.
proof fn lemma_view_at(p: Seq<(String, Vec<String>)>, i: int)
    requires
        distinct_grams(p),
        0 <= i < p.len(),
    ensures
        posting_view(p).contains_key(p[i].0@),
        posting_view(p)[p[i].0@] == texts(p[i].1@).to_set(),
{
    let g = p[i].0@;
    assert(has_gram(p, g));
    assert forall|t: Seq<char>| gram_terms(p, g).contains(t) == texts(p[i].1@).to_set().contains(t) by {
        if gram_terms(p, g).contains(t) {
            let j = choose|j: int|
                #![trigger p[j]]
                0 <= j < p.len() && p[j].0@ == g && texts(p[j].1@).contains(t);
            if j < i {
                assert(p[j].0@ != p[i].0@);
            } else if j > i {
                assert(p[i].0@ != p[j].0@);
            }
        }
    }
    assert(gram_terms(p, g) =~= texts(p[i].1@).to_set());
}

/// Two posting sequences that agree on every entry carrying `g` have the same
/// view at `g`; `f` sends each entry index of `q` that carries `g` to an equal
/// entry of `p`, and `h` goes back.
proof fn lemma_same_at(
    p: Seq<(String, Vec<String>)>,
    q: Seq<(String, Vec<String>)>,
    g: Seq<char>,
    f: spec_fn(int) -> int,
    h: spec_fn(int) -> int,
)
    requires
        forall|j: int| 0 <= j < q.len() && q[j].0@ == g ==> 0 <= f(j) < p.len() && p[f(j)] == q[j],
        forall|j: int| 0 <= j < p.len() && p[j].0@ == g ==> 0 <= h(j) < q.len() && q[h(j)] == p[j],
    ensures
        has_gram(q, g) == has_gram(p, g),
        gram_terms(q, g) == gram_terms(p, g),
{
    if has_gram(q, g) {
        let j = choose|j: int| #![trigger q[j]] 0 <= j < q.len() && q[j].0@ == g;
        assert(p[f(j)] == q[j]);
    }
    if has_gram(p, g) {
        let j = choose|j: int| #![trigger p[j]] 0 <= j < p.len() && p[j].0@ == g;
        assert(q[h(j)] == p[j]);
    }
    assert forall|t: Seq<char>| gram_terms(q, g).contains(t) == gram_terms(p, g).contains(t) by {
        if gram_terms(q, g).contains(t) {
            let j = choose|j: int|
                #![trigger q[j]]
                0 <= j < q.len() && q[j].0@ == g && texts(q[j].1@).contains(t);
            assert(p[f(j)] == q[j]);
        }
        if gram_terms(p, g).contains(t) {
            let j = choose|j: int|
                #![trigger p[j]]
                0 <= j < p.len() && p[j].0@ == g && texts(p[j].1@).contains(t);
            assert(q[h(j)] == p[j]);
        }
    }
    assert(gram_terms(q, g) =~= gram_terms(p, g));
}

/// Replacing an entry's term list replaces that trigram's term set.
proof fn lemma_view_update(p: Seq<(String, Vec<String>)>, i: int, e: (String, Vec<String>))
    requires
        distinct_grams(p),
        0 <= i < p.len(),
        e.0@ == p[i].0@,
    ensures
        distinct_grams(p.update(i, e)),
        posting_view(p.update(i, e)) == posting_view(p).insert(e.0@, texts(e.1@).to_set()),
{
    let q = p.update(i, e);
    assert(distinct_grams(q)) by {
        assert forall|a: int, b: int| 0 <= a < b < q.len() implies q[a].0@ != q[b].0@ by {
            assert(p[a].0@ != p[b].0@);
        }
    }
    lemma_view_at(q, i);
    let lhs = posting_view(q);
    let rhs = posting_view(p).insert(e.0@, texts(e.1@).to_set());
    assert forall|g: Seq<char>| g != e.0@ implies #[trigger] has_gram(q, g) == has_gram(p, g)
        && gram_terms(q, g) == gram_terms(p, g) by {
        lemma_same_at(p, q, g, |j: int| j, |j: int| j);
    }
    assert(lhs =~= rhs);
}

/// Appending an entry for a new trigram adds that trigram's term set.
proof fn lemma_view_push(p: Seq<(String, Vec<String>)>, e: (String, Vec<String>))
    requires
        distinct_grams(p),
        forall|j: int| 0 <= j < p.len() ==> p[j].0@ != e.0@,
    ensures
        distinct_grams(p.push(e)),
        posting_view(p.push(e)) == posting_view(p).insert(e.0@, texts(e.1@).to_set()),
{
    let q = p.push(e);
    assert(distinct_grams(q)) by {
        assert forall|a: int, b: int| 0 <= a < b < q.len() implies q[a].0@ != q[b].0@ by {
            if b < p.len() {
                assert(p[a].0@ != p[b].0@);
            } else {
                assert(q[b] == e);
                assert(p[a].0@ != e.0@);
            }
        }
    }
    lemma_view_at(q, p.len() as int);
    let lhs = posting_view(q);
    let rhs = posting_view(p).insert(e.0@, texts(e.1@).to_set());
    assert forall|g: Seq<char>| g != e.0@ implies #[trigger] has_gram(q, g) == has_gram(p, g)
        && gram_terms(q, g) == gram_terms(p, g) by {
        lemma_same_at(p, q, g, |j: int| j, |j: int| j);
    }
    assert(lhs =~= rhs);
}

/// Dropping an entry drops its trigram.
proof fn lemma_view_remove(p: Seq<(String, Vec<String>)>, i: int)
    requires
        distinct_grams(p),
        0 <= i < p.len(),
    ensures
        distinct_grams(p.remove(i)),
        posting_view(p.remove(i)) == posting_view(p).remove(p[i].0@),
{
    let q = p.remove(i);
    let f = |j: int| if j < i { j } else { j + 1 };
    let h = |j: int| if j < i { j } else { j - 1 };
    assert(distinct_grams(q)) by {
        assert forall|a: int, b: int| 0 <= a < b < q.len() implies q[a].0@ != q[b].0@ by {
            assert(q[a] == p[f(a)]);
            assert(q[b] == p[f(b)]);
            assert(p[f(a)].0@ != p[f(b)].0@);
        }
    }
    let lhs = posting_view(q);
    let rhs = posting_view(p).remove(p[i].0@);
    assert forall|g: Seq<char>| g != p[i].0@ implies #[trigger] has_gram(q, g) == has_gram(p, g)
        && gram_terms(q, g) == gram_terms(p, g) by {
        lemma_same_at(p, q, g, f, h);
    }
    assert(!has_gram(q, p[i].0@)) by {
        if has_gram(q, p[i].0@) {
            let j = choose|j: int| #![trigger q[j]] 0 <= j < q.len() && q[j].0@ == p[i].0@;
            assert(q[j] == p[f(j)]);
            if f(j) < i {
                assert(p[f(j)].0@ != p[i].0@);
            } else {
                assert(p[i].0@ != p[f(j)].0@);
            }
        }
    }
    assert(lhs =~= rhs);
}

/// `m` with `t` added to the term set of each trigram in `grams`.
pub open spec fn with_term(
    m: Map<Seq<char>, Set<Seq<char>>>,
    grams: Set<Seq<char>>,
    t: Seq<char>,
) -> Map<Seq<char>, Set<Seq<char>>> {
    Map::new(
        |g: Seq<char>| m.contains_key(g) || grams.contains(g),
        |g: Seq<char>|
            if grams.contains(g) {
                terms_or_empty(m, g).insert(t)
            } else {
                m[g]
            },
    )
}

/// The term set of `g` in `m`, empty where `m` has no entry for it.
pub open spec fn terms_or_empty(m: Map<Seq<char>, Set<Seq<char>>>, g: Seq<char>) -> Set<Seq<char>> {
    if m.contains_key(g) {
        m[g]
    } else {
        Set::empty()
    }
}

/// `m` with `t` taken out of the term set of each trigram in `grams`; a
/// trigram whose set becomes empty is dropped.
pub open spec fn without_term(
    m: Map<Seq<char>, Set<Seq<char>>>,
    grams: Set<Seq<char>>,
    t: Seq<char>,
) -> Map<Seq<char>, Set<Seq<char>>> {
    Map::new(
        |g: Seq<char>|
            m.contains_key(g) && !(grams.contains(g) && m[g].remove(t) == Set::<Seq<char>>::empty()),
        |g: Seq<char>|
            if grams.contains(g) {
                m[g].remove(t)
            } else {
                m[g]
            },
    )
}

/// The trigram index of `terms`, added one after another.
pub open spec fn index_of(terms: Seq<Seq<char>>) -> Map<Seq<char>, Set<Seq<char>>>
    decreases terms.len(),
{
    if terms.len() == 0 {
        Map::empty()
    } else {
        with_term(
            index_of(terms.drop_last()),
            spec_char_trigrams(terms.last()).to_set(),
            terms.last(),
        )
    }
}

/// The first `k + 1` items of `s` as a set add `s[k]` to the first `k`.
proof fn lemma_take_to_set<A>(s: Seq<A>, k: int)
    requires
        0 <= k < s.len(),
    ensures
        s.take(k + 1).to_set() == s.take(k).to_set().insert(s[k]),
{
    assert forall|x: A| s.take(k + 1).to_set().contains(x) == s.take(k).to_set().insert(s[k]).contains(
        x,
    ) by {
        if s.take(k + 1).to_set().contains(x) {
            let j = choose|j: int| 0 <= j < s.take(k + 1).len() && #[trigger] s.take(k + 1)[j] == x;
            if j < k {
                assert(s.take(k)[j] == x);
            }
        }
        if s.take(k).to_set().contains(x) {
            let j = choose|j: int| 0 <= j < s.take(k).len() && #[trigger] s.take(k)[j] == x;
            assert(s.take(k + 1)[j] == x);
        }
        if x == s[k] {
            assert(s.take(k + 1)[k] == x);
        }
    }
    assert(s.take(k + 1).to_set() =~= s.take(k).to_set().insert(s[k]));
}

/// A list is empty exactly when its set of texts is.
proof fn lemma_empty_texts(v: Seq<String>)
    ensures
        (v.len() == 0) == (texts(v).to_set() == Set::<Seq<char>>::empty()),
{
    if v.len() == 0 {
        assert(texts(v).to_set() =~= Set::<Seq<char>>::empty());
    } else {
        assert(texts(v).to_set().contains(texts(v)[0]));
    }
}

/// Adding one more trigram to those that receive `t`.
proof fn lemma_with_term_step(
    m: Map<Seq<char>, Set<Seq<char>>>,
    grams: Set<Seq<char>>,
    g: Seq<char>,
    t: Seq<char>,
)
    ensures
        with_term(m, grams.insert(g), t) == with_term(m, grams, t).insert(
            g,
            terms_or_empty(with_term(m, grams, t), g).insert(t),
        ),
{
    let cur = with_term(m, grams, t);
    if grams.contains(g) {
        assert(terms_or_empty(cur, g).insert(t) =~= terms_or_empty(m, g).insert(t));
    }
    assert(with_term(m, grams.insert(g), t) =~= cur.insert(g, terms_or_empty(cur, g).insert(t)));
}

/// Taking `t` out of one more trigram.
proof fn lemma_without_term_step(
    m: Map<Seq<char>, Set<Seq<char>>>,
    grams: Set<Seq<char>>,
    g: Seq<char>,
    t: Seq<char>,
)
    requires
        forall|x: Seq<char>| #[trigger] m.contains_key(x) ==> m[x] != Set::<Seq<char>>::empty(),
    ensures
        ({
            let cur = without_term(m, grams, t);
            &&& cur.contains_key(g) && cur[g].remove(t) == Set::<Seq<char>>::empty() ==> without_term(
                m,
                grams.insert(g),
                t,
            ) == cur.remove(g)
            &&& cur.contains_key(g) && cur[g].remove(t) != Set::<Seq<char>>::empty()
                ==> without_term(m, grams.insert(g), t) == cur.insert(g, cur[g].remove(t))
            &&& !cur.contains_key(g) ==> without_term(m, grams.insert(g), t) == cur
        }),
{
    let cur = without_term(m, grams, t);
    let next = without_term(m, grams.insert(g), t);
    if cur.contains_key(g) {
        if grams.contains(g) {
            assert(cur[g].remove(t) =~= cur[g]);
        }
        if cur[g].remove(t) == Set::<Seq<char>>::empty() {
            assert(next =~= cur.remove(g));
        } else {
            if grams.contains(g) {
                assert(m[g].remove(t).remove(t) =~= m[g].remove(t));
            }
            assert(next =~= cur.insert(g, cur[g].remove(t)));
        }
    } else {
        assert(next =~= cur);
    }
}

/// Terms in the set of each of the first `n` trigrams of `required`.
pub open spec fn in_all(
    m: Map<Seq<char>, Set<Seq<char>>>,
    required: Seq<Seq<char>>,
    n: int,
) -> Set<Seq<char>> {
    Set::new(
        |t: Seq<char>|
            forall|k: int|
                #![trigger required[k]]
                0 <= k < n ==> m.contains_key(required[k]) && m[required[k]].contains(t),
    )
}

/// Terms in the set of every trigram of `required`; no trigrams give no terms.
pub open spec fn containing_all(
    m: Map<Seq<char>, Set<Seq<char>>>,
    required: Seq<Seq<char>>,
) -> Set<Seq<char>> {
    if required.len() == 0 {
        Set::empty()
    } else {
        in_all(m, required, required.len() as int)
    }
}

/// Terms in the set of some one of the first `n` trigrams of `grams`.
pub open spec fn in_any(m: Map<Seq<char>, Set<Seq<char>>>, grams: Seq<Seq<char>>, n: int) -> Set<
    Seq<char>,
> {
    Set::new(
        |t: Seq<char>|
            exists|k: int|
                #![trigger grams[k]]
                0 <= k < n && m.contains_key(grams[k]) && m[grams[k]].contains(t),
    )
}

/// How many positions of `grams` hold a trigram whose set contains `t`; a
/// trigram that occurs twice counts twice.
pub open spec fn hit_count(
    m: Map<Seq<char>, Set<Seq<char>>>,
    grams: Seq<Seq<char>>,
    t: Seq<char>,
) -> nat
    decreases grams.len(),
{
    if grams.len() == 0 {
        0
    } else {
        hit_count(m, grams.drop_last(), t) + if m.contains_key(grams.last()) && m[grams.last()].contains(
            t,
        ) {
            1nat
        } else {
            0nat
        }
    }
}

/// Terms that share at least `minimum` trigram positions with `grams`; a
/// zero minimum or no trigrams give no terms.
pub open spec fn sharing_at_least(
    m: Map<Seq<char>, Set<Seq<char>>>,
    grams: Seq<Seq<char>>,
    minimum: nat,
) -> Set<Seq<char>> {
    if minimum == 0 || grams.len() == 0 {
        Set::empty()
    } else {
        Set::new(|t: Seq<char>| hit_count(m, grams, t) >= minimum)
    }
}

/// A term counted at least once lies in the set of one of the trigrams.
proof fn lemma_hits_in_any(m: Map<Seq<char>, Set<Seq<char>>>, grams: Seq<Seq<char>>, t: Seq<char>)
    requires
        hit_count(m, grams, t) > 0,
    ensures
        in_any(m, grams, grams.len() as int).contains(t),
    decreases grams.len(),
{
    let n = grams.len() as int;
    if m.contains_key(grams.last()) && m[grams.last()].contains(t) {
        assert(grams[n - 1] == grams.last());
    } else {
        lemma_hits_in_any(m, grams.drop_last(), t);
        let k = choose|k: int|
            #![trigger grams.drop_last()[k]]
            0 <= k < n - 1 && m.contains_key(grams.drop_last()[k]) && m[grams.drop_last()[k]].contains(t);
        assert(grams[k] == grams.drop_last()[k]);
    }
}

/// A copy of `list`.
fn copy_texts(list: &Vec<String>) -> (r: Vec<String>)
    ensures
        texts(r@) == texts(list@),
{
    let mut r: Vec<String> = Vec::new();
    let mut i: usize = 0;
    while i < list.len()
        invariant
            i <= list.len(),
            texts(r@) == texts(list@).take(i as int),
        decreases list.len() - i,
    {
        let ghost before = texts(r@);
        let c = list[i].clone();
        r.push(c);
        proof {
            assert(texts(r@) =~= before.push(list@[i as int]@));
            assert(texts(r@) =~= texts(list@).take(i + 1));
        }
        i = i + 1;
    }
    proof {
        assert(texts(list@).take(list.len() as int) =~= texts(list@));
    }
    r
}

/// The texts of the ascending list `candidates` that `list` also holds, in
/// order.
fn retain_common(candidates: &Vec<String>, list: &Vec<String>) -> (r: Vec<String>)
    requires
        strictly_ascending(texts(candidates@)),
    ensures
        strictly_ascending(texts(r@)),
        texts(r@).to_set() == texts(candidates@).to_set().intersect(texts(list@).to_set()),
{
    let ghost cs = texts(candidates@);
    let ghost ls = texts(list@);
    let mut r: Vec<String> = Vec::new();
    let mut i: usize = 0;
    while i < candidates.len()
        invariant
            cs == texts(candidates@),
            ls == texts(list@),
            strictly_ascending(cs),
            i <= candidates.len(),
            strictly_ascending(texts(r@)),
            forall|x: int|
                #![trigger texts(r@)[x]]
                0 <= x < r.len() ==> exists|k: int| 0 <= k < i && #[trigger] cs[k] == texts(r@)[x],
            texts(r@).to_set() == cs.take(i as int).to_set().intersect(ls.to_set()),
        decreases candidates.len() - i,
    {
        let keep = contains_text(list, &candidates[i]);
        let ghost before = texts(r@);
        proof {
            lemma_take_to_set(cs, i as int);
        }
        if keep {
            r.push(candidates[i].clone());
            proof {
                let after = texts(r@);
                assert(after =~= before.push(cs[i as int]));
                assert forall|a: int, b: int| 0 <= a < b < after.len() implies text_less(
                    after[a],
                    after[b],
                ) by {
                    if b == before.len() {
                        let k = choose|k: int| 0 <= k < i && #[trigger] cs[k] == before[a];
                        assert(text_less(cs[k], cs[i as int]));
                    } else {
                        assert(text_less(before[a], before[b]));
                    }
                }
                assert forall|x: int| #![trigger texts(r@)[x]] 0 <= x < r.len() implies exists|k: int|
                    0 <= k < i + 1 && #[trigger] cs[k] == texts(r@)[x] by {
                    if x < before.len() {
                        let k = choose|k: int| 0 <= k < i && #[trigger] cs[k] == before[x];
                        assert(cs[k] == texts(r@)[x]);
                    } else {
                        assert(cs[i as int] == texts(r@)[x]);
                    }
                }
                before.lemma_push_to_set_commute(cs[i as int]);
                assert(after.to_set() =~= cs.take(i + 1).to_set().intersect(ls.to_set()));
            }
        } else {
            proof {
                assert(before.to_set() =~= cs.take(i + 1).to_set().intersect(ls.to_set()));
            }
        }
        i = i + 1;
    }
    proof {
        assert(cs.take(candidates.len() as int) =~= cs);
    }
    r
}

/// Some term of `terms` has trigram `g`.
pub open spec fn some_term_has(terms: Seq<Seq<char>>, g: Seq<char>) -> bool {
    exists|k: int| 0 <= k < terms.len() && #[trigger] spec_char_trigrams(terms[k]).contains(g)
}

/// The terms of `terms` that have trigram `g`.
pub open spec fn terms_having(terms: Seq<Seq<char>>, g: Seq<char>) -> Set<Seq<char>> {
    Set::new(
        |t: Seq<char>|
            exists|k: int|
                0 <= k < terms.len() && terms[k] == t && #[trigger] spec_char_trigrams(
                    terms[k],
                ).contains(g),
    )
}

/// An index built from `terms` maps exactly the trigrams of those terms, each
/// to exactly the terms that have it.
pub proof fn law_index_of_terms(terms: Seq<Seq<char>>)
    ensures
        forall|g: Seq<char>| #[trigger]
            index_of(terms).contains_key(g) == some_term_has(terms, g),
        forall|g: Seq<char>| #[trigger]
            index_of(terms).contains_key(g) ==> index_of(terms)[g] == terms_having(terms, g),
    decreases terms.len(),
{
    if terms.len() > 0 {
        let prev = terms.drop_last();
        let last = terms.last();
        let n = terms.len() as int;
        law_index_of_terms(prev);
        let m = index_of(prev);
        let grams = spec_char_trigrams(last).to_set();
        assert forall|g: Seq<char>| #[trigger]
            index_of(terms).contains_key(g) == some_term_has(terms, g) by {
            if some_term_has(terms, g) {
                let k = choose|k: int| 0 <= k < terms.len() && #[trigger] spec_char_trigrams(terms[k]).contains(g);
                if k < n - 1 {
                    assert(prev[k] == terms[k]);
                    assert(some_term_has(prev, g));
                } else {
                    assert(spec_char_trigrams(last).contains(g));
                }
            }
            if some_term_has(prev, g) {
                let k = choose|k: int| 0 <= k < prev.len() && #[trigger] spec_char_trigrams(prev[k]).contains(g);
                assert(terms[k] == prev[k]);
            }
            if grams.contains(g) {
                assert(spec_char_trigrams(terms[n - 1]).contains(g));
            }
        }
        assert forall|g: Seq<char>| #[trigger]
            index_of(terms).contains_key(g) implies index_of(terms)[g] == terms_having(terms, g) by {
            assert forall|t: Seq<char>| terms_having(terms, g).contains(t) == (terms_having(prev, g).contains(t)
                || (t == last && grams.contains(g))) by {
                if terms_having(terms, g).contains(t) {
                    let k = choose|k: int|
                        0 <= k < terms.len() && terms[k] == t && #[trigger] spec_char_trigrams(terms[k]).contains(g);
                    if k < n - 1 {
                        assert(prev[k] == terms[k]);
                    }
                }
                if terms_having(prev, g).contains(t) {
                    let k = choose|k: int|
                        0 <= k < prev.len() && prev[k] == t && #[trigger] spec_char_trigrams(prev[k]).contains(g);
                    assert(terms[k] == prev[k]);
                }
                if t == last && grams.contains(g) {
                    assert(terms[n - 1] == t);
                }
            }
            if !m.contains_key(g) {
                assert(!some_term_has(prev, g));
                assert forall|t: Seq<char>| !terms_having(prev, g).contains(t) by {
                    if terms_having(prev, g).contains(t) {
                        let k = choose|k: int|
                            0 <= k < prev.len() && prev[k] == t && #[trigger] spec_char_trigrams(prev[k]).contains(g);
                        assert(some_term_has(prev, g));
                    }
                }
            }
            assert(index_of(terms)[g] =~= terms_having(terms, g));
        }
    }
}

/// Intersecting the posting lists of an index built from `terms` yields
/// exactly the terms that contain every required trigram, so pruning by
/// trigram loses no match.
pub proof fn law_containing_all_of_terms(terms: Seq<Seq<char>>, required: Seq<Seq<char>>)
    requires
        required.len() > 0,
    ensures
        containing_all(index_of(terms), required) == Set::new(
            |t: Seq<char>|
                terms.contains(t) && forall|k: int|
                    0 <= k < required.len() ==> #[trigger] spec_char_trigrams(t).contains(required[k]),
        ),
{
    law_index_of_terms(terms);
    let m = index_of(terms);
    let rhs = Set::new(
        |t: Seq<char>|
            terms.contains(t) && forall|k: int|
                0 <= k < required.len() ==> #[trigger] spec_char_trigrams(t).contains(required[k]),
    );
    assert forall|t: Seq<char>| containing_all(m, required).contains(t) == rhs.contains(t) by {
        if containing_all(m, required).contains(t) {
            assert(m.contains_key(required[0]) && m[required[0]].contains(t));
            let w = choose|w: int|
                0 <= w < terms.len() && terms[w] == t && #[trigger] spec_char_trigrams(terms[w]).contains(required[0]);
            assert(terms[w] == t);
            assert forall|k: int| 0 <= k < required.len() implies #[trigger] spec_char_trigrams(t).contains(
                required[k],
            ) by {
                assert(m.contains_key(required[k]) && m[required[k]].contains(t));
                let v = choose|v: int|
                    0 <= v < terms.len() && terms[v] == t && #[trigger] spec_char_trigrams(terms[v]).contains(required[k]);
            }
        }
        if rhs.contains(t) {
            let w = choose|w: int| 0 <= w < terms.len() && terms[w] == t;
            assert forall|k: int| #![trigger required[k]] 0 <= k < required.len() implies m.contains_key(required[k])
                && m[required[k]].contains(t) by {
                assert(terms[w] == t);
                assert(spec_char_trigrams(t).contains(required[k]));
                assert(spec_char_trigrams(terms[w]).contains(required[k]));
                assert(some_term_has(terms, required[k]));
                assert(m.contains_key(required[k]));
                assert(m[required[k]] == terms_having(terms, required[k]));
                assert(terms_having(terms, required[k]).contains(t));
            }
        }
    }
    assert(containing_all(m, required) =~= rhs);
}

/// Adding a term that no posting held and then removing it gives back the
/// index as it was.
pub proof fn law_remove_undoes_insert(index: TrigramTermIndex, term: Seq<char>)
    requires
        index.well_formed(),
        forall|g: Seq<char>| #[trigger] index@.contains_key(g) ==> !index@[g].contains(term),
    ensures
        without_term(
            with_term(index@, spec_char_trigrams(term).to_set(), term),
            spec_char_trigrams(term).to_set(),
            term,
        ) == index@,
{
    index.law_no_empty_postings();
    let m = index@;
    let grams = spec_char_trigrams(term).to_set();
    let added = with_term(m, grams, term);
    let back = without_term(added, grams, term);
    assert forall|g: Seq<char>| #[trigger] back.contains_key(g) == m.contains_key(g) by {
        if grams.contains(g) && m.contains_key(g) {
            assert(added[g].remove(term) =~= m[g]);
        }
        if grams.contains(g) && !m.contains_key(g) {
            assert(added[g].remove(term) =~= Set::<Seq<char>>::empty());
        }
    }
    assert forall|g: Seq<char>| #[trigger] back.contains_key(g) implies back[g] == m[g] by {
        if grams.contains(g) {
            assert(added[g].remove(term) =~= m[g]);
        }
    }
    assert(back =~= m);
}

/// The terms inserted and not removed since by `ops`, in order; `(true, t)`
/// inserts `t`, `(false, t)` removes it.
pub open spec fn live_after(ops: Seq<(bool, Seq<char>)>) -> Set<Seq<char>>
    decreases ops.len(),
{
    if ops.len() == 0 {
        Set::empty()
    } else {
        let prev = live_after(ops.drop_last());
        let (insert, t) = ops.last();
        if insert {
            prev.insert(t)
        } else {
            prev.remove(t)
        }
    }
}

/// The trigram index that `insert_term` and `remove_term` calls following
/// `ops` build from an empty index.
pub open spec fn index_after(ops: Seq<(bool, Seq<char>)>) -> Map<Seq<char>, Set<Seq<char>>>
    decreases ops.len(),
{
    if ops.len() == 0 {
        Map::empty()
    } else {
        let prev = index_after(ops.drop_last());
        let (insert, t) = ops.last();
        if insert {
            with_term(prev, spec_char_trigrams(t).to_set(), t)
        } else {
            without_term(prev, spec_char_trigrams(t).to_set(), t)
        }
    }
}

/// `m` maps exactly the trigrams of the terms of `live`, each to exactly the
/// terms of `live` that have it.
pub open spec fn indexes_live(m: Map<Seq<char>, Set<Seq<char>>>, live: Set<Seq<char>>) -> bool {
    &&& forall|g: Seq<char>|
        #[trigger] m.contains_key(g) == exists|t: Seq<char>|
            live.contains(t) && #[trigger] spec_char_trigrams(t).contains(g)
    &&& forall|g: Seq<char>|
        #[trigger] m.contains_key(g) ==> m[g] == Set::new(
            |t: Seq<char>| live.contains(t) && spec_char_trigrams(t).contains(g),
        )
}

/// After any mix of insertions and removals, the index maps exactly the
/// trigrams of the terms inserted and not removed since, each to exactly
/// those of them that have it.
pub proof fn law_index_after_changes(ops: Seq<(bool, Seq<char>)>)
    ensures
        indexes_live(index_after(ops), live_after(ops)),
    decreases ops.len(),
{
    if ops.len() > 0 {
        let prev_ops = ops.drop_last();
        law_index_after_changes(prev_ops);
        let m = index_after(prev_ops);
        let live = live_after(prev_ops);
        let (insert, t) = ops.last();
        let grams = spec_char_trigrams(t).to_set();
        let next = index_after(ops);
        let next_live = live_after(ops);
        assert forall|g: Seq<char>|
            #[trigger] next.contains_key(g) == exists|u: Seq<char>|
                next_live.contains(u) && #[trigger] spec_char_trigrams(u).contains(g) by {
            if insert {
                if grams.contains(g) {
                    assert(next_live.contains(t) && spec_char_trigrams(t).contains(g));
                }
                if m.contains_key(g) {
                    let u = choose|u: Seq<char>| live.contains(u) && #[trigger] spec_char_trigrams(u).contains(g);
                    assert(next_live.contains(u) && spec_char_trigrams(u).contains(g));
                }
                if exists|u: Seq<char>| next_live.contains(u) && #[trigger] spec_char_trigrams(u).contains(g) {
                    let u = choose|u: Seq<char>| next_live.contains(u) && #[trigger] spec_char_trigrams(u).contains(g);
                    if u != t {
                        assert(live.contains(u) && spec_char_trigrams(u).contains(g));
                    }
                }
            } else {
                if exists|u: Seq<char>| next_live.contains(u) && #[trigger] spec_char_trigrams(u).contains(g) {
                    let u = choose|u: Seq<char>| next_live.contains(u) && #[trigger] spec_char_trigrams(u).contains(g);
                    assert(live.contains(u) && spec_char_trigrams(u).contains(g));
                    assert(m.contains_key(g));
                    assert(m[g].contains(u));
                    if grams.contains(g) {
                        assert(m[g].remove(t).contains(u));
                    }
                }
                if next.contains_key(g) {
                    if grams.contains(g) {
                        let rest = m[g].remove(t);
                        assert(rest != Set::<Seq<char>>::empty());
                        if !(exists|u: Seq<char>| rest.contains(u)) {
                            assert(rest =~= Set::<Seq<char>>::empty());
                        }
                        let u = choose|u: Seq<char>| rest.contains(u);
                        assert(m[g].contains(u));
                        assert(live.contains(u) && spec_char_trigrams(u).contains(g));
                        assert(next_live.contains(u));
                    } else {
                        let u = choose|u: Seq<char>| live.contains(u) && #[trigger] spec_char_trigrams(u).contains(g);
                        assert(u != t);
                        assert(next_live.contains(u) && spec_char_trigrams(u).contains(g));
                    }
                }
            }
        }
        assert forall|g: Seq<char>|
            #[trigger] next.contains_key(g) implies next[g] == Set::new(
                |u: Seq<char>| next_live.contains(u) && spec_char_trigrams(u).contains(g),
            ) by {
            let want = Set::new(|u: Seq<char>| next_live.contains(u) && spec_char_trigrams(u).contains(g));
            if insert {
                if !m.contains_key(g) {
                    assert forall|u: Seq<char>| !(live.contains(u) && #[trigger] spec_char_trigrams(u).contains(g)) by {
                        if live.contains(u) && spec_char_trigrams(u).contains(g) {
                            assert(exists|v: Seq<char>| live.contains(v) && #[trigger] spec_char_trigrams(v).contains(g));
                        }
                    }
                }
                assert(next[g] =~= want);
            } else {
                assert(next[g] =~= want);
            }
        }
    }
}

/// After any mix of insertions and removals, intersecting the posting lists
/// of some required trigrams yields exactly the live terms that contain all
/// of them: none is lost and none is extra.
pub proof fn law_containing_all_after_changes(ops: Seq<(bool, Seq<char>)>, required: Seq<Seq<char>>)
    requires
        required.len() > 0,
    ensures
        containing_all(index_after(ops), required) == Set::new(
            |t: Seq<char>|
                live_after(ops).contains(t) && forall|k: int|
                    0 <= k < required.len() ==> #[trigger] spec_char_trigrams(t).contains(required[k]),
        ),
{
    law_index_after_changes(ops);
    let m = index_after(ops);
    let live = live_after(ops);
    let rhs = Set::new(
        |t: Seq<char>|
            live.contains(t) && forall|k: int|
                0 <= k < required.len() ==> #[trigger] spec_char_trigrams(t).contains(required[k]),
    );
    assert forall|t: Seq<char>| containing_all(m, required).contains(t) == rhs.contains(t) by {
        if containing_all(m, required).contains(t) {
            assert(m.contains_key(required[0]) && m[required[0]].contains(t));
            assert forall|k: int| 0 <= k < required.len() implies #[trigger] spec_char_trigrams(t).contains(
                required[k],
            ) by {
                assert(m.contains_key(required[k]) && m[required[k]].contains(t));
            }
        }
        if rhs.contains(t) {
            assert forall|k: int| #![trigger required[k]] 0 <= k < required.len() implies m.contains_key(required[k])
                && m[required[k]].contains(t) by {
                assert(spec_char_trigrams(t).contains(required[k]));
                assert(live.contains(t));
                assert(m.contains_key(required[k]));
                assert(Set::new(|u: Seq<char>| live.contains(u) && spec_char_trigrams(u).contains(required[k])).contains(t));
            }
        }
    }
    assert(containing_all(m, required) =~= rhs);
}

/// Maps each character trigram to the terms that contain it.
#[derive(Debug, Clone)]
pub struct TrigramTermIndex {
    postings: Vec<(String, Vec<String>)>,
}

impl View for TrigramTermIndex {
    type V = Map<Seq<char>, Set<Seq<char>>>;

    closed spec fn view(&self) -> Map<Seq<char>, Set<Seq<char>>> {
        posting_view(self.postings@)
    }
}

impl Default for TrigramTermIndex {
    fn default() -> (r: Self)
        ensures
            r.well_formed(),
            r@ == Map::<Seq<char>, Set<Seq<char>>>::empty(),
    {
        let r = TrigramTermIndex { postings: Vec::new() };
        proof {
            assert(r@ =~= Map::<Seq<char>, Set<Seq<char>>>::empty());
        }
        r
    }
}

impl TrigramTermIndex {
    /// No trigram has two entries, and every entry holds a non-empty
    /// ascending term list.
    pub closed spec fn well_formed(&self) -> bool {
        &&& distinct_grams(self.postings@)
        &&& lists_ascending(self.postings@)
    }

    /// Every trigram of a well-formed index has at least one term: removing
    /// the last term of a trigram drops the trigram.
    pub proof fn law_no_empty_postings(&self)
        requires
            self.well_formed(),
        ensures
            forall|g: Seq<char>| #[trigger]
                self@.contains_key(g) ==> self@[g] != Set::<Seq<char>>::empty(),
    {
        assert forall|g: Seq<char>| #[trigger] self@.contains_key(g) implies self@[g] != Set::<
            Seq<char>,
        >::empty() by {
            let p = self.postings@;
            let i = choose|i: int| #![trigger p[i]] 0 <= i < p.len() && p[i].0@ == g;
            lemma_view_at(p, i);
            lemma_empty_texts(p[i].1@);
        }
    }

    /// The position of the entry for `gram`, if there is one.
    fn find_gram(&self, gram: &String) -> (r: Option<usize>)
        requires
            self.well_formed(),
        ensures
            match r {
                Some(i) => i < self.postings@.len() && self.postings@[i as int].0@ == gram@,
                None => !self@.contains_key(gram@),
            },
    {
        let mut i: usize = 0;
        while i < self.postings.len()
            invariant
                i <= self.postings@.len(),
                forall|j: int| 0 <= j < i ==> #[trigger] self.postings@[j].0@ != gram@,
            decreases self.postings.len() - i,
        {
            if self.postings[i].0 == *gram {
                return Some(i);
            }
            i = i + 1;
        }
        proof {
            let p = self.postings@;
            if has_gram(p, gram@) {
                let j = choose|j: int| #![trigger p[j]] 0 <= j < p.len() && p[j].0@ == gram@;
                assert(self.postings@[j].0@ != gram@);
            }
        }
        None
    }

    /// Whether no trigram has any term.
    pub fn is_empty(&self) -> (r: bool)
        ensures
            r == (self@ == Map::<Seq<char>, Set<Seq<char>>>::empty()),
    {
        proof {
            if self.postings@.len() == 0 {
                assert(self@ =~= Map::<Seq<char>, Set<Seq<char>>>::empty());
            } else {
                assert(self@.contains_key(self.postings@[0].0@));
            }
        }
        self.postings.len() == 0
    }

    /// Adds `term` to the term list of each of its trigrams.
    pub fn insert_term(&mut self, term: &str)
        requires
            old(self).well_formed(),
        ensures
            final(self).well_formed(),
            final(self)@ == with_term(old(self)@, spec_char_trigrams(term@).to_set(), term@),
    {
        let grams = char_trigrams(term);
        let owned = term.to_owned();
        let ghost gs = texts(grams@);
        let mut k: usize = 0;
        while k < grams.len()
            invariant
                self.well_formed(),
                owned@ == term@,
                gs == texts(grams@),
                gs == spec_char_trigrams(term@),
                k <= grams.len(),
                self@ == with_term(old(self)@, gs.take(k as int).to_set(), term@),
            decreases grams.len() - k,
        {
            let ghost cur = self@;
            let ghost p = self.postings@;
            proof {
                lemma_take_to_set(gs, k as int);
                lemma_with_term_step(old(self)@, gs.take(k as int).to_set(), gs[k as int], term@);
            }
            match self.find_gram(&grams[k]) {
                Some(i) => {
                    proof {
                        lemma_view_at(p, i as int);
                    }
                    insert_sorted(&mut self.postings[i].1, &owned);
                    proof {
                        assert(self.postings@ == p.update(i as int, self.postings@[i as int]));
                        lemma_view_update(p, i as int, self.postings@[i as int]);
                        assert(texts(self.postings@[i as int].1@).to_set().contains(term@));
                        lemma_empty_texts(self.postings@[i as int].1@);
                        let q = self.postings@;
                        assert forall|j: int| 0 <= j < q.len() implies #[trigger] q[j].1@.len() > 0
                            && strictly_ascending(texts(q[j].1@)) by {
                            if j != i {
                                assert(q[j] == p[j]);
                            }
                        }
                    }
                },
                None => {
                    let mut list: Vec<String> = Vec::new();
                    list.push(owned.clone());
                    proof {
                        assert(texts(list@) =~= seq![term@]);
                        assert forall|x: Seq<char>| texts(list@).to_set().contains(x) == (x == term@) by {
                            if x == term@ {
                                assert(texts(list@)[0] == x);
                            }
                        }
                        assert(texts(list@).to_set() =~= Set::<Seq<char>>::empty().insert(term@));
                        assert(strictly_ascending(texts(list@)));
                        assert forall|j: int| 0 <= j < p.len() implies p[j].0@ != grams@[k as int]@ by {
                            if p[j].0@ == grams@[k as int]@ {
                                assert(has_gram(p, grams@[k as int]@));
                            }
                        }
                    }
                    let entry = (grams[k].clone(), list);
                    self.postings.push(entry);
                    proof {
                        lemma_view_push(p, entry);
                        let q = self.postings@;
                        assert forall|j: int| 0 <= j < q.len() implies #[trigger] q[j].1@.len() > 0
                            && strictly_ascending(texts(q[j].1@)) by {
                            if j < p.len() {
                                assert(q[j] == p[j]);
                            }
                        }
                    }
                },
            }
            proof {
                assert(self@ == cur.insert(gs[k as int], terms_or_empty(cur, gs[k as int]).insert(term@)));
            }
            k = k + 1;
        }
        proof {
            assert(gs.take(gs.len() as int) =~= gs);
        }
    }

    /// Takes `term` out of the term list of each of its trigrams and drops
    /// the trigrams left without terms.
    pub fn remove_term(&mut self, term: &str)
        requires
            old(self).well_formed(),
        ensures
            final(self).well_formed(),
            final(self)@ == without_term(old(self)@, spec_char_trigrams(term@).to_set(), term@),
    {
        let grams = char_trigrams(term);
        let owned = term.to_owned();
        let ghost gs = texts(grams@);
        proof {
            old(self).law_no_empty_postings();
            assert(without_term(old(self)@, gs.take(0).to_set(), term@) =~= old(self)@);
        }
        let mut k: usize = 0;
        while k < grams.len()
            invariant
                self.well_formed(),
                forall|x: Seq<char>| #[trigger]
                    old(self)@.contains_key(x) ==> old(self)@[x] != Set::<Seq<char>>::empty(),
                owned@ == term@,
                gs == texts(grams@),
                gs == spec_char_trigrams(term@),
                k <= grams.len(),
                self@ == without_term(old(self)@, gs.take(k as int).to_set(), term@),
            decreases grams.len() - k,
        {
            let ghost cur = self@;
            let ghost p = self.postings@;
            proof {
                lemma_take_to_set(gs, k as int);
                lemma_without_term_step(old(self)@, gs.take(k as int).to_set(), gs[k as int], term@);
            }
            match self.find_gram(&grams[k]) {
                Some(i) => {
                    proof {
                        lemma_view_at(p, i as int);
                    }
                    remove_text(&mut self.postings[i].1, &owned);
                    proof {
                        assert(self.postings@ == p.update(i as int, self.postings@[i as int]));
                        lemma_view_update(p, i as int, self.postings@[i as int]);
                        lemma_empty_texts(self.postings@[i as int].1@);
                    }
                    if self.postings[i].1.len() == 0 {
                        let ghost q = self.postings@;
                        self.postings.remove(i);
                        proof {
                            lemma_view_remove(q, i as int);
                            assert(self@ =~= cur.remove(gs[k as int]));
                            let r = self.postings@;
                            assert forall|j: int| 0 <= j < r.len() implies #[trigger] r[j].1@.len()
                                > 0 && strictly_ascending(texts(r[j].1@)) by {
                                if j < i {
                                    assert(r[j] == p[j]);
                                } else {
                                    assert(r[j] == p[j + 1]);
                                }
                            }
                        }
                    } else {
                        proof {
                            let q = self.postings@;
                            assert forall|j: int| 0 <= j < q.len() implies #[trigger] q[j].1@.len()
                                > 0 && strictly_ascending(texts(q[j].1@)) by {
                                if j != i {
                                    assert(q[j] == p[j]);
                                }
                            }
                        }
                    }
                },
                None => {},
            }
            k = k + 1;
        }
        proof {
            assert(gs.take(gs.len() as int) =~= gs);
        }
    }

    /// Terms that contain every trigram of `required`, in ascending order; no
    /// trigrams give no terms.
    pub fn terms_containing_all(&self, required: &[String]) -> (r: Vec<String>)
        requires
            self.well_formed(),
        ensures
            strictly_ascending(texts(r@)),
            texts(r@).to_set() == containing_all(self@, texts(required@)),
    {
        let ghost req = texts(required@);
        if required.len() == 0 {
            let r: Vec<String> = Vec::new();
            proof {
                assert(texts(r@).to_set() =~= Set::<Seq<char>>::empty());
            }
            return r;
        }
        let first = match self.find_gram(&required[0]) {
            Some(i) => i,
            None => {
                let r: Vec<String> = Vec::new();
                proof {
                    assert(req[0] == required@[0]@);
                    assert(texts(r@).to_set() =~= containing_all(self@, req));
                }
                return r;
            },
        };
        let mut candidates = copy_texts(&self.postings[first].1);
        proof {
            lemma_view_at(self.postings@, first as int);
            assert(req[0] == required@[0]@);
            assert(texts(candidates@).to_set() =~= in_all(self@, req, 1));
        }
        let mut k: usize = 1;
        while k < required.len()
            invariant
                self.well_formed(),
                req == texts(required@),
                1 <= k <= required.len(),
                strictly_ascending(texts(candidates@)),
                texts(candidates@).to_set() == in_all(self@, req, k as int),
            decreases required.len() - k,
        {
            match self.find_gram(&required[k]) {
                Some(j) => {
                    proof {
                        lemma_view_at(self.postings@, j as int);
                        assert(req[k as int] == required@[k as int]@);
                        assert(in_all(self@, req, k + 1) =~= in_all(self@, req, k as int).intersect(
                            texts(self.postings@[j as int].1@).to_set(),
                        ));
                    }
                    candidates = retain_common(&candidates, &self.postings[j].1);
                },
                None => {
                    let r: Vec<String> = Vec::new();
                    proof {
                        assert(req[k as int] == required@[k as int]@);
                        assert(texts(r@).to_set() =~= containing_all(self@, req));
                    }
                    return r;
                },
            }
            k = k + 1;
        }
        candidates
    }

    /// How many positions of `grams` hold a trigram whose term list holds `t`.
    fn count_hits(&self, grams: &[String], t: &String) -> (n: usize)
        requires
            self.well_formed(),
        ensures
            n == hit_count(self@, texts(grams@), t@),
    {
        let ghost gs = texts(grams@);
        let mut n: usize = 0;
        let mut k: usize = 0;
        proof {
            assert(gs.take(0) =~= Seq::<Seq<char>>::empty());
        }
        while k < grams.len()
            invariant
                self.well_formed(),
                gs == texts(grams@),
                k <= grams.len(),
                n <= k,
                n == hit_count(self@, gs.take(k as int), t@),
            decreases grams.len() - k,
        {
            proof {
                assert(gs.take(k + 1).drop_last() =~= gs.take(k as int));
                assert(gs.take(k + 1).last() == grams@[k as int]@);
            }
            match self.find_gram(&grams[k]) {
                Some(i) => {
                    proof {
                        lemma_view_at(self.postings@, i as int);
                    }
                    if contains_text(&self.postings[i].1, t) {
                        n = n + 1;
                    }
                },
                None => {},
            }
            k = k + 1;
        }
        proof {
            assert(gs.take(grams.len() as int) =~= gs);
        }
        n
    }

    /// Terms that share at least `minimum` trigram positions with
    /// `query_grams`, in ascending order.
    pub fn terms_sharing_at_least(&self, query_grams: &[String], minimum: usize) -> (r: Vec<String>)
        requires
            self.well_formed(),
        ensures
            strictly_ascending(texts(r@)),
            texts(r@).to_set() == sharing_at_least(self@, texts(query_grams@), minimum as nat),
    {
        let ghost gs = texts(query_grams@);
        if minimum == 0 || query_grams.len() == 0 {
            let r: Vec<String> = Vec::new();
            proof {
                assert(texts(r@).to_set() =~= Set::<Seq<char>>::empty());
            }
            return r;
        }
        let mut candidates: Vec<String> = Vec::new();
        proof {
            assert(texts(candidates@).to_set() =~= in_any(self@, gs, 0));
        }
        let mut k: usize = 0;
        while k < query_grams.len()
            invariant
                self.well_formed(),
                gs == texts(query_grams@),
                k <= query_grams.len(),
                strictly_ascending(texts(candidates@)),
                texts(candidates@).to_set() == in_any(self@, gs, k as int),
            decreases query_grams.len() - k,
        {
            match self.find_gram(&query_grams[k]) {
                Some(i) => {
                    let ghost list = texts(self.postings@[i as int].1@);
                    proof {
                        lemma_view_at(self.postings@, i as int);
                        assert(gs[k as int] == query_grams@[k as int]@);
                        assert(list.take(0) =~= Seq::<Seq<char>>::empty());
                        assert(in_any(self@, gs, k as int).union(list.take(0).to_set()) =~= in_any(self@, gs, k as int));
                    }
                    let mut j: usize = 0;
                    while j < self.postings[i].1.len()
                        invariant
                            self.well_formed(),
                            i < self.postings@.len(),
                            list == texts(self.postings@[i as int].1@),
                            j <= list.len(),
                            strictly_ascending(texts(candidates@)),
                            texts(candidates@).to_set() == in_any(self@, gs, k as int).union(
                                list.take(j as int).to_set(),
                            ),
                        decreases list.len() - j,
                    {
                        insert_sorted(&mut candidates, &self.postings[i].1[j]);
                        proof {
                            lemma_take_to_set(list, j as int);
                            assert(texts(candidates@).to_set() =~= in_any(self@, gs, k as int).union(
                                list.take(j + 1).to_set(),
                            ));
                        }
                        j = j + 1;
                    }
                    proof {
                        assert(list.take(list.len() as int) =~= list);
                        assert forall|t: Seq<char>| in_any(self@, gs, k + 1).contains(t) == in_any(self@, gs, k as int).union(list.to_set()).contains(t) by {
                            if in_any(self@, gs, k + 1).contains(t) && !in_any(self@, gs, k as int).contains(t) {
                                let w = choose|w: int|
                                    #![trigger gs[w]]
                                    0 <= w < k + 1 && self@.contains_key(gs[w]) && self@[gs[w]].contains(t);
                                assert(w == k);
                            }
                        }
                        assert(in_any(self@, gs, k + 1) =~= in_any(self@, gs, k as int).union(list.to_set()));
                    }
                },
                None => {
                    proof {
                        assert(gs[k as int] == query_grams@[k as int]@);
                        assert forall|t: Seq<char>| in_any(self@, gs, k + 1).contains(t) == in_any(self@, gs, k as int).contains(t) by {
                            if in_any(self@, gs, k + 1).contains(t) {
                                let w = choose|w: int|
                                    #![trigger gs[w]]
                                    0 <= w < k + 1 && self@.contains_key(gs[w]) && self@[gs[w]].contains(t);
                                assert(w != k);
                            }
                        }
                        assert(in_any(self@, gs, k + 1) =~= in_any(self@, gs, k as int));
                    }
                },
            }
            k = k + 1;
        }
        let ghost cs = texts(candidates@);
        let ghost wanted = sharing_at_least(self@, gs, minimum as nat);
        let mut r: Vec<String> = Vec::new();
        let mut c: usize = 0;
        while c < candidates.len()
            invariant
                self.well_formed(),
                gs == texts(query_grams@),
                cs == texts(candidates@),
                strictly_ascending(cs),
                c <= candidates.len(),
                strictly_ascending(texts(r@)),
                forall|x: int|
                    #![trigger texts(r@)[x]]
                    0 <= x < r.len() ==> exists|k: int| 0 <= k < c && #[trigger] cs[k] == texts(r@)[x],
                texts(r@).to_set() == cs.take(c as int).to_set().filter(
                    |t: Seq<char>| hit_count(self@, gs, t) >= minimum,
                ),
            decreases candidates.len() - c,
        {
            let hits = self.count_hits(query_grams, &candidates[c]);
            let ghost before = texts(r@);
            proof {
                lemma_take_to_set(cs, c as int);
            }
            if hits >= minimum {
                r.push(candidates[c].clone());
                proof {
                    let after = texts(r@);
                    assert(after =~= before.push(cs[c as int]));
                    assert forall|a: int, b: int| 0 <= a < b < after.len() implies text_less(
                        after[a],
                        after[b],
                    ) by {
                        if b == before.len() {
                            let w = choose|w: int| 0 <= w < c && #[trigger] cs[w] == before[a];
                            assert(text_less(cs[w], cs[c as int]));
                        } else {
                            assert(text_less(before[a], before[b]));
                        }
                    }
                    assert forall|x: int| #![trigger texts(r@)[x]] 0 <= x < r.len() implies exists|w: int|
                        0 <= w < c + 1 && #[trigger] cs[w] == texts(r@)[x] by {
                        if x < before.len() {
                            let w = choose|w: int| 0 <= w < c && #[trigger] cs[w] == before[x];
                            assert(cs[w] == texts(r@)[x]);
                        } else {
                            assert(cs[c as int] == texts(r@)[x]);
                        }
                    }
                    before.lemma_push_to_set_commute(cs[c as int]);
                    assert(after.to_set() =~= cs.take(c + 1).to_set().filter(
                        |t: Seq<char>| hit_count(self@, gs, t) >= minimum,
                    ));
                }
            } else {
                proof {
                    assert(before.to_set() =~= cs.take(c + 1).to_set().filter(
                        |t: Seq<char>| hit_count(self@, gs, t) >= minimum,
                    ));
                }
            }
            c = c + 1;
        }
        proof {
            assert(cs.take(candidates.len() as int) =~= cs);
            assert forall|t: Seq<char>| texts(r@).to_set().contains(t) == wanted.contains(t) by {
                if wanted.contains(t) {
                    lemma_hits_in_any(self@, gs, t);
                }
            }
            assert(texts(r@).to_set() =~= wanted);
        }
        r
    }

    /// The index of `terms`, each added in turn.
    pub fn from_terms(terms: &[&str]) -> (r: Self)
        ensures
            r.well_formed(),
            r@ == index_of(terms@.map_values(|s: &str| s@)),
    {
        let ghost ts = terms@.map_values(|s: &str| s@);
        let mut index = TrigramTermIndex::default();
        let mut k: usize = 0;
        proof {
            assert(ts.take(0) =~= Seq::<Seq<char>>::empty());
        }
        while k < terms.len()
            invariant
                index.well_formed(),
                ts == terms@.map_values(|s: &str| s@),
                k <= terms.len(),
                index@ == index_of(ts.take(k as int)),
            decreases terms.len() - k,
        {
            index.insert_term(terms[k]);
            proof {
                assert(ts.take(k + 1).drop_last() =~= ts.take(k as int));
            }
            k = k + 1;
        }
        proof {
            assert(ts.take(terms.len() as int) =~= ts);
        }
        index
    }
}

/// Whether `list` holds a text equal to `t`.
fn contains_text(list: &Vec<String>, t: &String) -> (r: bool)
    ensures
        r == texts(list@).contains(t@),
{
    let mut i: usize = 0;
    while i < list.len()
        invariant
            i <= list.len(),
            forall|k: int| 0 <= k < i ==> list@[k]@ != t@,
        decreases list.len() - i,
    {
        if list[i] == *t {
            proof {
                assert(texts(list@)[i as int] == t@);
            }
            return true;
        }
        i = i + 1;
    }
    proof {
        if texts(list@).contains(t@) {
            let k = choose|k: int| 0 <= k < texts(list@).len() && texts(list@)[k] == t@;
            assert(list@[k]@ == t@);
        }
    }
    false
}

/// Adds `t` to the ascending list `list` unless it is already there.
fn insert_sorted(list: &mut Vec<String>, t: &String)
    requires
        strictly_ascending(texts(old(list)@)),
    ensures
        strictly_ascending(texts(final(list)@)),
        texts(final(list)@).to_set() == texts(old(list)@).to_set().insert(t@),
{
    let ghost old_texts = texts(list@);
    let mut p: usize = 0;
    while p < list.len()
        invariant
            list@ == old(list)@,
            old_texts == texts(list@),
            strictly_ascending(old_texts),
            p <= list.len(),
            forall|k: int| 0 <= k < p ==> text_less(#[trigger] old_texts[k], t@),
        ensures
            p <= list.len(),
            list@ == old(list)@,
            forall|k: int| 0 <= k < p ==> text_less(#[trigger] old_texts[k], t@),
            p < list.len() ==> text_less(t@, old_texts[p as int]),
        decreases list.len() - p,
    {
        match compare_text(list[p].as_str(), t.as_str()) {
            TextOrder::Less => {
                p = p + 1;
            },
            TextOrder::Equal => {
                proof {
                    assert(old_texts[p as int] == t@);
                    assert(old_texts.to_set().insert(t@) =~= old_texts.to_set());
                }
                return;
            },
            TextOrder::Greater => {
                proof {
                    assert(text_less(t@, old_texts[p as int]));
                }
                break;
            },
        }
    }
    proof {
        assert forall|k: int| p <= k < old_texts.len() implies text_less(t@, #[trigger] old_texts[k]) by {
            if k > p {
                assert(text_less(old_texts[p as int], old_texts[k]));
                lemma_text_less_transitive(t@, old_texts[p as int], old_texts[k], 0);
            }
        }
    }
    list.insert(p, t.clone());
    proof {
        let new_texts = texts(list@);
        assert(new_texts =~= old_texts.insert(p as int, t@));
        assert forall|i: int, j: int| 0 <= i < j < new_texts.len() implies text_less(
            new_texts[i],
            new_texts[j],
        ) by {
            if j < p {
            } else if j == p {
            } else if i < p {
                assert(text_less(t@, old_texts[j - 1]));
                lemma_text_less_transitive(old_texts[i], t@, old_texts[j - 1], 0);
            } else if i == p {
                assert(text_less(t@, old_texts[j - 1]));
            } else {
                assert(text_less(old_texts[i - 1], old_texts[j - 1]));
            }
        }
        assert forall|x: Seq<char>| new_texts.to_set().contains(x) == old_texts.to_set().insert(t@).contains(x) by {
            if new_texts.to_set().contains(x) {
                let k = choose|k: int| 0 <= k < new_texts.len() && new_texts[k] == x;
                if k < p {
                    assert(old_texts[k] == x);
                } else if k > p {
                    assert(old_texts[k - 1] == x);
                }
            }
            if old_texts.to_set().contains(x) {
                let k = choose|k: int| 0 <= k < old_texts.len() && old_texts[k] == x;
                if k < p {
                    assert(new_texts[k] == x);
                } else {
                    assert(new_texts[k + 1] == x);
                }
            }
            if x == t@ {
                assert(new_texts[p as int] == x);
            }
        }
        assert(new_texts.to_set() =~= old_texts.to_set().insert(t@));
    }
}

/// Drops `t` from the ascending list `list` if it is there.
fn remove_text(list: &mut Vec<String>, t: &String)
    requires
        strictly_ascending(texts(old(list)@)),
    ensures
        strictly_ascending(texts(final(list)@)),
        texts(final(list)@).to_set() == texts(old(list)@).to_set().remove(t@),
{
    let ghost old_texts = texts(list@);
    let mut p: usize = 0;
    while p < list.len()
        invariant
            list@ == old(list)@,
            old_texts == texts(list@),
            strictly_ascending(old_texts),
            p <= list.len(),
            forall|k: int| 0 <= k < p ==> old_texts[k] != t@,
        decreases list.len() - p,
    {
        if list[p] == *t {
            list.remove(p);
            proof {
                let new_texts = texts(list@);
                assert(new_texts =~= old_texts.remove(p as int));
                assert forall|i: int, j: int| 0 <= i < j < new_texts.len() implies text_less(
                    new_texts[i],
                    new_texts[j],
                ) by {
                    let oi = if i < p { i } else { i + 1 };
                    let oj = if j < p { j } else { j + 1 };
                    assert(text_less(old_texts[oi], old_texts[oj]));
                }
                assert forall|x: Seq<char>| new_texts.to_set().contains(x) == old_texts.to_set().remove(t@).contains(x) by {
                    if old_texts.to_set().contains(x) && x != t@ {
                        let k = choose|k: int| 0 <= k < old_texts.len() && old_texts[k] == x;
                        if k < p {
                            assert(new_texts[k] == x);
                        } else {
                            assert(new_texts[k - 1] == x);
                        }
                    }
                    if new_texts.to_set().contains(x) {
                        let k = choose|k: int| 0 <= k < new_texts.len() && new_texts[k] == x;
                        if k < p {
                            assert(old_texts[k] == x);
                        } else {
                            assert(old_texts[k + 1] == x);
                            lemma_text_less_irreflexive(t@, 0);
                            if x == t@ {
                                assert(text_less(old_texts[p as int], old_texts[k + 1]));
                            }
                        }
                    }
                }
                assert(new_texts.to_set() =~= old_texts.to_set().remove(t@));
            }
            return;
        }
        p = p + 1;
    }
    proof {
        assert(old_texts.to_set().remove(t@) =~= old_texts.to_set());
    }
}

} // verus!
