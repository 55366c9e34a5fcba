//! Wildcard pattern matching for scalar string filters.

use crate::text::{chars_of, push_char};
use crate::index::ordinals::{ids_in_ordinal_order, OrdinalSet};
use vstd::prelude::*;

verus! {

/// Whether `c` matches any run of characters in a pattern.
pub open spec fn is_wildcard(c: char) -> bool {
    c == '%' || c == '*'
}

/// Whether `text[i..]` matches `pattern[j..]`: `%` and `*` match any run of
/// characters, `_` matches one character, and every other character matches
/// itself.
pub open spec fn matches_from(text: Seq<char>, pattern: Seq<char>, i: int, j: int) -> bool
    decreases (text.len() - i) + (pattern.len() - j),
{
    if i < 0 || i > text.len() || j < 0 || j > pattern.len() {
        false
    } else if j == pattern.len() {
        i == text.len()
    } else if is_wildcard(pattern[j]) {
        matches_from(text, pattern, i, j + 1) || (i < text.len() && matches_from(
            text,
            pattern,
            i + 1,
            j,
        ))
    } else {
        i < text.len() && (pattern[j] == '_' || pattern[j] == text[i]) && matches_from(
            text,
            pattern,
            i + 1,
            j + 1,
        )
    }
}

/// Whether `text` matches the whole `pattern`.
pub open spec fn spec_like_match(text: Seq<char>, pattern: Seq<char>) -> bool {
    matches_from(text, pattern, 0, 0)
}

/// Pattern positions `j..j + len` hold no wildcard and match `text` at
/// `i..i + len` one character at a time.
pub open spec fn literal_run(text: Seq<char>, pattern: Seq<char>, i: int, j: int, len: int) -> bool {
    &&& 0 <= len
    &&& 0 <= i
    &&& 0 <= j
    &&& i + len <= text.len()
    &&& j + len <= pattern.len()
    &&& forall|m: int|
        0 <= m < len ==> !is_wildcard(#[trigger] pattern[j + m]) && (pattern[j + m] == '_'
            || pattern[j + m] == text[i + m])
}

/// Some suffix of `text` starting at or after `from` matches `pattern[j..]`.
pub open spec fn some_suffix_matches(text: Seq<char>, pattern: Seq<char>, from: int, j: int) -> bool {
    exists|k: int| from <= k <= text.len() && #[trigger] matches_from(text, pattern, k, j)
}

/// Pattern positions `j..end` are all wildcards.
pub open spec fn all_wildcards(pattern: Seq<char>, j: int, end: int) -> bool {
    forall|m: int| j <= m < end ==> is_wildcard(#[trigger] pattern[m])
}

/// A wildcard-free prefix of the pattern consumes exactly its length of
/// text, one character at a time.
proof fn lemma_literal_prefix(text: Seq<char>, pattern: Seq<char>, i: int, j: int, len: int)
    requires
        0 <= len,
        0 <= i,
        0 <= j,
        i + len <= text.len(),
        j + len <= pattern.len(),
        forall|m: int| 0 <= m < len ==> !is_wildcard(#[trigger] pattern[j + m]),
    ensures
        matches_from(text, pattern, i, j) == (literal_run(text, pattern, i, j, len) && matches_from(
            text,
            pattern,
            i + len,
            j + len,
        )),
    decreases len,
{
    if len > 0 {
        assert(!is_wildcard(pattern[j + 0]));
        assert forall|m: int| 0 <= m < len - 1 implies !is_wildcard(#[trigger] pattern[(j + 1) + m]) by {
            assert(!is_wildcard(pattern[j + (m + 1)]));
        }
        lemma_literal_prefix(text, pattern, i + 1, j + 1, len - 1);
        if literal_run(text, pattern, i + 1, j + 1, len - 1) && (pattern[j] == '_' || pattern[j]
            == text[i]) {
            assert forall|m: int| 0 <= m < len implies !is_wildcard(#[trigger] pattern[j + m]) && (
            pattern[j + m] == '_' || pattern[j + m] == text[i + m]) by {
                if m > 0 {
                    assert(pattern[(j + 1) + (m - 1)] == pattern[j + m]);
                }
            }
        }
        if literal_run(text, pattern, i, j, len) {
            assert(pattern[j + 0] == '_' || pattern[j + 0] == text[i + 0]);
            assert forall|m: int| 0 <= m < len - 1 implies !is_wildcard(
                #[trigger] pattern[(j + 1) + m],
            ) && (pattern[(j + 1) + m] == '_' || pattern[(j + 1) + m] == text[(i + 1) + m]) by {
                assert(pattern[j + (m + 1)] == pattern[(j + 1) + m]);
            }
        }
    } else {
        assert(literal_run(text, pattern, i, j, 0));
    }
}

/// A wildcard-free prefix longer than the remaining text cannot match.
proof fn lemma_literal_prefix_too_long(text: Seq<char>, pattern: Seq<char>, i: int, j: int, len: int)
    requires
        0 <= len,
        0 <= i <= text.len(),
        0 <= j,
        j + len <= pattern.len(),
        i + len > text.len(),
        forall|m: int| 0 <= m < len ==> !is_wildcard(#[trigger] pattern[j + m]),
    ensures
        !matches_from(text, pattern, i, j),
    decreases len,
{
    if len > 0 {
        assert(!is_wildcard(pattern[j + 0]));
        if i < text.len() {
            assert forall|m: int| 0 <= m < len - 1 implies !is_wildcard(
                #[trigger] pattern[(j + 1) + m],
            ) by {
                assert(!is_wildcard(pattern[j + (m + 1)]));
            }
            lemma_literal_prefix_too_long(text, pattern, i + 1, j + 1, len - 1);
        }
    }
}

/// A wildcard at `j` absorbs any run of text: the suffix at `i` matches iff
/// some suffix at or after `i` matches the rest of the pattern.
proof fn lemma_wildcard(text: Seq<char>, pattern: Seq<char>, i: int, j: int)
    requires
        0 <= i <= text.len(),
        0 <= j < pattern.len(),
        is_wildcard(pattern[j]),
    ensures
        matches_from(text, pattern, i, j) == some_suffix_matches(text, pattern, i, j + 1),
    decreases text.len() - i,
{
    if i < text.len() {
        lemma_wildcard(text, pattern, i + 1, j);
        assert(matches_from(text, pattern, i, j) == (matches_from(text, pattern, i, j + 1)
            || matches_from(text, pattern, i + 1, j)));
        if matches_from(text, pattern, i, j + 1) {
            assert(some_suffix_matches(text, pattern, i, j + 1));
        }
        if some_suffix_matches(text, pattern, i + 1, j + 1) {
            let k = choose|k: int|
                i + 1 <= k <= text.len() && #[trigger] matches_from(text, pattern, k, j + 1);
            assert(some_suffix_matches(text, pattern, i, j + 1));
        }
        if some_suffix_matches(text, pattern, i, j + 1) {
            let k = choose|k: int|
                i <= k <= text.len() && #[trigger] matches_from(text, pattern, k, j + 1);
            if k > i {
                assert(some_suffix_matches(text, pattern, i + 1, j + 1));
            }
        }
    } else {
        assert(matches_from(text, pattern, i, j) == matches_from(text, pattern, i, j + 1));
        if matches_from(text, pattern, i, j + 1) {
            assert(some_suffix_matches(text, pattern, i, j + 1));
        }
        if some_suffix_matches(text, pattern, i, j + 1) {
            let k = choose|k: int|
                i <= k <= text.len() && #[trigger] matches_from(text, pattern, k, j + 1);
            assert(k == i);
        }
    }
}

/// A run of wildcards at `j..end` absorbs any run of text.
proof fn lemma_wildcard_run(text: Seq<char>, pattern: Seq<char>, i: int, j: int, end: int)
    requires
        0 <= i <= text.len(),
        0 <= j < end <= pattern.len(),
        all_wildcards(pattern, j, end),
    ensures
        matches_from(text, pattern, i, j) == some_suffix_matches(text, pattern, i, end),
    decreases end - j,
{
    lemma_wildcard(text, pattern, i, j);
    if j + 1 < end {
        assert forall|k: int| i <= k <= text.len() implies #[trigger] matches_from(text, pattern, k, j + 1)
            == some_suffix_matches(text, pattern, k, end) by {
            lemma_wildcard_run(text, pattern, k, j + 1, end);
        }
        if some_suffix_matches(text, pattern, i, j + 1) {
            let k = choose|k: int| i <= k <= text.len() && #[trigger] matches_from(text, pattern, k, j + 1);
            let k2 = choose|k2: int| k <= k2 <= text.len() && #[trigger] matches_from(text, pattern, k2, end);
            assert(matches_from(text, pattern, k2, end));
        }
        if some_suffix_matches(text, pattern, i, end) {
            let k2 = choose|k2: int| i <= k2 <= text.len() && #[trigger] matches_from(text, pattern, k2, end);
            assert(some_suffix_matches(text, pattern, k2, end));
            assert(matches_from(text, pattern, k2, j + 1));
        }
    }
}

/// The empty suffix of the text matches exactly an all-wildcard suffix of
/// the pattern.
proof fn lemma_empty_text(text: Seq<char>, pattern: Seq<char>, j: int)
    requires
        0 <= j <= pattern.len(),
    ensures
        matches_from(text, pattern, text.len() as int, j) == all_wildcards(
            pattern,
            j,
            pattern.len() as int,
        ),
    decreases pattern.len() - j,
{
    if j < pattern.len() {
        lemma_empty_text(text, pattern, j + 1);
        if !is_wildcard(pattern[j]) {
            assert(!all_wildcards(pattern, j, pattern.len() as int));
        }
    }
}

/// Once a literal run `sp..pi` has matched text `wt..ti` and a wildcard run
/// `pi..pi2` follows, the suffixes matching from `wt` on are exactly those
/// reachable by restarting at `ti` after the wildcards.
proof fn lemma_restart_at_wildcard(
    text: Seq<char>,
    pattern: Seq<char>,
    wt: int,
    sp: int,
    ti: int,
    pi: int,
    pi2: int,
)
    requires
        0 <= wt <= ti <= text.len(),
        0 <= sp <= pi < pi2 <= pattern.len(),
        pi - sp == ti - wt,
        literal_run(text, pattern, wt, sp, ti - wt),
        all_wildcards(pattern, pi, pi2),
    ensures
        some_suffix_matches(text, pattern, wt, sp) == some_suffix_matches(text, pattern, ti, pi2),
{
    let len = ti - wt;
    assert forall|m: int| 0 <= m < len implies !is_wildcard(#[trigger] pattern[sp + m]) by {}
    if some_suffix_matches(text, pattern, ti, pi2) {
        lemma_wildcard_run(text, pattern, ti, pi, pi2);
        lemma_literal_prefix(text, pattern, wt, sp, len);
        assert(matches_from(text, pattern, wt, sp));
        assert(some_suffix_matches(text, pattern, wt, sp));
    }
    if some_suffix_matches(text, pattern, wt, sp) {
        let k = choose|k: int| wt <= k <= text.len() && #[trigger] matches_from(text, pattern, k, sp);
        if k + len > text.len() {
            lemma_literal_prefix_too_long(text, pattern, k, sp, len);
        } else {
            lemma_literal_prefix(text, pattern, k, sp, len);
            lemma_wildcard_run(text, pattern, k + len, pi, pi2);
            let k2 = choose|k2: int|
                k + len <= k2 <= text.len() && #[trigger] matches_from(text, pattern, k2, pi2);
            assert(some_suffix_matches(text, pattern, ti, pi2));
        }
    }
}

fn is_wildcard_char(c: char) -> (r: bool)
    ensures
        r == is_wildcard(c),
{
    c == '%' || c == '*'
}

/// SQL `LIKE`-style matching: `%` and `*` match any run of characters and
/// `_` matches exactly one.
pub fn like_match(text: &str, pattern: &str) -> (r: bool)
    ensures
        r == spec_like_match(text@, pattern@),
{
    let text_chars = chars_of(text);
    let pattern_chars = chars_of(pattern);
    let ghost t = text_chars@;
    let ghost p = pattern_chars@;
    let mut text_index: usize = 0;
    let mut pattern_index: usize = 0;
    let mut wildcard_pattern: Option<usize> = None;
    let mut wildcard_text: usize = 0;
    proof {
        assert(literal_run(t, p, 0, 0, 0));
    }
    while text_index < text_chars.len()
        invariant
            t == text_chars@,
            t == text@,
            p == pattern_chars@,
            p == pattern@,
            text_index <= t.len(),
            pattern_index <= p.len(),
            match wildcard_pattern {
                None => wildcard_text == 0 && pattern_index == text_index && literal_run(
                    t,
                    p,
                    0,
                    0,
                    text_index as int,
                ),
                Some(sp) => sp < p.len() && !is_wildcard(p[sp as int]) && wildcard_text
                    <= text_index && sp <= pattern_index && pattern_index
                    - sp == text_index - wildcard_text && literal_run(
                    t,
                    p,
                    wildcard_text as int,
                    sp as int,
                    text_index - wildcard_text,
                ) && spec_like_match(t, p) == some_suffix_matches(
                    t,
                    p,
                    wildcard_text as int,
                    sp as int,
                ),
            },
        decreases
            if wildcard_pattern is None {
                t.len() + 1int
            } else {
                t.len() - wildcard_text
            },
            (t.len() - text_index) + (p.len() - pattern_index),
    {
        if pattern_index < pattern_chars.len() && is_wildcard_char(pattern_chars[pattern_index]) {
            let run_start = pattern_index;
            while pattern_index < pattern_chars.len() && is_wildcard_char(pattern_chars[pattern_index])
                invariant
                    p == pattern_chars@,
            p == pattern@,
                    run_start < p.len(),
                    run_start <= pattern_index <= p.len(),
                    all_wildcards(p, run_start as int, pattern_index as int),
                decreases p.len() - pattern_index,
            {
                pattern_index = pattern_index + 1;
            }
            proof {
                match wildcard_pattern {
                    None => {
                        lemma_literal_prefix(t, p, 0, 0, text_index as int);
                        lemma_wildcard_run(
                            t,
                            p,
                            text_index as int,
                            run_start as int,
                            pattern_index as int,
                        );
                    },
                    Some(sp) => {
                        lemma_restart_at_wildcard(
                            t,
                            p,
                            wildcard_text as int,
                            sp as int,
                            text_index as int,
                            run_start as int,
                            pattern_index as int,
                        );
                    },
                }
            }
            if pattern_index == pattern_chars.len() {
                proof {
                    lemma_empty_text(t, p, p.len() as int);
                    assert(matches_from(t, p, t.len() as int, p.len() as int));
                    assert(some_suffix_matches(t, p, text_index as int, p.len() as int));
                    match wildcard_pattern {
                        None => {
                            assert(matches_from(t, p, text_index as int, run_start as int));
                            assert(matches_from(t, p, 0, 0));
                        },
                        Some(sp) => {
                            assert(some_suffix_matches(t, p, wildcard_text as int, sp as int));
                        },
                    }
                    assert(spec_like_match(t, p));
                }
                return true;
            }
            proof {
                assert(literal_run(t, p, text_index as int, pattern_index as int, 0));
            }
            wildcard_pattern = Some(pattern_index);
            wildcard_text = text_index;
        } else if pattern_index < pattern_chars.len() && (pattern_chars[pattern_index] == '_'
            || pattern_chars[pattern_index] == text_chars[text_index]) {
            proof {
                let start_t = match wildcard_pattern {
                    None => 0int,
                    Some(sp) => wildcard_text as int,
                };
                let start_p = match wildcard_pattern {
                    None => 0int,
                    Some(sp) => sp as int,
                };
                let len = text_index - start_t;
                assert forall|m: int| 0 <= m < len + 1 implies !is_wildcard(
                    #[trigger] p[start_p + m],
                ) && (p[start_p + m] == '_' || p[start_p + m] == t[start_t + m]) by {
                    if m < len {
                        assert(literal_run(t, p, start_t, start_p, len));
                    }
                }
                assert(literal_run(t, p, start_t, start_p, len + 1));
            }
            text_index = text_index + 1;
            pattern_index = pattern_index + 1;
        } else if let Some(saved_pattern) = wildcard_pattern {
            proof {
                let len = text_index - wildcard_text;
                assert forall|m: int| 0 <= m < len implies !is_wildcard(
                    #[trigger] p[saved_pattern + m],
                ) by {}
                lemma_literal_prefix(t, p, wildcard_text as int, saved_pattern as int, len);
                assert(!matches_from(t, p, text_index as int, pattern_index as int));
                assert(!matches_from(t, p, wildcard_text as int, saved_pattern as int));
                if some_suffix_matches(t, p, wildcard_text as int, saved_pattern as int) {
                    let k = choose|k: int|
                        wildcard_text <= k <= t.len() && #[trigger] matches_from(
                            t,
                            p,
                            k,
                            saved_pattern as int,
                        );
                    assert(some_suffix_matches(t, p, wildcard_text + 1, saved_pattern as int));
                }
                if some_suffix_matches(t, p, wildcard_text + 1, saved_pattern as int) {
                    let k = choose|k: int|
                        wildcard_text + 1 <= k <= t.len() && #[trigger] matches_from(
                            t,
                            p,
                            k,
                            saved_pattern as int,
                        );
                    assert(some_suffix_matches(t, p, wildcard_text as int, saved_pattern as int));
                }
                assert(literal_run(t, p, wildcard_text + 1, saved_pattern as int, 0));
            }
            wildcard_text = wildcard_text + 1;
            text_index = wildcard_text;
            pattern_index = saved_pattern;
        } else {
            proof {
                lemma_literal_prefix(t, p, 0, 0, text_index as int);
                assert(!matches_from(t, p, text_index as int, pattern_index as int));
                assert(!matches_from(t, p, 0, 0));
            }
            return false;
        }
    }
    let tail_start = pattern_index;
    while pattern_index < pattern_chars.len() && is_wildcard_char(pattern_chars[pattern_index])
        invariant
            p == pattern_chars@,
            p == pattern@,
            tail_start <= pattern_index <= p.len(),
            all_wildcards(p, tail_start as int, pattern_index as int),
        decreases p.len() - pattern_index,
    {
        pattern_index = pattern_index + 1;
    }
    proof {
        lemma_empty_text(t, p, tail_start as int);
        if pattern_index < p.len() {
            assert(!is_wildcard(p[pattern_index as int]));
            assert(!all_wildcards(p, tail_start as int, p.len() as int));
        }
        match wildcard_pattern {
            None => {
                lemma_literal_prefix(t, p, 0, 0, text_index as int);
            },
            Some(sp) => {
                let len = text_index - wildcard_text;
                assert forall|m: int| 0 <= m < len implies !is_wildcard(#[trigger] p[sp + m]) by {}
                lemma_literal_prefix(t, p, wildcard_text as int, sp as int, len);
                if some_suffix_matches(t, p, wildcard_text as int, sp as int) {
                    let k = choose|k: int|
                        wildcard_text <= k <= t.len() && #[trigger] matches_from(t, p, k, sp as int);
                    if k > wildcard_text {
                        lemma_literal_prefix_too_long(t, p, k, sp as int, len);
                    }
                }
                if matches_from(t, p, wildcard_text as int, sp as int) {
                    assert(some_suffix_matches(t, p, wildcard_text as int, sp as int));
                }
            },
        }
    }
    pattern_index == pattern_chars.len()
}

/// Whether `c` is a `LIKE` metacharacter.
pub open spec fn is_like_meta(c: char) -> bool {
    c == '%' || c == '*' || c == '_'
}

/// The length of the longest prefix of `pattern` free of metacharacters.
pub open spec fn literal_prefix_len(pattern: Seq<char>) -> int
    decreases pattern.len(),
{
    if pattern.len() == 0 || is_like_meta(pattern[0]) {
        0
    } else {
        1 + literal_prefix_len(pattern.drop_first())
    }
}

proof fn lemma_literal_prefix_len(pattern: Seq<char>, n: int)
    requires
        0 <= n <= pattern.len(),
        forall|i: int| 0 <= i < n ==> !is_like_meta(#[trigger] pattern[i]),
        n == pattern.len() || is_like_meta(pattern[n]),
    ensures
        literal_prefix_len(pattern) == n,
    decreases n,
{
    if n > 0 {
        let rest = pattern.drop_first();
        assert forall|i: int| 0 <= i < n - 1 implies !is_like_meta(#[trigger] rest[i]) by {
            assert(rest[i] == pattern[i + 1]);
        }
        if n - 1 < rest.len() {
            assert(rest[n - 1] == pattern[n]);
        }
        lemma_literal_prefix_len(rest, n - 1);
    }
}

proof fn lemma_literal_prefix_len_bounds(pattern: Seq<char>)
    ensures
        0 <= literal_prefix_len(pattern) <= pattern.len(),
        forall|i: int|
            0 <= i < literal_prefix_len(pattern) ==> !is_like_meta(#[trigger] pattern[i]),
    decreases pattern.len(),
{
    if pattern.len() > 0 && !is_like_meta(pattern[0]) {
        let rest = pattern.drop_first();
        lemma_literal_prefix_len_bounds(rest);
        assert forall|i: int| 0 <= i < literal_prefix_len(pattern) implies !is_like_meta(
            #[trigger] pattern[i],
        ) by {
            if i > 0 {
                assert(pattern[i] == rest[i - 1]);
            }
        }
    }
}

/// Every text a pattern matches starts with the pattern's literal prefix,
/// so the prefix can pre-filter candidates before the full matcher runs.
pub proof fn law_match_starts_with_literal_prefix(text: Seq<char>, pattern: Seq<char>)
    requires
        spec_like_match(text, pattern),
    ensures
        literal_prefix_len(pattern) <= text.len(),
        text.subrange(0, literal_prefix_len(pattern)) == pattern.subrange(
            0,
            literal_prefix_len(pattern),
        ),
{
    let n = literal_prefix_len(pattern);
    lemma_literal_prefix_len_bounds(pattern);
    assert forall|m: int| 0 <= m < n implies !is_wildcard(#[trigger] pattern[0 + m]) by {
        assert(!is_like_meta(pattern[m]));
    }
    if n > text.len() {
        lemma_literal_prefix_too_long(text, pattern, 0, 0, n);
    } else {
        lemma_literal_prefix(text, pattern, 0, 0, n);
        assert forall|m: int| 0 <= m < n implies text[m] == pattern[m] by {
            assert(!is_like_meta(pattern[m]));
            assert(pattern[0 + m] == '_' || pattern[0 + m] == text[0 + m]);
        }
        assert(text.subrange(0, n) =~= pattern.subrange(0, n));
    }
}

/// The literal text a `LIKE` pattern must start with: its characters before
/// the first `%`, `*` or `_`, or `None` when there are none.
pub fn like_literal_prefix(pattern: &str) -> (r: Option<String>)
    ensures
        literal_prefix_len(pattern@) == 0 ==> r is None,
        literal_prefix_len(pattern@) > 0 ==> (r matches Some(s) && s@ == pattern@.subrange(
            0,
            literal_prefix_len(pattern@),
        )),
{
    let mut prefix = String::new();
    let mut stopped = false;
    let ghost mut stop_at: int = pattern@.len() as int;
    for c in iter: pattern.chars()
        invariant
            iter.seq() == pattern@,
            !stopped ==> prefix@ == pattern@.subrange(0, iter.index() as int) && forall|i: int|
                0 <= i < iter.index() ==> !is_like_meta(#[trigger] pattern@[i]),
            stopped ==> 0 <= stop_at < iter.index() && prefix@ == pattern@.subrange(0, stop_at)
                && is_like_meta(pattern@[stop_at]) && forall|i: int|
                0 <= i < stop_at ==> !is_like_meta(#[trigger] pattern@[i]),
    {
        if !stopped {
            if c == '%' || c == '*' || c == '_' {
                stopped = true;
                proof {
                    stop_at = iter.index() as int;
                }
            } else {
                push_char(&mut prefix, c);
                proof {
                    assert(prefix@ =~= pattern@.subrange(0, iter.index() + 1));
                }
            }
        }
    }
    proof {
        if stopped {
            lemma_literal_prefix_len(pattern@, stop_at);
        } else {
            assert(prefix@ =~= pattern@.subrange(0, pattern@.len() as int));
            lemma_literal_prefix_len(pattern@, pattern@.len() as int);
        }
    }
    if prefix.as_str().is_empty() {
        None
    } else {
        Some(prefix)
    }
}

/// Documents a scalar filter selects, and whether the selection is exact
/// (else a superset the filter must still check).
pub struct ScalarCandidates {
    pub ids: OrdinalSet,
    pub exact: bool,
}

impl ScalarCandidates {
    /// The ids of the selected documents, in increasing ordinal order.
    pub fn ids(&self) -> (r: Vec<&str>)
        ensures
            ids_in_ordinal_order(
                self.ids.table().ids(),
                self.ids.members(),
                r@.map_values(|id: &str| id@),
            ),
    {
        self.ids.ids()
    }

    /// The number of selected documents, saturating at `usize::MAX`.
    pub fn len(&self) -> (r: usize)
        ensures
            r == if self.ids.members().len() <= usize::MAX {
                self.ids.members().len() as int
            } else {
                usize::MAX as int
            },
    {
        self.ids.len()
    }

    /// Keeps the selected documents whose id `keep` accepts.
    pub fn retain_ids<F: Fn(&str) -> bool>(&mut self, keep: F)
        requires
            forall|id: &str| #[trigger] keep.requires((id,)),
        ensures
            final(self).exact == old(self).exact,
            final(self).ids.table() == old(self).ids.table(),
            forall|o: u64|
                #[trigger] final(self).ids.members().contains(o) ==> old(self).ids.members().contains(
                    o,
                ) && (o as int) < old(self).ids.table().ids().len() && exists|id: &str|
                    id@ == old(self).ids.table().ids()[o as int] && keep.ensures((id,), true),
            forall|o: u64|
                old(self).ids.members().contains(o) && (o as int) < old(self).ids.table().ids().len()
                    && !#[trigger] final(self).ids.members().contains(o) ==> exists|id: &str|
                    id@ == old(self).ids.table().ids()[o as int] && keep.ensures((id,), false),
    {
        self.ids.retain_ids(keep);
    }

    /// The selection itself.
    pub fn into_ids(self) -> (r: OrdinalSet)
        ensures
            r == self.ids,
    {
        self.ids
    }
}

} // verus!
