//! Scalar filters over inverted scalar indexes: each indexed field keeps,
//! per distinct value, the bitmap of documents holding it; a filter tree is
//! evaluated to a bitmap that is either exactly the matching documents or,
//! where a conjunction stopped early, a superset of them.

use crate::index::bitmap::{
    treemap_clone, treemap_insert, treemap_intersection, treemap_remove, treemap_is_empty, treemap_len, treemap_members,
    treemap_new, treemap_subtract, treemap_union_with,
};
use crate::index::ordinals::OrdinalTable;
use crate::index::scalar::{like_match, spec_like_match};
use crate::text::{chars_of, compare_text, text_less, TextOrder};
use roaring::RoaringTreemap;
use vstd::prelude::*;

verus! {

/// A conjunction side with at most this many candidates ends the
/// conjunction early.
pub const CONJUNCTION_EARLY_STOP: u64 = 4096;

/// A comparison operator.
#[derive(Debug, Clone, Copy, PartialEq, Eq, Structural)]
pub enum CmpOp {
    Eq,
    Ne,
    Gt,
    Ge,
    Lt,
    Le,
}

/// An indexed scalar value. A number is the order-preserving 64-bit key
/// of its `f64` value (negative zero counted as zero), so numbers compare
/// as their keys do.
#[derive(Debug)]
pub enum ScalarKey {
    Null,
    Bool(bool),
    Number(u64),
    Text(String),
}

/// A filter over scalar fields. A literal that has no scalar key (a
/// non-finite number) is `None`.
#[derive(Debug)]
pub enum ScalarFilter {
    And(Box<ScalarFilter>, Box<ScalarFilter>),
    Or(Box<ScalarFilter>, Box<ScalarFilter>),
    Not(Box<ScalarFilter>),
    Compare { field: String, op: CmpOp, key: Option<ScalarKey> },
    In { field: String, keys: Vec<Option<ScalarKey>>, negated: bool },
    Like { field: String, pattern: String, negated: bool },
    IsNull { field: String, negated: bool },
    ContainAll { field: String },
    HasPrefix { field: String, prefix: String, negated: bool },
    HasSuffix { field: String, suffix: String, negated: bool },
}

/// The inverted index of one field: each distinct value with the documents
/// holding it, the documents with the field at all, those with a non-null
/// value, and whether range and wildcard lookups are enabled on a field of
/// string type.
pub struct ScalarIndex {
    pub values: Vec<(ScalarKey, RoaringTreemap)>,
    pub present: RoaringTreemap,
    pub non_null: RoaringTreemap,
    pub range_enabled: bool,
    pub wildcard_enabled: bool,
    pub string_typed: bool,
}

/// The scalar indexes of a collection, by field name.
pub struct ScalarIndexRegistry {
    pub indexes: Vec<(String, ScalarIndex)>,
}

/// An evaluated filter: a bitmap of documents, and whether it is exactly
/// the matching ones (else a superset of them).
pub struct BitmapEvaluation {
    pub bitmap: RoaringTreemap,
    pub exact: bool,
}

/// Two keys are the same value.
pub open spec fn same_key(a: ScalarKey, b: ScalarKey) -> bool {
    match (a, b) {
        (ScalarKey::Null, ScalarKey::Null) => true,
        (ScalarKey::Bool(x), ScalarKey::Bool(y)) => x == y,
        (ScalarKey::Number(x), ScalarKey::Number(y)) => x == y,
        (ScalarKey::Text(x), ScalarKey::Text(y)) => x@ == y@,
        _ => false,
    }
}

/// Where `a` stands against `b`: -1, 0 or 1 for two numbers or two texts,
/// 2 for values that do not compare.
pub open spec fn key_order(a: ScalarKey, b: ScalarKey) -> int {
    match (a, b) {
        (ScalarKey::Number(x), ScalarKey::Number(y)) => if x < y {
            -1
        } else if x == y {
            0
        } else {
            1
        },
        (ScalarKey::Text(x), ScalarKey::Text(y)) => if text_less(x@, y@) {
            -1
        } else if x@ == y@ {
            0
        } else {
            1
        },
        _ => 2,
    }
}

/// Key `a` lies in the range `op` `b` (for an ordering operator): both
/// numbers or both texts, ordered as `op` says.
pub open spec fn in_range(a: ScalarKey, op: CmpOp, b: ScalarKey) -> bool {
    let order = key_order(a, b);
    match op {
        CmpOp::Gt => order == 1,
        CmpOp::Ge => order == 0 || order == 1,
        CmpOp::Lt => order == -1,
        CmpOp::Le => order == -1 || order == 0,
        _ => false,
    }
}

/// `s` starts with `p`.
pub open spec fn has_prefix(s: Seq<char>, p: Seq<char>) -> bool {
    p.len() <= s.len() && s.subrange(0, p.len() as int) == p
}

/// `s` ends with `p`.
pub open spec fn has_suffix(s: Seq<char>, p: Seq<char>) -> bool {
    p.len() <= s.len() && s.subrange(s.len() - p.len(), s.len() as int) == p
}

/// Values equal to `k`.
pub open spec fn equal_to(k: ScalarKey) -> spec_fn(ScalarKey) -> bool {
    |e: ScalarKey| same_key(e, k)
}

/// Values in the range `op` `k`.
pub open spec fn ranged(op: CmpOp, k: ScalarKey) -> spec_fn(ScalarKey) -> bool {
    |e: ScalarKey| in_range(e, op, k)
}

/// Text values that `pattern` matches (`%` and `*` any run, `_` and `?`
/// one character).
pub open spec fn liked(pattern: Seq<char>) -> spec_fn(ScalarKey) -> bool {
    |e: ScalarKey| e matches ScalarKey::Text(s) && spec_like_match(s@, pattern)
}

/// Text values starting with `p`.
pub open spec fn prefixed(p: Seq<char>) -> spec_fn(ScalarKey) -> bool {
    |e: ScalarKey| e matches ScalarKey::Text(s) && has_prefix(s@, p)
}

/// Text values ending with `p`.
pub open spec fn suffixed(p: Seq<char>) -> spec_fn(ScalarKey) -> bool {
    |e: ScalarKey| e matches ScalarKey::Text(s) && has_suffix(s@, p)
}

/// What an index value is tested against.
pub enum KeyTest<'a> {
    Equal(&'a ScalarKey),
    Range(CmpOp, &'a ScalarKey),
    Like(&'a str),
    Prefix(&'a str),
    Suffix(&'a str),
}

/// The value predicate of `test`.
pub open spec fn test_predicate(test: KeyTest) -> spec_fn(ScalarKey) -> bool {
    match test {
        KeyTest::Equal(k) => equal_to(*k),
        KeyTest::Range(op, k) => ranged(op, *k),
        KeyTest::Like(p) => liked(p@),
        KeyTest::Prefix(p) => prefixed(p@),
        KeyTest::Suffix(p) => suffixed(p@),
    }
}

/// The documents of the values of `values` that satisfy `pred`.
pub open spec fn passing(values: Seq<(ScalarKey, RoaringTreemap)>, pred: spec_fn(ScalarKey) -> bool) -> Set<u64> {
    Set::new(
        |o: u64|
            exists|i: int|
                0 <= i < values.len() && pred(values[i].0) && #[trigger] treemap_members(values[i].1).contains(o),
    )
}

fn same_text(a: &str, b: &str) -> (r: bool)
    ensures
        r == (a@ == b@),
{
    match compare_text(a, b) {
        TextOrder::Equal => true,
        _ => false,
    }
}

fn starts_with(s: &str, p: &str) -> (r: bool)
    ensures
        r == has_prefix(s@, p@),
{
    let sc = chars_of(s);
    let pc = chars_of(p);
    if pc.len() > sc.len() {
        return false;
    }
    let mut i: usize = 0;
    while i < pc.len()
        invariant
            sc@ == s@,
            pc@ == p@,
            pc@.len() <= sc@.len(),
            i <= pc@.len(),
            forall|k: int| 0 <= k < i ==> sc@[k] == pc@[k],
        decreases pc@.len() - i,
    {
        if sc[i] != pc[i] {
            assert(s@.subrange(0, p@.len() as int)[i as int] != p@[i as int]);
            return false;
        }
        i = i + 1;
    }
    assert(s@.subrange(0, p@.len() as int) =~= p@);
    true
}

fn ends_with(s: &str, p: &str) -> (r: bool)
    ensures
        r == has_suffix(s@, p@),
{
    let sc = chars_of(s);
    let pc = chars_of(p);
    if pc.len() > sc.len() {
        return false;
    }
    let total = sc.len();
    let offset = total - pc.len();
    let mut i: usize = 0;
    while i < pc.len()
        invariant
            sc@ == s@,
            pc@ == p@,
            pc@.len() <= sc@.len(),
            sc@.len() <= usize::MAX,
            offset == sc@.len() - pc@.len(),
            i <= pc@.len(),
            forall|k: int| 0 <= k < i ==> sc@[offset + k] == pc@[k],
        decreases pc@.len() - i,
    {
        assert(offset + i < sc@.len());
        if sc[offset + i] != pc[i] {
            assert(s@.subrange(offset as int, s@.len() as int)[i as int] != p@[i as int]);
            return false;
        }
        i = i + 1;
    }
    assert(s@.subrange(offset as int, s@.len() as int) =~= p@);
    true
}

fn keys_equal(a: &ScalarKey, b: &ScalarKey) -> (r: bool)
    ensures
        r == same_key(*a, *b),
{
    match (a, b) {
        (ScalarKey::Null, ScalarKey::Null) => true,
        (ScalarKey::Bool(x), ScalarKey::Bool(y)) => *x == *y,
        (ScalarKey::Number(x), ScalarKey::Number(y)) => *x == *y,
        (ScalarKey::Text(x), ScalarKey::Text(y)) => same_text(x.as_str(), y.as_str()),
        _ => false,
    }
}

fn order_of(a: &ScalarKey, b: &ScalarKey) -> (r: i8)
    ensures
        r as int == key_order(*a, *b),
{
    match (a, b) {
        (ScalarKey::Number(x), ScalarKey::Number(y)) => if *x < *y {
            -1
        } else if *x == *y {
            0
        } else {
            1
        },
        (ScalarKey::Text(x), ScalarKey::Text(y)) => match compare_text(x.as_str(), y.as_str()) {
            TextOrder::Less => -1,
            TextOrder::Equal => 0,
            TextOrder::Greater => 1,
        },
        _ => 2,
    }
}

fn passes(key: &ScalarKey, test: &KeyTest) -> (r: bool)
    ensures
        r == (test_predicate(*test))(*key),
{
    match test {
        KeyTest::Equal(k) => keys_equal(key, k),
        KeyTest::Range(op, k) => {
            let order = order_of(key, k);
            match op {
                CmpOp::Gt => order == 1,
                CmpOp::Ge => order == 0 || order == 1,
                CmpOp::Lt => order == -1,
                CmpOp::Le => order == -1 || order == 0,
                _ => false,
            }
        },
        KeyTest::Like(p) => match key {
            ScalarKey::Text(s) => like_match(s.as_str(), p),
            _ => false,
        },
        KeyTest::Prefix(p) => match key {
            ScalarKey::Text(s) => starts_with(s.as_str(), p),
            _ => false,
        },
        KeyTest::Suffix(p) => match key {
            ScalarKey::Text(s) => ends_with(s.as_str(), p),
            _ => false,
        },
    }
}

/// The documents of the values of `values` that pass `test`.
fn union_passing(values: &Vec<(ScalarKey, RoaringTreemap)>, test: &KeyTest) -> (r: RoaringTreemap)
    ensures
        treemap_members(r) == passing(values@, test_predicate(*test)),
{
    let mut out = treemap_new();
    let mut i: usize = 0;
    while i < values.len()
        invariant
            i <= values@.len(),
            forall|o: u64|
                #[trigger] treemap_members(out).contains(o) <==> exists|j: int|
                    0 <= j < i && (test_predicate(*test))(values@[j].0) && #[trigger] treemap_members(values@[j].1).contains(o),
        decreases values@.len() - i,
    {
        let ghost before = treemap_members(out);
        if passes(&values[i].0, test) {
            treemap_union_with(&mut out, &values[i].1);
        }
        proof {
            assert forall|o: u64| #[trigger] treemap_members(out).contains(o) <==> exists|j: int|
                0 <= j < i + 1 && (test_predicate(*test))(values@[j].0) && #[trigger] treemap_members(values@[j].1).contains(o) by {
                if exists|j: int|
                    0 <= j < i + 1 && (test_predicate(*test))(values@[j].0) && #[trigger] treemap_members(values@[j].1).contains(o) {
                    let j = choose|j: int|
                        0 <= j < i + 1 && (test_predicate(*test))(values@[j].0) && #[trigger] treemap_members(values@[j].1).contains(o);
                    if j < i {
                        assert(before.contains(o));
                    }
                }
                if treemap_members(out).contains(o) && !before.contains(o) {
                    assert((test_predicate(*test))(values@[i as int].0) && treemap_members(values@[i as int].1).contains(o));
                }
            }
        }
        i = i + 1;
    }
    assert(treemap_members(out) =~= passing(values@, test_predicate(*test)));
    out
}

/// The index of field `name`: the first entry so named.
pub open spec fn index_of_field(entries: Seq<(String, ScalarIndex)>, name: Seq<char>) -> Option<ScalarIndex>
    decreases entries.len(),
{
    if entries.len() == 0 {
        None
    } else if entries[0].0@ == name {
        Some(entries[0].1)
    } else {
        index_of_field(entries.drop_first(), name)
    }
}

/// The documents holding the value `key` (none without a key).
pub open spec fn equal_members(index: ScalarIndex, key: Option<ScalarKey>) -> Set<u64> {
    match key {
        Some(k) => passing(index.values@, equal_to(k)),
        None => Set::empty(),
    }
}

/// The documents a comparison selects by the index's values: equal, not
/// equal among those with the field, or in the range (none without a key).
pub open spec fn compare_selected(index: ScalarIndex, op: CmpOp, key: Option<ScalarKey>) -> Set<u64> {
    match op {
        CmpOp::Eq => equal_members(index, key),
        CmpOp::Ne => treemap_members(index.present).difference(equal_members(index, key)),
        _ => match key {
            Some(k) => passing(index.values@, ranged(op, k)),
            None => Set::empty(),
        },
    }
}

/// A comparison's result: a range needs range lookups enabled and a key.
pub open spec fn compare_result(index: ScalarIndex, op: CmpOp, key: Option<ScalarKey>) -> Option<Set<u64>> {
    match op {
        CmpOp::Eq | CmpOp::Ne => Some(compare_selected(index, op, key)),
        _ => if index.range_enabled && key is Some {
            Some(compare_selected(index, op, key))
        } else {
            None
        },
    }
}

/// The documents holding one of `keys`, or the live ones holding none when
/// `negated`.
pub open spec fn in_selected(index: ScalarIndex, keys: Seq<Option<ScalarKey>>, negated: bool, live: Set<u64>) -> Set<u64> {
    let any = Set::new(|o: u64| exists|j: int| 0 <= j < keys.len() && #[trigger] equal_members(index, keys[j]).contains(o));
    if negated {
        live.difference(any)
    } else {
        any
    }
}

/// The documents whose text value satisfies `pred`, or the live ones
/// without one when `negated`.
pub open spec fn text_selected(index: ScalarIndex, pred: spec_fn(ScalarKey) -> bool, negated: bool, live: Set<u64>) -> Set<u64> {
    if negated {
        live.difference(passing(index.values@, pred))
    } else {
        passing(index.values@, pred)
    }
}

/// A text test's result: it needs wildcard lookups enabled on a string
/// field.
pub open spec fn text_result(index: ScalarIndex, pred: spec_fn(ScalarKey) -> bool, negated: bool, live: Set<u64>) -> Option<Set<u64>> {
    if index.wildcard_enabled && index.string_typed {
        Some(text_selected(index, pred, negated, live))
    } else {
        None
    }
}

/// The documents with a null (or, `negated`, a non-null) value among the
/// live ones.
pub open spec fn null_selected(index: ScalarIndex, negated: bool, live: Set<u64>) -> Set<u64> {
    if negated {
        treemap_members(index.non_null)
    } else {
        live.difference(treemap_members(index.non_null))
    }
}

/// An exact result.
pub open spec fn exactly(set: Option<Set<u64>>) -> Option<(Set<u64>, bool)> {
    match set {
        Some(s) => Some((s, true)),
        None => None,
    }
}

/// The documents `filter` selects by the indexes' values, over the live
/// documents `live`: conjunction, disjunction and negation as set
/// operations, and each leaf as its index says (a field with no index, or
/// an all-of test, selects nothing).
pub open spec fn selected(entries: Seq<(String, ScalarIndex)>, filter: ScalarFilter, live: Set<u64>) -> Set<u64>
    decreases filter,
{
    match filter {
        ScalarFilter::And(l, r) => selected(entries, *l, live).intersect(selected(entries, *r, live)),
        ScalarFilter::Or(l, r) => selected(entries, *l, live).union(selected(entries, *r, live)),
        ScalarFilter::Not(inner) => live.difference(selected(entries, *inner, live)),
        ScalarFilter::Compare { field, op, key } => match index_of_field(entries, field@) {
            Some(index) => compare_selected(index, op, key),
            None => Set::empty(),
        },
        ScalarFilter::In { field, keys, negated } => match index_of_field(entries, field@) {
            Some(index) => in_selected(index, keys@, negated, live),
            None => Set::empty(),
        },
        ScalarFilter::Like { field, pattern, negated } => match index_of_field(entries, field@) {
            Some(index) => text_selected(index, liked(pattern@), negated, live),
            None => Set::empty(),
        },
        ScalarFilter::IsNull { field, negated } => match index_of_field(entries, field@) {
            Some(index) => null_selected(index, negated, live),
            None => Set::empty(),
        },
        ScalarFilter::ContainAll { .. } => Set::empty(),
        ScalarFilter::HasPrefix { field, prefix, negated } => match index_of_field(entries, field@) {
            Some(index) => text_selected(index, prefixed(prefix@), negated, live),
            None => Set::empty(),
        },
        ScalarFilter::HasSuffix { field, suffix, negated } => match index_of_field(entries, field@) {
            Some(index) => text_selected(index, suffixed(suffix@), negated, live),
            None => Set::empty(),
        },
    }
}

/// A side of a conjunction that ends it: empty (the conjunction is then
/// exactly empty) or selective (it is then taken as a superset).
pub open spec fn conjunction_cut(side: Option<(Set<u64>, bool)>) -> Option<Option<(Set<u64>, bool)>> {
    match side {
        Some((s, _)) => if s == Set::<u64>::empty() {
            Some(Some((Set::empty(), true)))
        } else if s.len() <= CONJUNCTION_EARLY_STOP {
            Some(Some((s, false)))
        } else {
            None
        },
        None => None,
    }
}

/// How a conjunction combines its evaluated sides.
pub open spec fn conjunction(left: Option<(Set<u64>, bool)>, right: Option<(Set<u64>, bool)>) -> Option<(Set<u64>, bool)> {
    match conjunction_cut(left) {
        Some(cut) => cut,
        None => match conjunction_cut(right) {
            Some(cut) => cut,
            None => match (left, right) {
                (Some((a, ea)), Some((b, eb))) => Some((a.intersect(b), ea && eb)),
                (Some((a, _)), None) => Some((a, false)),
                (None, Some((b, _))) => Some((b, false)),
                (None, None) => None,
            },
        },
    }
}

/// What evaluating `filter` gives: a bitmap and whether it is exact, or
/// nothing where the indexes cannot answer (a field with no index, a range
/// or text test that is not enabled, an all-of test, the negation of an
/// inexact result, a disjunction with an unanswerable side, a conjunction
/// with no answerable side).
pub open spec fn evaluation(entries: Seq<(String, ScalarIndex)>, filter: ScalarFilter, live: Set<u64>) -> Option<(Set<u64>, bool)>
    decreases filter,
{
    match filter {
        ScalarFilter::And(l, r) => conjunction(evaluation(entries, *l, live), evaluation(entries, *r, live)),
        ScalarFilter::Or(l, r) => match (evaluation(entries, *l, live), evaluation(entries, *r, live)) {
            (Some((a, ea)), Some((b, eb))) => Some((a.union(b), ea && eb)),
            _ => None,
        },
        ScalarFilter::Not(inner) => match evaluation(entries, *inner, live) {
            Some((s, true)) => Some((live.difference(s), true)),
            _ => None,
        },
        ScalarFilter::Compare { field, op, key } => match index_of_field(entries, field@) {
            Some(index) => exactly(compare_result(index, op, key)),
            None => None,
        },
        ScalarFilter::In { field, keys, negated } => match index_of_field(entries, field@) {
            Some(index) => Some((in_selected(index, keys@, negated, live), true)),
            None => None,
        },
        ScalarFilter::Like { field, pattern, negated } => match index_of_field(entries, field@) {
            Some(index) => exactly(text_result(index, liked(pattern@), negated, live)),
            None => None,
        },
        ScalarFilter::IsNull { field, negated } => match index_of_field(entries, field@) {
            Some(index) => Some((null_selected(index, negated, live), true)),
            None => None,
        },
        ScalarFilter::ContainAll { .. } => None,
        ScalarFilter::HasPrefix { field, prefix, negated } => match index_of_field(entries, field@) {
            Some(index) => exactly(text_result(index, prefixed(prefix@), negated, live)),
            None => None,
        },
        ScalarFilter::HasSuffix { field, suffix, negated } => match index_of_field(entries, field@) {
            Some(index) => exactly(text_result(index, suffixed(suffix@), negated, live)),
            None => None,
        },
    }
}

/// An evaluation never loses a matching document: an exact result is the
/// selected set, an inexact one holds it.
pub proof fn law_evaluation_is_sound(entries: Seq<(String, ScalarIndex)>, filter: ScalarFilter, live: Set<u64>)
    ensures
        evaluation(entries, filter, live) matches Some((s, exact)) ==> (exact ==> s == selected(entries, filter, live))
            && selected(entries, filter, live).subset_of(s),
    decreases filter,
{
    match filter {
        ScalarFilter::And(l, r) => {
            law_evaluation_is_sound(entries, *l, live);
            law_evaluation_is_sound(entries, *r, live);
            let sel = selected(entries, filter, live);
            let le = evaluation(entries, *l, live);
            let re = evaluation(entries, *r, live);
            if let Some((a, _)) = le {
                if a == Set::<u64>::empty() {
                    assert(sel =~= Set::<u64>::empty());
                }
            }
            if let Some((b, _)) = re {
                if b == Set::<u64>::empty() {
                    assert(sel =~= Set::<u64>::empty());
                }
            }
            if let Some((a, ea)) = le {
                if let Some((b, eb)) = re {
                    if ea && eb {
                        assert(a.intersect(b) =~= sel);
                    }
                }
            }
        },
        ScalarFilter::Or(l, r) => {
            law_evaluation_is_sound(entries, *l, live);
            law_evaluation_is_sound(entries, *r, live);
        },
        ScalarFilter::Not(inner) => {
            law_evaluation_is_sound(entries, *inner, live);
        },
        _ => {},
    }
}

impl ScalarIndex {
    /// The documents holding one of `keys` (or, `negated`, the live ones
    /// holding none).
    fn in_values(&self, keys: &Vec<Option<ScalarKey>>, negated: bool, live: &RoaringTreemap) -> (r: RoaringTreemap)
        ensures
            treemap_members(r) == in_selected(*self, keys@, negated, treemap_members(*live)),
    {
        let mut any = treemap_new();
        let mut j: usize = 0;
        while j < keys.len()
            invariant
                j <= keys@.len(),
                forall|o: u64|
                    #[trigger] treemap_members(any).contains(o) <==> exists|k: int|
                        0 <= k < j && #[trigger] equal_members(*self, keys@[k]).contains(o),
            decreases keys@.len() - j,
        {
            let ghost before = treemap_members(any);
            match &keys[j] {
                Some(key) => {
                    let found = union_passing(&self.values, &KeyTest::Equal(key));
                    treemap_union_with(&mut any, &found);
                },
                None => {},
            }
            proof {
                assert forall|o: u64| #[trigger] treemap_members(any).contains(o) <==> exists|k: int|
                    0 <= k < j + 1 && #[trigger] equal_members(*self, keys@[k]).contains(o) by {
                    if exists|k: int| 0 <= k < j + 1 && #[trigger] equal_members(*self, keys@[k]).contains(o) {
                        let k = choose|k: int| 0 <= k < j + 1 && #[trigger] equal_members(*self, keys@[k]).contains(o);
                        if k < j {
                            assert(before.contains(o));
                        }
                    }
                    if treemap_members(any).contains(o) && !before.contains(o) {
                        assert(equal_members(*self, keys@[j as int]).contains(o));
                    }
                }
            }
            j = j + 1;
        }
        let ghost all = Set::new(|o: u64| exists|k: int| 0 <= k < keys@.len() && #[trigger] equal_members(*self, keys@[k]).contains(o));
        assert(treemap_members(any) =~= all);
        if negated {
            let mut out = treemap_clone(live);
            treemap_subtract(&mut out, &any);
            out
        } else {
            any
        }
    }

    /// A comparison's result (see `compare_result`).
    fn compare(&self, op: CmpOp, key: &Option<ScalarKey>) -> (r: Option<RoaringTreemap>)
        ensures
            match r {
                Some(b) => compare_result(*self, op, *key) == Some(treemap_members(b)),
                None => compare_result(*self, op, *key) is None,
            },
    {
        let equal = match key {
            Some(k) => union_passing(&self.values, &KeyTest::Equal(k)),
            None => treemap_new(),
        };
        match op {
            CmpOp::Eq => Some(equal),
            CmpOp::Ne => {
                let mut out = treemap_clone(&self.present);
                treemap_subtract(&mut out, &equal);
                Some(out)
            },
            _ => {
                if !self.range_enabled {
                    return None;
                }
                match key {
                    Some(k) => Some(union_passing(&self.values, &KeyTest::Range(op, k))),
                    None => None,
                }
            },
        }
    }

    /// A text test's result (see `text_result`).
    fn text_test(&self, test: &KeyTest, negated: bool, live: &RoaringTreemap) -> (r: Option<RoaringTreemap>)
        ensures
            match r {
                Some(b) => text_result(*self, test_predicate(*test), negated, treemap_members(*live)) == Some(treemap_members(b)),
                None => text_result(*self, test_predicate(*test), negated, treemap_members(*live)) is None,
            },
    {
        if !self.wildcard_enabled || !self.string_typed {
            return None;
        }
        let found = union_passing(&self.values, test);
        if negated {
            let mut out = treemap_clone(live);
            treemap_subtract(&mut out, &found);
            Some(out)
        } else {
            Some(found)
        }
    }

    /// The null (or, `negated`, non-null) documents among the live ones.
    fn nulls(&self, negated: bool, live: &RoaringTreemap) -> (r: RoaringTreemap)
        ensures
            treemap_members(r) == null_selected(*self, negated, treemap_members(*live)),
    {
        if negated {
            treemap_clone(&self.non_null)
        } else {
            let mut out = treemap_clone(live);
            treemap_subtract(&mut out, &self.non_null);
            out
        }
    }
}

impl BitmapEvaluation {
    /// What the evaluation holds: its members and whether they are exact.
    pub open spec fn spec_result(&self) -> (Set<u64>, bool) {
        (treemap_members(self.bitmap), self.exact)
    }

    /// An exact evaluation of `bitmap`.
    pub fn exact(bitmap: RoaringTreemap) -> (r: Self)
        ensures
            r.spec_result() == (treemap_members(bitmap), true),
    {
        BitmapEvaluation { bitmap, exact: true }
    }

    /// Whether no document is in the bitmap.
    pub fn is_empty(&self) -> (r: bool)
        ensures
            r == (treemap_members(self.bitmap) == Set::<u64>::empty()),
    {
        treemap_is_empty(&self.bitmap)
    }

    /// Whether the bitmap is small enough to end a conjunction.
    pub fn is_selective(&self) -> (r: bool)
        ensures
            r == (treemap_members(self.bitmap).len() <= CONJUNCTION_EARLY_STOP),
    {
        treemap_len(&self.bitmap) <= CONJUNCTION_EARLY_STOP
    }

    /// The same bitmap, taken as a superset.
    pub fn into_conservative(self) -> (r: Self)
        ensures
            r.spec_result() == (treemap_members(self.bitmap), false),
    {
        BitmapEvaluation { bitmap: self.bitmap, exact: false }
    }
}

/// What an optional evaluation holds.
pub open spec fn result_of(r: Option<BitmapEvaluation>) -> Option<(Set<u64>, bool)> {
    match r {
        Some(e) => Some(e.spec_result()),
        None => None,
    }
}

impl ScalarIndexRegistry {
    /// The index of field `name` (see `index_of_field`).
    fn find(&self, name: &str) -> (r: Option<&ScalarIndex>)
        ensures
            match r {
                Some(index) => index_of_field(self.indexes@, name@) == Some(*index),
                None => index_of_field(self.indexes@, name@) is None,
            },
    {
        let mut i: usize = 0;
        assert(self.indexes@.subrange(0, self.indexes@.len() as int) =~= self.indexes@);
        while i < self.indexes.len()
            invariant
                i <= self.indexes@.len(),
                index_of_field(self.indexes@, name@) == index_of_field(
                    self.indexes@.subrange(i as int, self.indexes@.len() as int),
                    name@,
                ),
            decreases self.indexes@.len() - i,
        {
            let ghost rest = self.indexes@.subrange(i as int, self.indexes@.len() as int);
            if same_text(self.indexes[i].0.as_str(), name) {
                assert(rest[0] == self.indexes@[i as int]);
                return Some(&self.indexes[i].1);
            }
            proof {
                assert(rest.drop_first() =~= self.indexes@.subrange(i + 1, self.indexes@.len() as int));
            }
            i = i + 1;
        }
        None
    }

    /// Evaluates `filter` over the live documents of `ordinals` (see
    /// `evaluation`): `None` where the indexes cannot answer it; otherwise
    /// a bitmap that is the selected documents when exact and holds them
    /// when not (`law_evaluation_is_sound`).
    pub fn evaluate(&self, filter: &ScalarFilter, ordinals: &OrdinalTable) -> (r: Option<BitmapEvaluation>)
        ensures
            result_of(r) == evaluation(self.indexes@, *filter, ordinals.live_set()),
            r matches Some(e) ==> (e.exact ==> treemap_members(e.bitmap) == selected(
                self.indexes@,
                *filter,
                ordinals.live_set(),
            )) && selected(self.indexes@, *filter, ordinals.live_set()).subset_of(treemap_members(e.bitmap)),
        decreases filter, 1nat,
    {
        proof {
            law_evaluation_is_sound(self.indexes@, *filter, ordinals.live_set());
        }
        let live = ordinals.live();
        match filter {
            ScalarFilter::And(left, right) => self.evaluate_conjunction(left, right, ordinals, Ghost(*filter)),
            ScalarFilter::Or(left, right) => {
                let left = match self.evaluate(left, ordinals) {
                    Some(e) => e,
                    None => {
                        return None;
                    },
                };
                let right = match self.evaluate(right, ordinals) {
                    Some(e) => e,
                    None => {
                        return None;
                    },
                };
                let mut bitmap = left.bitmap;
                treemap_union_with(&mut bitmap, &right.bitmap);
                Some(BitmapEvaluation { bitmap, exact: left.exact && right.exact })
            },
            ScalarFilter::Not(inner) => {
                let inner = match self.evaluate(inner, ordinals) {
                    Some(e) => e,
                    None => {
                        return None;
                    },
                };
                if !inner.exact {
                    return None;
                }
                let mut bitmap = treemap_clone(live);
                treemap_subtract(&mut bitmap, &inner.bitmap);
                Some(BitmapEvaluation::exact(bitmap))
            },
            ScalarFilter::Compare { field, op, key } => {
                let index = self.find(field.as_str())?;
                match index.compare(*op, key) {
                    Some(bitmap) => Some(BitmapEvaluation::exact(bitmap)),
                    None => None,
                }
            },
            ScalarFilter::In { field, keys, negated } => {
                let index = self.find(field.as_str())?;
                Some(BitmapEvaluation::exact(index.in_values(keys, *negated, live)))
            },
            ScalarFilter::Like { field, pattern, negated } => {
                let index = self.find(field.as_str())?;
                let test = KeyTest::Like(pattern.as_str());
                match index.text_test(&test, *negated, live) {
                    Some(bitmap) => Some(BitmapEvaluation::exact(bitmap)),
                    None => None,
                }
            },
            ScalarFilter::IsNull { field, negated } => {
                let index = self.find(field.as_str())?;
                Some(BitmapEvaluation::exact(index.nulls(*negated, live)))
            },
            ScalarFilter::ContainAll { .. } => None,
            ScalarFilter::HasPrefix { field, prefix, negated } => {
                let index = self.find(field.as_str())?;
                let test = KeyTest::Prefix(prefix.as_str());
                match index.text_test(&test, *negated, live) {
                    Some(bitmap) => Some(BitmapEvaluation::exact(bitmap)),
                    None => None,
                }
            },
            ScalarFilter::HasSuffix { field, suffix, negated } => {
                let index = self.find(field.as_str())?;
                let test = KeyTest::Suffix(suffix.as_str());
                match index.text_test(&test, *negated, live) {
                    Some(bitmap) => Some(BitmapEvaluation::exact(bitmap)),
                    None => None,
                }
            },
        }
    }

    /// Evaluates a conjunction (see `conjunction`): an empty side makes it
    /// exactly empty, a selective side is taken as a superset, otherwise the
    /// answerable sides are intersected.
    fn evaluate_conjunction(
        &self,
        left: &Box<ScalarFilter>,
        right: &Box<ScalarFilter>,
        ordinals: &OrdinalTable,
        Ghost(whole): Ghost<ScalarFilter>,
    ) -> (r: Option<BitmapEvaluation>)
        requires
            whole == ScalarFilter::And(*left, *right),
        ensures
            result_of(r) == conjunction(
                evaluation(self.indexes@, **left, ordinals.live_set()),
                evaluation(self.indexes@, **right, ordinals.live_set()),
            ),
        decreases whole, 0nat,
    {
        proof {
            assert(decreases_to!(whole => whole->And_0));
            assert(decreases_to!(whole => whole->And_1));
        }
        let left = self.evaluate(left, ordinals);
        if let Some(side) = &left {
            if side.is_empty() {
                return Some(BitmapEvaluation::exact(treemap_new()));
            }
            if side.is_selective() {
                return Some(BitmapEvaluation { bitmap: treemap_clone(&side.bitmap), exact: false });
            }
        }
        let right = self.evaluate(right, ordinals);
        if let Some(side) = &right {
            if side.is_empty() {
                return Some(BitmapEvaluation::exact(treemap_new()));
            }
            if side.is_selective() {
                return Some(BitmapEvaluation { bitmap: treemap_clone(&side.bitmap), exact: false });
            }
        }
        match (left, right) {
            (Some(l), Some(r)) => Some(BitmapEvaluation { bitmap: treemap_intersection(&l.bitmap, &r.bitmap), exact: l.exact && r.exact }),
            (Some(indexed), None) => Some(indexed.into_conservative()),
            (None, Some(indexed)) => Some(indexed.into_conservative()),
            (None, None) => None,
        }
    }
}

/// The documents `values` lists under a value equal to `k`.
pub open spec fn documents_with(values: Seq<(ScalarKey, RoaringTreemap)>, k: ScalarKey) -> Set<u64> {
    passing(values, equal_to(k))
}

impl ScalarIndex {
    /// Records that document `ordinal` holds `key`: it joins the documents
    /// with the field, the non-null ones unless `key` is null, and those
    /// holding `key` (a new value gets an entry of its own).
    pub fn insert_value(&mut self, key: ScalarKey, ordinal: u64)
        ensures
            treemap_members(final(self).present) == treemap_members(old(self).present).insert(ordinal),
            treemap_members(final(self).non_null) == if key is Null {
                treemap_members(old(self).non_null)
            } else {
                treemap_members(old(self).non_null).insert(ordinal)
            },
            forall|k: ScalarKey|
                #[trigger] documents_with(final(self).values@, k) == if same_key(k, key) {
                    documents_with(old(self).values@, k).insert(ordinal)
                } else {
                    documents_with(old(self).values@, k)
                },
            final(self).range_enabled == old(self).range_enabled,
            final(self).wildcard_enabled == old(self).wildcard_enabled,
            final(self).string_typed == old(self).string_typed,
    {
        treemap_insert(&mut self.present, ordinal);
        let is_null = match &key {
            ScalarKey::Null => true,
            _ => false,
        };
        if !is_null {
            treemap_insert(&mut self.non_null, ordinal);
        }
        let ghost before = self.values@;
        let mut i: usize = 0;
        while i < self.values.len()
            invariant
                self.values@ == before,
                i <= before.len(),
                forall|j: int| 0 <= j < i ==> !same_key(#[trigger] before[j].0, key),
            ensures
                self.values@ == before,
                i <= before.len(),
                forall|j: int| 0 <= j < i ==> !same_key(#[trigger] before[j].0, key),
                i < before.len() ==> same_key(before[i as int].0, key),
            decreases before.len() - i,
        {
            if keys_equal(&self.values[i].0, &key) {
                break;
            }
            i = i + 1;
        }
        let ghost found = i < before.len();
        if i < self.values.len() {
            treemap_insert(&mut self.values[i].1, ordinal);
        } else {
            let mut bitmap = treemap_new();
            treemap_insert(&mut bitmap, ordinal);
            self.values.push((key, bitmap));
        }
        proof {
            let after = self.values@;
            assert forall|k: ScalarKey|
                #[trigger] documents_with(after, k) == if same_key(k, key) {
                    documents_with(before, k).insert(ordinal)
                } else {
                    documents_with(before, k)
                } by {
                let want = if same_key(k, key) {
                    documents_with(before, k).insert(ordinal)
                } else {
                    documents_with(before, k)
                };
                assert forall|o: u64| documents_with(after, k).contains(o) == want.contains(o) by {
                    if documents_with(after, k).contains(o) {
                        let j = choose|j: int|
                            0 <= j < after.len() && (equal_to(k))(after[j].0) && #[trigger] treemap_members(after[j].1).contains(o);
                        if j < before.len() && !(found && j == i) {
                            assert(after[j] == before[j]);
                            assert(documents_with(before, k).contains(o));
                        } else if o != ordinal {
                            assert(found && j == i);
                            assert(treemap_members(before[j].1).contains(o));
                            assert(documents_with(before, k).contains(o));
                        } else {
                            assert(same_key(after[j].0, k));
                            assert(same_key(after[j].0, key));
                        }
                    }
                    if want.contains(o) {
                        if documents_with(before, k).contains(o) {
                            let j = choose|j: int|
                                0 <= j < before.len() && (equal_to(k))(before[j].0) && #[trigger] treemap_members(before[j].1).contains(o);
                            assert(after[j].0 == before[j].0);
                            assert(treemap_members(after[j].1).contains(o));
                        } else {
                            let j = if found { i as int } else { before.len() as int };
                            assert(same_key(after[j].0, key));
                            assert(treemap_members(after[j].1).contains(o));
                            assert((equal_to(k))(after[j].0));
                        }
                    }
                }
                assert(documents_with(after, k) =~= want);
            }
        }
    }
}

impl ScalarIndex {
    /// Records that document `ordinal` no longer holds `key`: it leaves the
    /// documents with the field, the non-null ones and those holding `key`;
    /// a value left with no document loses its entry.
    pub fn remove_value(&mut self, key: &ScalarKey, ordinal: u64)
        ensures
            treemap_members(final(self).present) == treemap_members(old(self).present).remove(ordinal),
            treemap_members(final(self).non_null) == treemap_members(old(self).non_null).remove(ordinal),
            forall|k: ScalarKey|
                #[trigger] documents_with(final(self).values@, k) == if same_key(k, *key) {
                    documents_with(old(self).values@, k).remove(ordinal)
                } else {
                    documents_with(old(self).values@, k)
                },
            forall|j: int|
                0 <= j < final(self).values@.len() ==> treemap_members(#[trigger] final(self).values@[j].1)
                    != Set::<u64>::empty() || exists|i: int|
                    0 <= i < old(self).values@.len() && !same_key(old(self).values@[i].0, *key)
                        && old(self).values@[i] == final(self).values@[j],
            final(self).range_enabled == old(self).range_enabled,
            final(self).wildcard_enabled == old(self).wildcard_enabled,
            final(self).string_typed == old(self).string_typed,
    {
        treemap_remove(&mut self.present, ordinal);
        treemap_remove(&mut self.non_null, ordinal);
        let ghost before = self.values@;
        let mut pending: Vec<(ScalarKey, RoaringTreemap)> = Vec::new();
        std::mem::swap(&mut pending, &mut self.values);
        let mut reversed: Vec<(ScalarKey, RoaringTreemap)> = Vec::new();
        while pending.len() > 0
            invariant
                reversed@.len() + pending@.len() == before.len(),
                pending@ == before.subrange(0, pending@.len() as int),
                forall|i: int| 0 <= i < reversed@.len() ==> #[trigger] reversed@[i] == before[before.len() - 1 - i],
            decreases pending@.len(),
        {
            let entry = pending.pop().unwrap();
            reversed.push(entry);
        }
        let mut kept: Vec<(ScalarKey, RoaringTreemap)> = Vec::new();
        while reversed.len() > 0
            invariant
                reversed@.len() <= before.len(),
                forall|i: int| 0 <= i < reversed@.len() ==> #[trigger] reversed@[i] == before[before.len() - 1 - i],
                forall|k: ScalarKey|
                    #[trigger] documents_with(kept@, k) == if same_key(k, *key) {
                        documents_with(before.subrange(0, before.len() - reversed@.len()), k).remove(ordinal)
                    } else {
                        documents_with(before.subrange(0, before.len() - reversed@.len()), k)
                    },
                forall|j: int|
                    0 <= j < kept@.len() ==> treemap_members(#[trigger] kept@[j].1) != Set::<u64>::empty()
                        || exists|i: int|
                        0 <= i < before.len() && !same_key(before[i].0, *key) && before[i] == kept@[j],
            decreases reversed@.len(),
        {
            let ghost done = before.len() - reversed@.len();
            let ghost prev = before.subrange(0, done);
            let ghost kept_before = kept@;
            let (entry_key, mut bitmap) = reversed.pop().unwrap();
            let ghost original = bitmap;
            let matching = keys_equal(&entry_key, key);
            if matching {
                treemap_remove(&mut bitmap, ordinal);
            }
            let keep = !matching || !treemap_is_empty(&bitmap);
            let ghost entry = (entry_key, bitmap);
            if keep {
                kept.push((entry_key, bitmap));
            }
            proof {
                let next = before.subrange(0, done + 1);
                assert(next =~= prev.push(before[done]));
                assert(before[done] == (entry.0, original));
                assert forall|k: ScalarKey|
                    #[trigger] documents_with(kept@, k) == if same_key(k, *key) {
                        documents_with(next, k).remove(ordinal)
                    } else {
                        documents_with(next, k)
                    } by {
                    let want = if same_key(k, *key) {
                        documents_with(next, k).remove(ordinal)
                    } else {
                        documents_with(next, k)
                    };
                    let old_want = if same_key(k, *key) {
                        documents_with(prev, k).remove(ordinal)
                    } else {
                        documents_with(prev, k)
                    };
                    assert(documents_with(kept_before, k) == old_want);
                    assert forall|o: u64| documents_with(kept@, k).contains(o) == want.contains(o) by {
                        if documents_with(kept@, k).contains(o) {
                            let j = choose|j: int|
                                0 <= j < kept@.len() && (equal_to(k))(kept@[j].0) && #[trigger] treemap_members(kept@[j].1).contains(o);
                            if j < kept_before.len() {
                                assert(kept@[j] == kept_before[j]);
                                assert(documents_with(kept_before, k).contains(o));
                                if documents_with(prev, k).contains(o) {
                                    let q = choose|q: int|
                                        0 <= q < prev.len() && (equal_to(k))(prev[q].0) && #[trigger] treemap_members(prev[q].1).contains(o);
                                    assert(next[q] == prev[q]);
                                    assert(treemap_members(next[q].1).contains(o));
                                    assert(documents_with(next, k).contains(o));
                                }
                            } else {
                                assert(kept@[j] == entry);
                                if matching {
                                    assert(treemap_members(original).contains(o));
                                } else {
                                    assert(treemap_members(original).contains(o));
                                }
                                assert(next[done] == before[done]);
                                assert(treemap_members(next[done].1).contains(o));
                                assert((equal_to(k))(next[done].0));
                                assert(documents_with(next, k).contains(o));
                                if same_key(k, *key) {
                                    assert(same_key(entry.0, *key));
                                }
                            }
                        }
                        if want.contains(o) {
                            let q = choose|q: int|
                                0 <= q < next.len() && (equal_to(k))(next[q].0) && #[trigger] treemap_members(next[q].1).contains(o);
                            if q < done {
                                assert(prev[q] == next[q]);
                                assert(treemap_members(prev[q].1).contains(o));
                                assert(documents_with(prev, k).contains(o));
                                assert(old_want.contains(o));
                                let j = choose|j: int|
                                    0 <= j < kept_before.len() && (equal_to(k))(kept_before[j].0) && #[trigger] treemap_members(kept_before[j].1).contains(o);
                                assert(kept@[j] == kept_before[j]);
                                assert(treemap_members(kept@[j].1).contains(o));
                            } else {
                                assert(next[q] == before[done]);
                                if matching {
                                    assert(same_key(k, *key));
                                }
                                assert(treemap_members(bitmap).contains(o));
                                assert(keep);
                                assert(kept@[kept@.len() - 1] == entry);
                                assert(treemap_members(kept@[kept@.len() - 1].1).contains(o));
                                assert((equal_to(k))(kept@[kept@.len() - 1].0));
                            }
                        }
                    }
                    assert(documents_with(kept@, k) =~= want);
                }
                assert forall|j: int|
                    0 <= j < kept@.len() implies treemap_members(#[trigger] kept@[j].1) != Set::<u64>::empty()
                        || exists|i: int|
                        0 <= i < before.len() && !same_key(before[i].0, *key) && before[i] == kept@[j] by {
                    if j == kept_before.len() {
                        if !matching {
                            assert(before[done] == kept@[j]);
                        }
                    } else {
                        assert(kept@[j] == kept_before[j]);
                    }
                }
            }
        }
        proof {
            assert(before.subrange(0, before.len() as int) =~= before);
        }
        self.values = kept;
    }
}

/// What a scalar index holds: the documents with the field, those with a
/// non-null value, and the documents holding each value.
#[verifier::ext_equal]
pub struct ScalarState {
    pub present: Set<u64>,
    pub non_null: Set<u64>,
    pub holders: spec_fn(ScalarKey) -> Set<u64>,
}

/// Two optional values are the same.
pub open spec fn same_value(a: Option<ScalarKey>, b: Option<ScalarKey>) -> bool {
    match (a, b) {
        (None, None) => true,
        (Some(x), Some(y)) => same_key(x, y),
        _ => false,
    }
}

/// The state after document `change.0` leaves value `change.1` (when it
/// had one) and takes value `change.2` (when it has one); a document whose
/// value did not change leaves the state as it was.
pub open spec fn value_step(s: ScalarState, change: (u64, Option<ScalarKey>, Option<ScalarKey>)) -> ScalarState {
    let o = change.0;
    if same_value(change.1, change.2) {
        s
    } else {
        let left = match change.1 {
            Some(pk) => ScalarState {
                present: s.present.remove(o),
                non_null: s.non_null.remove(o),
                holders: |k: ScalarKey| if same_key(k, pk) {
                    (s.holders)(k).remove(o)
                } else {
                    (s.holders)(k)
                },
            },
            None => s,
        };
        match change.2 {
            Some(ck) => ScalarState {
                present: left.present.insert(o),
                non_null: if ck is Null {
                    left.non_null
                } else {
                    left.non_null.insert(o)
                },
                holders: |k: ScalarKey| if same_key(k, ck) {
                    (left.holders)(k).insert(o)
                } else {
                    (left.holders)(k)
                },
            },
            None => left,
        }
    }
}

/// The state after `changes`, applied in order.
pub open spec fn values_after(s: ScalarState, changes: Seq<(u64, Option<ScalarKey>, Option<ScalarKey>)>) -> ScalarState
    decreases changes.len(),
{
    if changes.len() == 0 {
        s
    } else {
        value_step(values_after(s, changes.drop_last()), changes.last())
    }
}

/// The last change of `changes` for document `ordinal` that changes its
/// value, as `(previous, current)`; `None` when there is none.
pub open spec fn last_value_change(changes: Seq<(u64, Option<ScalarKey>, Option<ScalarKey>)>, ordinal: u64) -> Option<
    (Option<ScalarKey>, Option<ScalarKey>),
>
    decreases changes.len(),
{
    if changes.len() == 0 {
        None
    } else if changes.last().0 == ordinal && !same_value(changes.last().1, changes.last().2) {
        Some((changes.last().1, changes.last().2))
    } else {
        last_value_change(changes.drop_last(), ordinal)
    }
}

/// What `changes` leave for one document: after its last value change it
/// has the field exactly when that change gives it a value; it counts as
/// non-null when that value is not null, and not when it had a value
/// before and now has none or a null; it is held under the new value and
/// no longer under the value it had before. With no such change, whether
/// it has the field, a non-null value, and each value, is as before.
pub open spec fn value_entry_follows_changes(
    before: ScalarState,
    after: ScalarState,
    changes: Seq<(u64, Option<ScalarKey>, Option<ScalarKey>)>,
    ordinal: u64,
) -> bool {
    match last_value_change(changes, ordinal) {
        Some((previous, current)) => {
            &&& after.present.contains(ordinal) == current is Some
            &&& (current matches Some(k) && !(k is Null)) ==> after.non_null.contains(ordinal)
            &&& (previous is Some && !(current matches Some(k) && !(k is Null))) ==> !after.non_null.contains(ordinal)
            &&& forall|k: ScalarKey|
                #![trigger (after.holders)(k)]
                (current matches Some(c) && same_key(k, c)) ==> (after.holders)(k).contains(ordinal)
            &&& forall|k: ScalarKey|
                #![trigger (after.holders)(k)]
                (previous matches Some(p) && same_key(k, p)) && !(current matches Some(c) && same_key(k, c))
                    ==> !(after.holders)(k).contains(ordinal)
        },
        None => {
            &&& after.present.contains(ordinal) == before.present.contains(ordinal)
            &&& after.non_null.contains(ordinal) == before.non_null.contains(ordinal)
            &&& forall|k: ScalarKey|
                #![trigger (after.holders)(k)]
                (after.holders)(k).contains(ordinal) == (before.holders)(k).contains(ordinal)
        },
    }
}

/// After any run of value changes, each document's entry is decided by its
/// last change of value alone (see `value_entry_follows_changes`):
/// changes of other documents and changes that keep the value leave it
/// alone.
pub proof fn law_values_follow_last_change(
    s: ScalarState,
    changes: Seq<(u64, Option<ScalarKey>, Option<ScalarKey>)>,
    ordinal: u64,
)
    ensures
        value_entry_follows_changes(s, values_after(s, changes), changes, ordinal),
    decreases changes.len(),
{
    if changes.len() > 0 {
        law_values_follow_last_change(s, changes.drop_last(), ordinal);
        let prev = values_after(s, changes.drop_last());
        let after = values_after(s, changes);
        let last = changes.last();
        if last.0 == ordinal && !same_value(last.1, last.2) {
            assert(last_value_change(changes, ordinal) == Some((last.1, last.2)));
            assert(after.present.contains(ordinal) == last.2 is Some);
            assert forall|k: ScalarKey|
                (last.2 matches Some(c) && same_key(k, c)) implies #[trigger] (after.holders)(k).contains(ordinal) by {}
            assert forall|k: ScalarKey|
                (last.1 matches Some(p) && same_key(k, p)) && !(last.2 matches Some(c) && same_key(k, c)) implies
                    !#[trigger] (after.holders)(k).contains(ordinal) by {}
        } else if last.0 != ordinal && !same_value(last.1, last.2) {
            assert(last_value_change(changes, ordinal) == last_value_change(changes.drop_last(), ordinal));
            assert(after.present.contains(ordinal) == prev.present.contains(ordinal));
            assert(after.non_null.contains(ordinal) == prev.non_null.contains(ordinal));
            assert forall|k: ScalarKey|
                #[trigger] (after.holders)(k).contains(ordinal) == (prev.holders)(k).contains(ordinal) by {}
        } else {
            assert(after == prev);
            assert(last_value_change(changes, ordinal) == last_value_change(changes.drop_last(), ordinal));
        }
    }
}

impl ScalarIndex {
    /// What the index holds.
    pub open spec fn state(&self) -> ScalarState {
        ScalarState {
            present: treemap_members(self.present),
            non_null: treemap_members(self.non_null),
            holders: |k: ScalarKey| documents_with(self.values@, k),
        }
    }

    /// Applies value changes `(ordinal, previous, current)` in order: a
    /// document whose value changed leaves its previous value and takes
    /// its current one.
    pub fn apply_value_changes(&mut self, changes: Vec<(u64, Option<ScalarKey>, Option<ScalarKey>)>)
        ensures
            final(self).state() == values_after(old(self).state(), changes@),
            forall|ordinal: u64|
                #[trigger] value_entry_follows_changes(old(self).state(), final(self).state(), changes@, ordinal),
            final(self).range_enabled == old(self).range_enabled,
            final(self).wildcard_enabled == old(self).wildcard_enabled,
            final(self).string_typed == old(self).string_typed,
    {
        let ghost all = changes@;
        let ghost start = self.state();
        let mut pending = changes;
        let mut reversed: Vec<(u64, Option<ScalarKey>, Option<ScalarKey>)> = Vec::new();
        while pending.len() > 0
            invariant
                reversed@.len() + pending@.len() == all.len(),
                pending@ == all.subrange(0, pending@.len() as int),
                forall|i: int| 0 <= i < reversed@.len() ==> #[trigger] reversed@[i] == all[all.len() - 1 - i],
            decreases pending@.len(),
        {
            let change = pending.pop().unwrap();
            reversed.push(change);
        }
        proof {
            assert(all.subrange(0, 0) =~= Seq::<(u64, Option<ScalarKey>, Option<ScalarKey>)>::empty());
        }
        while reversed.len() > 0
            invariant
                reversed@.len() <= all.len(),
                forall|i: int| 0 <= i < reversed@.len() ==> #[trigger] reversed@[i] == all[all.len() - 1 - i],
                self.state() == values_after(start, all.subrange(0, all.len() - reversed@.len())),
                self.range_enabled == old(self).range_enabled,
                self.wildcard_enabled == old(self).wildcard_enabled,
                self.string_typed == old(self).string_typed,
            decreases reversed@.len(),
        {
            let ghost done = all.len() - reversed@.len();
            let ghost before = self.state();
            let (ordinal, previous, current) = reversed.pop().unwrap();
            let ghost change = (ordinal, previous, current);
            let unchanged = match (&previous, &current) {
                (None, None) => true,
                (Some(p), Some(c)) => keys_equal(p, c),
                _ => false,
            };
            if !unchanged {
                let ghost left_state = match change.1 {
                    Some(pk) => ScalarState {
                        present: before.present.remove(ordinal),
                        non_null: before.non_null.remove(ordinal),
                        holders: |k: ScalarKey| if same_key(k, pk) {
                            (before.holders)(k).remove(ordinal)
                        } else {
                            (before.holders)(k)
                        },
                    },
                    None => before,
                };
                match &previous {
                    Some(p) => {
                        self.remove_value(p, ordinal);
                    },
                    None => {},
                }
                proof {
                    assert(self.state() =~= left_state);
                }
                match current {
                    Some(c) => {
                        self.insert_value(c, ordinal);
                    },
                    None => {},
                }
                proof {
                    assert(self.state() =~= value_step(before, change));
                }
            }
            proof {
                assert(all.subrange(0, done + 1).drop_last() =~= all.subrange(0, done));
                assert(all.subrange(0, done + 1).last() == change);
            }
        }
        proof {
            assert(all.subrange(0, all.len() as int) =~= all);
            assert forall|ordinal: u64|
                #[trigger] value_entry_follows_changes(start, self.state(), all, ordinal) by {
                law_values_follow_last_change(start, all, ordinal);
            }
        }
    }
}

} // verus!
