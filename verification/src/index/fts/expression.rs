//! Boolean full-text expressions over the term dictionary: which documents
//! an expression matches, how many candidates it is expected to produce, and
//! the candidate sets themselves.

use super::posting_list::{in_key_order, PostingList};
use std::sync::Arc;
use super::{FtsIndex, PostingEntry};
use crate::index::bitmap::{
    treemap_insert, treemap_is_empty, treemap_members, treemap_new, treemap_union_with,
    treemap_values,
};
use crate::index::hnsw::clamp_usize;
use roaring::RoaringTreemap;
use vstd::prelude::*;

verus! {

/// How a clause takes part in its parent: optional, required, or
/// prohibited.
#[derive(Debug, Clone, Copy, PartialEq, Eq, Structural)]
pub enum FtsModifier {
    Optional,
    Must,
    MustNot,
}

/// The shape of a full-text expression.
#[derive(Debug)]
pub enum FtsExprKind {
    Empty,
    Term(String),
    Phrase(Vec<String>),
    And(Vec<FtsExpr>),
    Or(Vec<FtsExpr>),
}

/// A full-text expression with the modifier its parent applies to it.
#[derive(Debug)]
pub struct FtsExpr {
    pub kind: FtsExprKind,
    pub modifier: FtsModifier,
}

/// Term postings as the index holds them.
pub type Postings = Map<Seq<char>, Map<u64, PostingEntry>>;

/// Whether term `t` occurs in document `ordinal`.
pub open spec fn term_holds(postings: Postings, t: Seq<char>, ordinal: u64) -> bool {
    postings.contains_key(t) && postings[t].contains_key(ordinal)
}

/// Whether document `ordinal` matches `expr`: a term where it occurs, a
/// phrase where all of its terms occur, a conjunction or disjunction by
/// `and_matches` or `or_matches`.
pub open spec fn expr_matches(postings: Postings, expr: FtsExpr, ordinal: u64) -> bool
    decreases expr,
{
    match expr.kind {
        FtsExprKind::Empty => false,
        FtsExprKind::Term(t) => term_holds(postings, t@, ordinal),
        FtsExprKind::Phrase(terms) => phrase_matches(postings, terms@, ordinal),
        FtsExprKind::And(children) => {
            proof {
                assert(decreases_to!(expr => expr.kind));
                assert(decreases_to!(expr.kind => expr.kind->And_0));
            }
            and_matches(postings, children, ordinal)
        },
        FtsExprKind::Or(children) => {
            proof {
                assert(decreases_to!(expr => expr.kind));
                assert(decreases_to!(expr.kind => expr.kind->Or_0));
            }
            or_matches(postings, children, ordinal)
        },
    }
}

/// A phrase matches where it has a term and every one of its terms occurs.
pub open spec fn phrase_matches(postings: Postings, terms: Seq<String>, ordinal: u64) -> bool {
    terms.len() > 0 && forall|i: int|
        0 <= i < terms.len() ==> term_holds(postings, (#[trigger] terms[i])@, ordinal)
}

/// A conjunction matches when it has a clause that is not prohibited,
/// every such clause matches and no prohibited one does.
pub open spec fn and_matches(postings: Postings, children: Vec<FtsExpr>, ordinal: u64) -> bool
    decreases children,
{
    &&& exists|i: int|
        0 <= i < children@.len() && (#[trigger] children@[i]).modifier != FtsModifier::MustNot
    &&& forall|i: int|
        0 <= i < children@.len() ==> (if (#[trigger] children@[i]).modifier == FtsModifier::MustNot {
            !expr_matches(postings, children@[i], ordinal)
        } else {
            expr_matches(postings, children@[i], ordinal)
        })
}

/// A disjunction matches when no prohibited clause matches and either
/// every required clause matches (if there is one) or some optional clause
/// does.
pub open spec fn or_matches(postings: Postings, children: Vec<FtsExpr>, ordinal: u64) -> bool
    decreases children,
{
    &&& forall|i: int|
        0 <= i < children@.len() && (#[trigger] children@[i]).modifier == FtsModifier::MustNot
            ==> !expr_matches(postings, children@[i], ordinal)
    &&& if exists|i: int|
        0 <= i < children@.len() && (#[trigger] children@[i]).modifier == FtsModifier::Must {
        forall|i: int|
            0 <= i < children@.len() && (#[trigger] children@[i]).modifier == FtsModifier::Must
                ==> expr_matches(postings, children@[i], ordinal)
    } else {
        exists|i: int|
            0 <= i < children@.len() && (#[trigger] children@[i]).modifier == FtsModifier::Optional
                && expr_matches(postings, children@[i], ordinal)
    }
}

/// The documents `expr` matches.
pub open spec fn matching(postings: Postings, expr: FtsExpr) -> Set<u64> {
    Set::new(|ordinal: u64| expr_matches(postings, expr, ordinal))
}

/// Entries in the posting list of `t` (none when `t` is absent).
pub open spec fn posting_size(postings: Postings, t: Seq<char>) -> int {
    if postings.contains_key(t) {
        postings[t].dom().len() as int
    } else {
        0
    }
}

/// The smallest posting size among the first `n` of `terms`; -1 for none.
pub open spec fn smallest_posting(postings: Postings, terms: Seq<String>, n: int) -> int
    decreases n,
{
    if n <= 0 || n > terms.len() {
        -1
    } else {
        let rest = smallest_posting(postings, terms, n - 1);
        let here = posting_size(postings, terms[n - 1]@);
        if rest < 0 || here < rest {
            here
        } else {
            rest
        }
    }
}

/// The clauses of a conjunction or disjunction; none otherwise.
pub open spec fn clauses(expr: FtsExpr) -> Seq<FtsExpr> {
    match expr.kind {
        FtsExprKind::And(children) => children@,
        FtsExprKind::Or(children) => children@,
        _ => Seq::empty(),
    }
}

/// `-1` as "none" turned into zero.
pub open spec fn or_zero(value: int) -> int {
    if value < 0 {
        0
    } else {
        value
    }
}

/// How many candidates `expr` is expected to produce: a term's posting
/// size; a phrase's smallest posting size; the smallest estimate of a
/// conjunction's clauses that are not prohibited; for a disjunction, the
/// smallest estimate of its required clauses if it has any, else the
/// saturating sum over its optional clauses; zero where there is nothing
/// to take.
pub open spec fn estimate(postings: Postings, expr: FtsExpr) -> int
    decreases expr, clauses(expr).len() + 1,
{
    match expr.kind {
        FtsExprKind::Empty => 0,
        FtsExprKind::Term(t) => posting_size(postings, t@),
        FtsExprKind::Phrase(terms) => or_zero(smallest_posting(postings, terms@, terms@.len() as int)),
        FtsExprKind::And(children) => or_zero(least_estimate(postings, expr, children@.len() as int, false)),
        FtsExprKind::Or(children) => if exists|i: int|
            0 <= i < children@.len() && (#[trigger] children@[i]).modifier == FtsModifier::Must {
            or_zero(least_estimate(postings, expr, children@.len() as int, true))
        } else {
            optional_sum(postings, expr, children@.len() as int)
        },
    }
}

/// Whether a clause with `modifier` counts toward a smallest estimate: a
/// required one when `required_only`, else any that is not prohibited.
pub open spec fn counted(modifier: FtsModifier, required_only: bool) -> bool {
    if required_only {
        modifier == FtsModifier::Must
    } else {
        modifier != FtsModifier::MustNot
    }
}

/// The smallest estimate among the first `n` clauses of `expr` that count;
/// -1 for none.
pub open spec fn least_estimate(postings: Postings, expr: FtsExpr, n: int, required_only: bool) -> int
    decreases expr, n,
{
    if n <= 0 || n > clauses(expr).len() {
        -1
    } else {
        let child = clauses(expr)[n - 1];
        proof {
            assert(decreases_to!(expr => expr.kind));
            match expr.kind {
                FtsExprKind::And(children) => {
                    assert(decreases_to!(expr.kind => expr.kind->And_0));
                    assert(decreases_to!(children => children@));
                    assert(decreases_to!(children@ => children@[n - 1]));
                },
                FtsExprKind::Or(children) => {
                    assert(decreases_to!(expr.kind => expr.kind->Or_0));
                    assert(decreases_to!(children => children@));
                    assert(decreases_to!(children@ => children@[n - 1]));
                },
                _ => {},
            }
        }
        let rest = least_estimate(postings, expr, n - 1, required_only);
        if counted(child.modifier, required_only) {
            let here = estimate(postings, child);
            if rest < 0 || here < rest {
                here
            } else {
                rest
            }
        } else {
            rest
        }
    }
}

/// The saturating sum of the estimates of the optional clauses among the
/// first `n` clauses of `expr`.
pub open spec fn optional_sum(postings: Postings, expr: FtsExpr, n: int) -> int
    decreases expr, n,
{
    if n <= 0 || n > clauses(expr).len() {
        0
    } else {
        let child = clauses(expr)[n - 1];
        proof {
            assert(decreases_to!(expr => expr.kind));
            match expr.kind {
                FtsExprKind::And(children) => {
                    assert(decreases_to!(expr.kind => expr.kind->And_0));
                    assert(decreases_to!(children => children@));
                    assert(decreases_to!(children@ => children@[n - 1]));
                },
                FtsExprKind::Or(children) => {
                    assert(decreases_to!(expr.kind => expr.kind->Or_0));
                    assert(decreases_to!(children => children@));
                    assert(decreases_to!(children@ => children@[n - 1]));
                },
                _ => {},
            }
        }
        let rest = optional_sum(postings, expr, n - 1);
        if child.modifier == FtsModifier::Optional {
            clamp_usize(rest + estimate(postings, child))
        } else {
            rest
        }
    }
}

/// The estimate from which scanning is preferred over `documents`
/// documents.
pub open spec fn scan_threshold(documents: int, has_phrase: bool) -> int {
    if has_phrase {
        clamp_usize(documents + 1) / 2
    } else {
        documents - documents / 4
    }
}

/// An ordinal is a candidate of an expression exactly when the expression
/// matches it.
pub proof fn law_candidates_are_the_matches(postings: Postings, expr: FtsExpr, ordinal: u64)
    ensures
        matching(postings, expr).contains(ordinal) == expr_matches(postings, expr, ordinal),
{
}


impl FtsIndex {
    /// Whether document `ordinal` occurs in the posting list of `term`.
    fn term_matches(&self, term: &str, ordinal: u64) -> (r: bool)
        requires
            self.well_formed(),
        ensures
            r == term_holds(self.model().postings, term@, ordinal),
    {
        match self.posting(term) {
            Some(posting) => posting.get(ordinal).is_some(),
            None => false,
        }
    }

    /// Whether document `ordinal` matches `expression` (see `expr_matches`).
    pub fn candidate_matches(&self, expression: &FtsExpr, ordinal: u64) -> (r: bool)
        requires
            self.well_formed(),
        ensures
            r == expr_matches(self.model().postings, *expression, ordinal),
        decreases expression,
    {
        let ghost postings = self.model().postings;
        match &expression.kind {
            FtsExprKind::Empty => false,
            FtsExprKind::Term(term) => self.term_matches(term.as_str(), ordinal),
            FtsExprKind::Phrase(terms) => {
                if terms.len() == 0 {
                    return false;
                }
                let mut i: usize = 0;
                while i < terms.len()
                    invariant
                        self.well_formed(),
                        postings == self.model().postings,
                        i <= terms@.len(),
                        expression.kind == FtsExprKind::Phrase(*terms),
                        forall|j: int| 0 <= j < i ==> term_holds(postings, (#[trigger] terms@[j])@, ordinal),
                    decreases terms@.len() - i,
                {
                    if !self.term_matches(terms[i].as_str(), ordinal) {
                        assert(!term_holds(postings, terms@[i as int]@, ordinal));
                        return false;
                    }
                    i = i + 1;
                }
                true
            },
            FtsExprKind::And(children) => {
                let mut has_positive = false;
                let mut i: usize = 0;
                while i < children.len()
                    invariant
                        self.well_formed(),
                        postings == self.model().postings,
                        i <= children@.len(),
                        expression.kind == FtsExprKind::And(*children),
                        has_positive == exists|j: int|
                            0 <= j < i && (#[trigger] children@[j]).modifier != FtsModifier::MustNot,
                        forall|j: int|
                            0 <= j < i ==> (if (#[trigger] children@[j]).modifier == FtsModifier::MustNot {
                                !expr_matches(postings, children@[j], ordinal)
                            } else {
                                expr_matches(postings, children@[j], ordinal)
                            }),
                    decreases children@.len() - i,
                {
                    let child = &children[i];
                    proof {
                        assert(decreases_to!(*expression => expression.kind));
                        assert(decreases_to!(expression.kind => expression.kind->And_0));
                        assert(decreases_to!(*children => children@));
                        assert(decreases_to!(children@ => children@[i as int]));
                    }
                    let matched = self.candidate_matches(child, ordinal);
                    if child.modifier == FtsModifier::MustNot {
                        if matched {
                            return false;
                        }
                    } else {
                        has_positive = true;
                        if !matched {
                            return false;
                        }
                    }
                    i = i + 1;
                }
                has_positive
            },
            FtsExprKind::Or(children) => {
                let mut has_required = false;
                let mut all_required = true;
                let mut any_optional = false;
                let mut i: usize = 0;
                while i < children.len()
                    invariant
                        self.well_formed(),
                        postings == self.model().postings,
                        i <= children@.len(),
                        expression.kind == FtsExprKind::Or(*children),
                        forall|j: int|
                            0 <= j < i && (#[trigger] children@[j]).modifier == FtsModifier::MustNot
                                ==> !expr_matches(postings, children@[j], ordinal),
                        has_required == exists|j: int|
                            0 <= j < i && (#[trigger] children@[j]).modifier == FtsModifier::Must,
                        all_required == forall|j: int|
                            0 <= j < i && (#[trigger] children@[j]).modifier == FtsModifier::Must
                                ==> expr_matches(postings, children@[j], ordinal),
                        any_optional == exists|j: int|
                            0 <= j < i && (#[trigger] children@[j]).modifier == FtsModifier::Optional
                                && expr_matches(postings, children@[j], ordinal),
                    decreases children@.len() - i,
                {
                    let child = &children[i];
                    proof {
                        assert(decreases_to!(*expression => expression.kind));
                        assert(decreases_to!(expression.kind => expression.kind->Or_0));
                        assert(decreases_to!(*children => children@));
                        assert(decreases_to!(children@ => children@[i as int]));
                    }
                    let matched = self.candidate_matches(child, ordinal);
                    match child.modifier {
                        FtsModifier::MustNot => {
                            if matched {
                                return false;
                            }
                        },
                        FtsModifier::Must => {
                            has_required = true;
                            if !matched {
                                all_required = false;
                            }
                        },
                        FtsModifier::Optional => {
                            if matched {
                                any_optional = true;
                            }
                        },
                    }
                    i = i + 1;
                }
                if has_required {
                    all_required
                } else {
                    any_optional
                }
            },
        }
    }
    /// The number of entries in the posting list of `term`.
    fn posting_len(&self, term: &str) -> (r: usize)
        requires
            self.well_formed(),
        ensures
            r == posting_size(self.model().postings, term@),
    {
        match self.posting(term) {
            Some(posting) => posting.len(),
            None => 0,
        }
    }

    /// How many candidates `expression` is expected to produce (see
    /// `estimate`).
    pub fn estimated_candidates(&self, expression: &FtsExpr) -> (r: usize)
        requires
            self.well_formed(),
        ensures
            r == estimate(self.model().postings, *expression),
        decreases expression,
    {
        let ghost postings = self.model().postings;
        match &expression.kind {
            FtsExprKind::Empty => 0,
            FtsExprKind::Term(term) => self.posting_len(term.as_str()),
            FtsExprKind::Phrase(terms) => {
                let mut found = false;
                let mut best: usize = 0;
                let mut i: usize = 0;
                while i < terms.len()
                    invariant
                        self.well_formed(),
                        postings == self.model().postings,
                        i <= terms@.len(),
                        expression.kind == FtsExprKind::Phrase(*terms),
                        !found ==> best == 0,
                        smallest_posting(postings, terms@, i as int) == if found {
                            best as int
                        } else {
                            -1
                        },
                    decreases terms@.len() - i,
                {
                    let here = self.posting_len(terms[i].as_str());
                    if !found || here < best {
                        best = here;
                    }
                    found = true;
                    i = i + 1;
                }
                best
            },
            FtsExprKind::And(children) => {
                let mut found = false;
                let mut best: usize = 0;
                let mut i: usize = 0;
                while i < children.len()
                    invariant
                        self.well_formed(),
                        postings == self.model().postings,
                        i <= children@.len(),
                        expression.kind == FtsExprKind::And(*children),
                        clauses(*expression) == children@,
                        !found ==> best == 0,
                        least_estimate(postings, *expression, i as int, false) == if found {
                            best as int
                        } else {
                            -1
                        },
                    decreases children@.len() - i,
                {
                    let child = &children[i];
                    if child.modifier != FtsModifier::MustNot {
                        proof {
                            assert(decreases_to!(*expression => expression.kind));
                            assert(decreases_to!(expression.kind => expression.kind->And_0));
                            assert(decreases_to!(*children => children@));
                            assert(decreases_to!(children@ => children@[i as int]));
                        }
                        let here = self.estimated_candidates(child);
                        if !found || here < best {
                            best = here;
                        }
                        found = true;
                    }
                    i = i + 1;
                }
                best
            },
            FtsExprKind::Or(children) => {
                let mut has_required = false;
                let mut k: usize = 0;
                while k < children.len()
                    invariant
                        k <= children@.len(),
                        has_required == exists|j: int|
                            0 <= j < k && (#[trigger] children@[j]).modifier == FtsModifier::Must,
                    decreases children@.len() - k,
                {
                    if children[k].modifier == FtsModifier::Must {
                        has_required = true;
                    }
                    k = k + 1;
                }
                let mut found = false;
                let mut best: usize = 0;
                let mut total: usize = 0;
                let mut i: usize = 0;
                while i < children.len()
                    invariant
                        self.well_formed(),
                        postings == self.model().postings,
                        i <= children@.len(),
                        expression.kind == FtsExprKind::Or(*children),
                        clauses(*expression) == children@,
                        has_required == exists|j: int|
                            0 <= j < children@.len() && (#[trigger] children@[j]).modifier == FtsModifier::Must,
                        !found ==> best == 0,
                        has_required ==> least_estimate(postings, *expression, i as int, true) == if found {
                            best as int
                        } else {
                            -1
                        },
                        !has_required ==> optional_sum(postings, *expression, i as int) == total,
                    decreases children@.len() - i,
                {
                    let child = &children[i];
                    let wanted = if has_required {
                        child.modifier == FtsModifier::Must
                    } else {
                        child.modifier == FtsModifier::Optional
                    };
                    if wanted {
                        proof {
                            assert(decreases_to!(*expression => expression.kind));
                            assert(decreases_to!(expression.kind => expression.kind->Or_0));
                            assert(decreases_to!(*children => children@));
                            assert(decreases_to!(children@ => children@[i as int]));
                        }
                        let here = self.estimated_candidates(child);
                        if has_required {
                            if !found || here < best {
                                best = here;
                            }
                            found = true;
                        } else {
                            total = total.saturating_add(here);
                        }
                    }
                    i = i + 1;
                }
                if has_required {
                        best
                } else {
                    total
                }
            },
        }
    }
    /// The documents where `term` occurs.
    pub fn term_candidates(&self, term: &str) -> (r: RoaringTreemap)
        requires
            self.well_formed(),
        ensures
            treemap_members(r) == Set::new(|ordinal: u64| term_holds(self.model().postings, term@, ordinal)),
    {
        let ghost postings = self.model().postings;
        let mut out = treemap_new();
        match self.posting(term) {
            Some(posting) => {
                let entries = posting.iter();
                let mut i: usize = 0;
                while i < entries.len()
                    invariant
                        i <= entries@.len(),
                        in_key_order(entries@, posting@),
                        forall|o: u64|
                            #[trigger] treemap_members(out).contains(o) <==> exists|j: int|
                                0 <= j < i && (#[trigger] entries@[j]).0 == o,
                    decreases entries@.len() - i,
                {
                    let ghost before = treemap_members(out);
                    treemap_insert(&mut out, entries[i].0);
                    proof {
                        assert forall|o: u64| #[trigger] treemap_members(out).contains(o) <==> exists|j: int|
                            0 <= j < i + 1 && (#[trigger] entries@[j]).0 == o by {
                            if o == entries@[i as int].0 {
                                assert(entries@[i as int].0 == o);
                            }
                            if exists|j: int| 0 <= j < i + 1 && (#[trigger] entries@[j]).0 == o {
                                let j = choose|j: int| 0 <= j < i + 1 && (#[trigger] entries@[j]).0 == o;
                                if j < i {
                                    assert(before.contains(o));
                                }
                            }
                        }
                    }
                    i = i + 1;
                }
                proof {
                    assert(treemap_members(out) =~= Set::new(|ordinal: u64| term_holds(postings, term@, ordinal))) by {
                        assert forall|o: u64| treemap_members(out).contains(o) <==> term_holds(postings, term@, o) by {
                            if treemap_members(out).contains(o) {
                                let j = choose|j: int| 0 <= j < i && (#[trigger] entries@[j]).0 == o;
                                assert(posting@.contains_key(entries@[j].0));
                            }
                            if term_holds(postings, term@, o) {
                                assert(posting@.contains_key(o));
                                let j = choose|j: int| 0 <= j < entries@.len() && #[trigger] entries@[j].0 == o;
                                assert(treemap_members(out).contains(entries@[j].0));
                            }
                        }
                    }
                }
            },
            None => {
                proof {
                    assert(treemap_members(out) =~= Set::new(|ordinal: u64| term_holds(postings, term@, ordinal)));
                }
            },
        }
        out
    }

    /// Whether every one of `terms` occurs in document `ordinal`.
    fn holds_all(&self, terms: &Vec<String>, ordinal: u64) -> (r: bool)
        requires
            self.well_formed(),
        ensures
            r == forall|i: int| 0 <= i < terms@.len() ==> term_holds(self.model().postings, (#[trigger] terms@[i])@, ordinal),
    {
        let mut i: usize = 0;
        while i < terms.len()
            invariant
                self.well_formed(),
                i <= terms@.len(),
                forall|j: int| 0 <= j < i ==> term_holds(self.model().postings, (#[trigger] terms@[j])@, ordinal),
            decreases terms@.len() - i,
        {
            if !self.term_matches(terms[i].as_str(), ordinal) {
                assert(!term_holds(self.model().postings, terms@[i as int]@, ordinal));
                return false;
            }
            i = i + 1;
        }
        true
    }

    /// The documents where every one of `terms` occurs (none for no terms),
    /// read off the shortest of their posting lists.
    pub fn phrase_candidates(&self, terms: &Vec<String>) -> (r: RoaringTreemap)
        requires
            self.well_formed(),
        ensures
            treemap_members(r) == Set::new(|ordinal: u64| phrase_matches(self.model().postings, terms@, ordinal)),
    {
        let ghost postings = self.model().postings;
        let ghost target = Set::new(|ordinal: u64| phrase_matches(postings, terms@, ordinal));
        if terms.len() == 0 {
            let out = treemap_new();
            assert(treemap_members(out) =~= target);
            return out;
        }
        let mut shortest: Arc<PostingList> = match self.posting(terms[0].as_str()) {
            Some(posting) => posting,
            None => {
                let out = treemap_new();
                assert(treemap_members(out) =~= target) by {
                    assert forall|o: u64| !#[trigger] target.contains(o) by {
                        assert(!term_holds(postings, terms@[0]@, o));
                    }
                }
                return out;
            },
        };
        let mut shortest_len = shortest.len();
        let ghost mut chosen: int = 0;
        let mut i: usize = 1;
        while i < terms.len()
            invariant
                self.well_formed(),
                postings == self.model().postings,
                1 <= i <= terms@.len(),
                0 <= chosen < terms@.len(),
                postings.contains_key(terms@[chosen]@),
                shortest@ == postings[terms@[chosen]@],
                shortest.well_formed(),
                shortest_len == shortest@.dom().len(),
                target == Set::new(|ordinal: u64| phrase_matches(postings, terms@, ordinal)),
            decreases terms@.len() - i,
        {
            match self.posting(terms[i].as_str()) {
                Some(posting) => {
                    let length = posting.len();
                    if length < shortest_len {
                        shortest = posting;
                        shortest_len = length;
                        proof {
                            chosen = i as int;
                        }
                    }
                },
                None => {
                    let out = treemap_new();
                    assert(treemap_members(out) =~= target) by {
                        assert forall|o: u64| !#[trigger] target.contains(o) by {
                            assert(!term_holds(postings, terms@[i as int]@, o));
                        }
                    }
                    return out;
                },
            }
            i = i + 1;
        }
        let entries = shortest.iter();
        let mut out = treemap_new();
        let mut k: usize = 0;
        while k < entries.len()
            invariant
                self.well_formed(),
                postings == self.model().postings,
                k <= entries@.len(),
                in_key_order(entries@, shortest@),
                0 <= chosen < terms@.len(),
                postings.contains_key(terms@[chosen]@),
                shortest@ == postings[terms@[chosen]@],
                terms@.len() > 0,
                target == Set::new(|ordinal: u64| phrase_matches(postings, terms@, ordinal)),
                forall|o: u64|
                    #[trigger] treemap_members(out).contains(o) <==> target.contains(o) && exists|j: int|
                        0 <= j < k && (#[trigger] entries@[j]).0 == o,
            decreases entries@.len() - k,
        {
            let ordinal = entries[k].0;
            let ghost before = treemap_members(out);
            if self.holds_all(terms, ordinal) {
                treemap_insert(&mut out, ordinal);
            }
            proof {
                assert forall|o: u64| #[trigger] treemap_members(out).contains(o) <==> target.contains(o) && exists|j: int|
                    0 <= j < k + 1 && (#[trigger] entries@[j]).0 == o by {
                    if o == ordinal {
                        assert(entries@[k as int].0 == o);
                    }
                    if exists|j: int| 0 <= j < k + 1 && (#[trigger] entries@[j]).0 == o {
                        let j = choose|j: int| 0 <= j < k + 1 && (#[trigger] entries@[j]).0 == o;
                        if j < k {
                            assert(exists|j: int| 0 <= j < k && (#[trigger] entries@[j]).0 == o);
                        }
                    }
                }
            }
            k = k + 1;
        }
        proof {
            assert(treemap_members(out) =~= target) by {
                assert forall|o: u64| #[trigger] target.contains(o) implies treemap_members(out).contains(o) by {
                    assert(term_holds(postings, terms@[chosen]@, o));
                    assert(shortest@.contains_key(o));
                    let j = choose|j: int| 0 <= j < entries@.len() && #[trigger] entries@[j].0 == o;
                    assert(entries@[j].0 == o);
                }
            }
        }
        out
    }

    /// The members of `candidates` on which `expression` matches (`keep`)
    /// or does not (`!keep`).
    pub fn retain_matching(&self, candidates: &RoaringTreemap, expression: &FtsExpr, keep: bool) -> (r: RoaringTreemap)
        requires
            self.well_formed(),
        ensures
            treemap_members(r) == Set::new(
                |ordinal: u64|
                    treemap_members(*candidates).contains(ordinal) && expr_matches(self.model().postings, *expression, ordinal) == keep,
            ),
    {
        let ghost postings = self.model().postings;
        let values = treemap_values(candidates);
        let mut out = treemap_new();
        let mut k: usize = 0;
        while k < values.len()
            invariant
                self.well_formed(),
                postings == self.model().postings,
                k <= values@.len(),
                forall|j: int| 0 <= j < values@.len() ==> treemap_members(*candidates).contains(#[trigger] values@[j]),
                forall|o: u64|
                    #[trigger] treemap_members(out).contains(o) <==> expr_matches(postings, *expression, o) == keep && exists|j: int|
                        0 <= j < k && (#[trigger] values@[j]) == o,
            decreases values@.len() - k,
        {
            let ordinal = values[k];
            let ghost before = treemap_members(out);
            if self.candidate_matches(expression, ordinal) == keep {
                treemap_insert(&mut out, ordinal);
            }
            proof {
                assert forall|o: u64| #[trigger] treemap_members(out).contains(o) <==> expr_matches(postings, *expression, o) == keep && exists|j: int|
                    0 <= j < k + 1 && (#[trigger] values@[j]) == o by {
                    if o == ordinal {
                        assert(values@[k as int] == o);
                    }
                    if exists|j: int| 0 <= j < k + 1 && (#[trigger] values@[j]) == o {
                        let j = choose|j: int| 0 <= j < k + 1 && (#[trigger] values@[j]) == o;
                        if j < k {
                            assert(exists|j: int| 0 <= j < k && (#[trigger] values@[j]) == o);
                        }
                    }
                }
            }
            k = k + 1;
        }
        proof {
            let target = Set::new(
                |ordinal: u64|
                    treemap_members(*candidates).contains(ordinal) && expr_matches(postings, *expression, ordinal) == keep,
            );
            assert(treemap_members(out) =~= target) by {
                assert forall|o: u64| #[trigger] target.contains(o) implies treemap_members(out).contains(o) by {
                    assert(values@.contains(o));
                    let j = choose|j: int| 0 <= j < values@.len() && values@[j] == o;
                    assert(values@[j] == o);
                }
                assert forall|o: u64| #[trigger] treemap_members(out).contains(o) implies target.contains(o) by {
                    let j = choose|j: int| 0 <= j < k && (#[trigger] values@[j]) == o;
                    assert(treemap_members(*candidates).contains(values@[j]));
                }
            }
        }
        out
    }
    /// The documents `expression` matches (see `expr_matches`).
    pub fn expression_candidates(&self, expression: &FtsExpr) -> (r: RoaringTreemap)
        requires
            self.well_formed(),
        ensures
            treemap_members(r) == matching(self.model().postings, *expression),
        decreases expression,
    {
        let ghost postings = self.model().postings;
        let r = match &expression.kind {
            FtsExprKind::Empty => treemap_new(),
            FtsExprKind::Term(term) => self.term_candidates(term.as_str()),
            FtsExprKind::Phrase(terms) => self.phrase_candidates(terms),
            FtsExprKind::And(children) => {
                proof {
                    assert(decreases_to!(*expression => expression.kind));
                    assert(decreases_to!(expression.kind => expression.kind->And_0));
                }
                self.and_candidates(children)
            },
            FtsExprKind::Or(children) => {
                proof {
                    assert(decreases_to!(*expression => expression.kind));
                    assert(decreases_to!(expression.kind => expression.kind->Or_0));
                }
                self.or_candidates(children)
            },
        };
        assert(treemap_members(r) =~= matching(postings, *expression));
        r
    }

    /// The clause among those that count (see `counted`) with the smallest
    /// estimate, the first such on ties; none if no clause counts.
    fn cheapest_clause(&self, children: &Vec<FtsExpr>, required_only: bool) -> (r: Option<usize>)
        requires
            self.well_formed(),
        ensures
            r matches Some(f) ==> f < children@.len() && counted(children@[f as int].modifier, required_only),
            r is None ==> forall|j: int| 0 <= j < children@.len() ==> !counted((#[trigger] children@[j]).modifier, required_only),
    {
        let mut first: Option<usize> = None;
        let mut best: usize = 0;
        let mut i: usize = 0;
        while i < children.len()
            invariant
                self.well_formed(),
                i <= children@.len(),
                first matches Some(f) ==> f < i && counted(children@[f as int].modifier, required_only),
                first is None ==> forall|j: int| 0 <= j < i ==> !counted((#[trigger] children@[j]).modifier, required_only),
            decreases children@.len() - i,
        {
            let counts = if required_only {
                children[i].modifier == FtsModifier::Must
            } else {
                children[i].modifier != FtsModifier::MustNot
            };
            if counts {
                let here = self.estimated_candidates(&children[i]);
                if first.is_none() || here < best {
                    first = Some(i);
                    best = here;
                }
            }
            i = i + 1;
        }
        first
    }

    /// The documents a conjunction of `children` matches (see
    /// `and_matches`): the candidates of its cheapest clause that is not
    /// prohibited, narrowed by its other such clauses and then by its
    /// prohibited ones.
    pub fn and_candidates(&self, children: &Vec<FtsExpr>) -> (r: RoaringTreemap)
        requires
            self.well_formed(),
        ensures
            treemap_members(r) == Set::new(|ordinal: u64| and_matches(self.model().postings, *children, ordinal)),
        decreases children,
    {
        let ghost postings = self.model().postings;
        let ghost target = Set::new(|ordinal: u64| and_matches(postings, *children, ordinal));
        let f = match self.cheapest_clause(children, false) {
            Some(f) => f,
            None => {
                let out = treemap_new();
                assert(treemap_members(out) =~= target);
                return out;
            },
        };
        proof {
            assert(decreases_to!(*children => children@));
            assert(decreases_to!(children@ => children@[f as int]));
        }
        let mut candidates = self.expression_candidates(&children[f]);
        let mut i: usize = 0;
        while i < children.len()
            invariant
                self.well_formed(),
                postings == self.model().postings,
                i <= children@.len(),
                f < children@.len(),
                children@[f as int].modifier != FtsModifier::MustNot,
                target == Set::new(|ordinal: u64| and_matches(postings, *children, ordinal)),
                forall|o: u64|
                    #[trigger] treemap_members(candidates).contains(o) <==> expr_matches(postings, children@[f as int], o)
                        && forall|j: int|
                        0 <= j < i && (#[trigger] children@[j]).modifier != FtsModifier::MustNot ==> expr_matches(
                            postings,
                            children@[j],
                            o,
                        ),
            decreases children@.len() - i,
        {
            if i != f && children[i].modifier != FtsModifier::MustNot {
                let narrowed = self.retain_matching(&candidates, &children[i], true);
                candidates = narrowed;
                if treemap_is_empty(&candidates) {
                    assert(treemap_members(candidates) =~= target) by {
                        assert forall|o: u64| !#[trigger] target.contains(o) by {
                            if target.contains(o) {
                                assert(expr_matches(postings, children@[f as int], o));
                                assert(treemap_members(candidates).contains(o));
                                assert(false);
                            }
                        }
                    }
                    return candidates;
                }
            }
            i = i + 1;
        }
        let mut k: usize = 0;
        while k < children.len()
            invariant
                self.well_formed(),
                postings == self.model().postings,
                k <= children@.len(),
                f < children@.len(),
                children@[f as int].modifier != FtsModifier::MustNot,
                target == Set::new(|ordinal: u64| and_matches(postings, *children, ordinal)),
                forall|o: u64|
                    #[trigger] treemap_members(candidates).contains(o) <==> (forall|j: int|
                        0 <= j < children@.len() && (#[trigger] children@[j]).modifier != FtsModifier::MustNot ==> expr_matches(
                            postings,
                            children@[j],
                            o,
                        )) && forall|j: int|
                        0 <= j < k && (#[trigger] children@[j]).modifier == FtsModifier::MustNot ==> !expr_matches(
                            postings,
                            children@[j],
                            o,
                        ),
            decreases children@.len() - k,
        {
            if children[k].modifier == FtsModifier::MustNot {
                let narrowed = self.retain_matching(&candidates, &children[k], false);
                candidates = narrowed;
            }
            k = k + 1;
        }
        assert(treemap_members(candidates) =~= target);
        candidates
    }

    /// The documents a disjunction of `children` matches (see
    /// `or_matches`): with required clauses, the candidates of the cheapest
    /// one narrowed by the others; without, the union of the optional
    /// clauses; then narrowed by the prohibited clauses.
    pub fn or_candidates(&self, children: &Vec<FtsExpr>) -> (r: RoaringTreemap)
        requires
            self.well_formed(),
        ensures
            treemap_members(r) == Set::new(|ordinal: u64| or_matches(self.model().postings, *children, ordinal)),
        decreases children,
    {
        let ghost postings = self.model().postings;
        let ghost target = Set::new(|ordinal: u64| or_matches(postings, *children, ordinal));
        let ghost positive = Set::new(
            |ordinal: u64|
                if exists|j: int| 0 <= j < children@.len() && (#[trigger] children@[j]).modifier == FtsModifier::Must {
                    forall|j: int|
                        0 <= j < children@.len() && (#[trigger] children@[j]).modifier == FtsModifier::Must
                            ==> expr_matches(postings, children@[j], ordinal)
                } else {
                    exists|j: int|
                        0 <= j < children@.len() && (#[trigger] children@[j]).modifier == FtsModifier::Optional
                            && expr_matches(postings, children@[j], ordinal)
                },
        );
        let mut candidates = match self.cheapest_clause(children, true) {
            None => {
                let mut union = treemap_new();
                let mut i: usize = 0;
                while i < children.len()
                    invariant
                        self.well_formed(),
                        postings == self.model().postings,
                        i <= children@.len(),
                        forall|o: u64|
                            #[trigger] treemap_members(union).contains(o) <==> exists|j: int|
                                0 <= j < i && (#[trigger] children@[j]).modifier == FtsModifier::Optional
                                    && expr_matches(postings, children@[j], o),
                    decreases children@.len() - i,
                {
                    if children[i].modifier == FtsModifier::Optional {
                        proof {
                            assert(decreases_to!(*children => children@));
                            assert(decreases_to!(children@ => children@[i as int]));
                        }
                        let found = self.expression_candidates(&children[i]);
                        let ghost before = treemap_members(union);
                        treemap_union_with(&mut union, &found);
                        proof {
                            assert forall|o: u64| #[trigger] treemap_members(union).contains(o) <==> exists|j: int|
                                0 <= j < i + 1 && (#[trigger] children@[j]).modifier == FtsModifier::Optional
                                    && expr_matches(postings, children@[j], o) by {
                                if treemap_members(found).contains(o) {
                                    assert(expr_matches(postings, children@[i as int], o));
                                }
                                if exists|j: int|
                                    0 <= j < i + 1 && (#[trigger] children@[j]).modifier == FtsModifier::Optional
                                        && expr_matches(postings, children@[j], o) {
                                    let j = choose|j: int|
                                        0 <= j < i + 1 && (#[trigger] children@[j]).modifier == FtsModifier::Optional
                                            && expr_matches(postings, children@[j], o);
                                    if j == i {
                                        assert(matching(postings, children@[i as int]).contains(o));
                                    } else {
                                        assert(before.contains(o));
                                    }
                                }
                            }
                        }
                    }
                    i = i + 1;
                }
                assert(treemap_members(union) =~= positive);
                union
            },
            Some(f) => {
                proof {
                    assert(decreases_to!(*children => children@));
                    assert(decreases_to!(children@ => children@[f as int]));
                }
                let mut intersection = self.expression_candidates(&children[f]);
                let mut emptied = false;
                let mut i: usize = 0;
                while i < children.len() && !emptied
                    invariant
                        self.well_formed(),
                        postings == self.model().postings,
                        i <= children@.len(),
                        f < children@.len(),
                        children@[f as int].modifier == FtsModifier::Must,
                        positive == Set::new(
                            |ordinal: u64|
                                if exists|j: int| 0 <= j < children@.len() && (#[trigger] children@[j]).modifier == FtsModifier::Must {
                                    forall|j: int|
                                        0 <= j < children@.len() && (#[trigger] children@[j]).modifier == FtsModifier::Must
                                            ==> expr_matches(postings, children@[j], ordinal)
                                } else {
                                    exists|j: int|
                                        0 <= j < children@.len() && (#[trigger] children@[j]).modifier == FtsModifier::Optional
                                            && expr_matches(postings, children@[j], ordinal)
                                },
                        ),
                        emptied ==> treemap_members(intersection) == positive,
                        !emptied ==> forall|o: u64|
                            #[trigger] treemap_members(intersection).contains(o) <==> expr_matches(postings, children@[f as int], o)
                                && forall|j: int|
                                0 <= j < i && (#[trigger] children@[j]).modifier == FtsModifier::Must ==> expr_matches(
                                    postings,
                                    children@[j],
                                    o,
                                ),
                    decreases children@.len() - i,
                {
                    if i != f && children[i].modifier == FtsModifier::Must {
                        let narrowed = self.retain_matching(&intersection, &children[i], true);
                        intersection = narrowed;
                        if treemap_is_empty(&intersection) {
                            assert(treemap_members(intersection) =~= positive) by {
                                assert forall|o: u64| !#[trigger] positive.contains(o) by {
                                    if positive.contains(o) {
                                        assert(children@[f as int].modifier == FtsModifier::Must);
                                        assert(expr_matches(postings, children@[f as int], o));
                                        assert(treemap_members(intersection).contains(o));
                                        assert(false);
                                    }
                                }
                            }
                            emptied = true;
                        }
                    }
                    i = i + 1;
                }
                if !emptied {
                    assert(children@[f as int].modifier == FtsModifier::Must);
                    assert(treemap_members(intersection) =~= positive);
                }
                intersection
            },
        };
        let mut k: usize = 0;
        while k < children.len()
            invariant
                self.well_formed(),
                postings == self.model().postings,
                k <= children@.len(),
                target == Set::new(|ordinal: u64| or_matches(postings, *children, ordinal)),
                forall|o: u64|
                    #[trigger] treemap_members(candidates).contains(o) <==> positive.contains(o) && forall|j: int|
                        0 <= j < k && (#[trigger] children@[j]).modifier == FtsModifier::MustNot ==> !expr_matches(
                            postings,
                            children@[j],
                            o,
                        ),
            decreases children@.len() - k,
        {
            if children[k].modifier == FtsModifier::MustNot {
                let narrowed = self.retain_matching(&candidates, &children[k], false);
                candidates = narrowed;
            }
            k = k + 1;
        }
        assert(treemap_members(candidates) =~= target);
        candidates
    }
    /// Whether a query is better answered by scanning documents than from
    /// the index: its estimate reaches half the documents (rounded up) when
    /// it has a phrase, or three quarters of them (rounded up) otherwise.
    pub fn prefers_scan_for_expression(&self, root: &FtsExpr, has_phrase: bool) -> (r: bool)
        requires
            self.well_formed(),
        ensures
            r == (estimate(self.model().postings, *root) >= scan_threshold(
                self.model().lengths.dom().len() as int,
                has_phrase,
            )),
    {
        let documents = self.document_count();
        let threshold = if has_phrase {
            documents.saturating_add(1) / 2
        } else {
            documents - documents / 4
        };
        self.estimated_candidates(root) >= threshold
    }
}

} // verus!
