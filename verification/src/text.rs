//! Character classes and small string predicates.

use vstd::prelude::*;

verus! {

/// The Unicode `White_Space` property.
pub open spec fn spec_is_whitespace(c: char) -> bool {
    ||| '\u{9}' <= c <= '\u{d}'
    ||| c == ' '
    ||| c == '\u{85}'
    ||| c == '\u{a0}'
    ||| c == '\u{1680}'
    ||| '\u{2000}' <= c <= '\u{200a}'
    ||| c == '\u{2028}'
    ||| c == '\u{2029}'
    ||| c == '\u{202f}'
    ||| c == '\u{205f}'
    ||| c == '\u{3000}'
}

/// Whether every character has the `White_Space` property; such a string
/// trims to the empty string.
pub open spec fn spec_is_blank(text: Seq<char>) -> bool {
    forall|i: int| 0 <= i < text.len() ==> #[trigger] spec_is_whitespace(text[i])
}

/// Whether `c` has the Unicode `White_Space` property.
pub fn is_whitespace(c: char) -> (r: bool)
    ensures
        r == spec_is_whitespace(c),
{
    ('\u{9}' <= c && c <= '\u{d}') || c == ' ' || c == '\u{85}' || c == '\u{a0}' || c
        == '\u{1680}' || ('\u{2000}' <= c && c <= '\u{200a}') || c == '\u{2028}' || c
        == '\u{2029}' || c == '\u{202f}' || c == '\u{205f}' || c == '\u{3000}'
}

/// Whether `text` is empty once leading and trailing whitespace is trimmed.
pub fn is_blank(text: &str) -> (r: bool)
    ensures
        r == spec_is_blank(text@),
{
    for c in iter: text.chars()
        invariant
            iter.seq() == text@,
            forall|i: int| 0 <= i < iter.index() ==> #[trigger] spec_is_whitespace(text@[i]),
    {
        if !is_whitespace(c) {
            return false;
        }
    }
    true
}

/// The characters of `text` in order.
pub fn chars_of(text: &str) -> (r: Vec<char>)
    ensures
        r@ == text@,
{
    let mut out: Vec<char> = Vec::new();
    for c in iter: text.chars()
        invariant
            iter.seq() == text@,
            out@ == text@.subrange(0, iter.index() as int),
    {
        out.push(c);
        proof {
            assert(out@ =~= text@.subrange(0, iter.index() + 1));
        }
    }
    proof {
        assert(out@ =~= text@);
    }
    out
}

/// `a[i..]` sorts strictly before `b[i..]` when characters are compared by
/// code point, a proper prefix sorting first (the order of `String`).
pub open spec fn text_less_from(a: Seq<char>, b: Seq<char>, i: int) -> bool
    decreases a.len() - i,
{
    if a.len() <= i {
        i < b.len()
    } else if b.len() <= i {
        false
    } else if a[i] != b[i] {
        (a[i] as int) < (b[i] as int)
    } else {
        text_less_from(a, b, i + 1)
    }
}

/// `a` sorts strictly before `b` in code-point lexicographic order.
pub open spec fn text_less(a: Seq<char>, b: Seq<char>) -> bool {
    text_less_from(a, b, 0)
}

/// No text sorts before itself.
pub proof fn lemma_text_less_irreflexive(a: Seq<char>, i: int)
    requires
        0 <= i,
    ensures
        !text_less_from(a, a, i),
    decreases a.len() - i,
{
    if i < a.len() {
        lemma_text_less_irreflexive(a, i + 1);
    }
}

/// Of two texts at most one sorts before the other.
pub proof fn lemma_text_less_asymmetric(a: Seq<char>, b: Seq<char>, i: int)
    requires
        0 <= i,
        text_less_from(a, b, i),
    ensures
        !text_less_from(b, a, i),
    decreases a.len() - i,
{
    if i < a.len() && i < b.len() && a[i] == b[i] {
        lemma_text_less_asymmetric(a, b, i + 1);
    }
}

/// The text order is transitive.
pub proof fn lemma_text_less_transitive(a: Seq<char>, b: Seq<char>, c: Seq<char>, i: int)
    requires
        0 <= i,
        text_less_from(a, b, i),
        text_less_from(b, c, i),
    ensures
        text_less_from(a, c, i),
    decreases a.len() - i,
{
    if i < a.len() && i < b.len() && i < c.len() && a[i] == b[i] && b[i] == c[i] {
        lemma_text_less_transitive(a, b, c, i + 1);
    }
}

/// Two texts that agree before `i` are equal or one sorts before the other.
pub proof fn lemma_text_less_total(a: Seq<char>, b: Seq<char>, i: int)
    requires
        0 <= i <= a.len(),
        i <= b.len(),
        forall|j: int| 0 <= j < i ==> a[j] == b[j],
    ensures
        a == b || text_less_from(a, b, i) || text_less_from(b, a, i),
    decreases a.len() - i,
{
    if i == a.len() && i == b.len() {
        assert(a =~= b);
    } else if i < a.len() && i < b.len() && a[i] == b[i] {
        lemma_text_less_total(a, b, i + 1);
    }
}

/// The text order is a strict total order.
pub proof fn lemma_text_order()
    ensures
        forall|a: Seq<char>| !#[trigger] text_less(a, a),
        forall|a: Seq<char>, b: Seq<char>| #[trigger] text_less(a, b) ==> !text_less(b, a),
        forall|a: Seq<char>, b: Seq<char>, c: Seq<char>|
            #[trigger] text_less(a, b) && #[trigger] text_less(b, c) ==> text_less(a, c),
        forall|a: Seq<char>, b: Seq<char>| a == b || #[trigger] text_less(a, b) || text_less(b, a),
{
    assert forall|a: Seq<char>| !#[trigger] text_less(a, a) by {
        lemma_text_less_irreflexive(a, 0);
    }
    assert forall|a: Seq<char>, b: Seq<char>| #[trigger] text_less(a, b) implies !text_less(b, a) by {
        lemma_text_less_asymmetric(a, b, 0);
    }
    assert forall|a: Seq<char>, b: Seq<char>, c: Seq<char>|
        #[trigger] text_less(a, b) && #[trigger] text_less(b, c) implies text_less(a, c) by {
        lemma_text_less_transitive(a, b, c, 0);
    }
    assert forall|a: Seq<char>, b: Seq<char>| a == b || #[trigger] text_less(a, b) || text_less(b, a) by {
        lemma_text_less_total(a, b, 0);
    }
}

/// The outcome of comparing two texts.
#[derive(Debug, Clone, Copy, PartialEq, Eq, Structural)]
pub enum TextOrder {
    Less,
    Equal,
    Greater,
}

/// Compares `a` and `b` in code-point lexicographic order, the order of
/// `String`.
pub fn compare_text(a: &str, b: &str) -> (r: TextOrder)
    ensures
        (r == TextOrder::Less) == text_less(a@, b@),
        (r == TextOrder::Equal) == (a@ == b@),
        (r == TextOrder::Greater) == text_less(b@, a@),
{
    let ac = chars_of(a);
    let bc = chars_of(b);
    let mut i: usize = 0;
    while i < ac.len() && i < bc.len()
        invariant
            ac@ == a@,
            bc@ == b@,
            i <= ac.len(),
            i <= bc.len(),
            forall|j: int| 0 <= j < i ==> a@[j] == b@[j],
            text_less(a@, b@) == text_less_from(a@, b@, i as int),
            text_less(b@, a@) == text_less_from(b@, a@, i as int),
        decreases ac.len() - i,
    {
        if ac[i] != bc[i] {
            if ac[i] < bc[i] {
                return TextOrder::Less;
            } else {
                return TextOrder::Greater;
            }
        }
        i = i + 1;
    }
    if ac.len() < bc.len() {
        TextOrder::Less
    } else if ac.len() == bc.len() {
        proof {
            assert(a@ =~= b@);
            lemma_text_less_irreflexive(a@, i as int);
        }
        TextOrder::Equal
    } else {
        TextOrder::Greater
    }
}

/// Appends `c` to `text` (`String::push`).
#[verifier::external_body]
pub fn push_char(text: &mut String, c: char)
    ensures
        final(text)@ == old(text)@.push(c),
{
    text.push(c);
}

} // verus!
