//! Order and equality of texts, and a few ways to put texts together.

use vstd::prelude::*;
use vstd::string::*;

verus! {

/// Strict lexicographic order of two texts, character by character, each
/// character taken by its code point. A proper prefix comes first.
pub open spec fn text_lt(a: Seq<char>, b: Seq<char>) -> bool
    decreases a.len(),
{
    if b.len() == 0 {
        false
    } else if a.len() == 0 {
        true
    } else if a[0] != b[0] {
        (a[0] as u32) < (b[0] as u32)
    } else {
        text_lt(a.drop_first(), b.drop_first())
    }
}

/// No text comes before itself.
pub proof fn lemma_text_lt_irreflexive(a: Seq<char>)
    ensures
        !text_lt(a, a),
    decreases a.len(),
{
    if a.len() > 0 {
        lemma_text_lt_irreflexive(a.drop_first());
    }
}

/// Of two different texts, one comes before the other.
pub proof fn lemma_text_lt_total(a: Seq<char>, b: Seq<char>)
    ensures
        a == b || text_lt(a, b) || text_lt(b, a),
    decreases a.len(),
{
    if a.len() == 0 || b.len() == 0 {
        if a.len() == 0 && b.len() == 0 {
            assert(a =~= b);
        }
    } else if a[0] == b[0] {
        lemma_text_lt_total(a.drop_first(), b.drop_first());
        if a.drop_first() == b.drop_first() {
            assert(a =~= seq![a[0]] + a.drop_first());
            assert(b =~= seq![b[0]] + b.drop_first());
        }
    } else {
        vstd::utf8::char_u32_cast(a[0], a[0] as u32);
        vstd::utf8::char_u32_cast(b[0], b[0] as u32);
    }
}

/// The order is transitive.
pub proof fn lemma_text_lt_transitive(a: Seq<char>, b: Seq<char>, c: Seq<char>)
    requires
        text_lt(a, b),
        text_lt(b, c),
    ensures
        text_lt(a, c),
    decreases a.len(),
{
    if a.len() > 0 && a[0] == b[0] && b[0] == c[0] {
        lemma_text_lt_transitive(a.drop_first(), b.drop_first(), c.drop_first());
    }
}

/// Two texts are never each before the other.
pub proof fn lemma_text_lt_asymmetric(a: Seq<char>, b: Seq<char>)
    requires
        text_lt(a, b),
    ensures
        !text_lt(b, a),
{
    if text_lt(b, a) {
        lemma_text_lt_transitive(a, b, a);
        lemma_text_lt_irreflexive(a);
    }
}

/// Two texts that agree on their first `upto` characters stand in the order
/// of what follows those characters.
pub proof fn lemma_text_lt_after_prefix(a: Seq<char>, b: Seq<char>, upto: int)
    requires
        0 <= upto <= a.len(),
        upto <= b.len(),
        forall|i: int| 0 <= i < upto ==> a[i] == b[i],
    ensures
        text_lt(a, b) == text_lt(a.skip(upto), b.skip(upto)),
    decreases upto,
{
    if upto == 0 {
        assert(a.skip(0) =~= a);
        assert(b.skip(0) =~= b);
    } else {
        assert(a[0] == b[0]);
        let rest_a = a.drop_first();
        let rest_b = b.drop_first();
        assert forall|i: int| 0 <= i < upto - 1 implies rest_a[i] == rest_b[i] by {
            assert(a[i + 1] == b[i + 1]);
        }
        lemma_text_lt_after_prefix(rest_a, rest_b, upto - 1);
        assert(rest_a.skip(upto - 1) =~= a.skip(upto));
        assert(rest_b.skip(upto - 1) =~= b.skip(upto));
    }
}

/// Whether two string slices hold the same characters.
pub(crate) fn str_eq(a: &str, b: &str) -> (equal: bool)
    ensures
        equal == (a@ == b@),
{
    let first = String::from_str(a);
    let second = String::from_str(b);
    first == second
}

/// Whether `a` comes before `b`.
pub(crate) fn str_lt(a: &str, b: &str) -> (before: bool)
    ensures
        before == text_lt(a@, b@),
{
    let len_a: usize = a.unicode_len();
    let len_b: usize = b.unicode_len();
    let mut at: usize = 0;
    while at < len_a && at < len_b
        invariant
            at <= len_a,
            at <= len_b,
            len_a == a@.len(),
            len_b == b@.len(),
            forall|i: int| 0 <= i < at ==> a@[i] == b@[i],
        decreases len_a - at,
    {
        let in_a = a.get_char(at);
        let in_b = b.get_char(at);
        if in_a != in_b {
            proof {
                lemma_text_lt_after_prefix(a@, b@, at as int);
            }
            return (in_a as u32) < (in_b as u32);
        }
        at += 1;
    }
    proof {
        lemma_text_lt_after_prefix(a@, b@, at as int);
    }
    at < len_b
}

/// `first` followed by `second`.
pub(crate) fn join2(first: &str, second: &str) -> (joined: String)
    ensures
        joined@ == first@ + second@,
{
    let mut joined = String::from_str(first);
    joined.append(second);
    joined
}

/// `first`, `second` and `third` in a row.
pub(crate) fn join3(first: &str, second: &str, third: &str) -> (joined: String)
    ensures
        joined@ == first@ + second@ + third@,
{
    let mut joined = String::from_str(first);
    joined.append(second);
    joined.append(third);
    joined
}

/// Position of the first `needle` in `text`, or the length of `text` where
/// there is none.
pub open spec fn first_index_of<T>(text: Seq<T>, needle: T) -> int
    decreases text.len(),
{
    if text.len() == 0 {
        0
    } else if text[0] == needle {
        0
    } else {
        1 + first_index_of(text.drop_first(), needle)
    }
}

/// `first_index_of` is a position in the text or its length, nothing before it
/// is the needle, and the needle stands at it when it is inside.
pub proof fn lemma_first_index_of<T>(text: Seq<T>, needle: T)
    ensures
        0 <= first_index_of(text, needle) <= text.len(),
        forall|i: int| 0 <= i < first_index_of(text, needle) ==> text[i] != needle,
        first_index_of(text, needle) < text.len() ==> text[first_index_of(text, needle)]
            == needle,
    decreases text.len(),
{
    if text.len() > 0 && text[0] != needle {
        let rest = text.drop_first();
        lemma_first_index_of(rest, needle);
        assert forall|i: int| 0 <= i < first_index_of(text, needle) implies text[i] != needle by {
            if i > 0 {
                assert(text[i] == rest[i - 1]);
            }
        }
    }
}

/// Any position with the three facts of `lemma_first_index_of` is the
/// first index.
pub proof fn lemma_first_index_unique<T>(text: Seq<T>, needle: T, at: int)
    requires
        0 <= at <= text.len(),
        forall|i: int| 0 <= i < at ==> text[i] != needle,
        at < text.len() ==> text[at] == needle,
    ensures
        first_index_of(text, needle) == at,
{
    lemma_first_index_of(text, needle);
    let found = first_index_of(text, needle);
    if found < at {
        assert(text[found] != needle);
    }
}

} // verus!
