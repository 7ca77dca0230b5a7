//! Equality and order of text.
//!
//! Text is ordered by its UTF-8 encoding, byte by byte, a shorter text before
//! each of its extensions; this is the order of code points.

use vstd::prelude::*;
use vstd::string::StringSliceAdditionalSpecFns;
use vstd::utf8::{decode_utf8, encode_utf8, encode_utf8_decode_utf8};

verus! {

/// Whether `a` comes strictly before `b` in lexicographic order, given that
/// the two agree on their first `from` bytes.
pub open spec fn lex_less(a: Seq<u8>, b: Seq<u8>, from: int) -> bool
    decreases a.len() - from,
{
    if from >= b.len() {
        false
    } else if from >= a.len() {
        true
    } else if a[from] != b[from] {
        a[from] < b[from]
    } else {
        lex_less(a, b, from + 1)
    }
}

/// Whether text `a` comes strictly before text `b`.
pub open spec fn text_before(a: Seq<char>, b: Seq<char>) -> bool {
    lex_less(encode_utf8(a), encode_utf8(b), 0)
}

/// Two texts with the same encoding are the same text.
pub proof fn lemma_encoding_injective(a: Seq<char>, b: Seq<char>)
    requires
        encode_utf8(a) == encode_utf8(b),
    ensures
        a == b,
{
    encode_utf8_decode_utf8(a);
    encode_utf8_decode_utf8(b);
}

/// Whether two texts are the same sequence of characters.
pub fn text_equal(a: &str, b: &str) -> (same: bool)
    ensures
        same == (a@ == b@),
{
    let x = a.as_bytes();
    let y = b.as_bytes();
    if x.len() != y.len() {
        return false;
    }
    let mut i: usize = 0;
    while i < x.len()
        invariant
            i <= x.len() == y.len(),
            x@ == a.spec_bytes(),
            y@ == b.spec_bytes(),
            forall|k: int| 0 <= k < i ==> x@[k] == y@[k],
        decreases x.len() - i,
    {
        if x[i] != y[i] {
            return false;
        }
        i += 1;
    }
    proof {
        assert(x@ =~= y@);
        lemma_encoding_injective(a@, b@);
    }
    true
}

/// Whether text `a` comes strictly before text `b`.
pub fn text_less(a: &str, b: &str) -> (less: bool)
    ensures
        less == text_before(a@, b@),
{
    let x = a.as_bytes();
    let y = b.as_bytes();
    let mut i: usize = 0;
    while i < x.len() && i < y.len()
        invariant
            i <= x.len(),
            i <= y.len(),
            x@ == a.spec_bytes(),
            y@ == b.spec_bytes(),
            lex_less(x@, y@, 0) == lex_less(x@, y@, i as int),
        decreases x.len() - i,
    {
        if x[i] != y[i] {
            return x[i] < y[i];
        }
        i += 1;
    }
    i < y.len()
}

/// Of two different byte sequences that agree on their first `from` bytes,
/// exactly one comes before the other.
pub proof fn lemma_lex_total(a: Seq<u8>, b: Seq<u8>, from: int)
    requires
        0 <= from <= a.len(),
        from <= b.len(),
        forall|k: int| 0 <= k < from ==> a[k] == b[k],
    ensures
        a == b ==> !lex_less(a, b, from) && !lex_less(b, a, from),
        a != b ==> (lex_less(a, b, from) <==> !lex_less(b, a, from)),
    decreases a.len() - from,
{
    if from < a.len() && from < b.len() && a[from] == b[from] {
        lemma_lex_total(a, b, from + 1);
    } else if from == a.len() && from == b.len() {
        assert(a =~= b);
    }
}

/// The order of byte sequences is transitive.
pub proof fn lemma_lex_transitive(a: Seq<u8>, b: Seq<u8>, c: Seq<u8>, from: int)
    requires
        0 <= from,
        lex_less(a, b, from),
        lex_less(b, c, from),
    ensures
        lex_less(a, c, from),
    decreases a.len() - from,
{
    if from < a.len() && a[from] == b[from] && b[from] == c[from] {
        lemma_lex_transitive(a, b, c, from + 1);
    }
}

/// Of two different texts, exactly one comes before the other; a text does
/// not come before itself.
pub proof fn lemma_text_total(a: Seq<char>, b: Seq<char>)
    ensures
        a == b ==> !text_before(a, b),
        a != b ==> (text_before(a, b) <==> !text_before(b, a)),
{
    if a != b && encode_utf8(a) == encode_utf8(b) {
        lemma_encoding_injective(a, b);
    }
    lemma_lex_total(encode_utf8(a), encode_utf8(b), 0);
}

/// The order of texts is transitive.
pub proof fn lemma_text_transitive(a: Seq<char>, b: Seq<char>, c: Seq<char>)
    requires
        text_before(a, b),
        text_before(b, c),
    ensures
        text_before(a, c),
{
    lemma_lex_transitive(encode_utf8(a), encode_utf8(b), encode_utf8(c), 0);
}

} // verus!
