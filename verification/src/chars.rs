//! Character sequences and their byte offsets.
//!
//! The tokenizer engines work character by character but report byte
//! ranges into the original string. This module gives the byte offset of
//! each character of a sequence its meaning in terms of UTF-8 encoding,
//! holds the few trusted conversions between `str` values and character
//! vectors, and defines the shared helpers that the engines' laws speak of.

use vstd::prelude::*;
use vstd::utf8::encode_utf8;

verus! {

/// Number of bytes the UTF-8 encoding of the character sequence `cs` occupies.
pub open spec fn byte_len(cs: Seq<char>) -> nat {
    encode_utf8(cs).len()
}

/// Byte offset at which the character `cs[i]` starts within the UTF-8
/// encoding of `cs`: the number of bytes taken by the characters before it.
pub open spec fn byte_at(cs: Seq<char>, i: int) -> nat {
    byte_len(cs.take(i))
}

/// The UTF-8 encoding of a concatenation is the concatenation of the
/// encodings.
proof fn lemma_encode_utf8_concat(a: Seq<char>, b: Seq<char>)
    ensures
        encode_utf8(a + b) == encode_utf8(a) + encode_utf8(b),
    decreases a.len(),
{
    if a.len() == 0 {
        assert(a + b =~= b);
        assert(encode_utf8(a) + encode_utf8(b) =~= encode_utf8(b));
    } else {
        assert((a + b)[0] == a[0]);
        assert((a + b).drop_first() =~= a.drop_first() + b);
        lemma_encode_utf8_concat(a.drop_first(), b);
        assert(vstd::utf8::encode_scalar(a[0] as u32) + (encode_utf8(a.drop_first())
            + encode_utf8(b)) =~= (vstd::utf8::encode_scalar(a[0] as u32) + encode_utf8(
            a.drop_first(),
        )) + encode_utf8(b));
    }
}

/// Byte offsets grow with the character index, and the offset at the end of
/// the sequence is its total byte length: a range of character indices maps
/// to an ordered range of byte offsets within the input.
pub proof fn lemma_byte_at_monotone(cs: Seq<char>, i: int, j: int)
    requires
        0 <= i <= j <= cs.len(),
    ensures
        byte_at(cs, i) <= byte_at(cs, j),
        byte_at(cs, cs.len() as int) == byte_len(cs),
{
    assert(cs.take(j) =~= cs.take(i) + cs.subrange(i, j));
    lemma_encode_utf8_concat(cs.take(i), cs.subrange(i, j));
    assert(cs.take(cs.len() as int) =~= cs);
}

/// Relies on str::char_indices: yields every character of the string, in
/// order, paired with the byte offset where its UTF-8 encoding starts.
#[verifier::external_body]
pub(crate) fn char_offsets(s: &str) -> (r: Vec<(usize, char)>)
    ensures
        r@.len() == s@.len(),
        forall|i: int|
            0 <= i < r@.len() ==> (#[trigger] r@[i]).1 == s@[i] && r@[i].0 == byte_at(s@, i),
{
    s.char_indices().collect()
}

/// Relies on str::len: the length of a string, in bytes of its UTF-8
/// encoding; it is a usize, so that length fits one.
#[verifier::external_body]
pub(crate) fn byte_length(s: &str) -> (r: usize)
    ensures
        r == byte_len(s@),
{
    s.len()
}

/// Relies on String's FromIterator over char: the resulting string holds
/// exactly the given characters, in order.
#[verifier::external_body]
pub(crate) fn string_from_chars(cs: &Vec<char>) -> (r: String)
    ensures
        r@ == cs@,
{
    cs.iter().collect()
}

/// The resolved texts of a token sequence, concatenated in order.
pub open spec fn concat_texts(ts: Seq<(int, int, Seq<char>)>) -> Seq<char>
    decreases ts.len(),
{
    if ts.len() == 0 {
        Seq::<char>::empty()
    } else {
        ts[0].2 + concat_texts(ts.drop_first())
    }
}

/// The characters of `cs` that are not separators, in order.
pub open spec fn remove_separators(cs: Seq<char>, seps: Seq<char>) -> Seq<char>
    decreases cs.len(),
{
    if cs.len() == 0 {
        Seq::<char>::empty()
    } else if seps.contains(cs[0]) {
        remove_separators(cs.drop_first(), seps)
    } else {
        seq![cs[0]] + remove_separators(cs.drop_first(), seps)
    }
}

/// Removing separators distributes over concatenation.
pub(crate) proof fn lemma_remove_separators_add(a: Seq<char>, b: Seq<char>, seps: Seq<char>)
    ensures
        remove_separators(a + b, seps) == remove_separators(a, seps) + remove_separators(b, seps),
    decreases a.len(),
{
    if a.len() == 0 {
        assert(a + b =~= b);
        assert(remove_separators(a, seps) + remove_separators(b, seps) =~= remove_separators(
            b,
            seps,
        ));
    } else {
        assert((a + b)[0] == a[0]);
        assert((a + b).drop_first() =~= a.drop_first() + b);
        lemma_remove_separators_add(a.drop_first(), b, seps);
        if !seps.contains(a[0]) {
            assert(seq![a[0]] + (remove_separators(a.drop_first(), seps) + remove_separators(
                b,
                seps,
            )) =~= (seq![a[0]] + remove_separators(a.drop_first(), seps)) + remove_separators(
                b,
                seps,
            ));
        }
    }
}

/// A sequence of separators only is removed entirely.
pub(crate) proof fn lemma_remove_separators_none(s: Seq<char>, seps: Seq<char>)
    requires
        forall|k: int| 0 <= k < s.len() ==> seps.contains(s[k]),
    ensures
        remove_separators(s, seps) == Seq::<char>::empty(),
    decreases s.len(),
{
    if s.len() > 0 {
        lemma_remove_separators_none(s.drop_first(), seps);
    }
}

/// A sequence without separators is kept entirely.
pub(crate) proof fn lemma_remove_separators_all(s: Seq<char>, seps: Seq<char>)
    requires
        forall|k: int| 0 <= k < s.len() ==> !seps.contains(s[k]),
    ensures
        remove_separators(s, seps) == s,
    decreases s.len(),
{
    if s.len() == 0 {
        assert(remove_separators(s, seps) =~= s);
    } else {
        lemma_remove_separators_all(s.drop_first(), seps);
        assert(seq![s[0]] + s.drop_first() =~= s);
    }
}

/// Whether `c` occurs among the characters of `cs`.
pub(crate) fn contains_char(cs: &Vec<char>, c: char) -> (r: bool)
    ensures
        r == cs@.contains(c),
{
    let mut k: usize = 0;
    while k < cs.len()
        invariant
            k <= cs@.len(),
            forall|j: int| 0 <= j < k ==> cs@[j] != c,
        decreases cs@.len() - k,
    {
        if cs[k] == c {
            return true;
        }
        k += 1;
    }
    false
}

} // verus!
