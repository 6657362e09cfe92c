//! UTF-8 bookkeeping shared by the modules that move between char
//! indices and byte offsets.

use vstd::prelude::*;
use vstd::utf8::*;

verus! {

broadcast use vstd::string::group_string_axioms;

/// Number of bytes in the UTF-8 encoding of `c`.
pub open spec fn utf8_len(c: char) -> nat {
    encode_scalar(c as u32).len()
}

/// Number of bytes in the UTF-8 encoding of `s`.
pub open spec fn byte_len(s: Seq<char>) -> nat {
    encode_utf8(s).len()
}

/// Byte offset at which char index `k` of `s` starts.
pub open spec fn byte_offset_of(s: Seq<char>, k: int) -> nat {
    byte_len(s.take(k))
}

/// `b` is the byte offset at which some char of `s` starts, or the end of `s`.
pub open spec fn is_char_start(s: Seq<char>, b: int) -> bool {
    exists|k: int| 0 <= k <= s.len() && byte_offset_of(s, k) == b
}

/// Encoding distributes over concatenation.
pub proof fn lemma_encode_utf8_concat(a: Seq<char>, b: Seq<char>)
    ensures
        encode_utf8(a + b) == encode_utf8(a) + encode_utf8(b),
    decreases a.len(),
{
    if a.len() == 0 {
        assert(a + b =~= b);
        assert(encode_utf8(a) =~= Seq::<u8>::empty());
        assert(encode_utf8(a) + encode_utf8(b) =~= encode_utf8(b));
    } else {
        lemma_encode_utf8_concat(a.drop_first(), b);
        assert((a + b).drop_first() =~= a.drop_first() + b);
        assert(encode_utf8(a + b) =~= encode_scalar(a[0] as u32) + encode_utf8(a.drop_first() + b));
    }
}

/// The byte offset of char `k + 1` is that of char `k` plus the width of char `k`.
pub proof fn lemma_byte_offset_step(s: Seq<char>, k: int)
    requires
        0 <= k < s.len(),
    ensures
        byte_offset_of(s, k + 1) == byte_offset_of(s, k) + utf8_len(s[k]),
{
    assert(s.take(k + 1) =~= s.take(k) + seq![s[k]]);
    lemma_encode_utf8_concat(s.take(k), seq![s[k]]);
    assert(seq![s[k]].drop_first() =~= Seq::<char>::empty());
    assert(encode_utf8(seq![s[k]]) =~= encode_scalar(s[k] as u32) + encode_utf8(Seq::<char>::empty()));
    assert(encode_utf8(Seq::<char>::empty()) =~= Seq::<u8>::empty());
}

/// Every char takes between one and four bytes.
pub proof fn lemma_utf8_len_bounds(c: char)
    ensures
        1 <= utf8_len(c) <= 4,
        (c as u32) < 0x80 ==> utf8_len(c) == 1,
        0x80 <= (c as u32) < 0x800 ==> utf8_len(c) == 2,
        0x800 <= (c as u32) < 0x10000 ==> utf8_len(c) == 3,
        0x10000 <= (c as u32) ==> utf8_len(c) == 4,
{
    broadcast use vstd::utf8::char_is_scalar;
    assert(is_scalar(c as u32));
}

/// Byte offsets grow strictly with the char index.
pub proof fn lemma_byte_offset_strictly_increasing(s: Seq<char>, j: int, k: int)
    requires
        0 <= j < k <= s.len(),
    ensures
        byte_offset_of(s, j) < byte_offset_of(s, k),
    decreases k - j,
{
    lemma_byte_offset_step(s, k - 1);
    lemma_utf8_len_bounds(s[k - 1]);
    if j < k - 1 {
        lemma_byte_offset_strictly_increasing(s, j, k - 1);
    }
}

/// The whole string's byte length is the offset past its last char.
pub proof fn lemma_byte_offset_full(s: Seq<char>)
    ensures
        byte_offset_of(s, s.len() as int) == byte_len(s),
{
    assert(s.take(s.len() as int) =~= s);
}

/// Byte width of `c` in UTF-8.
pub fn utf8_width(c: char) -> (n: usize)
    ensures
        n == utf8_len(c),
        1 <= n <= 4,
{
    proof {
        lemma_utf8_len_bounds(c);
    }
    let u = c as u32;
    if u < 0x80 {
        1
    } else if u < 0x800 {
        2
    } else if u < 0x10000 {
        3
    } else {
        4
    }
}

/// The chars of `s`, in order.
pub fn chars_of(s: &str) -> (v: Vec<char>)
    ensures
        v@ == s@,
{
    let mut v: Vec<char> = Vec::new();
    for c in it: s.chars()
        invariant
            v@ == it.seq().take(it.index()),
            it.seq() == s@,
    {
        v.push(c);
    }
    v
}

} // verus!
