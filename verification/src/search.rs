//! `/`-search highlighting: regex matches on a row, as char columns.

use vstd::prelude::*;
use regex::Regex;
use crate::text::{is_char_start, byte_offset_of, chars_of, utf8_width, lemma_byte_offset_step,
    lemma_byte_offset_strictly_increasing};

verus! {

#[verifier::external_type_specification]
#[verifier::external_body]
pub struct ExRegex(Regex);

/// Byte ranges that lie on char boundaries of `s`, each ordered, and in
/// order one after another without overlap.
pub open spec fn ordered_boundary_ranges(s: Seq<char>, r: Seq<(usize, usize)>) -> bool {
    &&& forall|i: int| 0 <= i < r.len() ==> (#[trigger] r[i]).0 <= r[i].1
    &&& forall|i: int| 0 <= i < r.len() ==> is_char_start(s, (#[trigger] r[i]).0 as int)
    &&& forall|i: int| 0 <= i < r.len() ==> is_char_start(s, (#[trigger] r[i]).1 as int)
    &&& forall|i: int, j: int| 0 <= i < j < r.len() ==> (#[trigger] r[i]).1 <= (#[trigger] r[j]).0
}

/// The `(start, end)` byte offsets of the successive non-overlapping
/// matches that `Regex::find_iter` yields for regex `re` on the haystack
/// whose chars are `line`. The matches are a function of the compiled
/// regex and the haystack alone.
pub uninterp spec fn regex_find_bytes(re: Regex, line: Seq<char>) -> Seq<(usize, usize)>;

/// `cols` are the char columns of the byte ranges `bytes` on a line whose
/// chars are `s`: one pair per range, each column within the line and
/// starting at the byte offset the range gives.
pub open spec fn match_columns(s: Seq<char>, bytes: Seq<(usize, usize)>, cols: Seq<(usize, usize)>) -> bool {
    &&& cols.len() == bytes.len()
    &&& forall|i: int| 0 <= i < cols.len() ==> {
        &&& (#[trigger] cols[i]).0 <= s.len()
        &&& cols[i].1 <= s.len()
        &&& byte_offset_of(s, cols[i].0 as int) == bytes[i].0
        &&& byte_offset_of(s, cols[i].1 as int) == bytes[i].1
    }
}

/// Calls `Regex::find_iter` and collects each match's `(start, end)` byte
/// offsets. The result is named `regex_find_bytes(re, line)`; beside the
/// name the contract states what the regex documentation promises of
/// every match: `start <= end`, both offsets on UTF-8 char boundaries of
/// the haystack, and successive matches that do not overlap.
#[verifier::external_body]
fn find_match_bytes(re: &Regex, line: &str) -> (r: Vec<(usize, usize)>)
    ensures
        r@ == regex_find_bytes(*re, line@),
        ordered_boundary_ranges(line@, r@),
{
    re.find_iter(line).map(|m| (m.start(), m.end())).collect()
}

/// The char index at which byte offset `b` of `s` falls, given that `b` is
/// a char boundary.
fn char_index_of_byte(chars: &Vec<char>, b: usize) -> (k: usize)
    requires
        is_char_start(chars@, b as int),
    ensures
        k <= chars@.len(),
        byte_offset_of(chars@, k as int) == b,
{
    let n = chars.len();
    let ghost target = choose|k: int| 0 <= k <= chars@.len() && byte_offset_of(chars@, k) == b;
    let mut k: usize = 0;
    let mut acc: usize = 0;
    while acc < b && k < n
        invariant
            n == chars@.len(),
            0 <= target <= n,
            byte_offset_of(chars@, target) == b,
            k <= target,
            acc == byte_offset_of(chars@, k as int),
        decreases n - k,
    {
        proof {
            lemma_byte_offset_step(chars@, k as int);
            if k + 1 > target {
                // k == target would give acc == b
                assert(k == target);
            }
            if k + 1 < target {
                lemma_byte_offset_strictly_increasing(chars@, k + 1, target);
            }
        }
        acc = acc + utf8_width(chars[k]);
        k = k + 1;
    }
    proof {
        if k < target {
            lemma_byte_offset_strictly_increasing(chars@, k as int, target);
        }
    }
    k
}

/// Converts byte ranges on a line into char-column ranges: each
/// `(start, end)` byte pair becomes the pair of char indices at which
/// those bytes fall. Every offset must be a char boundary, as slicing the
/// line there requires.
pub fn char_ranges(line: &str, bytes: &Vec<(usize, usize)>) -> (r: Vec<(usize, usize)>)
    requires
        forall|i: int| 0 <= i < bytes@.len() ==> is_char_start(line@, (#[trigger] bytes@[i]).0 as int),
        forall|i: int| 0 <= i < bytes@.len() ==> is_char_start(line@, (#[trigger] bytes@[i]).1 as int),
    ensures
        match_columns(line@, bytes@, r@),
{
    let chars = chars_of(line);
    let mut r: Vec<(usize, usize)> = Vec::new();
    let mut i: usize = 0;
    while i < bytes.len()
        invariant
            chars@ == line@,
            i <= bytes@.len(),
            r@.len() == i,
            forall|j: int| 0 <= j < bytes@.len() ==> is_char_start(line@, (#[trigger] bytes@[j]).0 as int),
            forall|j: int| 0 <= j < bytes@.len() ==> is_char_start(line@, (#[trigger] bytes@[j]).1 as int),
            forall|j: int| 0 <= j < i ==> {
                &&& (#[trigger] r@[j]).0 <= line@.len()
                &&& r@[j].1 <= line@.len()
                &&& byte_offset_of(line@, r@[j].0 as int) == bytes@[j].0
                &&& byte_offset_of(line@, r@[j].1 as int) == bytes@[j].1
            },
        decreases bytes@.len() - i,
    {
        let (bs, be) = bytes[i];
        let s = char_index_of_byte(&chars, bs);
        let e = char_index_of_byte(&chars, be);
        r.push((s, e));
        i = i + 1;
    }
    r
}

/// The charwise `(start_col, end_col_exclusive)` ranges of the active
/// search pattern's matches on `line`; empty when no pattern is set.
/// With a pattern, they are the matches of `Regex::find_iter`
/// ([`regex_find_bytes`]) converted to char columns, in match order.
pub fn row_search_ranges(pattern: Option<&Regex>, line: &str) -> (r: Vec<(usize, usize)>)
    ensures
        pattern is None ==> r@.len() == 0,
        pattern matches Some(re) ==> match_columns(line@, regex_find_bytes(*re, line@), r@),
        forall|i: int| 0 <= i < r@.len() ==> (#[trigger] r@[i]).0 <= r@[i].1 <= line@.len(),
        forall|i: int, j: int| 0 <= i < j < r@.len() ==> (#[trigger] r@[i]).1 <= (#[trigger] r@[j]).0,
{
    match pattern {
        None => Vec::new(),
        Some(re) => {
            let bytes = find_match_bytes(re, line);
            let r = char_ranges(line, &bytes);
            proof {
                assert forall|i: int| 0 <= i < r@.len() implies (#[trigger] r@[i]).0 <= r@[i].1 by {
                    if r@[i].0 > r@[i].1 {
                        lemma_byte_offset_strictly_increasing(line@, r@[i].1 as int, r@[i].0 as int);
                    }
                };
                assert forall|i: int, j: int| 0 <= i < j < r@.len() implies (#[trigger] r@[i]).1
                    <= (#[trigger] r@[j]).0 by {
                    assert(bytes@[i].1 <= bytes@[j].0);
                    if r@[i].1 > r@[j].0 {
                        lemma_byte_offset_strictly_increasing(line@, r@[j].0 as int, r@[i].1 as int);
                    }
                };
            }
            r
        },
    }
}

} // verus!
