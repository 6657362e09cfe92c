//! Keyword classification against a vim-style `iskeyword` spec.

use vstd::prelude::*;
use crate::text::chars_of;
use crate::unicode::{is_white_space, white_space, unicode_alphabetic, is_alphabetic};

verus! {

/// The pieces of `s` between commas, as `str::split(',')` yields them: an
/// empty string gives one empty piece, and every comma starts a new one.
pub open spec fn split_commas(s: Seq<char>) -> Seq<Seq<char>>
    decreases s.len(),
{
    if s.len() == 0 {
        seq![Seq::<char>::empty()]
    } else {
        let rest = split_commas(s.drop_last());
        if s.last() == ',' {
            rest.push(Seq::<char>::empty())
        } else {
            rest.update(rest.len() - 1, rest.last().push(s.last()))
        }
    }
}

/// `t` without its leading `White_Space` chars.
pub open spec fn trim_start(t: Seq<char>) -> Seq<char>
    decreases t.len(),
{
    if t.len() > 0 && is_white_space(t[0]) {
        trim_start(t.drop_first())
    } else {
        t
    }
}

/// `t` without its trailing `White_Space` chars.
pub open spec fn trim_end(t: Seq<char>) -> Seq<char>
    decreases t.len(),
{
    if t.len() > 0 && is_white_space(t.last()) {
        trim_end(t.drop_last())
    } else {
        t
    }
}

/// `t` without leading and trailing `White_Space`, as `str::trim` gives it.
pub open spec fn trim(t: Seq<char>) -> Seq<char> {
    trim_end(trim_start(t))
}

pub open spec fn is_digit(c: char) -> bool {
    '0' <= c && c <= '9'
}

/// Value of a run of decimal digits.
pub open spec fn decimal_value(d: Seq<char>) -> nat
    decreases d.len(),
{
    if d.len() == 0 {
        0
    } else {
        decimal_value(d.drop_last()) * 10 + ((d.last() as u32) - ('0' as u32)) as nat
    }
}

/// `t` without one leading `+`.
pub open spec fn unsigned_digits(t: Seq<char>) -> Seq<char> {
    if t.len() > 0 && t[0] == '+' {
        t.drop_first()
    } else {
        t
    }
}

pub open spec fn all_digits(d: Seq<char>) -> bool {
    forall|i: int| 0 <= i < d.len() ==> is_digit(#[trigger] d[i])
}

/// What `str::parse::<u32>` gives: an optional `+` and then one or more
/// ASCII digits whose value fits in `u32`.
pub open spec fn parse_u32(t: Seq<char>) -> Option<u32> {
    let d = unsigned_digits(t);
    if d.len() > 0 && all_digits(d) && decimal_value(d) <= u32::MAX {
        Some(decimal_value(d) as u32)
    } else {
        None
    }
}

/// Index of the first `-` in `t`, if any.
pub open spec fn first_dash(t: Seq<char>) -> Option<int> {
    if exists|i: int| 0 <= i < t.len() && t[i] == '-' {
        Some(choose|i: int| 0 <= i < t.len() && t[i] == '-' && forall|j: int| 0 <= j < i ==> t[j] != '-')
    } else {
        None
    }
}

/// `lo-hi` with both halves parsing as `u32`: the inclusive code range.
pub open spec fn dash_range(t: Seq<char>) -> Option<(u32, u32)> {
    match first_dash(t) {
        Some(p) => match (parse_u32(t.take(p)), parse_u32(t.skip(p + 1))) {
            (Some(lo), Some(hi)) => Some((lo, hi)),
            _ => None,
        },
        None => None,
    }
}

/// Whether one trimmed token of an `iskeyword` spec admits `c`:
/// `@` admits alphabetic chars; `N-M` (decimal, inclusive) admits chars
/// whose code lies in the range; a bare decimal `N` admits the char with
/// that code; any other single char admits itself. Empty and unknown
/// tokens admit nothing.
pub open spec fn token_admits(c: char, token: Seq<char>) -> bool {
    if token.len() == 0 {
        false
    } else if token == seq!['@'] {
        unicode_alphabetic(c)
    } else if let Some((lo, hi)) = dash_range(token) {
        lo <= (c as u32) && (c as u32) <= hi
    } else if let Some(n) = parse_u32(token) {
        (c as u32) == n
    } else {
        token.len() == 1 && token[0] == c
    }
}

/// `c` is a keyword char under `spec` when some comma-separated token,
/// trimmed, admits it.
pub open spec fn keyword_char(c: char, spec: Seq<char>) -> bool {
    exists|i: int|
        0 <= i < split_commas(spec).len() && #[trigger] token_admits(c, trim(split_commas(spec)[i]))
}

proof fn lemma_split_commas_nonempty(s: Seq<char>)
    ensures
        split_commas(s).len() >= 1,
    decreases s.len(),
{
    if s.len() > 0 {
        lemma_split_commas_nonempty(s.drop_last());
    }
}

proof fn lemma_decimal_monotone(d: Seq<char>, i: int)
    requires
        0 <= i <= d.len(),
        forall|k: int| 0 <= k < d.len() ==> is_digit(#[trigger] d[k]),
    ensures
        decimal_value(d.take(i)) <= decimal_value(d),
    decreases d.len() - i,
{
    if i < d.len() {
        lemma_decimal_monotone(d, i + 1);
        assert(d.take(i + 1).drop_last() =~= d.take(i));
    } else {
        assert(d.take(i) =~= d);
    }
}

/// Parses `v[lo..hi]` as `str::parse::<u32>` would.
fn parse_u32_range(v: &Vec<char>, lo: usize, hi: usize) -> (r: Option<u32>)
    requires
        lo <= hi <= v@.len(),
    ensures
        r == parse_u32(v@.subrange(lo as int, hi as int)),
{
    let ghost t = v@.subrange(lo as int, hi as int);
    let mut start = lo;
    if lo < hi && v[lo] == '+' {
        start = lo + 1;
    }
    let ghost d = v@.subrange(start as int, hi as int);
    assert(d == unsigned_digits(t));
    if start == hi {
        return None;
    }
    let mut val: u64 = 0;
    let mut i = start;
    while i < hi
        invariant
            lo <= start <= i <= hi <= v@.len(),
            d == v@.subrange(start as int, hi as int),
            t == v@.subrange(lo as int, hi as int),
            d == unsigned_digits(t),
            d.len() > 0,
            forall|k: int| start <= k < i ==> is_digit(#[trigger] v@[k]),
            val == decimal_value(v@.subrange(start as int, i as int)),
            val <= u32::MAX,
        decreases hi - i,
    {
        let c = v[i];
        if !('0' <= c && c <= '9') {
            assert(!is_digit(d[i - start]));
            assert(!all_digits(d));
            assert(parse_u32(t) is None);
            return None;
        }
        let digit = (c as u32 - '0' as u32) as u64;
        assert(v@.subrange(start as int, i + 1).drop_last() =~= v@.subrange(start as int, i as int));
        val = val * 10 + digit;
        i = i + 1;
        if val > u32::MAX as u64 {
            proof {
                if all_digits(d) {
                    assert(d.take(i - start) =~= v@.subrange(start as int, i as int));
                    lemma_decimal_monotone(d, i - start);
                    assert(decimal_value(d) > u32::MAX);
                }
                assert(parse_u32(t) is None);
            }
            return None;
        }
    }
    assert(d =~= v@.subrange(start as int, i as int));
    Some(val as u32)
}


proof fn lemma_trim_start_skip(t: Seq<char>, k: int)
    requires
        0 <= k <= t.len(),
        forall|j: int| 0 <= j < k ==> is_white_space(#[trigger] t[j]),
    ensures
        trim_start(t) == trim_start(t.skip(k)),
    decreases k,
{
    if k > 0 {
        assert(t.skip(1) =~= t.drop_first());
        lemma_trim_start_skip(t.drop_first(), k - 1);
        assert(t.drop_first().skip(k - 1) =~= t.skip(k));
    } else {
        assert(t.skip(0) =~= t);
    }
}

proof fn lemma_trim_end_take(t: Seq<char>, k: int)
    requires
        0 <= k <= t.len(),
        forall|j: int| k <= j < t.len() ==> is_white_space(#[trigger] t[j]),
    ensures
        trim_end(t) == trim_end(t.take(k)),
    decreases t.len() - k,
{
    if k < t.len() {
        assert(t.take(t.len() - 1) =~= t.drop_last());
        lemma_trim_end_take(t.drop_last(), k);
        assert(t.drop_last().take(k) =~= t.take(k));
    } else {
        assert(t.take(k) =~= t);
    }
}

proof fn lemma_split_commas_prefix(s: Seq<char>, m: int, m2: int)
    requires
        0 <= m <= m2 <= s.len(),
    ensures
        split_commas(s.take(m)).len() <= split_commas(s.take(m2)).len(),
        forall|j: int|
            0 <= j < split_commas(s.take(m)).len() - 1 ==> split_commas(s.take(m2))[j]
                == #[trigger] split_commas(s.take(m))[j],
    decreases m2 - m,
{
    if m < m2 {
        lemma_split_commas_prefix(s, m, m2 - 1);
        assert(s.take(m2).drop_last() =~= s.take(m2 - 1));
        lemma_split_commas_nonempty(s.take(m2 - 1));
    }
}

/// Bounds of `trim(v[lo..hi])` inside `v`.
pub fn trim_bounds(v: &Vec<char>, lo: usize, hi: usize) -> (r: (usize, usize))
    requires
        lo <= hi <= v@.len(),
    ensures
        lo <= r.0 <= r.1 <= hi,
        v@.subrange(r.0 as int, r.1 as int) == trim(v@.subrange(lo as int, hi as int)),
{
    let ghost t = v@.subrange(lo as int, hi as int);
    let mut a = lo;
    while a < hi && white_space(v[a])
        invariant
            lo <= a <= hi <= v@.len(),
            t == v@.subrange(lo as int, hi as int),
            forall|j: int| lo <= j < a ==> is_white_space(#[trigger] v@[j]),
        decreases hi - a,
    {
        a = a + 1;
    }
    proof {
        assert forall|j: int| 0 <= j < a - lo implies is_white_space(#[trigger] t[j]) by {
            assert(t[j] == v@[lo + j]);
        };
        lemma_trim_start_skip(t, a - lo);
        assert(t.skip(a - lo) =~= v@.subrange(a as int, hi as int));
        let u = v@.subrange(a as int, hi as int);
        if a < hi {
            assert(u[0] == v@[a as int]);
            assert(trim_start(u) == u);
        } else {
            assert(u.len() == 0);
        }
    }
    let ghost u = v@.subrange(a as int, hi as int);
    let mut b = hi;
    while b > a && white_space(v[b - 1])
        invariant
            lo <= a <= b <= hi <= v@.len(),
            u == v@.subrange(a as int, hi as int),
            forall|j: int| b <= j < hi ==> is_white_space(#[trigger] v@[j]),
        decreases b - a,
    {
        b = b - 1;
    }
    proof {
        assert forall|j: int| b - a <= j < u.len() implies is_white_space(#[trigger] u[j]) by {
            assert(u[j] == v@[a + j]);
        };
        lemma_trim_end_take(u, b - a);
        let w = v@.subrange(a as int, b as int);
        assert(u.take(b - a) =~= w);
        if b > a {
            assert(w.last() == v@[b - 1]);
        }
    }
    (a, b)
}

/// Whether `v[lo..hi]`, taken as one trimmed token, admits `c`.
fn token_admits_range(c: char, v: &Vec<char>, lo: usize, hi: usize) -> (b: bool)
    requires
        lo <= hi <= v@.len(),
    ensures
        b == token_admits(c, v@.subrange(lo as int, hi as int)),
{
    let ghost t = v@.subrange(lo as int, hi as int);
    if lo == hi {
        return false;
    }
    if hi - lo == 1 && v[lo] == '@' {
        assert(t =~= seq!['@']);
        return is_alphabetic(c);
    }
    assert(t != seq!['@']) by {
        if t == seq!['@'] {
            assert(t.len() == 1 && t[0] == '@');
        }
    };
    let mut p = lo;
    while p < hi && v[p] != '-'
        invariant
            lo <= p <= hi <= v@.len(),
            forall|j: int| lo <= j < p ==> v@[j] != '-',
        decreases hi - p,
    {
        p = p + 1;
    }
    if p < hi {
        proof {
            let q = p - lo;
            assert(t[q] == '-');
            assert(forall|j: int| 0 <= j < q ==> t[j] == v@[lo + j]);
            let w = choose|i: int| 0 <= i < t.len() && t[i] == '-' && forall|j: int| 0 <= j < i ==> t[j] != '-';
            assert(0 <= q < t.len() && t[q] == '-' && forall|j: int| 0 <= j < q ==> t[j] != '-');
            if w < q {
                assert(t[w] == v@[lo + w]);
            } else if w > q {
                assert(t[q] != '-');
            }
            assert(first_dash(t) == Some(q));
            assert(t.take(q) =~= v@.subrange(lo as int, p as int));
            assert(t.skip(q + 1) =~= v@.subrange(p + 1, hi as int));
        }
        let lo_v = parse_u32_range(v, lo, p);
        let hi_v = parse_u32_range(v, p + 1, hi);
        match (lo_v, hi_v) {
            (Some(l), Some(h)) => {
                let code = c as u32;
                return l <= code && code <= h;
            },
            _ => {},
        }
    } else {
        assert(first_dash(t) is None) by {
            if exists|i: int| 0 <= i < t.len() && t[i] == '-' {
                let i = choose|i: int| 0 <= i < t.len() && t[i] == '-';
                assert(t[i] == v@[lo + i]);
            }
        };
    }
    match parse_u32_range(v, lo, hi) {
        Some(n) => {
            return (c as u32) == n;
        },
        None => {},
    }
    hi - lo == 1 && v[lo] == c
}

proof fn lemma_split_commas_step(s: Seq<char>, i: int)
    requires
        0 <= i < s.len(),
    ensures
        split_commas(s.take(i + 1)) == (if s[i] == ',' {
            split_commas(s.take(i)).push(Seq::<char>::empty())
        } else {
            split_commas(s.take(i)).update(
                split_commas(s.take(i)).len() - 1,
                split_commas(s.take(i)).last().push(s[i]),
            )
        }),
{
    assert(s.take(i + 1).drop_last() =~= s.take(i));
    assert(s.take(i + 1).last() == s[i]);
}

/// Match `c` against a vim-style `iskeyword` spec. Tokens are
/// comma-separated and trimmed; understood forms are `@` (any alphabetic
/// char), `N-M` (decimal char-code range, inclusive), a bare integer `N`
/// (single char code) and a single literal char such as `_`. Unknown
/// tokens are ignored.
pub fn is_keyword_char(c: char, spec: &str) -> (b: bool)
    ensures
        b == keyword_char(c, spec@),
{
    let v = chars_of(spec);
    let n = v.len();
    let mut start: usize = 0;
    let mut i: usize = 0;
    proof {
        assert(v@.take(0) =~= Seq::<char>::empty());
    }
    while i < n
        invariant
            v@ == spec@,
            n == v@.len(),
            start <= i <= n,
            split_commas(v@.take(i as int)).len() >= 1,
            split_commas(v@.take(i as int)).last() == v@.subrange(start as int, i as int),
            forall|j: int|
                0 <= j < split_commas(v@.take(i as int)).len() - 1 ==> !#[trigger] token_admits(
                    c,
                    trim(split_commas(v@.take(i as int))[j]),
                ),
        decreases n - i,
    {
        let ghost before = split_commas(v@.take(i as int));
        proof {
            lemma_split_commas_step(v@, i as int);
        }
        if v[i] == ',' {
            let (a, b) = trim_bounds(&v, start, i);
            if token_admits_range(c, &v, a, b) {
                proof {
                    let k = before.len() - 1;
                    let after = split_commas(v@.take(i + 1));
                    lemma_split_commas_prefix(v@, i + 1, n as int);
                    assert(v@.take(n as int) =~= v@);
                    assert(after[k] == before[k]);
                    assert(split_commas(v@)[k] == after[k]);
                    assert(token_admits(c, trim(split_commas(v@)[k])));
                }
                return true;
            }
            start = i + 1;
            i = i + 1;
            proof {
                let after = split_commas(v@.take(i as int));
                assert(after == before.push(Seq::<char>::empty()));
                assert(after.last() =~= v@.subrange(start as int, i as int));
                assert forall|j: int| 0 <= j < after.len() - 1 implies !#[trigger] token_admits(
                    c,
                    trim(after[j]),
                ) by {
                    assert(after[j] == before[j]);
                };
            }
        } else {
            i = i + 1;
            proof {
                let after = split_commas(v@.take(i as int));
                assert(after == before.update(before.len() - 1, before.last().push(v@[i - 1])));
                assert(after.last() =~= v@.subrange(start as int, i as int));
                assert forall|j: int| 0 <= j < after.len() - 1 implies !#[trigger] token_admits(
                    c,
                    trim(after[j]),
                ) by {
                    assert(after[j] == before[j]);
                };
            }
        }
    }
    proof {
        assert(v@.take(n as int) =~= v@);
    }
    let (a, b) = trim_bounds(&v, start, n);
    token_admits_range(c, &v, a, b)
}

proof fn lemma_split_commas_join(a: Seq<char>, b: Seq<char>)
    ensures
        split_commas(a + seq![','] + b) == split_commas(a) + split_commas(b),
    decreases b.len(),
{
    lemma_split_commas_nonempty(a);
    if b.len() == 0 {
        assert(a + seq![','] + b =~= a.push(','));
        assert((a + seq![','] + b).drop_last() =~= a);
        assert(split_commas(a) + split_commas(b) =~= split_commas(a).push(Seq::<char>::empty()));
    } else {
        let b2 = b.drop_last();
        lemma_split_commas_join(a, b2);
        lemma_split_commas_nonempty(b2);
        let s = a + seq![','] + b;
        assert(s.drop_last() =~= a + seq![','] + b2);
        assert(s.last() == b.last());
        let l = split_commas(a);
        let r = split_commas(b2);
        if b.last() == ',' {
            assert((l + r).push(Seq::<char>::empty()) =~= l + r.push(Seq::<char>::empty()));
        } else {
            assert((l + r).update((l + r).len() - 1, (l + r).last().push(b.last()))
                =~= l + r.update(r.len() - 1, r.last().push(b.last())));
        }
    }
}

/// Joining two `iskeyword` specs with a comma admits exactly the chars
/// that either spec admits: tokens are independent of one another.
pub proof fn lemma_keyword_spec_union(c: char, a: Seq<char>, b: Seq<char>)
    ensures
        keyword_char(c, a + seq![','] + b) <==> (keyword_char(c, a) || keyword_char(c, b)),
{
    lemma_split_commas_join(a, b);
    let l = split_commas(a);
    let r = split_commas(b);
    let t = split_commas(a + seq![','] + b);
    if keyword_char(c, a + seq![','] + b) {
        let i = choose|i: int| 0 <= i < t.len() && #[trigger] token_admits(c, trim(t[i]));
        if i < l.len() {
            assert(t[i] == l[i]);
        } else {
            assert(t[i] == r[i - l.len()]);
        }
    }
    if keyword_char(c, a) {
        let i = choose|i: int| 0 <= i < l.len() && #[trigger] token_admits(c, trim(l[i]));
        assert(t[i] == l[i]);
    }
    if keyword_char(c, b) {
        let i = choose|i: int| 0 <= i < r.len() && #[trigger] token_admits(c, trim(r[i]));
        assert(t[i + l.len()] == r[i]);
    }
}

/// The `@` token admits exactly the alphabetic chars (the Unicode
/// Alphabetic property, as `char::is_alphabetic` gives it), whatever their
/// script; so a spec that lists `@` among other tokens admits every
/// alphabetic char.
pub proof fn lemma_at_token_admits_alphabetic(c: char, a: Seq<char>, b: Seq<char>)
    ensures
        keyword_char(c, seq!['@']) == unicode_alphabetic(c),
        unicode_alphabetic(c) ==> keyword_char(c, a + seq![','] + seq!['@'] + seq![','] + b),
{
    let at = seq!['@'];
    assert(at.drop_last() =~= Seq::<char>::empty());
    assert(split_commas(Seq::<char>::empty()) == seq![Seq::<char>::empty()]);
    assert(split_commas(at) =~= seq![at]) by {
        assert(Seq::<char>::empty().push('@') =~= at);
    };
    assert(!is_white_space('@'));
    assert(trim_start(at) == at);
    assert(trim_end(at) == at);
    assert(trim(split_commas(at)[0]) == at);
    if unicode_alphabetic(c) {
        assert(token_admits(c, trim(split_commas(at)[0])));
    }
    lemma_keyword_spec_union(c, a, at);
    lemma_keyword_spec_union(c, a + seq![','] + at, b);
}

} // verus!
