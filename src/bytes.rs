//! Byte-level scanning used by the wire parsers: line ends, ASCII whitespace,
//! ASCII case folding and unsigned numbers in base 10 or 16.
use vstd::prelude::*;
use vstd::utf8::{decode_utf8, valid_utf8};

verus! {

/// A carriage return followed by a line feed starts at `i`.
pub open spec fn is_crlf_at(s: Seq<u8>, i: int) -> bool {
    0 <= i && i + 1 < s.len() && s[i] == 13u8 && s[i + 1] == 10u8
}

/// Position of the first CRLF at or after `from`.
pub open spec fn find_crlf(s: Seq<u8>, from: int) -> Option<int>
    decreases s.len() - from,
{
    if from < 0 || from + 1 >= s.len() {
        None
    } else if is_crlf_at(s, from) {
        Some(from)
    } else {
        find_crlf(s, from + 1)
    }
}

pub proof fn lemma_find_crlf_bounds(s: Seq<u8>, from: int)
    ensures
        find_crlf(s, from) is Some ==> from <= find_crlf(s, from)->0 && find_crlf(s, from)->0 + 2
            <= s.len() && is_crlf_at(s, find_crlf(s, from)->0),
    decreases s.len() - from,
{
    if from >= 0 && from + 1 < s.len() && !is_crlf_at(s, from) {
        lemma_find_crlf_bounds(s, from + 1);
    }
}

/// Finds the end of the line that starts at `from`: the position of the next CRLF.
pub fn get_line(buf: &Vec<u8>, from: usize) -> (r: Option<usize>)
    ensures
        match r {
            Some(e) => find_crlf(buf@, from as int) == Some(e as int) && from <= e && buf@.len() <= usize::MAX && e + 2
                <= buf@.len(),
            None => find_crlf(buf@, from as int) is None,
        },
{
    let n = buf.len();
    let mut i = from;
    while i < n && i + 1 < n
        invariant
            from <= i,
            n == buf@.len(),
            find_crlf(buf@, i as int) == find_crlf(buf@, from as int),
        decreases n - i,
    {
        if buf[i] == 13u8 && buf[i + 1] == 10u8 {
            return Some(i);
        }
        i = i + 1;
    }
    None
}

/// ASCII whitespace, as trimmed from header keys and values.
pub open spec fn is_space(b: u8) -> bool {
    b == 32u8 || b == 9u8 || b == 10u8 || b == 11u8 || b == 12u8 || b == 13u8
}

/// The first position in `[i, hi)` that holds no whitespace, or `hi`.
pub open spec fn skip_space(s: Seq<u8>, i: int, hi: int) -> int
    decreases hi - i,
{
    if i < hi && is_space(s[i]) {
        skip_space(s, i + 1, hi)
    } else {
        i
    }
}

/// The first position in `[i, hi)` that holds whitespace, or `hi`.
pub open spec fn skip_token(s: Seq<u8>, i: int, hi: int) -> int
    decreases hi - i,
{
    if i < hi && !is_space(s[i]) {
        skip_token(s, i + 1, hi)
    } else {
        i
    }
}

/// The end of `[lo, j)` once trailing whitespace is dropped.
pub open spec fn back_space(s: Seq<u8>, lo: int, j: int) -> int
    decreases j - lo,
{
    if lo < j && is_space(s[j - 1]) {
        back_space(s, lo, j - 1)
    } else {
        j
    }
}

pub fn skip_space_exec(s: &Vec<u8>, i: usize, hi: usize) -> (r: usize)
    requires
        i <= hi <= s@.len(),
    ensures
        r == skip_space(s@, i as int, hi as int),
        i <= r <= hi,
{
    let mut k = i;
    while k < hi && is_space_exec(s[k])
        invariant
            i <= k <= hi <= s@.len(),
            skip_space(s@, k as int, hi as int) == skip_space(s@, i as int, hi as int),
        decreases hi - k,
    {
        k = k + 1;
    }
    k
}

pub fn skip_token_exec(s: &Vec<u8>, i: usize, hi: usize) -> (r: usize)
    requires
        i <= hi <= s@.len(),
    ensures
        r == skip_token(s@, i as int, hi as int),
        i <= r <= hi,
{
    let mut k = i;
    while k < hi && !is_space_exec(s[k])
        invariant
            i <= k <= hi <= s@.len(),
            skip_token(s@, k as int, hi as int) == skip_token(s@, i as int, hi as int),
        decreases hi - k,
    {
        k = k + 1;
    }
    k
}

pub fn back_space_exec(s: &Vec<u8>, lo: usize, j: usize) -> (r: usize)
    requires
        lo <= j <= s@.len(),
    ensures
        r == back_space(s@, lo as int, j as int),
        lo <= r <= j,
{
    let mut k = j;
    while lo < k && is_space_exec(s[k - 1])
        invariant
            lo <= k <= j <= s@.len(),
            back_space(s@, lo as int, k as int) == back_space(s@, lo as int, j as int),
        decreases k - lo,
    {
        k = k - 1;
    }
    k
}

pub fn is_space_exec(b: u8) -> (r: bool)
    ensures
        r == is_space(b),
{
    b == 32u8 || b == 9u8 || b == 10u8 || b == 11u8 || b == 12u8 || b == 13u8
}

/// ASCII lower case of one byte; other bytes are kept.
pub open spec fn lower_byte(b: u8) -> u8 {
    if 65u8 <= b && b <= 90u8 {
        (b + 32) as u8
    } else {
        b
    }
}

pub open spec fn lower(s: Seq<u8>) -> Seq<u8> {
    s.map_values(|b: u8| lower_byte(b))
}

/// The bytes of `s[lo..hi)`, lower-cased.
pub fn lower_range(s: &Vec<u8>, lo: usize, hi: usize) -> (r: Vec<u8>)
    requires
        lo <= hi <= s@.len(),
    ensures
        r@ == lower(s@.subrange(lo as int, hi as int)),
{
    let mut out: Vec<u8> = Vec::new();
    let mut k = lo;
    while k < hi
        invariant
            lo <= k <= hi <= s@.len(),
            out@ == lower(s@.subrange(lo as int, k as int)),
        decreases hi - k,
    {
        let b = s[k];
        let c = if 65u8 <= b && b <= 90u8 { b + 32 } else { b };
        out.push(c);
        k = k + 1;
        assert(out@ =~= lower(s@.subrange(lo as int, k as int)));
    }
    out
}

/// The bytes of `s[lo..hi)`.
pub fn copy_range(s: &Vec<u8>, lo: usize, hi: usize) -> (r: Vec<u8>)
    requires
        lo <= hi <= s@.len(),
    ensures
        r@ == s@.subrange(lo as int, hi as int),
{
    let mut out: Vec<u8> = Vec::new();
    let mut k = lo;
    while k < hi
        invariant
            lo <= k <= hi <= s@.len(),
            out@ == s@.subrange(lo as int, k as int),
        decreases hi - k,
    {
        out.push(s[k]);
        k = k + 1;
        assert(out@ =~= s@.subrange(lo as int, k as int));
    }
    out
}

/// Appends `s[lo..hi)` to `out`.
pub fn extend_range(out: &mut Vec<u8>, s: &Vec<u8>, lo: usize, hi: usize)
    requires
        lo <= hi <= s@.len(),
    ensures
        final(out)@ == old(out)@ + s@.subrange(lo as int, hi as int),
{
    let ghost start = out@;
    let mut k = lo;
    while k < hi
        invariant
            lo <= k <= hi <= s@.len(),
            out@ == start + s@.subrange(lo as int, k as int),
        decreases hi - k,
    {
        out.push(s[k]);
        k = k + 1;
        assert(out@ =~= start + s@.subrange(lo as int, k as int));
    }
}

/// The value of a digit in bases up to 16; 16 for a byte that is no digit.
pub open spec fn digit_val(b: u8) -> nat {
    if 48u8 <= b && b <= 57u8 {
        (b - 48) as nat
    } else if 97u8 <= b && b <= 102u8 {
        (b - 87) as nat
    } else if 65u8 <= b && b <= 70u8 {
        (b - 55) as nat
    } else {
        16
    }
}

pub open spec fn all_digits(s: Seq<u8>, lo: int, hi: int, base: nat) -> bool {
    forall|i: int| lo <= i < hi ==> digit_val(#[trigger] s[i]) < base
}

/// The number that the digits `s[lo..hi)` write in `base`.
pub open spec fn digits_value(s: Seq<u8>, lo: int, hi: int, base: nat) -> nat
    decreases hi - lo,
{
    if hi <= lo {
        0
    } else {
        digits_value(s, lo, hi - 1, base) * base + digit_val(s[hi - 1])
    }
}

/// An unsigned number in `s[lo..hi)`: an optional `+`, then one digit or more.
pub open spec fn number_in(s: Seq<u8>, lo: int, hi: int, base: nat) -> Option<nat> {
    let start = if lo < hi && s[lo] == 43u8 { lo + 1 } else { lo };
    if start < hi && all_digits(s, start, hi, base) {
        Some(digits_value(s, start, hi, base))
    } else {
        None
    }
}

/// `number_in`, kept only where it is at most `max`.
pub open spec fn bounded_number(s: Seq<u8>, lo: int, hi: int, base: nat, max: nat) -> Option<nat> {
    match number_in(s, lo, hi, base) {
        Some(v) => if v <= max { Some(v) } else { None },
        None => None,
    }
}

proof fn lemma_digits_value_grows(s: Seq<u8>, lo: int, k: int, hi: int, base: nat)
    requires
        lo <= k <= hi,
        base >= 1,
    ensures
        digits_value(s, lo, k, base) <= digits_value(s, lo, hi, base),
    decreases hi - k,
{
    if k < hi {
        lemma_digits_value_grows(s, lo, k, hi - 1, base);
        let v = digits_value(s, lo, hi - 1, base);
        assert(v * base >= v) by (nonlinear_arith)
            requires
                base >= 1,
        ;
    }
}

/// Reads the number in `s[lo..hi)` in `base` (10 or 16), refusing one above `max`.
pub fn parse_number(s: &Vec<u8>, lo: usize, hi: usize, base: u8, max: usize) -> (r: Option<usize>)
    requires
        lo <= hi <= s@.len(),
        base == 10 || base == 16,
    ensures
        match r {
            Some(v) => bounded_number(s@, lo as int, hi as int, base as nat, max as nat) == Some(
                v as nat,
            ),
            None => bounded_number(s@, lo as int, hi as int, base as nat, max as nat) is None,
        },
{
    let start = if lo < hi && s[lo] == 43u8 { lo + 1 } else { lo };
    if start >= hi {
        return None;
    }
    let mut acc: u64 = 0;
    let mut k = start;
    while k < hi
        invariant
            lo <= start <= k <= hi <= s@.len(),
            start < hi,
            start as int == (if lo < hi && s@[lo as int] == 43u8 { lo + 1 } else { lo as int }),
            base == 10 || base == 16,
            all_digits(s@, start as int, k as int, base as nat),
            acc as nat == digits_value(s@, start as int, k as int, base as nat),
            acc <= max,
        decreases hi - k,
    {
        let b = s[k];
        let d: u8 = if 48u8 <= b && b <= 57u8 {
            b - 48
        } else if 97u8 <= b && b <= 102u8 {
            b - 87
        } else if 65u8 <= b && b <= 70u8 {
            b - 55
        } else {
            16
        };
        assert(d as nat == digit_val(b));
        if d >= base {
            return None;
        }
        assert(acc as u128 * base as u128 <= 0xffff_ffff_ffff_ffff * 16) by (nonlinear_arith)
            requires
                acc <= 0xffff_ffff_ffff_ffffu64,
                base <= 16,
        ;
        let next: u128 = acc as u128 * base as u128 + d as u128;
        if next > max as u128 {
            proof {
                let v = digits_value(s@, start as int, k + 1, base as nat);
                assert(v == acc * base + d);
                if all_digits(s@, start as int, hi as int, base as nat) {
                    lemma_digits_value_grows(s@, start as int, k + 1, hi as int, base as nat);
                }
            }
            return None;
        }
        acc = next as u64;
        k = k + 1;
    }
    Some(acc as usize)
}

/// Relies on String::from_utf8: it succeeds exactly on valid UTF-8, and the
/// text then holds the decoded characters.
#[verifier::external_body]
pub(crate) fn text_of(b: Vec<u8>) -> (r: Option<String>)
    ensures
        match r {
            Some(t) => valid_utf8(b@) && t@ == decode_utf8(b@),
            None => !valid_utf8(b@),
        },
{
    String::from_utf8(b).ok()
}

/// Appends all of `chunk` to `out`.
pub fn push_all(out: &mut Vec<u8>, chunk: &[u8])
    ensures
        final(out)@ == old(out)@ + chunk@,
{
    let mut i: usize = 0;
    while i < chunk.len()
        invariant
            i <= chunk@.len(),
            out@ == old(out)@ + chunk@.subrange(0, i as int),
        decreases chunk@.len() - i,
    {
        out.push(chunk[i]);
        i = i + 1;
        assert(out@ =~= old(out)@ + chunk@.subrange(0, i as int));
    }
    assert(chunk@.subrange(0, chunk@.len() as int) =~= chunk@);
}

} // verus!

verus! {

/// `s1` and `s2` hold the same bytes below `hi`.
pub open spec fn agree(s1: Seq<u8>, s2: Seq<u8>, hi: int) -> bool {
    0 <= hi <= s1.len() && hi <= s2.len() && forall|i: int| 0 <= i < hi ==> s1[i] == s2[i]
}

pub proof fn lemma_skip_space_agree(s1: Seq<u8>, s2: Seq<u8>, i: int, hi: int)
    requires
        agree(s1, s2, hi),
        0 <= i,
    ensures
        skip_space(s1, i, hi) == skip_space(s2, i, hi),
        i <= hi ==> i <= skip_space(s1, i, hi) <= hi,
    decreases hi - i,
{
    if i < hi {
        lemma_skip_space_agree(s1, s2, i + 1, hi);
    }
}

pub proof fn lemma_skip_token_agree(s1: Seq<u8>, s2: Seq<u8>, i: int, hi: int)
    requires
        agree(s1, s2, hi),
        0 <= i,
    ensures
        skip_token(s1, i, hi) == skip_token(s2, i, hi),
        i <= hi ==> i <= skip_token(s1, i, hi) <= hi,
    decreases hi - i,
{
    if i < hi {
        lemma_skip_token_agree(s1, s2, i + 1, hi);
    }
}

pub proof fn lemma_back_space_agree(s1: Seq<u8>, s2: Seq<u8>, lo: int, j: int)
    requires
        agree(s1, s2, j),
        0 <= lo,
    ensures
        back_space(s1, lo, j) == back_space(s2, lo, j),
        lo <= j ==> lo <= back_space(s1, lo, j) <= j,
    decreases j - lo,
{
    if lo < j {
        assert(agree(s1, s2, j - 1));
        lemma_back_space_agree(s1, s2, lo, j - 1);
    }
}

pub proof fn lemma_digits_agree(s1: Seq<u8>, s2: Seq<u8>, lo: int, hi: int, base: nat)
    requires
        agree(s1, s2, hi),
        0 <= lo,
    ensures
        digits_value(s1, lo, hi, base) == digits_value(s2, lo, hi, base),
        all_digits(s1, lo, hi, base) == all_digits(s2, lo, hi, base),
        bounded_number(s1, lo, hi, base, usize::MAX as nat) == bounded_number(
            s2,
            lo,
            hi,
            base,
            usize::MAX as nat,
        ),
        bounded_number(s1, lo, hi, base, 65535) == bounded_number(s2, lo, hi, base, 65535),
    decreases hi - lo,
{
    if lo < hi {
        assert(agree(s1, s2, hi - 1));
        lemma_digits_agree(s1, s2, lo, hi - 1, base);
        lemma_digits_agree(s1, s2, lo + 1, hi, base);
    }
}

/// A line end found in a prefix is the line end of the whole, and a line end
/// of the whole that lies in the prefix is found there.
pub proof fn lemma_find_crlf_prefix(m: Seq<u8>, k: int, from: int)
    requires
        0 <= k <= m.len(),
        0 <= from,
    ensures
        find_crlf(m.take(k), from) matches Some(e) ==> find_crlf(m, from) == Some(e),
        find_crlf(m, from) matches Some(e) ==> (e + 2 <= k ==> find_crlf(m.take(k), from) == Some(
            e,
        )),
        find_crlf(m, from) matches Some(e) ==> (e + 2 > k ==> find_crlf(m.take(k), from) is None),
    decreases m.len() - from,
{
    let p = m.take(k);
    if from + 1 < m.len() {
        if from + 1 < k {
            assert(p[from] == m[from] && p[from + 1] == m[from + 1]);
        }
        if !is_crlf_at(m, from) {
            lemma_find_crlf_prefix(m, k, from + 1);
        }
    }
}

} // verus!
