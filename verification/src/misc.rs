//! Alignment arithmetic and human-readable sizes.

use crate::text::{decimal, parse_usize, parse_usize_spec, push_decimal};
use vstd::prelude::*;
use vstd::string::*;

verus! {

/// Whether `m` is a power of two: exactly one bit of it is set.
pub open spec fn is_pow2(m: usize) -> bool {
    m != 0 && m & ((m - 1) as usize) == 0
}

/// The largest multiple of `m` that is not above `n`.
pub open spec fn floor_to(n: int, m: int) -> int {
    n - n % m
}

/// The smallest multiple of `m` that is not below `n`.
pub open spec fn ceil_to(n: int, m: int) -> int {
    if n % m == 0 {
        n
    } else {
        n - n % m + m
    }
}

/// For a power of two `m`, the bits of `n` below `m` are the remainder of `n`
/// by `m`.
pub proof fn lemma_low_bits_are_mod(n: usize, m: usize)
    requires
        is_pow2(m),
    ensures
        n & ((m - 1) as usize) == n as int % m as int,
    decreases m,
{
    if m == 1 {
        assert(n & 0 == 0) by (bit_vector);
    } else {
        let m2: usize = m / 2;
        let n2: usize = n / 2;
        assert(m % 2 == 0 && m2 != 0 && m2 & ((m2 - 1) as usize) == 0) by (bit_vector)
            requires
                m != 0,
                m != 1,
                m & ((m - 1) as usize) == 0,
                m2 == m / 2,
        ;
        lemma_low_bits_are_mod(n2, m2);
        assert(n & ((m - 1) as usize) == 2 * (n2 & ((m2 - 1) as usize)) + n % 2) by (bit_vector)
            requires
                m != 0,
                m != 1,
                m & ((m - 1) as usize) == 0,
                m2 == m / 2,
                n2 == n / 2,
        ;
        let q = n2 as int / m2 as int;
        let r = n2 as int % m2 as int;
        vstd::arithmetic::div_mod::lemma_fundamental_div_mod(n2 as int, m2 as int);
        vstd::arithmetic::div_mod::lemma_mod_bound(n2 as int, m2 as int);
        assert(q * m == 2 * (m2 * q)) by (nonlinear_arith)
            requires
                m == 2 * m2,
        ;
        vstd::arithmetic::div_mod::lemma_fundamental_div_mod_converse(
            n as int,
            m as int,
            q,
            2 * r + n as int % 2,
        );
    }
}

/// For a power of two `m`, masking the low bits of `n` away is rounding down
/// to a multiple of `m`, and the low bits are the remainder.
pub proof fn lemma_mask_is_mod(n: usize, m: usize)
    requires
        is_pow2(m),
    ensures
        n & !((m - 1) as usize) == floor_to(n as int, m as int),
        n & ((m - 1) as usize) == n as int % m as int,
        m > 0,
{
    lemma_low_bits_are_mod(n, m);
    let k: usize = (m - 1) as usize;
    assert(n & !k == n - (n & k)) by (bit_vector);
}

/// `m.is_power_of_two()` of std, for which vstd has no specification: whether
/// exactly one bit of `m` is set.
pub fn is_power_of_two(m: usize) -> (r: bool)
    ensures
        r == is_pow2(m),
{
    m != 0 && m & (m - 1) == 0
}

/// Rounds `n` to a multiple of the power of two `m`: up if `up`, else down.
pub fn align(n: usize, m: usize, up: bool) -> (r: usize)
    requires
        is_pow2(m),
        up ==> ceil_to(n as int, m as int) <= usize::MAX,
    ensures
        r == if up {
            ceil_to(n as int, m as int)
        } else {
            floor_to(n as int, m as int)
        },
{
    proof {
        lemma_mask_is_mod(n, m);
    }
    let mut ret: usize = n & !(m - 1);
    if up && (ret != n) {
        ret += m;
    }
    ret
}

/// Rounds `n` up to a multiple of the power of two `m`.
pub fn align_up(n: usize, m: usize) -> (r: usize)
    requires
        is_pow2(m),
        ceil_to(n as int, m as int) <= usize::MAX,
    ensures
        r == ceil_to(n as int, m as int),
{
    align(n, m, true)
}

/// Rounds `n` up to a multiple of the power of two `m`, if a `usize` holds
/// the result.
pub fn checked_align_up(n: usize, m: usize) -> (r: Option<usize>)
    requires
        is_pow2(m),
    ensures
        r.is_some() == (ceil_to(n as int, m as int) <= usize::MAX),
        r.is_some() ==> r.unwrap() == ceil_to(n as int, m as int),
{
    proof {
        lemma_mask_is_mod(n, m);
    }
    let floor: usize = n & !(m - 1);
    if floor == n {
        Some(n)
    } else {
        floor.checked_add(m)
    }
}

/// Rounds `n` down to a multiple of the power of two `m`.
pub fn align_down(n: usize, m: usize) -> (r: usize)
    requires
        is_pow2(m),
    ensures
        r == floor_to(n as int, m as int),
{
    align(n, m, false)
}

/// Whether `n` is a multiple of the power of two `m`.
pub fn is_aligned(n: usize, m: usize) -> (r: bool)
    requires
        is_pow2(m),
    ensures
        r == (n as int % m as int == 0),
{
    proof {
        lemma_mask_is_mod(n, m);
    }
    n & (m - 1) == 0
}

/// Rounding down to a multiple of `m` gives a multiple of `m` that is at
/// most `m - 1` below `n`.
pub proof fn lemma_floor_bounds(n: int, m: int)
    requires
        m > 0,
    ensures
        floor_to(n, m) <= n < floor_to(n, m) + m,
        floor_to(n, m) % m == 0,
{
    vstd::arithmetic::div_mod::lemma_mod_bound(n, m);
    vstd::arithmetic::div_mod::lemma_fundamental_div_mod(n, m);
    vstd::arithmetic::div_mod::lemma_mod_multiples_basic(n / m, m);
    assert(n - n % m == (n / m) * m) by (nonlinear_arith)
        requires
            n == m * (n / m) + n % m,
    ;
}

/// Rounding up to a multiple of `m` gives a multiple of `m` that is at most
/// `m - 1` above `n`.
pub proof fn lemma_ceil_bounds(n: int, m: int)
    requires
        m > 0,
    ensures
        n <= ceil_to(n, m) < n + m,
        ceil_to(n, m) % m == 0,
{
    lemma_floor_bounds(n, m);
    vstd::arithmetic::div_mod::lemma_mod_bound(n, m);
    if n % m != 0 {
        vstd::arithmetic::div_mod::lemma_mod_add_multiples_vanish(floor_to(n, m), m);
    }
}

/// No multiple of `m` lies strictly between `floor_to(n, m)` and
/// `floor_to(n, m) + m`: a multiple at or below `n` is at or below the first,
/// and one above `n` is at or above the second.
pub proof fn lemma_floor_between_multiples(n: int, m: int, b: int)
    requires
        m > 0,
        b % m == 0,
    ensures
        b <= n ==> b <= floor_to(n, m),
        n < b ==> floor_to(n, m) + m <= b,
{
    lemma_floor_bounds(n, m);
    let f = floor_to(n, m);
    vstd::arithmetic::div_mod::lemma_fundamental_div_mod(b, m);
    vstd::arithmetic::div_mod::lemma_fundamental_div_mod(f, m);
    let kb = b / m;
    let kf = f / m;
    assert(b == m * kb);
    assert(f == m * kf);
    if b <= n && b > f {
        assert(kb > kf) by (nonlinear_arith)
            requires
                m * kb > m * kf,
                m > 0,
        ;
        assert(m * kb >= m * kf + m) by (nonlinear_arith)
            requires
                kb >= kf + 1,
                m > 0,
        ;
    }
    if n < b && f + m > b {
        assert(kb > kf) by (nonlinear_arith)
            requires
                m * kb > m * kf,
                m > 0,
        ;
        assert(m * kb >= m * kf + m) by (nonlinear_arith)
            requires
                kb >= kf + 1,
                m > 0,
        ;
    }
}

/// A power of two divides every power of two that is not below it.
pub proof fn lemma_pow2_divides(a: usize, b: usize)
    requires
        is_pow2(a),
        is_pow2(b),
        a <= b,
    ensures
        b as int % a as int == 0,
{
    assert(b & ((a - 1) as usize) == 0) by (bit_vector)
        requires
            a != 0,
            b != 0,
            a & ((a - 1) as usize) == 0,
            b & ((b - 1) as usize) == 0,
            a <= b,
    ;
    lemma_low_bits_are_mod(b, a);
}

/// A multiple of `b` is a multiple of every divisor of `b`.
pub proof fn lemma_multiple_of_divisor(x: int, a: int, b: int)
    requires
        a > 0,
        b > 0,
        x % b == 0,
        b % a == 0,
    ensures
        x % a == 0,
{
    vstd::arithmetic::div_mod::lemma_fundamental_div_mod(x, b);
    vstd::arithmetic::div_mod::lemma_fundamental_div_mod(b, a);
    let k = (x / b) * (b / a);
    assert(x == a * k) by (nonlinear_arith)
        requires
            x == b * (x / b),
            b == a * (b / a),
            k == (x / b) * (b / a),
    ;
    vstd::arithmetic::div_mod::lemma_mod_multiples_basic(k, a);
    assert(k * a == a * k) by (nonlinear_arith);
}

/// The sum of two multiples of `m` is a multiple of `m`.
pub proof fn lemma_sum_of_multiples(x: int, y: int, m: int)
    requires
        m > 0,
        x % m == 0,
        y % m == 0,
    ensures
        (x + y) % m == 0,
{
    vstd::arithmetic::div_mod::lemma_fundamental_div_mod(x, m);
    vstd::arithmetic::div_mod::lemma_fundamental_div_mod(y, m);
    let k = x / m + y / m;
    assert(x + y == k * m) by (nonlinear_arith)
        requires
            x == m * (x / m),
            y == m * (y / m),
            k == x / m + y / m,
    ;
    vstd::arithmetic::div_mod::lemma_mod_multiples_basic(k, m);
}

/// A length above the last multiple of 4096 that a `usize` holds rounds up
/// to more than a `usize` holds; any other rounds up to one that it holds.
pub proof fn lemma_page_len_overflows(len: usize)
    ensures
        len > usize::MAX - 4095 ==> ceil_to(len as int, 4096) > usize::MAX,
        len <= usize::MAX - 4095 ==> ceil_to(len as int, 4096) <= usize::MAX,
{
    assert(usize::MAX == 0xffff_ffff || usize::MAX == 0xffff_ffff_ffff_ffff);
    let top = usize::MAX - 4095;
    assert(top % 4096 == 0);
    lemma_ceil_bounds(len as int, 4096);
    lemma_floor_bounds(top, 4096);
    lemma_floor_bounds(len as int, 4096);
    if len > top {
        lemma_floor_between_multiples(top, 4096, ceil_to(len as int, 4096));
    } else {
        lemma_floor_between_multiples(len as int, 4096, top);
    }
}

/// A size in the largest unit that does not make it zero, rounded down: in
/// bytes below 1 KiB, in KiB below 1 MiB, and so on up to TiB.
pub open spec fn size_text(sz: usize) -> Seq<char> {
    if (sz as int) < 0x400 {
        decimal(sz as nat) + "B"@
    } else if (sz as int) < 0x10_0000 {
        decimal((sz as int / 0x400) as nat) + "KB"@
    } else if (sz as int) < 0x4000_0000 {
        decimal((sz as int / 0x10_0000) as nat) + "MB"@
    } else if (sz as int) < 0x100_0000_0000int {
        decimal((sz as int / 0x4000_0000) as nat) + "GB"@
    } else {
        decimal((sz as int / 0x100_0000_0000int) as nat) + "TB"@
    }
}

/// A size for people to read, such as `2MB`.
pub fn size_to_str(sz: usize) -> (r: String)
    ensures
        r@ == size_text(sz),
{
    let v: u64 = sz as u64;
    proof {
        assert(v >> 10 == v / 0x400) by (bit_vector);
        assert(v >> 20 == v / 0x10_0000) by (bit_vector);
        assert(v >> 30 == v / 0x4000_0000) by (bit_vector);
        assert(v >> 40 == v / 0x100_0000_0000) by (bit_vector);
    }
    let mut out = String::new();
    if v >> 10 == 0 {
        push_decimal(&mut out, sz);
        out.append("B");
    } else if v >> 20 == 0 {
        push_decimal(&mut out, (v >> 10) as usize);
        out.append("KB");
    } else if v >> 30 == 0 {
        push_decimal(&mut out, (v >> 20) as usize);
        out.append("MB");
    } else if v >> 40 == 0 {
        push_decimal(&mut out, (v >> 30) as usize);
        out.append("GB");
    } else {
        push_decimal(&mut out, (v >> 40) as usize);
        out.append("TB");
    }
    proof {
        assert(out@ =~= size_text(sz));
    }
    out
}

/// The shape of a size in text: digits, then an optional unit.
pub const SIZE_PATTERN: &'static str = "(\\d+)([KMGT]?B?)";

/// What the first two groups of the leftmost match of the pattern `pattern`
/// in `text` hold, in the `regex` crate's syntax and by its rules of
/// matching; `None` where the pattern is refused, nothing matches, or one of
/// the two groups takes no part in the match.
pub uninterp spec fn regex_groups(pattern: Seq<char>, text: Seq<char>) -> Option<
    (Seq<char>, Seq<char>),
>;

/// `Regex::new`, `Regex::captures`, `Captures::get` and `Match::as_str` of
/// the `regex` crate: compiles `pattern`, searches `text` for its leftmost
/// match and hands out the text of the groups 1 and 2. The contract gives
/// the result its name, `regex_groups`, and claims nothing else of it.
#[verifier::external_body]
fn first_match(pattern: &str, text: &str) -> (r: Option<(String, String)>)
    ensures
        match r {
            Some((a, b)) => regex_groups(pattern@, text@) == Some((a@, b@)),
            None => regex_groups(pattern@, text@).is_none(),
        },
{
    let re = regex::Regex::new(pattern).ok()?;
    let caps = re.captures(text)?;
    let digits = caps.get(1)?.as_str().to_owned();
    let unit = caps.get(2)?.as_str().to_owned();
    Some((digits, unit))
}

/// The number of bits by which the unit `unit` shifts a size: none for
/// bytes, ten more for each step from KiB to TiB; `None` for any other text.
pub open spec fn unit_shift(unit: Seq<char>) -> Option<u64> {
    if unit == ""@ || unit == "b"@ || unit == "B"@ {
        Some(0)
    } else if unit == "kB"@ || unit == "KB"@ {
        Some(10)
    } else if unit == "mB"@ || unit == "MB"@ {
        Some(20)
    } else if unit == "gB"@ || unit == "GB"@ {
        Some(30)
    } else if unit == "tB"@ || unit == "TB"@ {
        Some(40)
    } else {
        None
    }
}

/// The size that the digits `digits` with the unit `unit` write: the number,
/// shifted by the unit, in the low bits of a `usize`. `None` where the
/// digits write no number or the unit is unknown.
pub open spec fn size_of_parts(digits: Seq<char>, unit: Seq<char>) -> Option<usize> {
    match (parse_usize_spec(digits), unit_shift(unit)) {
        (Some(n), Some(k)) => Some(((n as u64) << k) as usize),
        _ => None,
    }
}

/// The size that the groups of a match write, if there is a match.
pub open spec fn size_of_groups(groups: Option<(Seq<char>, Seq<char>)>) -> Option<usize> {
    match groups {
        Some((digits, unit)) => size_of_parts(digits, unit),
        None => None,
    }
}

/// The size that `s` writes: that of the first run of digits in it and the
/// unit behind them.
pub open spec fn size_of_text(s: Seq<char>) -> Option<usize> {
    size_of_groups(regex_groups(SIZE_PATTERN@, s))
}

fn shift_of_unit(unit: &str) -> (r: Option<u64>)
    ensures
        r == unit_shift(unit@),
{
    let u = String::from_str(unit);
    if u == String::from_str("") || u == String::from_str("b") || u == String::from_str("B") {
        Some(0)
    } else if u == String::from_str("kB") || u == String::from_str("KB") {
        Some(10)
    } else if u == String::from_str("mB") || u == String::from_str("MB") {
        Some(20)
    } else if u == String::from_str("gB") || u == String::from_str("GB") {
        Some(30)
    } else if u == String::from_str("tB") || u == String::from_str("TB") {
        Some(40)
    } else {
        None
    }
}

/// The size that the digits `digits` with the unit `unit` write.
pub fn size_from_parts(digits: &str, unit: &str) -> (r: Option<usize>)
    ensures
        r == size_of_parts(digits@, unit@),
{
    match (parse_usize(digits), shift_of_unit(unit)) {
        (Some(n), Some(k)) => {
            let wide: u64 = (n as u64) << k;
            Some(#[verifier::truncate] (wide as usize))
        },
        _ => None,
    }
}

/// The size that `s` writes.
pub fn size_from_str(s: &str) -> (r: usize)
    requires
        size_of_text(s@).is_some(),
    ensures
        r == size_of_text(s@).unwrap(),
{
    match first_match(SIZE_PATTERN, s) {
        Some((digits, unit)) => size_from_parts(digits.as_str(), unit.as_str()).unwrap(),
        None => 0,
    }
}

/// The size that `s` writes, if it writes one.
pub fn try_size_from_str(s: &str) -> (r: Option<usize>)
    ensures
        r == size_of_text(s@),
{
    match first_match(SIZE_PATTERN, s) {
        Some((digits, unit)) => {
            match size_from_parts(digits.as_str(), unit.as_str()) {
                Some(_) => Some(size_from_str(s)),
                None => None,
            }
        },
        None => None,
    }
}

} // verus!
