//! Characters and decimal numbers: what the parsers and the formatters of
//! this crate share.

use vstd::prelude::*;
use vstd::string::*;

verus! {

/// The characters of `s`.
pub fn chars_of(s: &str) -> (r: Vec<char>)
    ensures
        r@ == s@,
{
    let n = s.unicode_len();
    let mut out: Vec<char> = Vec::new();
    let mut i: usize = 0;
    while i < n
        invariant
            i <= n,
            n == s@.len(),
            out@ == s@.subrange(0, i as int),
        decreases n - i,
    {
        out.push(s.get_char(i));
        proof {
            assert(out@ =~= s@.subrange(0, i + 1));
        }
        i += 1;
    }
    proof {
        assert(out@ =~= s@);
    }
    out
}

/// Whether `c` is a decimal digit.
pub open spec fn is_digit(c: char) -> bool {
    '0' <= c <= '9'
}

/// The value of the decimal digit `c`.
pub open spec fn digit_val(c: char) -> int {
    c as int - '0' as int
}

/// Whether `s` holds decimal digits only.
pub open spec fn all_digits(s: Seq<char>) -> bool {
    forall|i: int| 0 <= i < s.len() ==> is_digit(#[trigger] s[i])
}

/// The number that the decimal digits `s` write; 0 for none.
pub open spec fn digits_value(s: Seq<char>) -> int
    decreases s.len(),
{
    if s.len() == 0 {
        0
    } else {
        digits_value(s.drop_last()) * 10 + digit_val(s.last())
    }
}

/// The number that `s` writes, as `str::parse::<usize>` reads it: an
/// optional `+`, then one decimal digit or more, of a value that a `usize`
/// holds.
pub open spec fn parse_usize_spec(s: Seq<char>) -> Option<usize> {
    let body = if s.len() > 0 && s[0] == '+' {
        s.subrange(1, s.len() as int)
    } else {
        s
    };
    if body.len() > 0 && all_digits(body) && digits_value(body) <= usize::MAX {
        Some(digits_value(body) as usize)
    } else {
        None
    }
}

/// A number written in digits is not below the number that any of its
/// prefixes writes.
pub proof fn lemma_prefix_value(s: Seq<char>, k: int)
    requires
        all_digits(s),
        0 <= k <= s.len(),
    ensures
        0 <= digits_value(s.subrange(0, k)) <= digits_value(s),
    decreases s.len() - k,
{
    if k == s.len() {
        assert(s.subrange(0, k) =~= s);
        lemma_value_nonneg(s);
    } else {
        lemma_prefix_value(s, k + 1);
        let p = s.subrange(0, k + 1);
        assert(p.drop_last() =~= s.subrange(0, k));
        assert(is_digit(s[k]));
        assert(p.last() == s[k]);
        lemma_value_nonneg(s.subrange(0, k));
    }
}

/// A number written in digits is not negative.
pub proof fn lemma_value_nonneg(s: Seq<char>)
    requires
        all_digits(s),
    ensures
        digits_value(s) >= 0,
    decreases s.len(),
{
    if s.len() > 0 {
        assert(is_digit(s[s.len() - 1]));
        lemma_value_nonneg(s.drop_last());
    }
}

/// Reads the characters `v[from..to]` as a number, as `str::parse::<usize>`
/// does.
pub fn parse_usize_in(v: &Vec<char>, from: usize, to: usize) -> (r: Option<usize>)
    requires
        from <= to <= v@.len(),
    ensures
        r == parse_usize_spec(v@.subrange(from as int, to as int)),
{
    let ghost s = v@.subrange(from as int, to as int);
    let mut i: usize = from;
    if i < to && v[i] == '+' {
        i += 1;
    }
    let start = i;
    let ghost body = v@.subrange(start as int, to as int);
    proof {
        assert(body =~= if s.len() > 0 && s[0] == '+' {
            s.subrange(1, s.len() as int)
        } else {
            s
        });
    }
    if start == to {
        return None;
    }
    let mut acc: usize = 0;
    while i < to
        invariant
            from <= start <= i <= to <= v@.len(),
            start < to,
            s == v@.subrange(from as int, to as int),
            body == v@.subrange(start as int, to as int),
            body == if s.len() > 0 && s[0] == '+' {
                s.subrange(1, s.len() as int)
            } else {
                s
            },
            all_digits(body.subrange(0, i - start)),
            acc == digits_value(body.subrange(0, i - start)),
        decreases to - i,
    {
        let c = v[i];
        let ghost pre = body.subrange(0, i - start);
        let ghost cur = body.subrange(0, i - start + 1);
        proof {
            assert(cur.drop_last() =~= pre);
            assert(cur.last() == c);
        }
        if !(c >= '0' && c <= '9') {
            proof {
                assert(body[i - start] == c);
            }
            return None;
        }
        proof {
            assert forall|j: int| 0 <= j < cur.len() implies is_digit(#[trigger] cur[j]) by {
                if j < pre.len() {
                    assert(cur[j] == pre[j]);
                }
            }
        }
        let d: usize = (c as u32 - '0' as u32) as usize;
        let next = match acc.checked_mul(10) {
            Some(m) => m.checked_add(d),
            None => None,
        };
        match next {
            Some(x) => {
                acc = x;
            },
            None => {
                proof {
                    if all_digits(body) {
                        lemma_prefix_value(body, i - start + 1);
                    }
                }
                return None;
            },
        }
        i += 1;
    }
    proof {
        assert(body.subrange(0, to - start) =~= body);
    }
    Some(acc)
}

/// Reads `s` as a number, as `str::parse::<usize>` does.
pub fn parse_usize(s: &str) -> (r: Option<usize>)
    ensures
        r == parse_usize_spec(s@),
{
    let v = chars_of(s);
    proof {
        assert(v@.subrange(0, v@.len() as int) =~= v@);
    }
    parse_usize_in(&v, 0, v.len())
}

/// The decimal digit of the value `d`.
pub open spec fn digit_char(d: int) -> char {
    if d == 0 {
        '0'
    } else if d == 1 {
        '1'
    } else if d == 2 {
        '2'
    } else if d == 3 {
        '3'
    } else if d == 4 {
        '4'
    } else if d == 5 {
        '5'
    } else if d == 6 {
        '6'
    } else if d == 7 {
        '7'
    } else if d == 8 {
        '8'
    } else {
        '9'
    }
}

/// The decimal digits of `n`, without leading zeros.
pub open spec fn decimal(n: nat) -> Seq<char>
    decreases n,
{
    if n < 10 {
        seq![digit_char(n as int)]
    } else {
        decimal(n / 10).push(digit_char((n % 10) as int))
    }
}

fn digit_str(d: usize) -> (r: &'static str)
    requires
        d < 10,
    ensures
        r@ == seq![digit_char(d as int)],
{
    proof {
        reveal_strlit("0");
        reveal_strlit("1");
        reveal_strlit("2");
        reveal_strlit("3");
        reveal_strlit("4");
        reveal_strlit("5");
        reveal_strlit("6");
        reveal_strlit("7");
        reveal_strlit("8");
        reveal_strlit("9");
    }
    let r = if d == 0 {
        "0"
    } else if d == 1 {
        "1"
    } else if d == 2 {
        "2"
    } else if d == 3 {
        "3"
    } else if d == 4 {
        "4"
    } else if d == 5 {
        "5"
    } else if d == 6 {
        "6"
    } else if d == 7 {
        "7"
    } else if d == 8 {
        "8"
    } else {
        "9"
    };
    proof {
        assert(r@ =~= seq![digit_char(d as int)]);
    }
    r
}

/// Appends the decimal digits of `n` to `out`.
pub fn push_decimal(out: &mut String, n: usize)
    ensures
        final(out)@ == old(out)@ + decimal(n as nat),
    decreases n,
{
    if n < 10 {
        out.append(digit_str(n));
    } else {
        push_decimal(out, n / 10);
        out.append(digit_str(n % 10));
        proof {
            assert(out@ =~= old(out)@ + decimal(n as nat));
        }
    }
}

/// The decimal digits of `n`.
pub fn decimal_string(n: usize) -> (r: String)
    ensures
        r@ == decimal(n as nat),
{
    let mut out = String::new();
    push_decimal(&mut out, n);
    proof {
        assert(out@ =~= decimal(n as nat));
    }
    out
}

/// Whether `c` is white space, as `char::is_whitespace` has it.
pub open spec fn is_space(c: char) -> bool {
    ||| '\u{9}' <= c <= '\u{d}'
    ||| c == ' '
    ||| c == '\u{85}'
    ||| c == '\u{a0}'
    ||| c == '\u{1680}'
    ||| '\u{2000}' <= c <= '\u{200a}'
    ||| c == '\u{2028}'
    ||| c == '\u{2029}'
    ||| c == '\u{202f}'
    ||| c == '\u{205f}'
    ||| c == '\u{3000}'
}

/// Whether `c` is white space.
pub fn char_is_space(c: char) -> (r: bool)
    ensures
        r == is_space(c),
{
    (c >= '\u{9}' && c <= '\u{d}') || c == ' ' || c == '\u{85}' || c == '\u{a0}' || c
        == '\u{1680}' || (c >= '\u{2000}' && c <= '\u{200a}') || c == '\u{2028}' || c
        == '\u{2029}' || c == '\u{202f}' || c == '\u{205f}' || c == '\u{3000}'
}

/// The index of the first character of `s[from..to]` that is not white
/// space; `to` if there is none.
pub open spec fn skip_spaces(s: Seq<char>, from: int, to: int) -> int
    decreases to - from,
{
    if from < to && 0 <= from < s.len() && is_space(s[from]) {
        skip_spaces(s, from + 1, to)
    } else {
        from
    }
}

/// The index behind the last character of `s[from..to]` that is not white
/// space; `from` if there is none.
pub open spec fn drop_spaces(s: Seq<char>, from: int, to: int) -> int
    decreases to - from,
{
    if from < to && 0 < to <= s.len() && is_space(s[to - 1]) {
        drop_spaces(s, from, to - 1)
    } else {
        to
    }
}

/// The bounds of `s[from..to]` without the white space at its ends, as
/// `str::trim` leaves it.
pub open spec fn trim_bounds(s: Seq<char>, from: int, to: int) -> (int, int) {
    let a = skip_spaces(s, from, to);
    (a, drop_spaces(s, a, to))
}

/// The bounds of `v[from..to]` without the white space at its ends.
pub fn trim_in(v: &Vec<char>, from: usize, to: usize) -> (r: (usize, usize))
    requires
        from <= to <= v@.len(),
    ensures
        (r.0 as int, r.1 as int) == trim_bounds(v@, from as int, to as int),
        from <= r.0 <= r.1 <= to,
{
    let mut a = from;
    while a < to && char_is_space(v[a])
        invariant
            from <= a <= to <= v@.len(),
            skip_spaces(v@, from as int, to as int) == skip_spaces(v@, a as int, to as int),
        decreases to - a,
    {
        a += 1;
    }
    let mut b = to;
    while a < b && char_is_space(v[b - 1])
        invariant
            a <= b <= to <= v@.len(),
            drop_spaces(v@, a as int, to as int) == drop_spaces(v@, a as int, b as int),
        decreases b - a,
    {
        b -= 1;
    }
    (a, b)
}

/// The index of the first `c` in `s[from..to]`; `to` if there is none.
pub open spec fn index_of(s: Seq<char>, c: char, from: int, to: int) -> int
    decreases to - from,
{
    if from < to && 0 <= from < s.len() && s[from] != c {
        index_of(s, c, from + 1, to)
    } else {
        from
    }
}

/// The index of the first `c` in `v[from..to]`; `to` if there is none.
pub fn find_in(v: &Vec<char>, c: char, from: usize, to: usize) -> (r: usize)
    requires
        from <= to <= v@.len(),
    ensures
        r == index_of(v@, c, from as int, to as int),
        from <= r <= to,
        r < to ==> v@[r as int] == c,
{
    let mut i = from;
    while i < to && v[i] != c
        invariant
            from <= i <= to <= v@.len(),
            index_of(v@, c, from as int, to as int) == index_of(v@, c, i as int, to as int),
        decreases to - i,
    {
        i += 1;
    }
    i
}

/// The value of the hexadecimal digit `c`, in either case; -1 for any other
/// character.
pub open spec fn hex_val(c: char) -> int {
    if '0' <= c <= '9' {
        c as int - '0' as int
    } else if 'a' <= c <= 'f' {
        c as int - 'a' as int + 10
    } else if 'A' <= c <= 'F' {
        c as int - 'A' as int + 10
    } else {
        -1
    }
}

/// Whether `s` holds hexadecimal digits only.
pub open spec fn all_hex(s: Seq<char>) -> bool {
    forall|i: int| 0 <= i < s.len() ==> hex_val(#[trigger] s[i]) >= 0
}

/// The number that the hexadecimal digits `s` write; 0 for none.
pub open spec fn hex_value(s: Seq<char>) -> int
    decreases s.len(),
{
    if s.len() == 0 {
        0
    } else {
        hex_value(s.drop_last()) * 16 + hex_val(s.last())
    }
}

/// The number that `s` writes in base 16, as `usize::from_str_radix` reads
/// it: an optional `+`, then one hexadecimal digit or more, of a value that
/// a `usize` holds.
pub open spec fn parse_hex_spec(s: Seq<char>) -> Option<usize> {
    let body = if s.len() > 0 && s[0] == '+' {
        s.subrange(1, s.len() as int)
    } else {
        s
    };
    if body.len() > 0 && all_hex(body) && hex_value(body) <= usize::MAX {
        Some(hex_value(body) as usize)
    } else {
        None
    }
}

/// A number written in hexadecimal digits is not negative.
pub proof fn lemma_hex_nonneg(s: Seq<char>)
    requires
        all_hex(s),
    ensures
        hex_value(s) >= 0,
    decreases s.len(),
{
    if s.len() > 0 {
        assert(hex_val(s[s.len() - 1]) >= 0);
        lemma_hex_nonneg(s.drop_last());
    }
}

/// A number written in hexadecimal digits is not below the number that any
/// of its prefixes writes.
pub proof fn lemma_hex_prefix(s: Seq<char>, k: int)
    requires
        all_hex(s),
        0 <= k <= s.len(),
    ensures
        0 <= hex_value(s.subrange(0, k)) <= hex_value(s),
    decreases s.len() - k,
{
    if k == s.len() {
        assert(s.subrange(0, k) =~= s);
        lemma_hex_nonneg(s);
    } else {
        lemma_hex_prefix(s, k + 1);
        let p = s.subrange(0, k + 1);
        assert(p.drop_last() =~= s.subrange(0, k));
        assert(hex_val(s[k]) >= 0);
        assert(p.last() == s[k]);
        lemma_hex_nonneg(s.subrange(0, k));
    }
}

fn hex_digit(c: char) -> (r: Option<usize>)
    ensures
        r.is_some() == (hex_val(c) >= 0),
        r.is_some() ==> r.unwrap() == hex_val(c),
{
    if c >= '0' && c <= '9' {
        Some((c as u32 - '0' as u32) as usize)
    } else if c >= 'a' && c <= 'f' {
        Some((c as u32 - 'a' as u32) as usize + 10)
    } else if c >= 'A' && c <= 'F' {
        Some((c as u32 - 'A' as u32) as usize + 10)
    } else {
        None
    }
}

/// Reads the characters `v[from..to]` as a number in base 16, as
/// `usize::from_str_radix` does.
pub fn parse_hex_in(v: &Vec<char>, from: usize, to: usize) -> (r: Option<usize>)
    requires
        from <= to <= v@.len(),
    ensures
        r == parse_hex_spec(v@.subrange(from as int, to as int)),
{
    let ghost s = v@.subrange(from as int, to as int);
    let mut i: usize = from;
    if i < to && v[i] == '+' {
        i += 1;
    }
    let start = i;
    let ghost body = v@.subrange(start as int, to as int);
    proof {
        assert(body =~= if s.len() > 0 && s[0] == '+' {
            s.subrange(1, s.len() as int)
        } else {
            s
        });
    }
    if start == to {
        return None;
    }
    let mut acc: usize = 0;
    while i < to
        invariant
            from <= start <= i <= to <= v@.len(),
            start < to,
            s == v@.subrange(from as int, to as int),
            body == v@.subrange(start as int, to as int),
            body == if s.len() > 0 && s[0] == '+' {
                s.subrange(1, s.len() as int)
            } else {
                s
            },
            all_hex(body.subrange(0, i - start)),
            acc == hex_value(body.subrange(0, i - start)),
        decreases to - i,
    {
        let c = v[i];
        let ghost pre = body.subrange(0, i - start);
        let ghost cur = body.subrange(0, i - start + 1);
        proof {
            assert(cur.drop_last() =~= pre);
            assert(cur.last() == c);
        }
        let d = match hex_digit(c) {
            None => {
                proof {
                    assert(body[i - start] == c);
                }
                return None;
            },
            Some(d) => d,
        };
        proof {
            assert forall|j: int| 0 <= j < cur.len() implies hex_val(#[trigger] cur[j]) >= 0 by {
                if j < pre.len() {
                    assert(cur[j] == pre[j]);
                }
            }
        }
        let next = match acc.checked_mul(16) {
            Some(m) => m.checked_add(d),
            None => None,
        };
        match next {
            Some(x) => {
                acc = x;
            },
            None => {
                proof {
                    if all_hex(body) {
                        lemma_hex_prefix(body, i - start + 1);
                    }
                }
                return None;
            },
        }
        i += 1;
    }
    proof {
        assert(body.subrange(0, to - start) =~= body);
    }
    Some(acc)
}

/// The index of the first white space in `s[from..to]`; `to` if there is
/// none.
pub open spec fn token_end(s: Seq<char>, from: int, to: int) -> int
    decreases to - from,
{
    if from < to && 0 <= from < s.len() && !is_space(s[from]) {
        token_end(s, from + 1, to)
    } else {
        from
    }
}

/// The index behind the last white space in `s[from..to]`; `from` if there
/// is none.
pub open spec fn token_start(s: Seq<char>, from: int, to: int) -> int
    decreases to - from,
{
    if from < to && 0 < to <= s.len() && !is_space(s[to - 1]) {
        token_start(s, from, to - 1)
    } else {
        to
    }
}

/// The index of the first white space in `v[from..to]`; `to` if there is
/// none.
pub fn find_space(v: &Vec<char>, from: usize, to: usize) -> (r: usize)
    requires
        from <= to <= v@.len(),
    ensures
        r == token_end(v@, from as int, to as int),
        from <= r <= to,
{
    let mut i = from;
    while i < to && !char_is_space(v[i])
        invariant
            from <= i <= to <= v@.len(),
            token_end(v@, from as int, to as int) == token_end(v@, i as int, to as int),
        decreases to - i,
    {
        i += 1;
    }
    i
}

/// The index behind the last white space in `v[from..to]`; `from` if there
/// is none.
pub fn find_space_back(v: &Vec<char>, from: usize, to: usize) -> (r: usize)
    requires
        from <= to <= v@.len(),
    ensures
        r == token_start(v@, from as int, to as int),
        from <= r <= to,
{
    let mut i = to;
    while from < i && !char_is_space(v[i - 1])
        invariant
            from <= i <= to <= v@.len(),
            token_start(v@, from as int, to as int) == token_start(v@, from as int, i as int),
        decreases i - from,
    {
        i -= 1;
    }
    i
}

/// Whether the characters `v[from..to]` are those of `word`.
pub fn slice_is(v: &Vec<char>, from: usize, to: usize, word: &str) -> (r: bool)
    requires
        from <= to <= v@.len(),
    ensures
        r == (v@.subrange(from as int, to as int) == word@),
{
    let n = word.unicode_len();
    if to - from != n {
        return false;
    }
    let mut i: usize = 0;
    while i < n
        invariant
            i <= n,
            n == word@.len(),
            to - from == n,
            from <= to <= v@.len(),
            forall|j: int| 0 <= j < i ==> v@[from + j] == word@[j],
        decreases n - i,
    {
        if v[from + i] != word.get_char(i) {
            proof {
                assert(v@.subrange(from as int, to as int)[i as int] != word@[i as int]);
            }
            return false;
        }
        i += 1;
    }
    proof {
        assert(v@.subrange(from as int, to as int) =~= word@);
    }
    true
}

/// `String::push` of std: appends the character `c` to `out`.
#[verifier::external_body]
pub(crate) fn push_char(out: &mut String, c: char)
    ensures
        final(out)@ == old(out)@.push(c),
{
    out.push(c);
}

} // verus!
