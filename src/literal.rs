//! Reading cell values out of their text form.
use vstd::prelude::*;

verus! {

pub open spec fn is_digit(c: char) -> bool {
    '0' <= c && c <= '9'
}

pub open spec fn digit_value(c: char) -> int {
    (c as int) - ('0' as int)
}

pub open spec fn all_digits(s: Seq<char>) -> bool {
    forall|i: int| 0 <= i < s.len() ==> is_digit(#[trigger] s[i])
}

/// The number that a string of decimal digits spells.
pub open spec fn digits_value(s: Seq<char>) -> int
    decreases s.len(),
{
    if s.len() == 0 {
        0
    } else {
        10 * digits_value(s.drop_last()) + digit_value(s.last())
    }
}

pub open spec fn pow10(n: nat) -> int
    decreases n,
{
    if n == 0 {
        1
    } else {
        10 * pow10((n - 1) as nat)
    }
}

pub open spec fn has_sign(s: Seq<char>) -> bool {
    s.len() > 0 && (s[0] == '-' || s[0] == '+')
}

pub open spec fn is_negative(s: Seq<char>) -> bool {
    s.len() > 0 && s[0] == '-'
}

/// The text after an optional leading sign.
pub open spec fn unsigned_part(s: Seq<char>) -> Seq<char> {
    if has_sign(s) {
        s.drop_first()
    } else {
        s
    }
}

/// What a 64-bit integer literal denotes: an optional `+` or `-`, then one
/// or more ASCII digits, with a value in the range of `i64`.
pub open spec fn integer_literal(s: Seq<char>) -> Option<i64> {
    let body = unsigned_part(s);
    let magnitude = digits_value(body);
    let v = if is_negative(s) {
        -magnitude
    } else {
        magnitude
    };
    if body.len() == 0 || !all_digits(body) || v < i64::MIN || v > i64::MAX {
        None
    } else {
        Some(v as i64)
    }
}

/// Number of fractional digits that a decimal keeps.
pub const DECIMAL_SCALE: u32 = 9;

/// Index of the first `.` in `s`, or `s.len()` when there is none.
pub open spec fn dot_position(s: Seq<char>) -> int
    decreases s.len(),
{
    if s.len() == 0 {
        0
    } else if s[0] == '.' {
        0
    } else {
        1 + dot_position(s.drop_first())
    }
}

/// What a decimal literal denotes, in units of 10^-9: an optional sign, then
/// digits with at most one `.` among them, at least one digit in all and at
/// most nine after the point; its magnitude must fit in `i128`.
pub open spec fn decimal_literal(s: Seq<char>) -> Option<i128> {
    let body = unsigned_part(s);
    let p = dot_position(body);
    let whole = body.take(p);
    let frac = if p < body.len() {
        body.skip(p + 1)
    } else {
        Seq::empty()
    };
    let magnitude = digits_value(whole + frac) * pow10((DECIMAL_SCALE - frac.len()) as nat);
    if whole.len() + frac.len() == 0 || !all_digits(whole) || !all_digits(frac) || frac.len()
        > DECIMAL_SCALE || magnitude > i128::MAX {
        None
    } else if is_negative(s) {
        Some((-magnitude) as i128)
    } else {
        Some(magnitude as i128)
    }
}

/// A white-space character, as `char::is_whitespace` has it.
pub open spec fn is_space(c: char) -> bool {
    c == '\t' || c == '\n' || c == '\u{0B}' || c == '\u{0C}' || c == '\r' || c == ' ' || c
        == '\u{85}' || c == '\u{A0}' || c == '\u{1680}' || ('\u{2000}' <= c && c <= '\u{200A}') || c
        == '\u{2028}' || c == '\u{2029}' || c == '\u{202F}' || c == '\u{205F}' || c == '\u{3000}'
}

/// How many white-space characters `s` starts with.
pub open spec fn leading_spaces(s: Seq<char>) -> nat
    decreases s.len(),
{
    if s.len() > 0 && is_space(s[0]) {
        1 + leading_spaces(s.drop_first())
    } else {
        0
    }
}

/// How many white-space characters `s` ends with.
pub open spec fn trailing_spaces(s: Seq<char>) -> nat
    decreases s.len(),
{
    if s.len() > 0 && is_space(s.last()) {
        1 + trailing_spaces(s.drop_last())
    } else {
        0
    }
}

/// `s` without its leading and trailing white space.
pub open spec fn trimmed(s: Seq<char>) -> Seq<char> {
    let t = s.skip(leading_spaces(s) as int);
    t.take(t.len() - trailing_spaces(t))
}

/// The case-insensitive word `null`, with any white space around it.
pub open spec fn is_null_literal(s: Seq<char>) -> bool {
    null_word(trimmed(s))
}

/// The case-insensitive word `null`.
pub open spec fn null_word(s: Seq<char>) -> bool {
    &&& s.len() == 4
    &&& (s[0] == 'n' || s[0] == 'N')
    &&& (s[1] == 'u' || s[1] == 'U')
    &&& (s[2] == 'l' || s[2] == 'L')
    &&& (s[3] == 'l' || s[3] == 'L')
}

proof fn lemma_digits_value_nonneg(s: Seq<char>)
    requires
        all_digits(s),
    ensures
        digits_value(s) >= 0,
    decreases s.len(),
{
    if s.len() > 0 {
        assert(is_digit(s[s.len() - 1]));
        lemma_digits_value_nonneg(s.drop_last());
    }
}

proof fn lemma_pow10_positive(n: nat)
    ensures
        pow10(n) >= 1,
    decreases n,
{
    if n > 0 {
        lemma_pow10_positive((n - 1) as nat);
    }
}

/// Multiplies by ten and adds `d`, saturating at `cap`.
fn push_digit(acc: u128, d: u128, cap: u128) -> (r: u128)
    requires
        acc <= cap,
        d <= 9,
        9 <= cap <= u128::MAX - 9,
    ensures
        r as int == if 10 * acc + d >= cap {
            cap as int
        } else {
            10 * acc + d
        },
{
    if acc > (cap - d) / 10 {
        assert(10 * acc + d >= cap) by (nonlinear_arith)
            requires acc > (cap - d) / 10, d <= 9, cap >= 9;
        cap
    } else {
        assert(10 * acc + d <= cap) by (nonlinear_arith)
            requires acc <= (cap - d) / 10, d <= 9, cap >= 9;
        10 * acc + d
    }
}

/// The number spelled by the digits of `s[from..to]`, saturating at `cap`.
fn accumulate_digits(s: &str, from: usize, to: usize, cap: u128) -> (r: u128)
    requires
        from <= to <= s@.len(),
        all_digits(s@.subrange(from as int, to as int)),
        9 <= cap <= u128::MAX - 9,
    ensures
        r as int == if digits_value(s@.subrange(from as int, to as int)) >= cap {
            cap as int
        } else {
            digits_value(s@.subrange(from as int, to as int))
        },
{
    let mut acc: u128 = 0;
    let mut i: usize = from;
    assert(s@.subrange(from as int, from as int) =~= Seq::<char>::empty());
    while i < to
        invariant
            from <= i <= to <= s@.len(),
            all_digits(s@.subrange(from as int, to as int)),
            9 <= cap <= u128::MAX - 9,
            acc as int == if digits_value(s@.subrange(from as int, i as int)) >= cap {
                cap as int
            } else {
                digits_value(s@.subrange(from as int, i as int))
            },
        decreases to - i,
    {
        let c = s.get_char(i);
        let ghost pre = s@.subrange(from as int, i as int);
        let ghost next = s@.subrange(from as int, i + 1);
        assert(next.drop_last() =~= pre);
        assert(next.last() == c);
        assert(is_digit(s@.subrange(from as int, to as int)[i - from]));
        assert(s@.subrange(from as int, to as int)[i - from] == c);
        assert(all_digits(pre));
        proof {
            lemma_digits_value_nonneg(pre);
        }
        let d = (c as u32 - '0' as u32) as u128;
        if acc >= cap {
            acc = cap;
        } else {
            acc = push_digit(acc, d, cap);
        }
        i = i + 1;
    }
    acc
}

/// Index of the first `.` in `s[from..]`, or `s.len()`.
fn find_dot(s: &str, from: usize, len: usize) -> (r: usize)
    requires
        len == s@.len(),
        from <= len,
    ensures
        from <= r <= len,
        r as int == from + dot_position(s@.skip(from as int)),
{
    let mut i: usize = from;
    while i < len
        invariant
            from <= i <= len == s@.len(),
            dot_position(s@.skip(from as int)) == (i - from) + dot_position(s@.skip(i as int)),
        decreases len - i,
    {
        assert(s@.skip(i as int).drop_first() =~= s@.skip(i + 1));
        if s.get_char(i) == '.' {
            return i;
        }
        i = i + 1;
    }
    i
}

/// Reads a 64-bit integer literal.
pub fn parse_integer(s: &str) -> (r: Option<i64>)
    ensures
        r == integer_literal(s@),
{
    let len = s.unicode_len();
    let mut start: usize = 0;
    let mut negative = false;
    if len > 0 {
        let c = s.get_char(0);
        if c == '-' || c == '+' {
            start = 1;
            negative = c == '-';
        }
    }
    let ghost body = unsigned_part(s@);
    assert(negative == is_negative(s@));
    assert(body =~= s@.subrange(start as int, len as int));
    if start == len {
        return None;
    }
    let mut i: usize = start;
    while i < len
        invariant
            start <= i <= len == s@.len(),
            all_digits(s@.subrange(start as int, i as int)),
            body == s@.subrange(start as int, len as int),
            body == unsigned_part(s@),
        decreases len - i,
    {
        let c = s.get_char(i);
        if !('0' <= c && c <= '9') {
            assert(body[i - start] == c);
            assert(!all_digits(body));
            return None;
        }
        assert(s@.subrange(start as int, i + 1) =~= s@.subrange(start as int, i as int).push(c));
        i = i + 1;
    }
    let cap: u128 = 0x8000_0000_0000_0001;
    assert(s@.subrange(start as int, len as int) == body);
    let m = accumulate_digits(s, start, len, cap);
    proof {
        lemma_digits_value_nonneg(body);
    }
    if negative {
        if m > 0x8000_0000_0000_0000 {
            None
        } else if m == 0x8000_0000_0000_0000 {
            Some(i64::MIN)
        } else {
            Some(-(m as i64))
        }
    } else {
        if m > 0x7fff_ffff_ffff_ffff {
            None
        } else {
            Some(m as i64)
        }
    }
}

/// Reads a decimal literal, in units of 10^-9.
pub fn parse_decimal(s: &str) -> (r: Option<i128>)
    ensures
        r == decimal_literal(s@),
{
    let len = s.unicode_len();
    let mut start: usize = 0;
    let mut negative = false;
    if len > 0 {
        let c = s.get_char(0);
        if c == '-' || c == '+' {
            start = 1;
            negative = c == '-';
        }
    }
    let ghost body = unsigned_part(s@);
    assert(negative == is_negative(s@));
    assert(body =~= s@.skip(start as int));
    let p = find_dot(s, start, len);
    let frac_start: usize = if p < len {
        p + 1
    } else {
        len
    };
    let ghost whole = body.take(p - start);
    let ghost frac = if p < len {
        body.skip(p - start + 1)
    } else {
        Seq::<char>::empty()
    };
    assert(whole =~= s@.subrange(start as int, p as int));
    assert(frac =~= s@.subrange(frac_start as int, len as int));
    assert(p - start == dot_position(body));
    assert(whole.len() == p - start);
    assert(frac.len() == len - frac_start);
    if (p - start) + (len - frac_start) == 0 || len - frac_start > 9 {
        return None;
    }
    let mut i: usize = start;
    assert(s@.subrange(start as int, start as int) =~= Seq::<char>::empty());
    while i < len
        invariant
            start <= i <= len == s@.len(),
            start <= p <= len,
            frac_start == if p < len { p + 1 } else { len as int },
            i <= p ==> all_digits(s@.subrange(start as int, i as int)),
            i > p ==> all_digits(s@.subrange(start as int, p as int)) && i >= frac_start
                && all_digits(s@.subrange(frac_start as int, i as int)),
            whole == s@.subrange(start as int, p as int),
            frac == s@.subrange(frac_start as int, len as int),
            body == unsigned_part(s@),
            whole == body.take(dot_position(body)),
            frac == if dot_position(body) < body.len() {
                body.skip(dot_position(body) + 1)
            } else {
                Seq::<char>::empty()
            },
        decreases len - i,
    {
        if i == p {
            assert(s@.subrange(frac_start as int, frac_start as int) =~= Seq::<char>::empty());
            i = frac_start;
        } else {
            let c = s.get_char(i);
            if !('0' <= c && c <= '9') {
                if i < p {
                    assert(whole[i - start] == c);
                    assert(!all_digits(whole));
                } else {
                    assert(frac[i - frac_start] == c);
                    assert(!all_digits(frac));
                }
                return None;
            }
            if i < p {
                assert(s@.subrange(start as int, i + 1) =~= s@.subrange(start as int, i as int).push(c));
            } else {
                assert(s@.subrange(frac_start as int, i + 1) =~= s@.subrange(frac_start as int, i as int).push(c));
            }
            i = i + 1;
        }
    }
    assert(all_digits(whole));
    assert(all_digits(frac));
    let cap: u128 = 0x8000_0000_0000_0000_0000_0000_0000_0000;
    assert(cap == i128::MAX + 1);
    let ghost digits = whole + frac;
    proof {
        assert(all_digits(digits)) by {
            assert forall|j: int| 0 <= j < digits.len() implies is_digit(#[trigger] digits[j]) by {
                if j < whole.len() {
                    assert(digits[j] == whole[j]);
                } else {
                    assert(digits[j] == frac[j - whole.len()]);
                }
            }
        }
        lemma_digits_value_nonneg(digits);
    }
    // read the digits on both sides of the point as one number
    let mut n: u128 = accumulate_digits(s, start, p, cap);
    let mut j: usize = frac_start;
    while j < len
        invariant
            frac_start <= j <= len == s@.len(),
            9 <= cap <= u128::MAX - 9,
            all_digits(frac),
            all_digits(whole),
            frac == s@.subrange(frac_start as int, len as int),
            n as int == if digits_value(whole + s@.subrange(frac_start as int, j as int)) >= cap {
                cap as int
            } else {
                digits_value(whole + s@.subrange(frac_start as int, j as int))
            },
        decreases len - j,
    {
        let c = s.get_char(j);
        let ghost pre = whole + s@.subrange(frac_start as int, j as int);
        let ghost next = whole + s@.subrange(frac_start as int, j + 1);
        assert(next.drop_last() =~= pre);
        assert(next.last() == c);
        assert(frac[j - frac_start] == c);
        assert(all_digits(pre)) by {
            assert forall|q: int| 0 <= q < pre.len() implies is_digit(#[trigger] pre[q]) by {
                if q < whole.len() {
                    assert(pre[q] == whole[q]);
                } else {
                    assert(pre[q] == frac[q - whole.len()]);
                }
            }
        }
        proof {
            lemma_digits_value_nonneg(pre);
        }
        let d = (c as u32 - '0' as u32) as u128;
        if n >= cap {
            n = cap;
        } else {
            n = push_digit(n, d, cap);
        }
        j = j + 1;
    }
    assert(whole + s@.subrange(frac_start as int, len as int) == digits);
    // scale up to nine fractional digits
    let k = (len - frac_start) as u32;
    let ghost num = digits_value(digits);
    let mut e: u32 = k;
    assert(pow10(0) == 1);
    while e < 9
        invariant
            k <= e <= 9,
            num >= 0,
            9 <= cap <= u128::MAX - 9,
            n as int == if num * pow10((e - k) as nat) >= cap {
                cap as int
            } else {
                num * pow10((e - k) as nat)
            },
        decreases 9 - e,
    {
        proof {
            lemma_pow10_positive((e - k) as nat);
            assert(pow10((e + 1 - k) as nat) == 10 * pow10((e - k) as nat));
            if num * pow10((e - k) as nat) >= cap {
                assert(num * pow10((e + 1 - k) as nat) >= num * pow10((e - k) as nat)) by (nonlinear_arith)
                    requires num >= 0, pow10((e + 1 - k) as nat) == 10 * pow10((e - k) as nat), pow10((e - k) as nat) >= 1;
            } else {
                assert(num * pow10((e + 1 - k) as nat) == 10 * (num * pow10((e - k) as nat))) by (nonlinear_arith)
                    requires pow10((e + 1 - k) as nat) == 10 * pow10((e - k) as nat);
            }
        }
        if n >= cap {
            n = cap;
        } else {
            n = push_digit(n, 0, cap);
        }
        e = e + 1;
    }
    assert((DECIMAL_SCALE - frac.len()) as nat == (e - k) as nat);
    assert(decimal_literal(s@) == if num * pow10((e - k) as nat) > i128::MAX {
        None
    } else if negative {
        Some((-(num * pow10((e - k) as nat))) as i128)
    } else {
        Some((num * pow10((e - k) as nat)) as i128)
    });
    if n >= cap {
        None
    } else if negative {
        Some(-(n as i128))
    } else {
        Some(n as i128)
    }
}

/// Tells whether `s` is the case-insensitive word `null`.
pub fn is_null_text(s: &str) -> (r: bool)
    ensures
        r == is_null_literal(s@),
{
    let len = s.unicode_len();
    let mut a: usize = 0;
    assert(s@.skip(0) =~= s@);
    while a < len && is_space_char(s.get_char(a))
        invariant
            a <= len == s@.len(),
            leading_spaces(s@) == a + leading_spaces(s@.skip(a as int)),
        decreases len - a,
    {
        assert(s@.skip(a as int).drop_first() =~= s@.skip(a + 1));
        a = a + 1;
    }
    assert(leading_spaces(s@.skip(a as int)) == 0) by {
        if a < len {
            assert(s@.skip(a as int)[0] == s@[a as int]);
        }
    }
    let ghost t = s@.skip(a as int);
    let mut b: usize = len;
    assert(t =~= s@.subrange(a as int, len as int));
    while b > a && is_space_char(s.get_char(b - 1))
        invariant
            a <= b <= len == s@.len(),
            t == s@.subrange(a as int, len as int),
            trailing_spaces(t) == (len - b) + trailing_spaces(s@.subrange(a as int, b as int)),
        decreases b - a,
    {
        assert(s@.subrange(a as int, b as int).drop_last() =~= s@.subrange(a as int, b - 1));
        b = b - 1;
    }
    assert(trailing_spaces(s@.subrange(a as int, b as int)) == 0) by {
        if b > a {
            assert(s@.subrange(a as int, b as int).last() == s@[b - 1]);
        }
    }
    assert(trimmed(s@) =~= s@.subrange(a as int, b as int));
    if b - a != 4 {
        return false;
    }
    let w = s.get_char(a);
    let x = s.get_char(a + 1);
    let y = s.get_char(a + 2);
    let z = s.get_char(a + 3);
    (w == 'n' || w == 'N') && (x == 'u' || x == 'U') && (y == 'l' || y == 'L') && (z == 'l' || z
        == 'L')
}

fn is_space_char(c: char) -> (r: bool)
    ensures
        r == is_space(c),
{
    c == '\t' || c == '\n' || c == '\u{0B}' || c == '\u{0C}' || c == '\r' || c == ' ' || c
        == '\u{85}' || c == '\u{A0}' || c == '\u{1680}' || ('\u{2000}' <= c && c <= '\u{200A}') || c
        == '\u{2028}' || c == '\u{2029}' || c == '\u{202F}' || c == '\u{205F}' || c == '\u{3000}'
}

} // verus!
