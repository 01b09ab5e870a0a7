//! Q16.16 fixed-point arithmetic.
//!
//! One `Fixed` is an `i32` scaled by 65536. Products and quotients are taken through an
//! `i64` intermediate and saturate on the way back to 32 bits.

use vstd::prelude::*;
use vstd::string::StringSliceAdditionalSpecFns;

verus! {

/// Number of fractional bits.
pub const FRACTIONAL_BITS: u32 = 16;

/// The raw value representing 1.0.
pub const SCALE: i64 = 65536;

/// Clamps an integer into the `i32` range.
pub open spec fn clamp_i32(value: int) -> int {
    if value > i32::MAX {
        i32::MAX as int
    } else if value < i32::MIN {
        i32::MIN as int
    } else {
        value
    }
}

/// Integer division rounding toward zero, as Rust's `/` does.
pub open spec fn div_trunc(a: int, b: int) -> int {
    let q: int = vstd::math::abs(a) as int / vstd::math::abs(b) as int;
    if (a >= 0) == (b >= 0) {
        q
    } else {
        -q
    }
}

#[derive(Clone, Copy, PartialEq, Eq, Structural, PartialOrd, Ord, Hash, Default, Debug)]
pub struct Fixed(pub i32);

/// Why a decimal string did not become a `Fixed`.
#[derive(Clone, Copy, PartialEq, Eq, Structural, Debug)]
pub enum ParseError {
    /// Not a decimal number, or has trailing characters. Exponents are not accepted.
    Malformed,
    /// Outside the range Q16.16 can represent.
    OutOfRange,
}

pub open spec fn is_digit(c: u8) -> bool {
    48 <= c <= 57
}

/// Length of the run of decimal digits starting at `start`.
pub open spec fn digit_run(b: Seq<u8>, start: int) -> int
    decreases b.len() - start,
{
    if start < 0 || start >= b.len() || !is_digit(b[start]) {
        0
    } else {
        1 + digit_run(b, start + 1)
    }
}

/// The decimal value of the digits `b[start..end]`.
pub open spec fn digits_value(b: Seq<u8>, start: int, end: int) -> int
    decreases end - start,
{
    if end <= start {
        0
    } else {
        digits_value(b, start, end - 1) * 10 + (b[end - 1] - 48)
    }
}

pub open spec fn pow10(n: nat) -> int
    decreases n,
{
    if n == 0 {
        1
    } else {
        10 * pow10((n - 1) as nat)
    }
}

/// How many bytes of sign precede the digits: one for `-` or `+`, else none.
pub open spec fn sign_len(b: Seq<u8>) -> int {
    if b.len() > 0 && (b[0] == 45 || b[0] == 43) {
        1
    } else {
        0
    }
}

/// Most fractional digits that contribute to the value.
pub open spec fn max_fraction_digits() -> int {
    10
}

/// The decimal grammar `[+-]? digits* ('.' digits+)?`, with at least one digit, read
/// as Q16.16 by integer arithmetic: the fraction (first ten digits) is scaled by 65536
/// and floored, the integer part may not pass `i32::MAX` while it is read, and the
/// signed total must fit an `i32`.
pub open spec fn parse_spec(b: Seq<u8>) -> Result<Fixed, ParseError> {
    let int_start = sign_len(b);
    let int_len = digit_run(b, int_start);
    let int_end = int_start + int_len;
    let int_value = digits_value(b, int_start, int_end);
    let has_point = int_end < b.len() && b[int_end] == 46;
    let frac_start = int_end + 1;
    let frac_len = if has_point { digit_run(b, frac_start) } else { 0 };
    let end = if has_point { frac_start + frac_len } else { int_end };
    let kept = if frac_len < max_fraction_digits() { frac_len } else { max_fraction_digits() };
    let numerator = digits_value(b, frac_start, frac_start + kept);
    let total = int_value * 65536 + (numerator * 65536) / pow10(kept as nat);
    let signed = if int_start == 1 && b[0] == 45 { -total } else { total };
    if int_value > i32::MAX {
        Err(ParseError::OutOfRange)
    } else if has_point && frac_len == 0 {
        Err(ParseError::Malformed)
    } else if int_len + frac_len == 0 || end != b.len() {
        Err(ParseError::Malformed)
    } else if signed > i32::MAX || signed < i32::MIN {
        Err(ParseError::OutOfRange)
    } else {
        Ok(Fixed(signed as i32))
    }
}

pub proof fn lemma_digits_value_monotone(b: Seq<u8>, start: int, mid: int, end: int)
    requires
        start <= mid <= end <= b.len(),
        0 <= start,
        forall|i: int| start <= i < end ==> is_digit(#[trigger] b[i]),
    ensures
        0 <= digits_value(b, start, mid) <= digits_value(b, start, end),
    decreases end - mid,
{
    if mid < end {
        lemma_digits_value_monotone(b, start, mid, end - 1);
        lemma_digits_value_nonneg(b, start, end - 1);
    } else {
        lemma_digits_value_nonneg(b, start, end);
    }
}

pub proof fn lemma_digits_value_nonneg(b: Seq<u8>, start: int, end: int)
    requires
        0 <= start,
        end <= b.len(),
        forall|i: int| start <= i < end ==> is_digit(#[trigger] b[i]),
    ensures
        0 <= digits_value(b, start, end),
    decreases end - start,
{
    if end > start {
        lemma_digits_value_nonneg(b, start, end - 1);
    }
}

proof fn lemma_digits_value_bound(b: Seq<u8>, start: int, end: int)
    requires
        0 <= start <= end <= b.len(),
        forall|i: int| start <= i < end ==> is_digit(#[trigger] b[i]),
    ensures
        0 <= digits_value(b, start, end) < pow10((end - start) as nat),
    decreases end - start,
{
    if end > start {
        lemma_digits_value_bound(b, start, end - 1);
        assert(pow10((end - start) as nat) == 10 * pow10((end - 1 - start) as nat));
    }
}

proof fn lemma_digit_run_facts(b: Seq<u8>, start: int)
    requires
        0 <= start <= b.len(),
    ensures
        0 <= digit_run(b, start) <= b.len() - start,
        forall|i: int| start <= i < start + digit_run(b, start) ==> is_digit(#[trigger] b[i]),
        start + digit_run(b, start) < b.len() ==> !is_digit(b[start + digit_run(b, start)]),
    decreases b.len() - start,
{
    if start < b.len() && is_digit(b[start]) {
        lemma_digit_run_facts(b, start + 1);
    }
}

fn saturate(value: i64) -> (r: i32)
    ensures
        r == clamp_i32(value as int),
{
    if value > i32::MAX as i64 {
        i32::MAX
    } else if value < i32::MIN as i64 {
        i32::MIN
    } else {
        value as i32
    }
}

impl Fixed {
    /// 0.0
    pub fn zero() -> (r: Fixed)
        ensures
            r.0 == 0,
    {
        Fixed(0)
    }

    /// 1.0
    pub fn one() -> (r: Fixed)
        ensures
            r.0 == 65536,
    {
        Fixed(65536)
    }

    /// The most negative value.
    pub fn min_value() -> (r: Fixed)
        ensures
            r.0 == i32::MIN,
    {
        Fixed(i32::MIN)
    }

    /// The most positive value.
    pub fn max_value() -> (r: Fixed)
        ensures
            r.0 == i32::MAX,
    {
        Fixed(i32::MAX)
    }

    /// Wraps a raw scaled value. `Fixed::from_raw(65536)` is 1.0.
    pub fn from_raw(raw: i32) -> (r: Fixed)
        ensures
            r.0 == raw,
    {
        Fixed(raw)
    }

    /// The underlying scaled integer.
    pub fn raw(self) -> (r: i32)
        ensures
            r == self.0,
    {
        self.0
    }

    /// Saturates rather than wrapping.
    pub fn from_int(value: i32) -> (r: Fixed)
        ensures
            r.0 == clamp_i32(value * 65536),
    {
        let scaled: i64 = (value as i64) * SCALE;
        Fixed(saturate(scaled))
    }

    /// Truncates toward negative infinity.
    pub fn floor_to_int(self) -> (r: i32)
        ensures
            r == self.0 / 65536,
    {
        let v: i32 = self.0;
        let r: i32 = v >> 16u32;
        assert(r == v / 65536) by (bit_vector)
            requires
                r == v >> 16u32,
        ;
        r
    }

    pub fn is_zero(self) -> (r: bool)
        ensures
            r == (self.0 == 0),
    {
        self.0 == 0
    }

    pub fn saturating_add(self, other: Fixed) -> (r: Fixed)
        ensures
            r.0 == clamp_i32(self.0 + other.0),
    {
        Fixed(saturate(self.0 as i64 + other.0 as i64))
    }

    pub fn saturating_sub(self, other: Fixed) -> (r: Fixed)
        ensures
            r.0 == clamp_i32(self.0 - other.0),
    {
        Fixed(saturate(self.0 as i64 - other.0 as i64))
    }

    pub fn saturating_neg(self) -> (r: Fixed)
        ensures
            r.0 == clamp_i32(-self.0),
    {
        Fixed(saturate(-(self.0 as i64)))
    }

    /// Multiplication through an `i64` intermediate, truncating toward zero.
    pub fn saturating_mul(self, other: Fixed) -> (r: Fixed)
        ensures
            r.0 == clamp_i32(div_trunc(self.0 * other.0, 65536)),
    {
        let a: i64 = self.0 as i64;
        let b: i64 = other.0 as i64;
        assert(-0x8000_0000_0000_0000 <= a * b <= 0x4000_0000_0000_0000) by (nonlinear_arith)
            requires
                -0x8000_0000 <= a <= 0x7fff_ffff,
                -0x8000_0000 <= b <= 0x7fff_ffff,
        ;
        let product: i64 = a * b;
        let q: i64 = product / SCALE;
        Fixed(saturate(q))
    }

    /// Division through an `i64` intermediate. `None` on divide by zero.
    pub fn checked_div(self, other: Fixed) -> (r: Option<Fixed>)
        ensures
            other.0 == 0 ==> r.is_none(),
            other.0 != 0 ==> r == Some(Fixed(clamp_i32(div_trunc(self.0 * 65536, other.0 as int)) as i32)),
    {
        if other.0 == 0 {
            return None;
        }
        let numerator: i64 = (self.0 as i64) * SCALE;
        let denominator: i64 = other.0 as i64;
        let n_abs: i64 = if numerator < 0 { -numerator } else { numerator };
        let d_abs: i64 = if denominator < 0 { -denominator } else { denominator };
        let magnitude: i64 = n_abs / d_abs;
        let q: i64 = if (numerator >= 0) == (denominator >= 0) { magnitude } else { -magnitude };
        Some(Fixed(saturate(q)))
    }
}

impl Fixed {
    /// Parses a decimal string such as `"0.27"`, `"-1.5"` or `"12"` using integer
    /// arithmetic alone.
    pub fn parse(text: &str) -> (r: Result<Fixed, ParseError>)
        ensures
            r == parse_spec(text.spec_bytes()),
    {
        let bytes: &[u8] = text.as_bytes();
        parse_bytes(bytes)
    }
}

/// `Fixed::parse`, on the text's bytes.
pub fn parse_bytes(bytes: &[u8]) -> (r: Result<Fixed, ParseError>)
    ensures
        r == parse_spec(bytes@),
{
    let ghost b = bytes@;
    let len: usize = bytes.len();
    let mut index: usize = 0;
    let negative: bool = if len > 0 && bytes[0] == 45u8 {
        index = 1;
        true
    } else if len > 0 && bytes[0] == 43u8 {
        index = 1;
        false
    } else {
        false
    };
    let int_start: usize = index;
    assert(int_start == sign_len(b));
    proof {
        lemma_digit_run_facts(b, int_start as int);
    }
    let ghost run: int = digit_run(b, int_start as int);

    let mut integer_part: i64 = 0;
    while index < len && 48u8 <= bytes[index] && bytes[index] <= 57u8
        invariant
            b == bytes@,
            len == b.len(),
            int_start == sign_len(b),
            run == digit_run(b, int_start as int),
            0 <= run <= b.len() - int_start,
            forall|i: int| int_start <= i < int_start + run ==> is_digit(#[trigger] b[i]),
            int_start + run < b.len() ==> !is_digit(b[int_start + run]),
            int_start <= index <= int_start + run,
            integer_part == digits_value(b, int_start as int, index as int),
            0 <= integer_part <= i32::MAX,
        decreases len - index,
    {
        let digit: i64 = (bytes[index] - 48u8) as i64;
        integer_part = integer_part * 10 + digit;
        index = index + 1;
        if integer_part > i32::MAX as i64 {
            proof {
                lemma_digits_value_monotone(b, int_start as int, index as int, int_start + run);
            }
            return Err(ParseError::OutOfRange);
        }
    }
    assert(index == int_start + run);
    let int_end: usize = index;

    let mut fraction_numerator: i64 = 0;
    let mut fraction_denominator: i64 = 1;
    let mut kept: usize = 0;
    let has_point: bool = index < len && bytes[index] == 46u8;
    let ghost mut frac_run: int = 0;
    if has_point {
        index = index + 1;
        let fraction_start: usize = index;
        proof {
            lemma_digit_run_facts(b, fraction_start as int);
            frac_run = digit_run(b, fraction_start as int);
        }
        while index < len && 48u8 <= bytes[index] && bytes[index] <= 57u8
            invariant
                b == bytes@,
                len == b.len(),
                frac_run == digit_run(b, fraction_start as int),
                0 <= frac_run <= b.len() - fraction_start,
                forall|i: int| fraction_start <= i < fraction_start + frac_run ==> is_digit(#[trigger] b[i]),
                fraction_start + frac_run < b.len() ==> !is_digit(b[fraction_start + frac_run]),
                fraction_start <= index <= fraction_start + frac_run,
                kept == if index - fraction_start < 10 { index - fraction_start } else { 10 },
                fraction_numerator == digits_value(b, fraction_start as int, fraction_start + kept),
                fraction_denominator == pow10(kept as nat),
            decreases len - index,
        {
            proof {
                lemma_pow10_ten();
                if kept < 10 {
                    lemma_pow10_monotone(kept as nat, 9);
                }
            }
            if fraction_denominator <= 1_000_000_000 {
                proof {
                    lemma_digits_value_bound(b, fraction_start as int, fraction_start + kept);
                }
                assert(kept < 10) by {
                    if kept >= 10 {
                        lemma_pow10_ten();
                    }
                };
                proof {
                    assert(pow10(kept as nat) <= 1_000_000_000);
                }
                let digit: i64 = (bytes[index] - 48u8) as i64;
                fraction_numerator = fraction_numerator * 10 + digit;
                fraction_denominator = fraction_denominator * 10;
                kept = kept + 1;
            }
            index = index + 1;
        }
        if index == fraction_start {
            return Err(ParseError::Malformed);
        }
    }

    let saw_digit: bool = index > int_start + (if has_point { 1usize } else { 0usize });
    if !saw_digit || index != len {
        return Err(ParseError::Malformed);
    }

    proof {
        if has_point {
            lemma_digits_value_bound(b, (int_end + 1) as int, (int_end + 1 + kept) as int);
        }
        lemma_pow10_ten();
        lemma_pow10_monotone(kept as nat, 10);
    }
    let scaled_integer: i64 = integer_part * 65536;
    let scaled_fraction: i64 = (fraction_numerator * 65536) / fraction_denominator;
    let total: i64 = scaled_integer + scaled_fraction;
    let signed: i64 = if negative { -total } else { total };

    if signed > i32::MAX as i64 || signed < i32::MIN as i64 {
        return Err(ParseError::OutOfRange);
    }
    Ok(Fixed(signed as i32))
}

pub open spec fn digit_char(d: int) -> char {
    ((d + 48) as u8) as char
}

/// The decimal digits of `n`, most significant first, with no leading zeros.
pub open spec fn decimal_chars(n: nat) -> Seq<char>
    decreases n,
{
    if n < 10 {
        seq![digit_char(n as int)]
    } else {
        decimal_chars(n / 10) + seq![digit_char((n % 10) as int)]
    }
}

/// How a `Fixed` reads: an optional `-`, the whole part, a point and exactly four
/// decimal places, truncated.
pub open spec fn render_spec(raw: i32) -> Seq<char> {
    let magnitude: int = vstd::math::abs(raw as int) as int;
    let whole: int = magnitude / 65536;
    let decimals: int = ((magnitude % 65536) * 10000) / 65536;
    let sign: Seq<char> = if raw < 0 { seq!['-'] } else { seq![] };
    sign + decimal_chars(whole as nat) + seq!['.', digit_char(decimals / 1000), digit_char((decimals / 100) % 10),
        digit_char((decimals / 10) % 10), digit_char(decimals % 10)]
}

fn push_digit(out: &mut String, d: u64)
    requires
        d < 10,
    ensures
        final(out)@ == old(out)@.push(digit_char(d as int)),
{
    if d == 0 {
        proof { reveal_strlit("0"); }
        out.append("0");
    } else if d == 1 {
        proof { reveal_strlit("1"); }
        out.append("1");
    } else if d == 2 {
        proof { reveal_strlit("2"); }
        out.append("2");
    } else if d == 3 {
        proof { reveal_strlit("3"); }
        out.append("3");
    } else if d == 4 {
        proof { reveal_strlit("4"); }
        out.append("4");
    } else if d == 5 {
        proof { reveal_strlit("5"); }
        out.append("5");
    } else if d == 6 {
        proof { reveal_strlit("6"); }
        out.append("6");
    } else if d == 7 {
        proof { reveal_strlit("7"); }
        out.append("7");
    } else if d == 8 {
        proof { reveal_strlit("8"); }
        out.append("8");
    } else {
        proof { reveal_strlit("9"); }
        out.append("9");
    }
}

pub(crate) fn push_decimal(out: &mut String, n: u64)
    ensures
        final(out)@ == old(out)@ + decimal_chars(n as nat),
    decreases n,
{
    if n >= 10 {
        push_decimal(out, n / 10);
    }
    push_digit(out, n % 10);
}

impl Fixed {
    /// Renders with four decimal places, by integer division.
    pub fn to_string(&self) -> (r: String)
        ensures
            r@ == render_spec(self.0),
    {
        let negative: bool = self.0 < 0;
        let magnitude: i64 = if negative { -(self.0 as i64) } else { self.0 as i64 };
        let whole: i64 = magnitude / 65536;
        let remainder: i64 = magnitude % 65536;
        let decimals: i64 = (remainder * 10000) / 65536;
        let mut out: String = String::new();
        if negative {
            proof { reveal_strlit("-"); }
            out.append("-");
        }
        push_decimal(&mut out, whole as u64);
        proof { reveal_strlit("."); }
        out.append(".");
        push_digit(&mut out, (decimals / 1000) as u64);
        push_digit(&mut out, ((decimals / 100) % 10) as u64);
        push_digit(&mut out, ((decimals / 10) % 10) as u64);
        push_digit(&mut out, (decimals % 10) as u64);
        out
    }
}

proof fn lemma_pow10_ten()
    ensures
        pow10(10) == 10_000_000_000,
        pow10(9) == 1_000_000_000,
{
    reveal_with_fuel(pow10, 11);
}

proof fn lemma_pow10_monotone(a: nat, b: nat)
    requires
        a <= b,
    ensures
        1 <= pow10(a) <= pow10(b),
    decreases b,
{
    if a < b {
        lemma_pow10_monotone(a, (b - 1) as nat);
    } else if a > 0 {
        lemma_pow10_monotone((a - 1) as nat, (a - 1) as nat);
    }
}

} // verus!
