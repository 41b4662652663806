//! Exact decimal numbers for prices and sizes.
//!
//! A `Decimal` holds what a `rust_decimal::Decimal` holds: a signed
//! mantissa of at most 96 bits and a scale (number of fractional digits)
//! of at most 28. Its value is `mantissa / 10^scale`. Parsing, comparison
//! and addition are done by `rust_decimal` itself.

use vstd::prelude::*;
use std::str::FromStr;
use crate::text::{decimal_chars, lemma_decimal_chars};

verus! {

/// `10^n`.
pub open spec fn pow10(n: nat) -> int
    decreases n,
{
    if n == 0 {
        1
    } else {
        10 * pow10((n - 1) as nat)
    }
}

pub proof fn lemma_pow10_positive(n: nat)
    ensures
        pow10(n) >= 1,
    decreases n,
{
    if n > 0 {
        lemma_pow10_positive((n - 1) as nat);
    }
}

pub proof fn lemma_pow10_add(m: nat, n: nat)
    ensures
        pow10(m + n) == pow10(m) * pow10(n),
    decreases m,
{
    if m > 0 {
        lemma_pow10_add((m - 1) as nat, n);
        assert(pow10(m + n) == 10 * pow10((m - 1 + n) as nat));
        assert(10 * (pow10((m - 1) as nat) * pow10(n)) == (10 * pow10((m - 1) as nat)) * pow10(n))
            by (nonlinear_arith);
    }
}

/// `<` on values is transitive.
pub proof fn lemma_value_lt_transitive(a: (int, nat), b: (int, nat), c: (int, nat))
    requires
        value_lt(a, b),
        value_lt(b, c),
    ensures
        value_lt(a, c),
{
    lemma_pow10_positive(a.1);
    lemma_pow10_positive(b.1);
    lemma_pow10_positive(c.1);
    let pa = pow10(a.1);
    let pb = pow10(b.1);
    let pc = pow10(c.1);
    assert(a.0 * pc < c.0 * pa) by (nonlinear_arith)
        requires
            a.0 * pb < b.0 * pa,
            b.0 * pc < c.0 * pb,
            pa >= 1,
            pb >= 1,
            pc >= 1;
}

/// `<=` on values (not `>`) is transitive.
pub proof fn lemma_value_le_transitive(a: (int, nat), b: (int, nat), c: (int, nat))
    requires
        !value_lt(b, a),
        !value_lt(c, b),
    ensures
        !value_lt(c, a),
{
    lemma_pow10_positive(a.1);
    lemma_pow10_positive(b.1);
    lemma_pow10_positive(c.1);
    let pa = pow10(a.1);
    let pb = pow10(b.1);
    let pc = pow10(c.1);
    assert(a.0 * pc <= c.0 * pa) by (nonlinear_arith)
        requires
            a.0 * pb <= b.0 * pa,
            b.0 * pc <= c.0 * pb,
            pa >= 1,
            pb >= 1,
            pc >= 1;
}

/// Rescaling a mantissa from scale `s` to `s + d` and then to `s + d + e`
/// is rescaling it by `d + e` at once.
proof fn lemma_rescale_twice(m: int, d: nat, e: nat)
    ensures
        m * pow10(d) * pow10(e) == m * pow10(d + e),
{
    lemma_pow10_add(d, e);
    assert(m * pow10(d) * pow10(e) == m * (pow10(d) * pow10(e))) by (nonlinear_arith);
}

/// The sum of two non-negative decimals is non-negative, and zero only
/// when both are.
pub proof fn lemma_sum_nonnegative(a: (int, nat), b: (int, nat))
    requires
        a.0 >= 0,
        b.0 >= 0,
    ensures
        sum_value(a, b).0 >= 0,
        sum_value(a, b).0 == 0 <==> (a.0 == 0 && b.0 == 0),
{
    let s = max_scale(a, b);
    lemma_pow10_positive((s - a.1) as nat);
    lemma_pow10_positive((s - b.1) as nat);
    let pa = pow10((s - a.1) as nat);
    let pb = pow10((s - b.1) as nat);
    if a.0 != 0 && b.0 != 0 {
        assert(a.0 * pa + b.0 * pb > 0) by (nonlinear_arith)
            requires
                a.0 > 0,
                b.0 > 0,
                pa >= 1,
                pb >= 1;
    }
}

/// Addition of non-negative decimals is associative, scale included.
pub proof fn lemma_sum_associative(a: (int, nat), b: (int, nat), c: (int, nat))
    requires
        a.0 >= 0,
        b.0 >= 0,
        c.0 >= 0,
    ensures
        sum_value(a, sum_value(b, c)) == sum_value(sum_value(a, b), c),
{
    lemma_sum_nonnegative(a, b);
    lemma_sum_nonnegative(b, c);
    if a.0 != 0 && b.0 != 0 && c.0 != 0 {
        let s_bc = max_scale(b, c);
        let s_ab = max_scale(a, b);
        let bc = sum_value(b, c);
        let ab = sum_value(a, b);
        let s = max_scale(a, bc);
        assert(s == max_scale(ab, c));
        // Left: a at s, plus (b at s_bc + c at s_bc) raised to s.
        lemma_rescale_twice(b.0, (s_bc - b.1) as nat, (s - s_bc) as nat);
        lemma_rescale_twice(c.0, (s_bc - c.1) as nat, (s - s_bc) as nat);
        assert((b.0 * pow10((s_bc - b.1) as nat) + c.0 * pow10((s_bc - c.1) as nat)) * pow10((s - s_bc) as nat)
            == b.0 * pow10((s_bc - b.1) as nat) * pow10((s - s_bc) as nat)
                + c.0 * pow10((s_bc - c.1) as nat) * pow10((s - s_bc) as nat)) by (nonlinear_arith);
        assert((s_bc - b.1) as nat + (s - s_bc) as nat == (s - b.1) as nat);
        assert((s_bc - c.1) as nat + (s - s_bc) as nat == (s - c.1) as nat);
        // Right: (a at s_ab + b at s_ab) raised to s, plus c at s.
        lemma_rescale_twice(a.0, (s_ab - a.1) as nat, (s - s_ab) as nat);
        lemma_rescale_twice(b.0, (s_ab - b.1) as nat, (s - s_ab) as nat);
        assert((a.0 * pow10((s_ab - a.1) as nat) + b.0 * pow10((s_ab - b.1) as nat)) * pow10((s - s_ab) as nat)
            == a.0 * pow10((s_ab - a.1) as nat) * pow10((s - s_ab) as nat)
                + b.0 * pow10((s_ab - b.1) as nat) * pow10((s - s_ab) as nat)) by (nonlinear_arith);
        assert((s_ab - a.1) as nat + (s - s_ab) as nat == (s - a.1) as nat);
        assert((s_ab - b.1) as nat + (s - s_ab) as nat == (s - b.1) as nat);
        assert(pow10(0) == 1);
    }
}

/// One more than the largest mantissa magnitude: `2^96`.
pub open spec fn mantissa_limit() -> int {
    79228162514264337593543950336
}

/// A view `(mantissa, scale)` is in range.
pub open spec fn in_range(v: (int, nat)) -> bool {
    -mantissa_limit() < v.0 < mantissa_limit() && v.1 <= 28
}

/// `a` is strictly smaller in value than `b`: `a.0 / 10^a.1 < b.0 / 10^b.1`.
pub open spec fn value_lt(a: (int, nat), b: (int, nat)) -> bool {
    a.0 * pow10(b.1) < b.0 * pow10(a.1)
}

/// The larger of two scales.
pub open spec fn max_scale(a: (int, nat), b: (int, nat)) -> nat {
    if a.1 <= b.1 { b.1 } else { a.1 }
}

/// The mantissa of the exact sum of two non-zero decimals, written at
/// the larger of the two scales.
pub open spec fn aligned_sum(a: (int, nat), b: (int, nat)) -> int {
    let s = max_scale(a, b);
    a.0 * pow10((s - a.1) as nat) + b.0 * pow10((s - b.1) as nat)
}

/// What `rust_decimal` addition yields when the result fits: a zero
/// operand gives back the other operand unchanged (scale included);
/// otherwise the exact sum at the larger scale.
pub open spec fn sum_value(a: (int, nat), b: (int, nat)) -> (int, nat) {
    if a.0 == 0 {
        b
    } else if b.0 == 0 {
        a
    } else {
        (aligned_sum(a, b), max_scale(a, b))
    }
}

/// The exact sum of `a` and `b` fits in a decimal without rounding.
pub open spec fn add_fits(a: (int, nat), b: (int, nat)) -> bool {
    a.0 == 0 || b.0 == 0 || (-mantissa_limit() < aligned_sum(a, b) < mantissa_limit())
}

/// A character `Display` writes for a decimal: a digit, the sign or the point.
pub open spec fn display_char(c: char) -> bool {
    ('0' <= c && c <= '9') || c == '-' || c == '.'
}

/// What `rust_decimal`'s `checked_add` yields for two decimals
/// `(mantissa, scale)` whose exact sum does not fit: the sum rounded to a
/// smaller scale, or `None` where `+` would panic.
pub uninterp spec fn decimal_checked_add(a: (int, nat), b: (int, nat)) -> Option<(int, nat)>;

/// What `rust_decimal`'s `+` yields, `None` where it panics: the exact sum
/// where it fits (`sum_value`), the rounded one otherwise.
pub open spec fn checked_sum(a: (int, nat), b: (int, nat)) -> Option<(int, nat)> {
    if add_fits(a, b) { Some(sum_value(a, b)) } else { decimal_checked_add(a, b) }
}

/// The sum `+` yields, where it does not panic (see `checked_sum`).
pub open spec fn sum_of(a: (int, nat), b: (int, nat)) -> (int, nat) {
    match checked_sum(a, b) {
        Some(v) => v,
        None => sum_value(a, b),
    }
}

/// What `rust_decimal::Decimal::from_str` yields for a string:
/// `(mantissa, scale)`, or `None` where it reports an error.
pub uninterp spec fn decimal_from_str(s: Seq<char>) -> Option<(int, nat)>;

/// `n` zero digits.
pub open spec fn zeros(n: nat) -> Seq<char> {
    Seq::new(n, |i: int| '0')
}

/// The digits of the mantissa's magnitude, padded with leading zeros to
/// more than `scale` digits.
pub open spec fn padded_digits(v: (int, nat)) -> Seq<char> {
    let d = decimal_chars((if v.0 < 0 { -v.0 } else { v.0 }) as nat);
    if d.len() <= v.1 { zeros((v.1 + 1 - d.len()) as nat) + d } else { d }
}

/// What `rust_decimal::Decimal`'s `Display` writes for `(mantissa, scale)`
/// (no width or precision given): a `-` for a negative mantissa, then the
/// padded digits with a `.` before the last `scale` of them when `scale`
/// is not 0.
#[verifier::opaque]
pub open spec fn decimal_display(v: (int, nat)) -> Seq<char> {
    let p = padded_digits(v);
    let body = if v.1 == 0 {
        p
    } else {
        p.take(p.len() - v.1) + seq!['.'] + p.skip(p.len() - v.1)
    };
    if v.0 < 0 { seq!['-'] + body } else { body }
}

/// What `Display` writes is non-empty and made of digits, the sign and
/// the point.
pub proof fn lemma_display_chars(v: (int, nat))
    ensures
        decimal_display(v).len() > 0,
        forall|i: int| 0 <= i < decimal_display(v).len() ==> display_char(#[trigger] decimal_display(v)[i]),
{
    reveal(decimal_display);
    let m = (if v.0 < 0 { -v.0 } else { v.0 }) as nat;
    let d = decimal_chars(m);
    lemma_decimal_chars(m);
    let p = padded_digits(v);
    assert forall|i: int| 0 <= i < p.len() implies display_char(#[trigger] p[i]) by {
        if d.len() <= v.1 {
            let z = zeros((v.1 + 1 - d.len()) as nat);
            if i >= z.len() {
                assert(p[i] == d[i - z.len()]);
            }
        } else {
            assert(p[i] == d[i]);
        }
    }
    assert(p.len() > v.1);
    let x = decimal_display(v);
    if v.1 == 0 {
        assert(x == if v.0 < 0 { seq!['-'] + p } else { p });
    } else {
        let body = p.take(p.len() - v.1) + seq!['.'] + p.skip(p.len() - v.1);
        assert forall|i: int| 0 <= i < body.len() implies display_char(#[trigger] body[i]) by {
            let k = p.len() - v.1;
            if i < k {
                assert(body[i] == p[i]);
            } else if i > k {
                assert(body[i] == p[i - 1]);
            }
        }
    }
}

/// An exact decimal number `mantissa / 10^scale`.
#[derive(Debug, Clone, Copy)]
pub struct Decimal {
    mantissa: i128,
    scale: u32,
}

impl View for Decimal {
    type V = (int, nat);

    closed spec fn view(&self) -> (int, nat) {
        (self.mantissa as int, self.scale as nat)
    }
}

impl Decimal {
    #[verifier::type_invariant]
    closed spec fn well_formed(self) -> bool {
        in_range(self@)
    }

    /// The value zero at scale zero.
    pub fn zero() -> (r: Decimal)
        ensures
            r@ == (0int, 0nat),
    {
        Decimal { mantissa: 0, scale: 0 }
    }

    /// Builds `mantissa / 10^scale`; `None` if the mantissa needs more
    /// than 96 bits or the scale exceeds 28.
    pub fn from_parts(mantissa: i128, scale: u32) -> (r: Option<Decimal>)
        ensures
            r is Some <==> in_range((mantissa as int, scale as nat)),
            r matches Some(d) ==> d@ == (mantissa as int, scale as nat),
    {
        if -79228162514264337593543950336i128 < mantissa && mantissa < 79228162514264337593543950336i128 && scale <= 28 {
            Some(Decimal { mantissa, scale })
        } else {
            None
        }
    }

    /// The signed mantissa.
    pub fn mantissa(&self) -> (r: i128)
        ensures
            r == self@.0,
            in_range(self@),
    {
        proof {
            use_type_invariant(self);
        }
        self.mantissa
    }

    /// The number of fractional digits.
    pub fn scale(&self) -> (r: u32)
        ensures
            r == self@.1,
            in_range(self@),
    {
        proof {
            use_type_invariant(self);
        }
        self.scale
    }

    /// Whether the value is zero.
    pub fn is_zero(&self) -> (r: bool)
        ensures
            r == (self@.0 == 0),
    {
        self.mantissa == 0
    }

    /// Whether `self + other` is exact, i.e. `add_fits`.
    pub fn fits_to_add(&self, other: &Decimal) -> (r: bool)
        ensures
            r == add_fits(self@, other@),
    {
        proof {
            use_type_invariant(self);
            use_type_invariant(other);
        }
        if self.mantissa == 0 || other.mantissa == 0 {
            return true;
        }
        // `x` is scaled up to the larger scale, `y` already has it.
        let (x0, k, y) = if self.scale <= other.scale {
            (self.mantissa, other.scale - self.scale, other.mantissa)
        } else {
            (other.mantissa, self.scale - other.scale, self.mantissa)
        };
        let ghost a = self@;
        let ghost b = other@;
        assert(aligned_sum(a, b) == x0 * pow10(k as nat) + y) by {
            assert(pow10(0) == 1);
        }
        let mut x: i128 = x0;
        let mut j: u32 = 0;
        while j < k
            invariant
                j <= k,
                k <= 28,
                x == x0 * pow10(j as nat),
                -mantissa_limit() < x0 < mantissa_limit(),
                -mantissa_limit() < y < mantissa_limit(),
                -20 * mantissa_limit() < x < 20 * mantissa_limit(),
                aligned_sum(a, b) == x0 * pow10(k as nat) + y,
                a.0 != 0,
                b.0 != 0,
                a == self@,
                b == other@,
            decreases k - j,
        {
            if x >= 158456325028528675187087900672i128 || x <= -158456325028528675187087900672i128 {
                proof {
                    lemma_pow10_add(j as nat, (k - j) as nat);
                    lemma_pow10_positive((k - j) as nat);
                    let p = pow10((k - j) as nat);
                    assert(j as nat + (k - j) as nat == k as nat);
                    assert(x0 * pow10(k as nat) == x * p) by (nonlinear_arith)
                        requires
                            x == x0 * pow10(j as nat),
                            pow10(k as nat) == pow10(j as nat) * p;
                    assert(x * p >= x || x * p <= x) by (nonlinear_arith);
                    assert(x >= 2 * mantissa_limit() ==> x * p >= x) by (nonlinear_arith)
                        requires p >= 1;
                    assert(x <= -2 * mantissa_limit() ==> x * p <= x) by (nonlinear_arith)
                        requires p >= 1;
                    assert(!add_fits(a, b));
                }
                return false;
            }
            proof {
                assert(pow10((j + 1) as nat) == 10 * pow10(j as nat));
                assert(x * 10 == x0 * pow10((j + 1) as nat)) by (nonlinear_arith)
                    requires
                        x == x0 * pow10(j as nat),
                        pow10((j + 1) as nat) == 10 * pow10(j as nat);
            }
            x = x * 10;
            j = j + 1;
        }
        let sum = x + y;
        -79228162514264337593543950336i128 < sum && sum < 79228162514264337593543950336i128
    }

    /// Compares two decimals by value with `rust_decimal`'s `<`.
    /// Claimed: `<` orders by exact value, as `ops::cmp_impl` does by
    /// rescaling to a common scale.
    #[verifier::external_body]
    pub(crate) fn less_than(&self, other: &Decimal) -> (r: bool)
        ensures
            r == value_lt(self@, other@),
    {
        rust_decimal::Decimal::from_i128_with_scale(self.mantissa, self.scale)
            < rust_decimal::Decimal::from_i128_with_scale(other.mantissa, other.scale)
    }

    /// Adds two decimals with `rust_decimal`'s `checked_add`, which runs the
    /// same `ops::add_impl` as `+` and gives `None` exactly where `+` panics
    /// ("Addition overflowed"). Claimed, from `ops::add::add_sub_internal`:
    /// a zero operand yields the other operand as it is; otherwise, when
    /// the exact sum fits in 96 bits at the larger scale, the result is that
    /// exact sum at that scale. Where it does not fit, the result (a sum
    /// rounded to a smaller scale, or `None`) is what the name
    /// `decimal_checked_add` gives; for two positive operands a rounded
    /// sum is positive and its scale is below the larger operand scale
    /// (`reduce_scale` and `Buf24::rescale` divide by powers of ten until
    /// the mantissa fits, and a magnitude of at least `2^96` units never
    /// rounds to zero).
    #[verifier::external_body]
    pub(crate) fn checked_plus(&self, other: &Decimal) -> (r: Option<Decimal>)
        ensures
            add_fits(self@, other@) ==> r.is_some() && r.unwrap()@ == sum_value(self@, other@),
            !add_fits(self@, other@) ==> r.is_some() == decimal_checked_add(self@, other@).is_some(),
            !add_fits(self@, other@) && r.is_some() ==> decimal_checked_add(self@, other@) == Some(r.unwrap()@),
            !add_fits(self@, other@) && self@.0 > 0 && other@.0 > 0 && r.is_some()
                ==> r.unwrap()@.0 > 0 && r.unwrap()@.1 < max_scale(self@, other@),
    {
        match rust_decimal::Decimal::from_i128_with_scale(self.mantissa, self.scale)
            .checked_add(rust_decimal::Decimal::from_i128_with_scale(other.mantissa, other.scale)) {
            Some(s) => Some(Decimal { mantissa: s.mantissa(), scale: s.scale() }),
            None => None,
        }
    }

    /// Writes the decimal with `rust_decimal`'s `Display` (`to_string`).
    /// Claimed: the text is `decimal_display` of the mantissa and scale, as
    /// `str::to_str_internal` and `pad_integral` write it (no width or
    /// precision given: the digits of the magnitude, zero-padded, a `.`
    /// before the last `scale` digits, a leading `-` when negative); and
    /// `Decimal::from_str` reads it back as the same mantissa and scale (no
    /// rounding path is reached for a 96-bit mantissa at scale 28 or less).
    #[verifier::external_body]
    pub(crate) fn display(&self) -> (r: String)
        ensures
            r@ == decimal_display(self@),
            decimal_from_str(r@) == Some(self@),
    {
        rust_decimal::Decimal::from_i128_with_scale(self.mantissa, self.scale).to_string()
    }

    /// Parses a decimal string as `rust_decimal::Decimal::from_str` does.
    pub fn parse(s: &str) -> (r: Option<Decimal>)
        ensures
            r matches Some(d) ==> decimal_from_str(s@) == Some(d@),
            r is None ==> decimal_from_str(s@) is None,
    {
        let p = rust_decimal_from_str(s);
        match p {
            Some(d) => Some(d),
            None => None,
        }
    }
}

/// Calls `rust_decimal::Decimal::from_str` and reads back its mantissa
/// and scale. Claimed: the result is what the name `decimal_from_str`
/// gives for the input; a decimal always has a mantissa below `2^96` in
/// magnitude and a scale of at most 28.
#[verifier::external_body]
fn rust_decimal_from_str(s: &str) -> (r: Option<Decimal>)
    ensures
        r matches Some(d) ==> decimal_from_str(s@) == Some(d@),
        r is None ==> decimal_from_str(s@) is None,
{
    match rust_decimal::Decimal::from_str(s) {
        Ok(d) => Some(Decimal { mantissa: d.mantissa(), scale: d.scale() }),
        Err(_) => None,
    }
}

} // verus!
