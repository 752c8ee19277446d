//! Decimal numbers as `rust_decimal` represents them: a mantissa of at most
//! 96 bits and a scale of at most 28 (the value is `mantissa / 10^scale`).
//! The arithmetic itself is done by `rust_decimal` through the trusted
//! wrappers below; only the representation is modelled here.
use vstd::prelude::*;

verus! {

pub struct Dec {
    pub mantissa: i128,
    pub scale: u32,
}

pub open spec fn pow10(n: nat) -> nat
    decreases n,
{
    if n == 0 {
        1
    } else {
        10 * pow10((n - 1) as nat)
    }
}

pub open spec fn mantissa_bound() -> int {
    0x1_0000_0000_0000_0000_0000_0000
}

/// The representation invariant of `rust_decimal::Decimal`.
pub open spec fn dec_wf(d: Dec) -> bool {
    -mantissa_bound() < d.mantissa < mantissa_bound() && d.scale <= 28
}

/// Integer part of `m / 10^s`, rounded toward zero (`Decimal::trunc`).
pub open spec fn trunc_value(m: int, s: nat) -> int {
    if m >= 0 {
        m / (pow10(s) as int)
    } else {
        -((-m) / (pow10(s) as int))
    }
}

/// Numeric equality of two decimals (`Decimal`'s `==` compares values, not representations).
pub open spec fn same_value(a: Dec, b: Dec) -> bool {
    a.mantissa * pow10(b.scale as nat) == b.mantissa * pow10(a.scale as nat)
}

pub open spec fn dec_parts(d: Dec) -> (int, nat) {
    (d.mantissa as int, d.scale as nat)
}

/// Name for what `Decimal::from_str` (falling back to `Decimal::from_scientific`)
/// makes of a literal, as (mantissa, scale); `None` when both reject it.
pub uninterp spec fn decimal_of_text(t: Seq<char>) -> Option<(int, nat)>;

/// Name for `Decimal::checked_mul` on two decimals given as (mantissa, scale).
pub uninterp spec fn decimal_mul(am: int, asc: nat, bm: int, bsc: nat) -> Option<(int, nat)>;

/// Name for `Decimal::checked_div`.
pub uninterp spec fn decimal_div(am: int, asc: nat, bm: int, bsc: nat) -> Option<(int, nat)>;

/// Name for `Decimal::checked_add`.
pub uninterp spec fn decimal_add(am: int, asc: nat, bm: int, bsc: nat) -> Option<(int, nat)>;

/// Name for `Decimal::checked_sub`.
pub uninterp spec fn decimal_sub(am: int, asc: nat, bm: int, bsc: nat) -> Option<(int, nat)>;

pub open spec fn opt_parts(r: Option<Dec>) -> Option<(int, nat)> {
    match r {
        Some(d) => Some(dec_parts(d)),
        None => None,
    }
}

/// Parses a number literal with `Decimal::from_str`, falling back to
/// `Decimal::from_scientific` (what `rust_decimal`'s deserializer does with a
/// JSON number or string). The result, when there is one, is a valid decimal.
#[verifier::external_body]
pub(crate) fn parse_decimal(t: &str) -> (r: Option<Dec>)
    ensures
        opt_parts(r) == decimal_of_text(t@),
        r matches Some(d) ==> dec_wf(d),
{
    match t.parse::<rust_decimal::Decimal>().or_else(|_| rust_decimal::Decimal::from_scientific(t)) {
        Ok(d) => Some(Dec { mantissa: d.mantissa(), scale: d.scale() }),
        Err(_) => None,
    }
}

/// `Decimal::checked_mul`: the product, or `None` where `*` would panic.
/// The product keeps the scale `a.scale + b.scale` and only drops decimal
/// digits (rounding) to fit; by an integer that is a multiple of
/// `10^a.scale` no digit it drops is non-zero, so the value is exact.
#[verifier::external_body]
pub(crate) fn dec_mul(a: &Dec, b: &Dec) -> (r: Option<Dec>)
    requires
        dec_wf(*a),
        dec_wf(*b),
    ensures
        opt_parts(r) == decimal_mul(a.mantissa as int, a.scale as nat, b.mantissa as int, b.scale as nat),
        r matches Some(d) ==> dec_wf(d),
        b.scale == 0 && b.mantissa > 0 && (b.mantissa as int) % (pow10(a.scale as nat) as int) == 0 ==> (r matches Some(d)
            ==> d.mantissa * pow10(a.scale as nat) == a.mantissa * b.mantissa * pow10(d.scale as nat)),
{
    let x = rust_decimal::Decimal::from_i128_with_scale(a.mantissa, a.scale);
    let y = rust_decimal::Decimal::from_i128_with_scale(b.mantissa, b.scale);
    x.checked_mul(y).map(|d| Dec { mantissa: d.mantissa(), scale: d.scale() })
}

/// `Decimal::checked_div`: the quotient, or `None` where `/` would panic.
#[verifier::external_body]
pub(crate) fn dec_div(a: &Dec, b: &Dec) -> (r: Option<Dec>)
    requires
        dec_wf(*a),
        dec_wf(*b),
    ensures
        opt_parts(r) == decimal_div(a.mantissa as int, a.scale as nat, b.mantissa as int, b.scale as nat),
        r matches Some(d) ==> dec_wf(d),
{
    let x = rust_decimal::Decimal::from_i128_with_scale(a.mantissa, a.scale);
    let y = rust_decimal::Decimal::from_i128_with_scale(b.mantissa, b.scale);
    x.checked_div(y).map(|d| Dec { mantissa: d.mantissa(), scale: d.scale() })
}

/// `Decimal::checked_add`: the sum, or `None` where `+` would panic.
#[verifier::external_body]
pub(crate) fn dec_add(a: &Dec, b: &Dec) -> (r: Option<Dec>)
    requires
        dec_wf(*a),
        dec_wf(*b),
    ensures
        opt_parts(r) == decimal_add(a.mantissa as int, a.scale as nat, b.mantissa as int, b.scale as nat),
        r matches Some(d) ==> dec_wf(d),
{
    let x = rust_decimal::Decimal::from_i128_with_scale(a.mantissa, a.scale);
    let y = rust_decimal::Decimal::from_i128_with_scale(b.mantissa, b.scale);
    x.checked_add(y).map(|d| Dec { mantissa: d.mantissa(), scale: d.scale() })
}

/// `Decimal::checked_sub`: the difference, or `None` where `-` would panic.
#[verifier::external_body]
pub(crate) fn dec_sub(a: &Dec, b: &Dec) -> (r: Option<Dec>)
    requires
        dec_wf(*a),
        dec_wf(*b),
    ensures
        opt_parts(r) == decimal_sub(a.mantissa as int, a.scale as nat, b.mantissa as int, b.scale as nat),
        r matches Some(d) ==> dec_wf(d),
{
    let x = rust_decimal::Decimal::from_i128_with_scale(a.mantissa, a.scale);
    let y = rust_decimal::Decimal::from_i128_with_scale(b.mantissa, b.scale);
    x.checked_sub(y).map(|d| Dec { mantissa: d.mantissa(), scale: d.scale() })
}

/// `i64::try_from(Decimal)`: the integer part (rounded toward zero) when it
/// lies in the range of `i64`.
#[verifier::external_body]
pub(crate) fn dec_to_i64(d: &Dec) -> (r: Option<i64>)
    requires
        dec_wf(*d),
    ensures
        match r {
            Some(v) => v as int == trunc_value(d.mantissa as int, d.scale as nat),
            None => !(i64::MIN <= trunc_value(d.mantissa as int, d.scale as nat) <= i64::MAX),
        },
{
    let x = rust_decimal::Decimal::from_i128_with_scale(d.mantissa, d.scale);
    i64::try_from(x).ok()
}

/// `Decimal`'s `==`: equality of the numeric values.
#[verifier::external_body]
pub(crate) fn dec_eq(a: &Dec, b: &Dec) -> (r: bool)
    requires
        dec_wf(*a),
        dec_wf(*b),
    ensures
        r == same_value(*a, *b),
{
    let x = rust_decimal::Decimal::from_i128_with_scale(a.mantissa, a.scale);
    let y = rust_decimal::Decimal::from_i128_with_scale(b.mantissa, b.scale);
    x == y
}

/// `Decimal::from(i64)`: the integer with scale zero.
pub fn dec_from_i64(v: i64) -> (r: Dec)
    ensures
        r.mantissa == v as i128,
        r.scale == 0,
        dec_wf(r),
{
    Dec { mantissa: v as i128, scale: 0 }
}

pub fn dec_copy(d: &Dec) -> (r: Dec)
    ensures
        r == *d,
{
    Dec { mantissa: d.mantissa, scale: d.scale }
}

} // verus!
