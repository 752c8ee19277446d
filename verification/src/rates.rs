//! Pull-rate fractions: reading rate objects from the pull-rate data,
//! normalizing them to exact integer fractions, and arranging card and
//! rarity rates by slot.
use vstd::prelude::*;
use crate::decimal::{
    Dec, dec_wf, trunc_value, pow10, decimal_mul, decimal_of_text, opt_parts, dec_parts, dec_mul,
    dec_to_i64, dec_from_i64, parse_decimal, dec_copy, same_value, decimal_div, decimal_add,
    decimal_sub, dec_div, dec_add, dec_sub, dec_eq,
};
use crate::json::{JsonValue, jget, jarray, jobject, oarray, oget};
use crate::models::{Rate, RaritySlotRates, PackVariantRates};

verus! {

/// Why pull-rate data could not be turned into exact fractions.
pub enum PullRateError {
    /// The card probability map is not a JSON object.
    CardMapNotObject,
    /// A rate's decimal arithmetic overflowed, or a fraction reduced by a zero divisor.
    Malformed,
    /// A rate needs the floating-point approximation, and the table handed in lacks it.
    MissingApproximation,
    /// No pull-rate chunk holding the key was found in the page.
    ChunkNotFound,
    /// The chunk's string literal could not be unescaped.
    ChunkUnescape,
    /// The key was not found in the chunk.
    KeyNotFound,
}

// ───────────────────────── gcd ─────────────────────────

/// Euclid's algorithm on non-negative integers (`gcd(a, 0) == a`).
pub open spec fn gcd_spec(a: nat, b: nat) -> nat
    decreases b,
{
    if b == 0 {
        a
    } else {
        gcd_spec(b, a % b)
    }
}

pub open spec fn times(k: int, d: int) -> int {
    k * d
}

pub open spec fn divides(d: int, x: int) -> bool {
    exists|k: int| x == #[trigger] times(k, d)
}

/// The gcd divides both of its arguments, and is zero only when both are.
pub proof fn lemma_gcd_divides(a: nat, b: nat)
    ensures
        divides(gcd_spec(a, b) as int, a as int),
        divides(gcd_spec(a, b) as int, b as int),
        gcd_spec(a, b) == 0 <==> (a == 0 && b == 0),
    decreases b,
{
    if b == 0 {
        assert(a as int == times(1, a as int));
        assert(0 == times(0, a as int));
    } else {
        lemma_gcd_divides(b, a % b);
        let g = gcd_spec(b, a % b) as int;
        let k1 = choose|k: int| b as int == times(k, g);
        let k2 = choose|k: int| (a % b) as int == times(k, g);
        let q = (a / b) as int;
        assert(a as int == q * (b as int) + (a % b) as int) by (nonlinear_arith)
            requires
                b > 0,
                q == (a / b) as int,
        ;
        assert(a as int == (q * k1 + k2) * g) by (nonlinear_arith)
            requires
                a as int == q * (b as int) + (a % b) as int,
                b as int == k1 * g,
                (a % b) as int == k2 * g,
        ;
        assert(a as int == times(q * k1 + k2, g));
        assert(b as int == times(k1, g));
    }
}

/// `rate_gcd` on non-negative arguments.
pub fn rate_gcd(a: i64, b: i64) -> (r: i64)
    requires
        a >= 0,
        b >= 0,
    ensures
        r as int == gcd_spec(a as nat, b as nat),
        r >= 0,
    decreases b,
{
    if b == 0 {
        a
    } else {
        rate_gcd(b, a % b)
    }
}

/// Exact division by a divisor known to divide (Rust's `/`, which rounds
/// toward zero, is then exact).
pub open spec fn exact_div(x: int, g: int) -> int {
    if x >= 0 {
        x / g
    } else {
        -((-x) / g)
    }
}

pub fn div_toward_zero(x: i64, g: i64) -> (r: i64)
    requires
        g > 0,
        x != i64::MIN,
    ensures
        r as int == exact_div(x as int, g as int),
{
    if x >= 0 {
        x / g
    } else {
        -((-x) / g)
    }
}

pub open spec fn iabs(x: int) -> nat {
    if x >= 0 {
        x as nat
    } else {
        (-x) as nat
    }
}

/// A fraction reduced by the gcd of its parts' magnitudes; `None` when the
/// gcd is zero (both parts zero), where the division would fail.
pub open spec fn reduce_spec(n: int, d: int) -> Option<(int, int)> {
    let g = gcd_spec(iabs(n), iabs(d));
    if g == 0 {
        None
    } else {
        Some((exact_div(n, g as int), exact_div(d, g as int)))
    }
}

/// Reducing a fraction keeps its value: `a / b == n / d` (as `a * d == b * n`).
pub proof fn lemma_reduce_same_value(n: int, d: int)
    requires
        reduce_spec(n, d) is Some,
    ensures
        ({
            let (a, b) = reduce_spec(n, d)->0;
            a * d == b * n
        }),
{
    let g = gcd_spec(iabs(n), iabs(d));
    lemma_gcd_divides(iabs(n), iabs(d));
    let kn = choose|k: int| iabs(n) as int == times(k, g as int);
    let kd = choose|k: int| iabs(d) as int == times(k, g as int);
    assert(iabs(n) as int == kn * g);
    assert(iabs(d) as int == kd * g);
    lemma_div_exact(iabs(n) as int, g as int, kn);
    lemma_div_exact(iabs(d) as int, g as int, kd);
    let a = exact_div(n, g as int);
    let b = exact_div(d, g as int);
    assert(a * d == b * n) by (nonlinear_arith)
        requires
            g > 0,
            n >= 0 ==> a == kn && n == kn * g,
            n < 0 ==> a == -kn && -n == kn * g,
            d >= 0 ==> b == kd && d == kd * g,
            d < 0 ==> b == -kd && -d == kd * g,
    ;
}

proof fn lemma_div_exact(x: int, g: int, k: int)
    requires
        g > 0,
        x == k * g,
    ensures
        x / g == k,
{
    vstd::arithmetic::div_mod::lemma_div_multiples_vanish(k, g);
    assert(g * k == k * g) by (nonlinear_arith);
}

// ───────────────────────── normalizing ─────────────────────────

/// Outcome of normalizing a rate given as two decimals.
pub enum Normalized {
    /// An exact integer fraction in lowest terms.
    Exact(i64, i64),
    /// Direct scaling does not give a fraction with a denominator of at most
    /// two billion; the rate is a floating-point artifact to be approximated.
    Approximate,
    /// The decimal arithmetic overflows, a part is `i64::MIN`, or both parts
    /// are zero: no fraction can be made of it.
    Malformed,
}

pub open spec fn scaled_int(p: Option<(int, nat)>) -> Option<int> {
    match p {
        Some((m, s)) => if i64::MIN <= trunc_value(m, s) <= i64::MAX {
            Some(trunc_value(m, s))
        } else {
            None
        },
        None => None,
    }
}

/// Both parts are multiplied (as decimals) by `10^scale`, where `scale` is
/// the larger of their scales, converted to `i64`, and reduced; the result
/// is kept when the reduced denominator is at most 2_000_000_000.
#[verifier::opaque]
pub open spec fn normalize_spec(num: Dec, den: Dec) -> Normalized {
    let scale: nat = if num.scale >= den.scale {
        num.scale as nat
    } else {
        den.scale as nat
    };
    if scale > 19 {
        Normalized::Approximate
    } else {
        let f = pow10(scale) as int;
        let pn = decimal_mul(num.mantissa as int, num.scale as nat, f, 0);
        let pd = decimal_mul(den.mantissa as int, den.scale as nat, f, 0);
        if pn is None || pd is None {
            Normalized::Malformed
        } else {
            match (scaled_int(pn), scaled_int(pd)) {
                (Some(n), Some(d)) => if n == i64::MIN || d == i64::MIN {
                    Normalized::Malformed
                } else {
                    match reduce_spec(n, d) {
                        None => Normalized::Malformed,
                        Some((nr, dr)) => if dr <= 2_000_000_000 {
                            Normalized::Exact(nr as i64, dr as i64)
                        } else {
                            Normalized::Approximate
                        },
                    }
                },
                _ => Normalized::Approximate,
            }
        }
    }
}

pub fn pow10_u64(n: u32) -> (r: u64)
    requires
        n <= 19,
    ensures
        r as nat == pow10(n as nat),
    decreases n,
{
    if n == 0 {
        1
    } else {
        let p = pow10_u64(n - 1);
        proof {
            lemma_pow10_bound((n - 1) as nat);
        }
        10 * p
    }
}

pub proof fn lemma_pow10_mono(n: nat, m: nat)
    requires
        n <= m,
    ensures
        pow10(n) <= pow10(m),
    decreases m,
{
    if n < m {
        lemma_pow10_mono(n, (m - 1) as nat);
        lemma_pow10_pos((m - 1) as nat);
    }
}

pub proof fn lemma_pow10_18()
    ensures
        pow10(18) == 1_000_000_000_000_000_000,
        pow10(19) == 10_000_000_000_000_000_000,
{
    assert(pow10(0) == 1);
    assert(pow10(1) == 10);
    assert(pow10(2) == 100);
    assert(pow10(3) == 1000);
    assert(pow10(4) == 10000);
    assert(pow10(5) == 100000);
    assert(pow10(6) == 1000000);
    assert(pow10(7) == 10000000);
    assert(pow10(8) == 100000000);
    assert(pow10(9) == 1000000000);
    assert(pow10(10) == 10000000000);
    assert(pow10(11) == 100000000000);
    assert(pow10(12) == 1000000000000);
    assert(pow10(13) == 10000000000000);
    assert(pow10(14) == 100000000000000);
    assert(pow10(15) == 1000000000000000);
    assert(pow10(16) == 10000000000000000);
    assert(pow10(17) == 100000000000000000);
    assert(pow10(18) == 1000000000000000000);
    assert(pow10(19) == 10000000000000000000);
}

pub proof fn lemma_pow10_bound(n: nat)
    requires
        n <= 18,
    ensures
        pow10(n) <= 1_000_000_000_000_000_000,
        pow10(n) >= 1,
{
    lemma_pow10_mono(n, 18);
    lemma_pow10_18();
    lemma_pow10_pos(n);
}

pub proof fn lemma_pow10_pos(n: nat)
    ensures
        pow10(n) >= 1,
    decreases n,
{
    if n > 0 {
        lemma_pow10_pos((n - 1) as nat);
    }
}

pub(crate) fn reduce_pair(n: i64, d: i64) -> (r: Option<(i64, i64)>)
    requires
        n != i64::MIN,
        d != i64::MIN,
    ensures
        match r {
            Some((a, b)) => reduce_spec(n as int, d as int) == Some((a as int, b as int)),
            None => reduce_spec(n as int, d as int) is None,
        },
{
    let an: i64 = if n >= 0 {
        n
    } else {
        -n
    };
    let ad: i64 = if d >= 0 {
        d
    } else {
        -d
    };
    let g = rate_gcd(an, ad);
    if g == 0 {
        return None;
    }
    proof {
        lemma_gcd_divides(an as nat, ad as nat);
    }
    Some((div_toward_zero(n, g), div_toward_zero(d, g)))
}

/// Normalize a rate to an exact integer fraction where direct decimal
/// scaling gives one with a small denominator.
pub fn normalize_rate(num: &Dec, den: &Dec) -> (r: Normalized)
    requires
        dec_wf(*num),
        dec_wf(*den),
    ensures
        r == normalize_spec(*num, *den),
{
    reveal(normalize_spec);
    let scale = if num.scale >= den.scale {
        num.scale
    } else {
        den.scale
    };
    if scale > 19 {
        return Normalized::Approximate;
    }
    let p = pow10_u64(scale);
    let factor = Dec { mantissa: p as i128, scale: 0 };
    assert(dec_wf(factor)) by {
        assert(p <= u64::MAX);
    }
    let nm = match dec_mul(num, &factor) {
        Some(x) => x,
        None => {
            return Normalized::Malformed;
        },
    };
    let dm = match dec_mul(den, &factor) {
        Some(x) => x,
        None => {
            return Normalized::Malformed;
        },
    };
    let n_opt = dec_to_i64(&nm);
    let d_opt = dec_to_i64(&dm);
    match (n_opt, d_opt) {
        (Some(n), Some(d)) => {
            if n == i64::MIN || d == i64::MIN {
                return Normalized::Malformed;
            }
            match reduce_pair(n, d) {
                None => Normalized::Malformed,
                Some((nr, dr)) => {
                    if dr <= 2_000_000_000 {
                        Normalized::Exact(nr, dr)
                    } else {
                        Normalized::Approximate
                    }
                },
            }
        },
        _ => Normalized::Approximate,
    }
}

// ───────────────────────── rate objects ─────────────────────────

/// Floating-point approximations of rates that are not exact: each entry is
/// (numerator, denominator, approximated numerator, approximated denominator).
pub struct RateApprox {
    pub entries: Vec<(Dec, Dec, i64, i64)>,
}

pub open spec fn approx_lookup(entries: Seq<(Dec, Dec, i64, i64)>, num: Dec, den: Dec) -> Option<
    (i64, i64),
>
    decreases entries.len(),
{
    if entries.len() == 0 {
        None
    } else {
        match approx_lookup(entries.drop_last(), num, den) {
            Some(x) => Some(x),
            None => if entries.last().0 == num && entries.last().1 == den {
                Some((entries.last().2, entries.last().3))
            } else {
                None
            },
        }
    }
}

pub fn find_approx(table: &RateApprox, num: &Dec, den: &Dec) -> (r: Option<(i64, i64)>)
    ensures
        r == approx_lookup(table.entries@, *num, *den),
{
    let mut i: usize = 0;
    while i < table.entries.len()
        invariant
            i <= table.entries@.len(),
            approx_lookup(table.entries@.subrange(0, i as int), *num, *den) is None,
        decreases table.entries.len() - i,
    {
        proof {
            assert(table.entries@.subrange(0, i + 1).drop_last() =~= table.entries@.subrange(
                0,
                i as int,
            ));
        }
        let e = &table.entries[i];
        if e.0.mantissa == num.mantissa && e.0.scale == num.scale && e.1.mantissa == den.mantissa
            && e.1.scale == den.scale {
            proof {
                lemma_approx_prefix(table.entries@, i + 1, *num, *den);
            }
            return Some((e.2, e.3));
        }
        i += 1;
    }
    assert(table.entries@.subrange(0, i as int) =~= table.entries@);
    None
}

proof fn lemma_approx_prefix(entries: Seq<(Dec, Dec, i64, i64)>, k: int, num: Dec, den: Dec)
    requires
        0 <= k <= entries.len(),
        approx_lookup(entries.subrange(0, k), num, den) is Some,
    ensures
        approx_lookup(entries, num, den) == approx_lookup(entries.subrange(0, k), num, den),
    decreases entries.len() - k,
{
    if k < entries.len() {
        assert(entries.subrange(0, k + 1).drop_last() =~= entries.subrange(0, k));
        lemma_approx_prefix(entries, k + 1, num, den);
    } else {
        assert(entries.subrange(0, k) =~= entries);
    }
}

/// Name for `serde_json::from_value::<Decimal>` applied to a JSON number
/// with the given literal text (as (mantissa, scale)).
pub uninterp spec fn decimal_of_number_literal(t: Seq<char>) -> Option<(int, nat)>;

/// Deserializes a `Decimal` from the JSON number with literal text `t`
/// (`serde_json::from_value` on that number).
#[verifier::external_body]
pub(crate) fn decimal_from_number_literal(t: &str) -> (r: Option<Dec>)
    ensures
        opt_parts(r) == decimal_of_number_literal(t@),
        r matches Some(d) ==> dec_wf(d),
{
    let n = match t.parse::<serde_json::Number>() {
        Ok(n) => n,
        Err(_) => return None,
    };
    match serde_json::from_value::<rust_decimal::Decimal>(serde_json::Value::Number(n)) {
        Ok(d) => Some(Dec { mantissa: d.mantissa(), scale: d.scale() }),
        Err(_) => None,
    }
}

/// The decimal a JSON value deserializes to: a number through its literal,
/// a string through `Decimal`'s string parsing, anything else to nothing.
pub open spec fn json_decimal_spec(v: JsonValue) -> Option<(int, nat)> {
    match v {
        JsonValue::Number(t) => decimal_of_number_literal(t@),
        JsonValue::Str(s) => decimal_of_text(s@),
        _ => None,
    }
}

pub fn json_decimal(v: &JsonValue) -> (r: Option<Dec>)
    ensures
        opt_parts(r) == json_decimal_spec(*v),
        r matches Some(d) ==> dec_wf(d),
{
    match v {
        JsonValue::Number(t) => decimal_from_number_literal(t.as_str()),
        JsonValue::Str(s) => parse_decimal(s.as_str()),
        _ => None,
    }
}

pub open spec fn int_rate(n: i64, d: i64) -> Rate {
    Rate { numerator: Dec { mantissa: n as i128, scale: 0 }, denominator: Dec { mantissa: d as i128, scale: 0 } }
}

pub open spec fn dec_of(p: (int, nat)) -> Dec {
    Dec { mantissa: p.0 as i128, scale: p.1 as u32 }
}

/// A rate object `{ "numerator": .., "denominator": .. }` as an exact
/// integer fraction: `None` when a part is missing or not a decimal; exact
/// normalization when it succeeds, otherwise the approximation table.
#[verifier::opaque]
pub open spec fn rate_obj_spec(v: JsonValue, table: Seq<(Dec, Dec, i64, i64)>) -> Result<
    Option<Rate>,
    PullRateError,
> {
    match (jget(v, "numerator"@), jget(v, "denominator"@)) {
        (Some(nv), Some(dv)) => match (json_decimal_spec(nv), json_decimal_spec(dv)) {
            (Some(np), Some(dp)) => match normalize_spec(dec_of(np), dec_of(dp)) {
                Normalized::Exact(n, d) => Ok(Some(int_rate(n, d))),
                Normalized::Approximate => match approx_lookup(table, dec_of(np), dec_of(dp)) {
                    Some((n, d)) => Ok(Some(int_rate(n, d))),
                    None => Err(PullRateError::MissingApproximation),
                },
                Normalized::Malformed => Err(PullRateError::Malformed),
            },
            _ => Ok(None),
        },
        _ => Ok(None),
    }
}

pub fn parse_rate_obj(val: &JsonValue, approx: &RateApprox) -> (r: Result<Option<Rate>, PullRateError>)
    ensures
        r == rate_obj_spec(*val, approx.entries@),
{
    reveal(rate_obj_spec);
    let num_val = match val.get("numerator") {
        Some(v) => v,
        None => return Ok(None),
    };
    let den_val = match val.get("denominator") {
        Some(v) => v,
        None => return Ok(None),
    };
    let numerator = match json_decimal(num_val) {
        Some(d) => d,
        None => return Ok(None),
    };
    let denominator = match json_decimal(den_val) {
        Some(d) => d,
        None => return Ok(None),
    };
    assert(numerator == dec_of(dec_parts(numerator)));
    assert(denominator == dec_of(dec_parts(denominator)));
    match normalize_rate(&numerator, &denominator) {
        Normalized::Exact(n, d) => Ok(Some(Rate { numerator: dec_from_i64(n), denominator: dec_from_i64(d) })),
        Normalized::Approximate => match find_approx(approx, &numerator, &denominator) {
            Some((n, d)) => Ok(Some(Rate { numerator: dec_from_i64(n), denominator: dec_from_i64(d) })),
            None => Err(PullRateError::MissingApproximation),
        },
        Normalized::Malformed => Err(PullRateError::Malformed),
    }
}

} // verus!

verus! {

// ───────────────────────── slot arrays ─────────────────────────

pub open spec fn rate_is_int(r: Rate) -> bool {
    &&& r.numerator.scale == 0
    &&& r.denominator.scale == 0
    &&& i64::MIN <= r.numerator.mantissa <= i64::MAX
    &&& i64::MIN <= r.denominator.mantissa <= i64::MAX
}

pub open spec fn opt_rate_is_int(r: Option<Rate>) -> bool {
    match r {
        Some(x) => rate_is_int(x),
        None => true,
    }
}

/// Each element of a slot array: `null` is "cannot appear", anything else is
/// read as a rate object.
pub open spec fn slot_elem_spec(v: JsonValue, table: Seq<(Dec, Dec, i64, i64)>) -> Result<
    Option<Rate>,
    PullRateError,
> {
    if v is Null {
        Ok(None)
    } else {
        rate_obj_spec(v, table)
    }
}

pub open spec fn slots_spec(a: Seq<JsonValue>, table: Seq<(Dec, Dec, i64, i64)>) -> Result<
    Seq<Option<Rate>>,
    PullRateError,
>
    decreases a.len(),
{
    if a.len() == 0 {
        Ok(Seq::empty())
    } else {
        match slots_spec(a.drop_last(), table) {
            Err(e) => Err(e),
            Ok(prefix) => match slot_elem_spec(a.last(), table) {
                Err(e) => Err(e),
                Ok(x) => Ok(prefix.push(x)),
            },
        }
    }
}

/// A per-slot rate array; a value that is not an array gives no slots.
pub open spec fn slot_rates_spec(v: JsonValue, table: Seq<(Dec, Dec, i64, i64)>) -> Result<
    Seq<Option<Rate>>,
    PullRateError,
> {
    match jarray(v) {
        Some(a) => slots_spec(a, table),
        None => Ok(Seq::empty()),
    }
}

proof fn lemma_rate_obj_int(v: JsonValue, table: Seq<(Dec, Dec, i64, i64)>)
    ensures
        rate_obj_spec(v, table) matches Ok(Some(r)) ==> rate_is_int(r),
{
    reveal(rate_obj_spec);
}

pub fn parse_slot_rates(val: &JsonValue, approx: &RateApprox) -> (r: Result<Vec<Option<Rate>>, PullRateError>)
    ensures
        match r {
            Ok(v) => slot_rates_spec(*val, approx.entries@) == Ok::<Seq<Option<Rate>>, PullRateError>(v@)
                && forall|i: int| 0 <= i < v@.len() ==> opt_rate_is_int(#[trigger] v@[i]),
            Err(e) => slot_rates_spec(*val, approx.entries@) == Err::<Seq<Option<Rate>>, PullRateError>(e),
        },
{
    let arr = match val.as_array() {
        Some(a) => a,
        None => return Ok(Vec::new()),
    };
    let mut out: Vec<Option<Rate>> = Vec::new();
    let mut i: usize = 0;
    while i < arr.len()
        invariant
            i <= arr@.len(),
            jarray(*val) == Some(arr@),
            slots_spec(arr@.subrange(0, i as int), approx.entries@) == Ok::<Seq<Option<Rate>>, PullRateError>(out@),
            forall|k: int| 0 <= k < out@.len() ==> opt_rate_is_int(#[trigger] out@[k]),
        decreases arr.len() - i,
    {
        proof {
            assert(arr@.subrange(0, i + 1).drop_last() =~= arr@.subrange(0, i as int));
            lemma_rate_obj_int(arr@[i as int], approx.entries@);
        }
        let x = if arr[i].is_null() {
            None
        } else {
            match parse_rate_obj(&arr[i], approx) {
                Ok(x) => x,
                Err(e) => {
                    proof {
                        let t = arr@.subrange(0, i + 1);
                        assert(t.last() == arr@[i as int]);
                        assert(slots_spec(t, approx.entries@) == Err::<Seq<Option<Rate>>, PullRateError>(e));
                        lemma_slots_err_prefix(arr@, i + 1, approx.entries@);
                    }
                    return Err(e);
                },
            }
        };
        out.push(x);
        i += 1;
    }
    assert(arr@.subrange(0, arr@.len() as int) =~= arr@);
    Ok(out)
}

proof fn lemma_slots_err_prefix(a: Seq<JsonValue>, k: int, table: Seq<(Dec, Dec, i64, i64)>)
    requires
        0 <= k <= a.len(),
        slots_spec(a.subrange(0, k), table) is Err,
    ensures
        slots_spec(a, table) == slots_spec(a.subrange(0, k), table),
    decreases a.len() - k,
{
    if k < a.len() {
        assert(a.subrange(0, k + 1).drop_last() =~= a.subrange(0, k));
        lemma_slots_err_prefix(a, k + 1, table);
    } else {
        assert(a.subrange(0, k) =~= a);
    }
}

// ───────────────────────── rarity slots ─────────────────────────

pub open spec fn rarity_entries_view(v: Seq<(String, RaritySlotRates)>) -> Seq<(Seq<char>, RaritySlotRates)> {
    v.map_values(|e: (String, RaritySlotRates)| (e.0@, e.1))
}

/// The rarity rates of one slot: each member of the slot object whose value
/// reads as a rate becomes a normal (non-foil) rate; a slot that is not an
/// object has none.
pub open spec fn rarity_members_spec(o: Seq<(String, JsonValue)>, table: Seq<(Dec, Dec, i64, i64)>) -> Result<
    Seq<(Seq<char>, RaritySlotRates)>,
    PullRateError,
>
    decreases o.len(),
{
    if o.len() == 0 {
        Ok(Seq::empty())
    } else {
        match rarity_members_spec(o.drop_last(), table) {
            Err(e) => Err(e),
            Ok(prefix) => match rate_obj_spec(o.last().1, table) {
                Err(e) => Err(e),
                Ok(Some(r)) => Ok(prefix.push((o.last().0@, RaritySlotRates { normal: Some(r), foil: None }))),
                Ok(None) => Ok(prefix),
            },
        }
    }
}

pub open spec fn rarity_slot_spec(slot: JsonValue, table: Seq<(Dec, Dec, i64, i64)>) -> Result<
    Seq<(Seq<char>, RaritySlotRates)>,
    PullRateError,
> {
    match jobject(slot) {
        Some(o) => rarity_members_spec(o, table),
        None => Ok(Seq::empty()),
    }
}

pub open spec fn rarity_slots_spec(slots: Seq<JsonValue>, table: Seq<(Dec, Dec, i64, i64)>) -> Result<
    Seq<Seq<(Seq<char>, RaritySlotRates)>>,
    PullRateError,
>
    decreases slots.len(),
{
    if slots.len() == 0 {
        Ok(Seq::empty())
    } else {
        match rarity_slots_spec(slots.drop_last(), table) {
            Err(e) => Err(e),
            Ok(prefix) => match rarity_slot_spec(slots.last(), table) {
                Err(e) => Err(e),
                Ok(x) => Ok(prefix.push(x)),
            },
        }
    }
}

/// The per-slot rarity rates of one variant in `byRarity`; nothing when the
/// variant is absent or not an array.
pub open spec fn slot_rarity_rates_spec(
    by_rarity: Option<JsonValue>,
    variant: Seq<char>,
    table: Seq<(Dec, Dec, i64, i64)>,
) -> Result<Seq<Seq<(Seq<char>, RaritySlotRates)>>, PullRateError> {
    match oarray(oget(by_rarity, variant)) {
        Some(slots) => rarity_slots_spec(slots, table),
        None => Ok(Seq::empty()),
    }
}

pub open spec fn rarity_table_view(v: Seq<Vec<(String, RaritySlotRates)>>) -> Seq<Seq<(Seq<char>, RaritySlotRates)>> {
    v.map_values(|s: Vec<(String, RaritySlotRates)>| rarity_entries_view(s@))
}

pub open spec fn rarity_slot_ints(s: Seq<(String, RaritySlotRates)>) -> bool {
    forall|i: int| 0 <= i < s.len() ==> opt_rate_is_int(#[trigger] s[i].1.normal) && opt_rate_is_int(s[i].1.foil)
}

fn rarity_slot(slot: &JsonValue, approx: &RateApprox) -> (r: Result<Vec<(String, RaritySlotRates)>, PullRateError>)
    ensures
        match r {
            Ok(v) => rarity_slot_spec(*slot, approx.entries@) == Ok::<Seq<(Seq<char>, RaritySlotRates)>, PullRateError>(rarity_entries_view(v@))
                && rarity_slot_ints(v@),
            Err(e) => rarity_slot_spec(*slot, approx.entries@) == Err::<Seq<(Seq<char>, RaritySlotRates)>, PullRateError>(e),
        },
{
    let obj = match slot.as_object() {
        Some(o) => o,
        None => {
            let v: Vec<(String, RaritySlotRates)> = Vec::new();
            assert(rarity_entries_view(v@) =~= Seq::empty());
            return Ok(v);
        },
    };
    let mut out: Vec<(String, RaritySlotRates)> = Vec::new();
    let mut i: usize = 0;
    assert(rarity_entries_view(out@) =~= Seq::empty());
    while i < obj.len()
        invariant
            i <= obj@.len(),
            jobject(*slot) == Some(obj@),
            rarity_members_spec(obj@.subrange(0, i as int), approx.entries@) == Ok::<Seq<(Seq<char>, RaritySlotRates)>, PullRateError>(rarity_entries_view(out@)),
            rarity_slot_ints(out@),
        decreases obj.len() - i,
    {
        proof {
            assert(obj@.subrange(0, i + 1).drop_last() =~= obj@.subrange(0, i as int));
            lemma_rate_obj_int(obj@[i as int].1, approx.entries@);
        }
        match parse_rate_obj(&obj[i].1, approx) {
            Ok(Some(r)) => {
                let ghost before = out@;
                out.push((obj[i].0.clone(), RaritySlotRates { normal: Some(r), foil: None }));
                assert(rarity_entries_view(out@) =~= rarity_entries_view(before).push((obj@[i as int].0@, RaritySlotRates { normal: Some(r), foil: None })));
            },
            Ok(None) => {},
            Err(e) => {
                proof {
                    let t = obj@.subrange(0, i + 1);
                    assert(t.last() == obj@[i as int]);
                    assert(rarity_members_spec(t, approx.entries@) == Err::<Seq<(Seq<char>, RaritySlotRates)>, PullRateError>(e));
                    lemma_members_err_prefix(obj@, i + 1, approx.entries@);
                }
                return Err(e);
            },
        }
        i += 1;
    }
    assert(obj@.subrange(0, obj@.len() as int) =~= obj@);
    Ok(out)
}

proof fn lemma_members_err_prefix(o: Seq<(String, JsonValue)>, k: int, table: Seq<(Dec, Dec, i64, i64)>)
    requires
        0 <= k <= o.len(),
        rarity_members_spec(o.subrange(0, k), table) is Err,
    ensures
        rarity_members_spec(o, table) == rarity_members_spec(o.subrange(0, k), table),
    decreases o.len() - k,
{
    if k < o.len() {
        assert(o.subrange(0, k + 1).drop_last() =~= o.subrange(0, k));
        lemma_members_err_prefix(o, k + 1, table);
    } else {
        assert(o.subrange(0, k) =~= o);
    }
}

proof fn lemma_rslots_err_prefix(o: Seq<JsonValue>, k: int, table: Seq<(Dec, Dec, i64, i64)>)
    requires
        0 <= k <= o.len(),
        rarity_slots_spec(o.subrange(0, k), table) is Err,
    ensures
        rarity_slots_spec(o, table) == rarity_slots_spec(o.subrange(0, k), table),
    decreases o.len() - k,
{
    if k < o.len() {
        assert(o.subrange(0, k + 1).drop_last() =~= o.subrange(0, k));
        lemma_rslots_err_prefix(o, k + 1, table);
    } else {
        assert(o.subrange(0, k) =~= o);
    }
}

pub open spec fn opt_ref(v: Option<&JsonValue>) -> Option<JsonValue> {
    match v {
        Some(x) => Some(*x),
        None => None,
    }
}

/// Rarity rates for every slot of one variant, read from `byRarity`.
pub fn slot_rarity_rates(by_rarity: Option<&JsonValue>, variant: &str, approx: &RateApprox) -> (r: Result<Vec<Vec<(String, RaritySlotRates)>>, PullRateError>)
    ensures
        match r {
            Ok(v) => slot_rarity_rates_spec(opt_ref(by_rarity), variant@, approx.entries@) == Ok::<Seq<Seq<(Seq<char>, RaritySlotRates)>>, PullRateError>(rarity_table_view(v@))
                && forall|i: int| 0 <= i < v@.len() ==> rarity_slot_ints(#[trigger] v@[i]@),
            Err(e) => slot_rarity_rates_spec(opt_ref(by_rarity), variant@, approx.entries@) == Err::<Seq<Seq<(Seq<char>, RaritySlotRates)>>, PullRateError>(e),
        },
{
    let empty: Vec<Vec<(String, RaritySlotRates)>> = Vec::new();
    assert(rarity_table_view(empty@) =~= Seq::empty());
    let br = match by_rarity {
        Some(b) => b,
        None => return Ok(empty),
    };
    let vv = match br.get(variant) {
        Some(x) => x,
        None => return Ok(empty),
    };
    let slots = match vv.as_array() {
        Some(a) => a,
        None => return Ok(empty),
    };
    let mut out: Vec<Vec<(String, RaritySlotRates)>> = Vec::new();
    let mut i: usize = 0;
    while i < slots.len()
        invariant
            i <= slots@.len(),
            oarray(oget(opt_ref(by_rarity), variant@)) == Some(slots@),
            rarity_slots_spec(slots@.subrange(0, i as int), approx.entries@) == Ok::<Seq<Seq<(Seq<char>, RaritySlotRates)>>, PullRateError>(rarity_table_view(out@)),
            forall|k: int| 0 <= k < out@.len() ==> rarity_slot_ints(#[trigger] out@[k]@),
        decreases slots.len() - i,
    {
        proof {
            assert(slots@.subrange(0, i + 1).drop_last() =~= slots@.subrange(0, i as int));
        }
        match rarity_slot(&slots[i], approx) {
            Ok(s) => {
                let ghost before = out@;
                out.push(s);
                assert(rarity_table_view(out@) =~= rarity_table_view(before).push(rarity_entries_view(s@)));
            },
            Err(e) => {
                proof {
                    let t = slots@.subrange(0, i + 1);
                    assert(t.last() == slots@[i as int]);
                    assert(rarity_slots_spec(t, approx.entries@) == Err::<Seq<Seq<(Seq<char>, RaritySlotRates)>>, PullRateError>(e));
                    lemma_rslots_err_prefix(slots@, i + 1, approx.entries@);
                }
                return Err(e);
            },
        }
        i += 1;
    }
    assert(slots@.subrange(0, slots@.len() as int) =~= slots@);
    Ok(out)
}

} // verus!

verus! {

// ───────────────────────── card slot arrays ─────────────────────────

pub open spec fn card_rates_view(v: Seq<(String, Vec<Option<Rate>>)>) -> Seq<(Seq<char>, Seq<Option<Rate>>)> {
    v.map_values(|e: (String, Vec<Option<Rate>>)| (e.0@, e.1@))
}

/// The slot array a card's probability entry gives for one pack and one
/// variant: `byPack[pack_id].cardProbability[variant]`.
pub open spec fn card_variant_slots(card_val: JsonValue, pack_id: Seq<char>, variant: Seq<char>) -> Option<JsonValue> {
    oget(oget(oget(jget(card_val, "byPack"@), pack_id), "cardProbability"@), variant)
}

/// Per-card slot rates of one variant, for every card of the probability map
/// that lists the pack and the variant, in map order.
pub open spec fn card_entries_spec(
    entries: Seq<(String, JsonValue)>,
    pack_id: Seq<char>,
    variant: Seq<char>,
    table: Seq<(Dec, Dec, i64, i64)>,
) -> Result<Seq<(Seq<char>, Seq<Option<Rate>>)>, PullRateError>
    decreases entries.len(),
{
    if entries.len() == 0 {
        Ok(Seq::empty())
    } else {
        match card_entries_spec(entries.drop_last(), pack_id, variant, table) {
            Err(e) => Err(e),
            Ok(prefix) => match card_variant_slots(entries.last().1, pack_id, variant) {
                None => Ok(prefix),
                Some(slots) => match slot_rates_spec(slots, table) {
                    Err(e) => Err(e),
                    Ok(v) => Ok(prefix.push((entries.last().0@, v))),
                },
            },
        }
    }
}

pub open spec fn card_table_ints(v: Seq<(String, Vec<Option<Rate>>)>) -> bool {
    forall|i: int, j: int| 0 <= i < v.len() && 0 <= j < v[i].1@.len() ==> opt_rate_is_int(#[trigger] v[i].1@[j])
}

proof fn lemma_cards_err_prefix(
    o: Seq<(String, JsonValue)>,
    k: int,
    pack_id: Seq<char>,
    variant: Seq<char>,
    table: Seq<(Dec, Dec, i64, i64)>,
)
    requires
        0 <= k <= o.len(),
        card_entries_spec(o.subrange(0, k), pack_id, variant, table) is Err,
    ensures
        card_entries_spec(o, pack_id, variant, table) == card_entries_spec(o.subrange(0, k), pack_id, variant, table),
    decreases o.len() - k,
{
    if k < o.len() {
        assert(o.subrange(0, k + 1).drop_last() =~= o.subrange(0, k));
        lemma_cards_err_prefix(o, k + 1, pack_id, variant, table);
    } else {
        assert(o.subrange(0, k) =~= o);
    }
}

pub fn collect_card_rates(
    card_obj: &Vec<(String, JsonValue)>,
    pack_id: &str,
    variant: &str,
    approx: &RateApprox,
) -> (r: Result<Vec<(String, Vec<Option<Rate>>)>, PullRateError>)
    ensures
        match r {
            Ok(v) => card_entries_spec(card_obj@, pack_id@, variant@, approx.entries@) == Ok::<Seq<(Seq<char>, Seq<Option<Rate>>)>, PullRateError>(card_rates_view(v@))
                && card_table_ints(v@),
            Err(e) => card_entries_spec(card_obj@, pack_id@, variant@, approx.entries@) == Err::<Seq<(Seq<char>, Seq<Option<Rate>>)>, PullRateError>(e),
        },
{
    let mut out: Vec<(String, Vec<Option<Rate>>)> = Vec::new();
    let mut i: usize = 0;
    assert(card_rates_view(out@) =~= Seq::empty());
    while i < card_obj.len()
        invariant
            i <= card_obj@.len(),
            card_entries_spec(card_obj@.subrange(0, i as int), pack_id@, variant@, approx.entries@) == Ok::<Seq<(Seq<char>, Seq<Option<Rate>>)>, PullRateError>(card_rates_view(out@)),
            card_table_ints(out@),
        decreases card_obj.len() - i,
    {
        proof {
            assert(card_obj@.subrange(0, i + 1).drop_last() =~= card_obj@.subrange(0, i as int));
            assert(card_obj@.subrange(0, i + 1).last() == card_obj@[i as int]);
        }
        let card_val = &card_obj[i].1;
        let slots = match card_val.get("byPack") {
            None => None,
            Some(bp) => match bp.get(pack_id) {
                None => None,
                Some(pe) => match pe.get("cardProbability") {
                    None => None,
                    Some(cp) => cp.get(variant),
                },
            },
        };
        match slots {
            None => {},
            Some(sl) => {
                match parse_slot_rates(sl, approx) {
                    Ok(v) => {
                        let ghost before = out@;
                        out.push((card_obj[i].0.clone(), v));
                        assert(card_rates_view(out@) =~= card_rates_view(before).push((card_obj@[i as int].0@, v@)));
                    },
                    Err(e) => {
                        proof {
                            lemma_cards_err_prefix(card_obj@, i + 1, pack_id@, variant@, approx.entries@);
                        }
                        return Err(e);
                    },
                }
            },
        }
        i += 1;
    }
    assert(card_obj@.subrange(0, card_obj@.len() as int) =~= card_obj@);
    Ok(out)
}

/// Length of the longest slot array (zero when there is none).
pub open spec fn max_card_len(cards: Seq<(Seq<char>, Seq<Option<Rate>>)>) -> nat
    decreases cards.len(),
{
    if cards.len() == 0 {
        0
    } else {
        let m = max_card_len(cards.drop_last());
        if cards.last().1.len() > m {
            cards.last().1.len()
        } else {
            m
        }
    }
}

pub fn max_slot_len(cards: &Vec<(String, Vec<Option<Rate>>)>) -> (r: usize)
    ensures
        r as nat == max_card_len(card_rates_view(cards@)),
{
    let mut m: usize = 0;
    let mut i: usize = 0;
    while i < cards.len()
        invariant
            i <= cards@.len(),
            m as nat == max_card_len(card_rates_view(cards@.subrange(0, i as int))),
        decreases cards.len() - i,
    {
        assert(card_rates_view(cards@.subrange(0, i + 1)).drop_last() =~= card_rates_view(cards@.subrange(0, i as int)));
        if cards[i].1.len() > m {
            m = cards[i].1.len();
        }
        i += 1;
    }
    assert(cards@.subrange(0, cards@.len() as int) =~= cards@);
    m
}

/// Shift card slot arrays forward when the rarity table has more slots than
/// the longest array: each array gets `rarity_len - longest` leading `None`s.
pub open spec fn align_spec(cards: Seq<(Seq<char>, Seq<Option<Rate>>)>, rarity_len: nat) -> Seq<(Seq<char>, Seq<Option<Rate>>)> {
    let m = max_card_len(cards);
    if rarity_len <= m {
        cards
    } else {
        cards.map_values(|e: (Seq<char>, Seq<Option<Rate>>)| (e.0, Seq::new((rarity_len - m) as nat, |k: int| None::<Rate>) + e.1))
    }
}

pub fn align_card_slots_to_rarity(cards: &mut Vec<(String, Vec<Option<Rate>>)>, rarity_len: usize)
    ensures
        card_rates_view(final(cards)@) == align_spec(card_rates_view(old(cards)@), rarity_len as nat),
        card_table_ints(old(cards)@) ==> card_table_ints(final(cards)@),
{
    let ghost ints = card_table_ints(cards@);
    let max_len = max_slot_len(cards);
    if rarity_len <= max_len {
        return;
    }
    let offset = rarity_len - max_len;
    let ghost old_view = card_rates_view(cards@);
    let mut out: Vec<(String, Vec<Option<Rate>>)> = Vec::new();
    let mut i: usize = 0;
    while i < cards.len()
        invariant
            i <= cards@.len(),
            old_view == card_rates_view(cards@),
            ints == card_table_ints(cards@),
            ints ==> card_table_ints(out@),
            card_rates_view(out@) =~= old_view.subrange(0, i as int).map_values(|e: (Seq<char>, Seq<Option<Rate>>)| (e.0, Seq::new(offset as nat, |k: int| None::<Rate>) + e.1)),
        decreases cards.len() - i,
    {
        let mut shifted: Vec<Option<Rate>> = Vec::new();
        while shifted.len() < offset
            invariant
                shifted@.len() <= offset,
                forall|k: int| 0 <= k < shifted@.len() ==> shifted@[k] is None,
            decreases offset - shifted.len(),
        {
            shifted.push(None);
        }
        let mut j: usize = 0;
        while j < cards[i].1.len()
            invariant
                i < cards@.len(),
                j <= cards@[i as int].1@.len(),
                ints == card_table_ints(cards@),
                shifted@ =~= Seq::new(offset as nat, |k: int| None::<Rate>) + cards@[i as int].1@.subrange(0, j as int),
                ints ==> forall|k: int| 0 <= k < shifted@.len() ==> opt_rate_is_int(#[trigger] shifted@[k]),
            decreases cards@[i as int].1@.len() - j,
        {
            let x = match &cards[i].1[j] {
                Some(r) => Some(Rate { numerator: dec_copy(&r.numerator), denominator: dec_copy(&r.denominator) }),
                None => None,
            };
            shifted.push(x);
            j += 1;
        }
        assert(cards@[i as int].1@.subrange(0, j as int) =~= cards@[i as int].1@);
        let ghost before = out@;
        out.push((cards[i].0.clone(), shifted));
        assert(card_rates_view(out@) =~= card_rates_view(before).push((cards@[i as int].0@, shifted@)));
        i += 1;
    }
    assert(old_view.subrange(0, cards@.len() as int) =~= old_view);
    *cards = out;
}

} // verus!

verus! {

// ───────────────────────── the themed variant ─────────────────────────

pub open spec fn unit_rarity_rate(r: RaritySlotRates) -> bool {
    r.normal matches Some(x) && same_value(x.numerator, x.denominator)
}

/// Every slot from index `from` on holds exactly one rarity, at rate one.
pub open spec fn slots_themed(rr: Seq<Seq<(Seq<char>, RaritySlotRates)>>, from: int) -> bool {
    forall|i: int| #![trigger rr[i]] from <= i < rr.len() ==> rr[i].len() == 1 && forall|j: int|
        0 <= j < rr[i].len() ==> unit_rarity_rate(#[trigger] rr[i][j].1)
}

pub open spec fn has_some(v: Seq<Option<Rate>>) -> bool {
    exists|i: int| 0 <= i < v.len() && #[trigger] v[i] is Some
}

/// The cards that can appear in at least one slot.
pub open spec fn retain_present(cards: Seq<(Seq<char>, Seq<Option<Rate>>)>) -> Seq<(Seq<char>, Seq<Option<Rate>>)>
    decreases cards.len(),
{
    if cards.len() == 0 {
        Seq::empty()
    } else {
        let p = retain_present(cards.drop_last());
        if has_some(cards.last().1) {
            p.push(cards.last())
        } else {
            p
        }
    }
}

pub open spec fn ratio(r: Rate) -> Option<(int, nat)> {
    decimal_div(r.numerator.mantissa as int, r.numerator.scale as nat, r.denominator.mantissa as int, r.denominator.scale as nat)
}

pub open spec fn add_opt(a: Option<(int, nat)>, b: Option<(int, nat)>) -> Option<(int, nat)> {
    match (a, b) {
        (Some(x), Some(y)) => decimal_add(x.0, x.1, y.0, y.1),
        _ => None,
    }
}

/// The probability left over by the normal, themed and plus-one rates,
/// computed in decimal arithmetic and turned into a reduced integer fraction
/// with denominator `10^scale` of the decimal remainder.
pub open spec fn remainder_spec(normal: Rate, themed: Rate, plus1: Option<Rate>) -> Result<Rate, PullRateError> {
    let s2 = if ratio(normal) is Some { add_opt(ratio(normal), ratio(themed)) } else { None };
    let s3 = match plus1 {
        Some(p) => add_opt(s2, ratio(p)),
        None => s2,
    };
    match s3 {
        None => Err(PullRateError::Malformed),
        Some(sum) => match decimal_sub(1, 0, sum.0, sum.1) {
            None => Err(PullRateError::Malformed),
            Some(rem) => if rem.1 > 18 {
                Err(PullRateError::Malformed)
            } else {
                let f = pow10(rem.1);
                match scaled_int(decimal_mul(rem.0, rem.1, f as int, 0)) {
                    None => Err(PullRateError::Malformed),
                    Some(rn) => if rn == i64::MIN {
                        Err(PullRateError::Malformed)
                    } else {
                        match reduce_spec(rn, f as int) {
                            Some((a, b)) => Ok(int_rate(a as i64, b as i64)),
                            None => Err(PullRateError::Malformed),
                        }
                    },
                }
            },
        },
    }
}

proof fn lemma_int_rate_wf(r: Rate)
    requires
        rate_is_int(r),
    ensures
        dec_wf(r.numerator),
        dec_wf(r.denominator),
{
}

pub proof fn lemma_reduce_bounds(n: int, d: int)
    requires
        reduce_spec(n, d) is Some,
    ensures
        ({
            let (a, b) = reduce_spec(n, d)->0;
            iabs(a) <= iabs(n) && iabs(b) <= iabs(d)
        }),
{
    let g = gcd_spec(iabs(n), iabs(d));
    assert(g >= 1);
    assert(iabs(n) / g <= iabs(n)) by {
        vstd::arithmetic::div_mod::lemma_div_is_ordered_by_denominator(iabs(n) as int, 1, g as int);
    }
    assert(iabs(d) / g <= iabs(d)) by {
        vstd::arithmetic::div_mod::lemma_div_is_ordered_by_denominator(iabs(d) as int, 1, g as int);
    }
}

fn rate_ratio(r: &Rate) -> (q: Option<Dec>)
    requires
        rate_is_int(*r),
    ensures
        opt_parts(q) == ratio(*r),
        q matches Some(d) ==> dec_wf(d),
{
    dec_div(&r.numerator, &r.denominator)
}

fn remainder_rate(normal: &Rate, themed: &Rate, plus1: &Option<Rate>) -> (r: Result<Rate, PullRateError>)
    requires
        rate_is_int(*normal),
        rate_is_int(*themed),
        opt_rate_is_int(*plus1),
    ensures
        r == remainder_spec(*normal, *themed, *plus1),
        r matches Ok(x) ==> rate_is_int(x),
{
    let q1 = match rate_ratio(normal) {
        Some(q) => q,
        None => return Err(PullRateError::Malformed),
    };
    let q2 = match rate_ratio(themed) {
        Some(q) => q,
        None => return Err(PullRateError::Malformed),
    };
    let mut sum = match dec_add(&q1, &q2) {
        Some(s) => s,
        None => return Err(PullRateError::Malformed),
    };
    match plus1 {
        Some(p) => {
            let q3 = match rate_ratio(p) {
                Some(q) => q,
                None => return Err(PullRateError::Malformed),
            };
            sum = match dec_add(&sum, &q3) {
                Some(s) => s,
                None => return Err(PullRateError::Malformed),
            };
        },
        None => {},
    }
    let one = Dec { mantissa: 1, scale: 0 };
    let rem = match dec_sub(&one, &sum) {
        Some(x) => x,
        None => return Err(PullRateError::Malformed),
    };
    if rem.scale > 18 {
        return Err(PullRateError::Malformed);
    }
    let f = pow10_u64(rem.scale);
    proof {
        lemma_pow10_bound(rem.scale as nat);
    }
    let factor = Dec { mantissa: f as i128, scale: 0 };
    let pm = match dec_mul(&rem, &factor) {
        Some(x) => x,
        None => return Err(PullRateError::Malformed),
    };
    let rn = match dec_to_i64(&pm) {
        Some(x) => x,
        None => return Err(PullRateError::Malformed),
    };
    if rn == i64::MIN {
        return Err(PullRateError::Malformed);
    }
    let rd = f as i64;
    match reduce_pair(rn, rd) {
        Some((a, b)) => {
            proof {
                lemma_reduce_bounds(rn as int, rd as int);
            }
            Ok(Rate { numerator: dec_from_i64(a), denominator: dec_from_i64(b) })
        },
        None => Err(PullRateError::Malformed),
    }
}

/// The rare variant's data after separating an embedded themed variant:
/// (rare rate, rare rarity slots, rare card rates, themed rate, themed rarity
/// slots, themed card rates).
pub type RareSplit = (
    Option<Rate>,
    Seq<Seq<(Seq<char>, RaritySlotRates)>>,
    Seq<(Seq<char>, Seq<Option<Rate>>)>,
    Option<Rate>,
    Seq<Seq<(Seq<char>, RaritySlotRates)>>,
    Seq<(Seq<char>, Seq<Option<Rate>>)>,
);

/// When the rare rarity table has more slots than the longest rare card
/// array (and that array is non-empty), and every extra slot is a single
/// rarity at rate one, the extra slots, the rare card rates (cards that can
/// appear) and the rare pack-type rate belong to a themed variant, and the
/// rare rate becomes the remainder of the probability. Otherwise, when the
/// table is longer, the rare card arrays are aligned to it.
pub open spec fn split_themed_spec(
    normal: Rate,
    rare: Option<Rate>,
    plus1: Option<Rate>,
    rarity: Seq<Seq<(Seq<char>, RaritySlotRates)>>,
    cards: Seq<(Seq<char>, Seq<Option<Rate>>)>,
) -> Result<RareSplit, PullRateError> {
    let m = max_card_len(cards);
    if rarity.len() > m && m > 0 {
        if slots_themed(rarity, m as int) {
            let themed_rarity = rarity.subrange(m as int, rarity.len() as int);
            let rare_rarity = rarity.subrange(0, m as int);
            let themed_cards = retain_present(cards);
            match rare {
                Some(rr) => match remainder_spec(normal, rr, plus1) {
                    Err(e) => Err(e),
                    Ok(rem) => Ok((Some(rem), rare_rarity, Seq::empty(), Some(rr), themed_rarity, themed_cards)),
                },
                None => Ok((None, rare_rarity, Seq::empty(), None, themed_rarity, themed_cards)),
            }
        } else {
            Ok((rare, rarity, align_spec(cards, rarity.len()), None, Seq::empty(), Seq::empty()))
        }
    } else {
        Ok((rare, rarity, cards, None, Seq::empty(), Seq::empty()))
    }
}

} // verus!

verus! {

pub open spec fn rarity_tables_int(v: Seq<Vec<(String, RaritySlotRates)>>) -> bool {
    forall|i: int| 0 <= i < v.len() ==> rarity_slot_ints(#[trigger] v[i]@)
}

fn slot_is_unit_single(slot: &Vec<(String, RaritySlotRates)>) -> (r: bool)
    requires
        rarity_slot_ints(slot@),
    ensures
        r == (rarity_entries_view(slot@).len() == 1 && forall|j: int|
            0 <= j < rarity_entries_view(slot@).len() ==> unit_rarity_rate(
                #[trigger] rarity_entries_view(slot@)[j].1,
            )),
{
    if slot.len() != 1 {
        return false;
    }
    match &slot[0].1.normal {
        Some(x) => {
            proof {
                lemma_int_rate_wf(*x);
            }
            let eq = dec_eq(&x.numerator, &x.denominator);
            proof {
                assert(rarity_entries_view(slot@)[0].1 == slot@[0].1);
            }
            eq
        },
        None => {
            assert(rarity_entries_view(slot@)[0].1 == slot@[0].1);
            false
        },
    }
}

/// A copy of a rate.
pub fn clone_rate(r: &Rate) -> (c: Rate)
    ensures
        c == *r,
{
    Rate { numerator: dec_copy(&r.numerator), denominator: dec_copy(&r.denominator) }
}

pub(crate) fn clone_opt_rate(r: &Option<Rate>) -> (c: Option<Rate>)
    ensures
        c == *r,
{
    match r {
        Some(x) => Some(clone_rate(x)),
        None => None,
    }
}

pub(crate) fn clone_slots(v: &Vec<Option<Rate>>) -> (r: Vec<Option<Rate>>)
    ensures
        r@ == v@,
{
    let mut out: Vec<Option<Rate>> = Vec::new();
    let mut j: usize = 0;
    while j < v.len()
        invariant
            j <= v@.len(),
            out@ =~= v@.subrange(0, j as int),
        decreases v.len() - j,
    {
        out.push(clone_opt_rate(&v[j]));
        j += 1;
    }
    assert(v@.subrange(0, v@.len() as int) =~= v@);
    out
}

fn retain_present_cards(cards: &Vec<(String, Vec<Option<Rate>>)>) -> (r: Vec<(String, Vec<Option<Rate>>)>)
    requires
        card_table_ints(cards@),
    ensures
        card_rates_view(r@) == retain_present(card_rates_view(cards@)),
        card_table_ints(r@),
{
    let mut out: Vec<(String, Vec<Option<Rate>>)> = Vec::new();
    let ghost all = card_rates_view(cards@);
    let mut i: usize = 0;
    assert(card_rates_view(out@) =~= Seq::empty());
    while i < cards.len()
        invariant
            all == card_rates_view(cards@),
            i <= cards@.len(),
            card_table_ints(cards@),
            card_table_ints(out@),
            card_rates_view(out@) == retain_present(all.subrange(0, i as int)),
        decreases cards.len() - i,
    {
        proof {
            assert(all.subrange(0, i + 1).drop_last() =~= all.subrange(0, i as int));
            assert(all.subrange(0, i + 1).last() == all[i as int]);
        }
        let e = &cards[i];
        let mut present = false;
        let mut j: usize = 0;
        while j < e.1.len()
            invariant
                j <= e.1@.len(),
                present == exists|k: int| 0 <= k < j && #[trigger] e.1@[k] is Some,
            decreases e.1.len() - j,
        {
            if e.1[j].is_some() {
                present = true;
            }
            j += 1;
        }
        if present {
            let ghost before = out@;
            let slots = clone_slots(&e.1);
            out.push((e.0.clone(), slots));
            assert(card_rates_view(out@) =~= card_rates_view(before).push(all[i as int]));
        }
        i += 1;
    }
    assert(all.subrange(0, cards@.len() as int) =~= all);
    out
}

pub type RareSplitExec = (
    Option<Rate>,
    Vec<Vec<(String, RaritySlotRates)>>,
    Vec<(String, Vec<Option<Rate>>)>,
    Option<Rate>,
    Vec<Vec<(String, RaritySlotRates)>>,
    Vec<(String, Vec<Option<Rate>>)>,
);

pub open spec fn rare_split_view(s: RareSplitExec) -> RareSplit {
    (s.0, rarity_table_view(s.1@), card_rates_view(s.2@), s.3, rarity_table_view(s.4@), card_rates_view(s.5@))
}

fn split_themed(
    normal: &Rate,
    rare: Option<Rate>,
    plus1: &Option<Rate>,
    rarity: Vec<Vec<(String, RaritySlotRates)>>,
    cards: Vec<(String, Vec<Option<Rate>>)>,
) -> (r: Result<RareSplitExec, PullRateError>)
    requires
        rate_is_int(*normal),
        opt_rate_is_int(rare),
        opt_rate_is_int(*plus1),
        rarity_tables_int(rarity@),
        card_table_ints(cards@),
    ensures
        match r {
            Ok(s) => split_themed_spec(*normal, rare, *plus1, rarity_table_view(rarity@), card_rates_view(cards@)) == Ok::<RareSplit, PullRateError>(rare_split_view(s))
                && opt_rate_is_int(s.0) && rarity_tables_int(s.1@) && card_table_ints(s.2@) && opt_rate_is_int(s.3)
                && rarity_tables_int(s.4@) && card_table_ints(s.5@),
            Err(e) => split_themed_spec(*normal, rare, *plus1, rarity_table_view(rarity@), card_rates_view(cards@)) == Err::<RareSplit, PullRateError>(e),
        },
{
    let ghost rv = rarity_table_view(rarity@);
    let ghost cv = card_rates_view(cards@);
    let m = max_slot_len(&cards);
    let empty_r: Vec<Vec<(String, RaritySlotRates)>> = Vec::new();
    let empty_c: Vec<(String, Vec<Option<Rate>>)> = Vec::new();
    assert(rarity_table_view(empty_r@) =~= Seq::empty());
    assert(card_rates_view(empty_c@) =~= Seq::empty());
    if !(rarity.len() > m && m > 0) {
        return Ok((rare, rarity, cards, None, empty_r, empty_c));
    }
    // are all the extra slots single-rarity slots at rate one?
    let mut themed = true;
    let mut i = m;
    while i < rarity.len()
        invariant
            m <= i <= rarity@.len(),
            rv == rarity_table_view(rarity@),
            rarity_tables_int(rarity@),
            themed == forall|k: int| #![trigger rv[k]] m <= k < i ==> rv[k].len() == 1 && forall|j: int|
                0 <= j < rv[k].len() ==> unit_rarity_rate(#[trigger] rv[k][j].1),
        decreases rarity.len() - i,
    {
        let ok = slot_is_unit_single(&rarity[i]);
        assert(rv[i as int] == rarity_entries_view(rarity@[i as int]@));
        if !ok {
            themed = false;
        }
        i += 1;
    }
    if !themed {
        let mut c = cards;
        let rl = rarity.len();
        align_card_slots_to_rarity(&mut c, rl);
        return Ok((rare, rarity, c, None, empty_r, empty_c));
    }
    let mut rare_rarity = rarity;
    let themed_rarity = rare_rarity.split_off(m);
    assert(rarity_table_view(rare_rarity@) =~= rv.subrange(0, m as int));
    assert(rarity_table_view(themed_rarity@) =~= rv.subrange(m as int, rv.len() as int));
    let themed_cards = retain_present_cards(&cards);
    match rare {
        Some(rr) => {
            match remainder_rate(normal, &rr, plus1) {
                Ok(rem) => Ok((Some(rem), rare_rarity, empty_c, Some(rr), themed_rarity, themed_cards)),
                Err(e) => Err(e),
            }
        },
        None => Ok((None, rare_rarity, empty_c, None, themed_rarity, themed_cards)),
    }
}

} // verus!

verus! {

// ───────────────────────── assembling the variants ─────────────────────────

pub type VariantView = (
    Rate,
    u32,
    Seq<Seq<(Seq<char>, RaritySlotRates)>>,
    Seq<(Seq<char>, Seq<Option<Rate>>)>,
);

pub open spec fn variant_view(v: PackVariantRates) -> VariantView {
    (v.rate, v.slot_count, rarity_table_view(v.rarity_rates_by_slot@), card_rates_view(v.card_rates@))
}

pub open spec fn variants_view(v: Seq<(String, PackVariantRates)>) -> Seq<(Seq<char>, VariantView)> {
    v.map_values(|e: (String, PackVariantRates)| (e.0@, variant_view(e.1)))
}

/// A variant's slot count: the longer of its rarity table and its longest
/// card array (as `u32`).
pub open spec fn slot_count_spec(
    rarity: Seq<Seq<(Seq<char>, RaritySlotRates)>>,
    cards: Seq<(Seq<char>, Seq<Option<Rate>>)>,
) -> u32 {
    let m = max_card_len(cards);
    (if rarity.len() >= m { rarity.len() } else { m }) as u32
}

pub open spec fn vview(
    rate: Rate,
    rarity: Seq<Seq<(Seq<char>, RaritySlotRates)>>,
    cards: Seq<(Seq<char>, Seq<Option<Rate>>)>,
) -> VariantView {
    (rate, slot_count_spec(rarity, cards), rarity, cards)
}

/// The pack-type rate of one variant (`byPackType[variant]`).
pub open spec fn type_rate_spec(pack_data: Option<JsonValue>, variant: Seq<char>, table: Seq<(Dec, Dec, i64, i64)>) -> Result<
    Option<Rate>,
    PullRateError,
> {
    match oget(oget(pack_data, "byPackType"@), variant) {
        Some(v) => rate_obj_spec(v, table),
        None => Ok(None),
    }
}

/// The variants in order normal, rare, themed, plus-one; normal is always
/// present (at rate one when the pack data gives none), the others when
/// they have a rate.
pub open spec fn assemble_spec(
    normal_rate: Rate,
    normal_rarity: Seq<Seq<(Seq<char>, RaritySlotRates)>>,
    normal_cards: Seq<(Seq<char>, Seq<Option<Rate>>)>,
    split: RareSplit,
    plus1_rate: Option<Rate>,
    plus1_rarity: Seq<Seq<(Seq<char>, RaritySlotRates)>>,
    plus1_cards: Seq<(Seq<char>, Seq<Option<Rate>>)>,
) -> Seq<(Seq<char>, VariantView)> {
    let a = seq![("normal"@, vview(normal_rate, normal_rarity, normal_cards))];
    let b = match split.0 {
        Some(r) => a.push(("rare"@, vview(r, split.1, split.2))),
        None => a,
    };
    let c = match split.3 {
        Some(r) => b.push(("themed"@, vview(r, split.4, split.5))),
        None => b,
    };
    match plus1_rate {
        Some(r) => c.push(("plus1"@, vview(r, plus1_rarity, align_spec(plus1_cards, plus1_rarity.len())))),
        None => c,
    }
}

/// The variants of one pack from the card probability map and the pack
/// probability data. Rates are read in this order: pack-type rates (normal,
/// rare, plus-one), rarity tables (same order), then card rates (same
/// order); the first failure is the result.
pub open spec fn build_variants_spec(
    pack_id: Seq<char>,
    card_map: JsonValue,
    pack_data: Option<JsonValue>,
    table: Seq<(Dec, Dec, i64, i64)>,
) -> Result<Seq<(Seq<char>, VariantView)>, PullRateError> {
    match (type_rate_spec(pack_data, "normal"@, table), type_rate_spec(pack_data, "rare"@, table), type_rate_spec(pack_data, "plus1"@, table)) {
        (Err(e), _, _) => Err(e),
        (Ok(_), Err(e), _) => Err(e),
        (Ok(_), Ok(_), Err(e)) => Err(e),
        (Ok(nr), Ok(rr), Ok(pr)) => {
            let normal_rate = match nr { Some(r) => r, None => int_rate(1, 1) };
            let by_rarity = oget(pack_data, "byRarity"@);
            match (slot_rarity_rates_spec(by_rarity, "normal"@, table), slot_rarity_rates_spec(by_rarity, "rare"@, table), slot_rarity_rates_spec(by_rarity, "plus1"@, table)) {
                (Err(e), _, _) => Err(e),
                (Ok(_), Err(e), _) => Err(e),
                (Ok(_), Ok(_), Err(e)) => Err(e),
                (Ok(nrar), Ok(rrar), Ok(prar)) => match jobject(card_map) {
                    None => Err(PullRateError::CardMapNotObject),
                    Some(o) => match (card_entries_spec(o, pack_id, "normal"@, table), card_entries_spec(o, pack_id, "rare"@, table), card_entries_spec(o, pack_id, "plus1"@, table)) {
                        (Err(e), _, _) => Err(e),
                        (Ok(_), Err(e), _) => Err(e),
                        (Ok(_), Ok(_), Err(e)) => Err(e),
                        (Ok(nc), Ok(rc), Ok(pc)) => match split_themed_spec(normal_rate, rr, pr, rrar, rc) {
                            Err(e) => Err(e),
                            Ok(split) => Ok(assemble_spec(normal_rate, nrar, nc, split, pr, prar, pc)),
                        },
                    },
                },
            }
        },
    }
}

fn owned(s: &str) -> (r: String)
    ensures
        r@ == s@,
{
    let c = crate::text::chars_of(s);
    crate::text::string_of(&c)
}

fn type_rate(type_rates: Option<&JsonValue>, variant: &str, approx: &RateApprox) -> (r: Result<Option<Rate>, PullRateError>)
    ensures
        r == (match oget(opt_ref(type_rates), variant@) {
            Some(v) => rate_obj_spec(v, approx.entries@),
            None => Ok(None),
        }),
        r matches Ok(x) ==> opt_rate_is_int(x),
{
    match type_rates {
        None => Ok(None),
        Some(t) => match t.get(variant) {
            None => Ok(None),
            Some(v) => {
                proof {
                    lemma_rate_obj_int(*v, approx.entries@);
                }
                parse_rate_obj(v, approx)
            },
        },
    }
}

fn make_variant(
    rate: Rate,
    rarity: Vec<Vec<(String, RaritySlotRates)>>,
    cards: Vec<(String, Vec<Option<Rate>>)>,
) -> (r: PackVariantRates)
    ensures
        variant_view(r) == vview(rate, rarity_table_view(rarity@), card_rates_view(cards@)),
{
    let m = max_slot_len(&cards);
    let n = if rarity.len() >= m {
        rarity.len()
    } else {
        m
    };
    PackVariantRates { rate, slot_count: n as u32, rarity_rates_by_slot: rarity, card_rates: cards }
}

/// Build the variants of one pack (see `build_variants_spec`).
#[verifier::rlimit(60)]
#[verifier::spinoff_prover]
pub fn build_variants(
    pack_id: &str,
    card_map: &JsonValue,
    pack_data: Option<&JsonValue>,
    approx: &RateApprox,
) -> (r: Result<Vec<(String, PackVariantRates)>, PullRateError>)
    ensures
        match r {
            Ok(v) => build_variants_spec(pack_id@, *card_map, opt_ref(pack_data), approx.entries@) == Ok::<Seq<(Seq<char>, VariantView)>, PullRateError>(variants_view(v@)),
            Err(e) => build_variants_spec(pack_id@, *card_map, opt_ref(pack_data), approx.entries@) == Err::<Seq<(Seq<char>, VariantView)>, PullRateError>(e),
        },
{
    let type_rates = match pack_data {
        Some(d) => d.get("byPackType"),
        None => None,
    };
    assert(opt_ref(type_rates) == oget(opt_ref(pack_data), "byPackType"@));
    let nr = match type_rate(type_rates, "normal", approx) {
        Ok(x) => x,
        Err(e) => return Err(e),
    };
    let rr = match type_rate(type_rates, "rare", approx) {
        Ok(x) => x,
        Err(e) => return Err(e),
    };
    let pr = match type_rate(type_rates, "plus1", approx) {
        Ok(x) => x,
        Err(e) => return Err(e),
    };
    let normal_rate = match nr {
        Some(r) => r,
        None => Rate { numerator: dec_from_i64(1), denominator: dec_from_i64(1) },
    };
    let by_rarity = match pack_data {
        Some(d) => d.get("byRarity"),
        None => None,
    };
    assert(opt_ref(by_rarity) == oget(opt_ref(pack_data), "byRarity"@));
    let nrar = match slot_rarity_rates(by_rarity, "normal", approx) {
        Ok(x) => x,
        Err(e) => return Err(e),
    };
    let rrar = match slot_rarity_rates(by_rarity, "rare", approx) {
        Ok(x) => x,
        Err(e) => return Err(e),
    };
    let prar = match slot_rarity_rates(by_rarity, "plus1", approx) {
        Ok(x) => x,
        Err(e) => return Err(e),
    };
    let card_obj = match card_map.as_object() {
        Some(o) => o,
        None => return Err(PullRateError::CardMapNotObject),
    };
    let nc = match collect_card_rates(card_obj, pack_id, "normal", approx) {
        Ok(x) => x,
        Err(e) => return Err(e),
    };
    let rc = match collect_card_rates(card_obj, pack_id, "rare", approx) {
        Ok(x) => x,
        Err(e) => return Err(e),
    };
    let mut pc = match collect_card_rates(card_obj, pack_id, "plus1", approx) {
        Ok(x) => x,
        Err(e) => return Err(e),
    };
    let split = match split_themed(&normal_rate, rr, &pr, rrar, rc) {
        Ok(s) => s,
        Err(e) => return Err(e),
    };
    let ghost pc0 = card_rates_view(pc@);
    let ghost prar0 = rarity_table_view(prar@);
    let pl = prar.len();
    align_card_slots_to_rarity(&mut pc, pl);
    let ghost nrar0 = rarity_table_view(nrar@);
    let ghost nc0 = card_rates_view(nc@);
    let ghost sv = rare_split_view(split);
    let (s0, s1, s2, s3, s4, s5) = split;
    let mut out: Vec<(String, PackVariantRates)> = Vec::new();
    out.push((owned("normal"), make_variant(normal_rate, nrar, nc)));
    match s0 {
        Some(r) => {
            out.push((owned("rare"), make_variant(r, s1, s2)));
        },
        None => {},
    }
    match s3 {
        Some(r) => {
            out.push((owned("themed"), make_variant(r, s4, s5)));
        },
        None => {},
    }
    match pr {
        Some(r) => {
            out.push((owned("plus1"), make_variant(r, prar, pc)));
        },
        None => {},
    }
    assert(variants_view(out@) =~= assemble_spec(normal_rate, nrar0, nc0, sv, pr, prar0, pc0));
    Ok(out)
}

} // verus!

verus! {

/// When a themed variant is split off the rare data, the themed variant
/// takes the published rare pack-type rate, and the rare variant takes what
/// is left of the probability: `1 - (normal + themed + plus-one)`, as
/// `remainder_spec` computes it.
pub proof fn lemma_themed_takes_rare_rate(
    normal: Rate,
    rare: Option<Rate>,
    plus1: Option<Rate>,
    rarity: Seq<Seq<(Seq<char>, RaritySlotRates)>>,
    cards: Seq<(Seq<char>, Seq<Option<Rate>>)>,
)
    requires
        split_themed_spec(normal, rare, plus1, rarity, cards) is Ok,
        split_themed_spec(normal, rare, plus1, rarity, cards)->Ok_0.3 is Some,
    ensures
        ({
            let s = split_themed_spec(normal, rare, plus1, rarity, cards)->Ok_0;
            &&& rare == s.3
            &&& s.0 is Some
            &&& remainder_spec(normal, s.3->0, plus1) == Ok::<Rate, PullRateError>(s.0->0)
        }),
{
}

} // verus!

verus! {

proof fn lemma_assemble_themed(
    normal_rate: Rate,
    normal_rarity: Seq<Seq<(Seq<char>, RaritySlotRates)>>,
    normal_cards: Seq<(Seq<char>, Seq<Option<Rate>>)>,
    split: RareSplit,
    plus1_rate: Option<Rate>,
    plus1_rarity: Seq<Seq<(Seq<char>, RaritySlotRates)>>,
    plus1_cards: Seq<(Seq<char>, Seq<Option<Rate>>)>,
    t: int,
)
    requires
        0 <= t < assemble_spec(normal_rate, normal_rarity, normal_cards, split, plus1_rate, plus1_rarity, plus1_cards).len(),
        assemble_spec(normal_rate, normal_rarity, normal_cards, split, plus1_rate, plus1_rarity, plus1_cards)[t].0 == "themed"@,
    ensures
        split.3 == Some(assemble_spec(normal_rate, normal_rarity, normal_cards, split, plus1_rate, plus1_rarity, plus1_cards)[t].1.0),
{
    reveal_strlit("normal");
    reveal_strlit("rare");
    reveal_strlit("themed");
    reveal_strlit("plus1");
    assert("normal"@[0] != "themed"@[0]);
    assert("rare"@[0] != "themed"@[0]);
    assert("plus1"@[0] != "themed"@[0]);
}

/// In a pack's variants, the themed variant (when there is one) has the
/// pack's published rare pack-type rate.
#[verifier::rlimit(40)]
pub proof fn lemma_themed_variant_rate(
    pack_id: Seq<char>,
    card_map: JsonValue,
    pack_data: Option<JsonValue>,
    table: Seq<(Dec, Dec, i64, i64)>,
    t: int,
)
    requires
        build_variants_spec(pack_id, card_map, pack_data, table) is Ok,
        0 <= t < build_variants_spec(pack_id, card_map, pack_data, table)->Ok_0.len(),
        build_variants_spec(pack_id, card_map, pack_data, table)->Ok_0[t].0 == "themed"@,
    ensures
        type_rate_spec(pack_data, "rare"@, table) == Ok::<Option<Rate>, PullRateError>(
            Some(build_variants_spec(pack_id, card_map, pack_data, table)->Ok_0[t].1.0),
        ),
{
    let nr = type_rate_spec(pack_data, "normal"@, table)->Ok_0;
    let rr = type_rate_spec(pack_data, "rare"@, table)->Ok_0;
    let pr = type_rate_spec(pack_data, "plus1"@, table)->Ok_0;
    let normal_rate = match nr { Some(r) => r, None => int_rate(1, 1) };
    let by_rarity = oget(pack_data, "byRarity"@);
    let nrar = slot_rarity_rates_spec(by_rarity, "normal"@, table)->Ok_0;
    let rrar = slot_rarity_rates_spec(by_rarity, "rare"@, table)->Ok_0;
    let prar = slot_rarity_rates_spec(by_rarity, "plus1"@, table)->Ok_0;
    let o = jobject(card_map)->0;
    let nc = card_entries_spec(o, pack_id, "normal"@, table)->Ok_0;
    let rc = card_entries_spec(o, pack_id, "rare"@, table)->Ok_0;
    let pc = card_entries_spec(o, pack_id, "plus1"@, table)->Ok_0;
    let split = split_themed_spec(normal_rate, rr, pr, rrar, rc)->Ok_0;
    assert(build_variants_spec(pack_id, card_map, pack_data, table)->Ok_0 == assemble_spec(normal_rate, nrar, nc, split, pr, prar, pc));
    lemma_assemble_themed(normal_rate, nrar, nc, split, pr, prar, pc, t);
    lemma_themed_takes_rare_rate(normal_rate, rr, pr, rrar, rc);
}

} // verus!
