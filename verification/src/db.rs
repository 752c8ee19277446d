//! The database build's own logic: collecting constraint violations, the
//! exact integer arithmetic that checks stored pull-rate fractions (gcd, lcm,
//! common denominators), choosing a reprint's original, and the
//! alphabetical string tables.
use vstd::prelude::*;
use crate::text::{chars_of, string_of, concat, decimal, decimal_spec, padded, padded_spec};
use crate::decimal::{Dec, dec_wf, dec_mul, decimal_mul, dec_to_i64, trunc_value, pow10};
use crate::rates::{pow10_u64, gcd_spec, lemma_gcd_divides, times, divides, iabs};
use crate::models::{Rate, CardVersion, VersionRef, AbstractCard, RaritySlotRates, PackVariantRates};
use crate::rates::clone_rate;
use crate::groups::{vkey, VKey};
use crate::lists::{strs, sorted_distinct, sort_dedup_strings};
use crate::text::seq_eq;

verus! {

// ───────────────────────── violations ─────────────────────────

/// Constraint violations found while building the database. In lenient mode
/// they are only reported, not kept.
pub struct Violations {
    pub items: Vec<String>,
    pub lenient: bool,
}

/// The violations kept after one more is reported.
pub open spec fn kept_after_add(items: Seq<String>, lenient: bool, msg: String) -> Seq<String> {
    if lenient {
        items
    } else {
        items.push(msg)
    }
}

/// The violations kept after reporting `msgs` in turn, starting from none.
pub open spec fn kept_after_adds(lenient: bool, msgs: Seq<String>) -> Seq<String>
    decreases msgs.len(),
{
    if msgs.len() == 0 {
        Seq::empty()
    } else {
        kept_after_add(kept_after_adds(lenient, msgs.drop_last()), lenient, msgs.last())
    }
}

/// The message a failed build gives for `n` kept violations.
pub open spec fn violations_message(n: nat) -> Seq<char> {
    decimal_spec(n) + " constraint violation(s) — re-run with --lenient to proceed anyway"@
}

/// After `Violations::new(lenient)` and one `add` for each message of `msgs`,
/// all of them are kept when the build is strict and none when lenient, so
/// `finish` fails exactly when the build is strict and something was
/// reported, its message then counting every report.
pub proof fn lemma_finish_after_adds(lenient: bool, msgs: Seq<String>)
    ensures
        kept_after_adds(lenient, msgs).len() == (if lenient { 0 } else { msgs.len() }),
        (kept_after_adds(lenient, msgs).len() > 0) == (!lenient && msgs.len() > 0),
    decreases msgs.len(),
{
    if msgs.len() > 0 {
        lemma_finish_after_adds(lenient, msgs.drop_last());
    }
}

impl Violations {
    pub fn new(lenient: bool) -> (r: Self)
        ensures
            r.items@.len() == 0,
            r.lenient == lenient,
    {
        Violations { items: Vec::new(), lenient }
    }

    /// Records a violation (kept unless lenient).
    pub fn add(&mut self, msg: String)
        ensures
            final(self).lenient == old(self).lenient,
            final(self).items@ == kept_after_add(old(self).items@, old(self).lenient, msg),
    {
        if !self.lenient {
            self.items.push(msg);
        }
    }

    /// Fails when violations were kept, saying how many.
    pub fn finish(self) -> (r: Result<(), String>)
        ensures
            match r {
                Ok(()) => self.items@.len() == 0,
                Err(m) => self.items@.len() > 0 && m@ == violations_message(self.items@.len() as nat),
            },
    {
        if self.items.len() > 0 {
            let n = decimal(self.items.len() as u64);
            Err(string_of(&concat(&n, &chars_of(" constraint violation(s) — re-run with --lenient to proceed anyway"))))
        } else {
            Ok(())
        }
    }
}

// ───────────────────────── integer division as Rust does it ─────────────────────────

/// `%` on signed integers: the sign of the dividend, the magnitude of the
/// remainder of the magnitudes.
pub open spec fn trem(a: int, b: int) -> int {
    if a >= 0 {
        (iabs(a) % iabs(b)) as int
    } else {
        -((iabs(a) % iabs(b)) as int)
    }
}

/// `/` on signed integers: rounds toward zero.
pub open spec fn tdiv(a: int, b: int) -> int {
    if (a >= 0) == (b > 0) {
        (iabs(a) / iabs(b)) as int
    } else {
        -((iabs(a) / iabs(b)) as int)
    }
}

fn rem_trunc(a: i64, b: i64) -> (r: i64)
    requires
        b != 0,
    ensures
        r == trem(a as int, b as int),
{
    if b > 0 {
        let r = a % b;
        assert(a >= 0 ==> r == (a as int) % (b as int));
        assert(a < 0 ==> r == -(((-a) as int) % (b as int)));
        r
    } else if b == i64::MIN {
        if a == i64::MIN {
            assert(iabs(a as int) % iabs(b as int) == 0) by (nonlinear_arith)
                requires
                    iabs(a as int) == iabs(b as int),
                    iabs(b as int) > 0,
            ;
            0
        } else {
            assert(iabs(a as int) < iabs(b as int));
            assert(iabs(a as int) % iabs(b as int) == iabs(a as int)) by (nonlinear_arith)
                requires
                    iabs(a as int) < iabs(b as int),
            ;
            a
        }
    } else {
        let nb = -b;
        let r = a % nb;
        assert(a >= 0 ==> r == (a as int) % (nb as int));
        assert(a < 0 ==> r == -(((-a) as int) % (nb as int)));
        r
    }
}

fn div_trunc(a: i64, b: i64) -> (r: i64)
    requires
        b != 0,
        !(a == i64::MIN && b == -1),
    ensures
        r == tdiv(a as int, b as int),
{
    if b > 0 {
        let r = a / b;
        assert(a >= 0 ==> r == (a as int) / (b as int));
        assert(a < 0 ==> r == -(((-a) as int) / (b as int)));
        r
    } else if b == i64::MIN {
        if a == i64::MIN {
            assert(iabs(a as int) / iabs(b as int) == 1) by (nonlinear_arith)
                requires
                    iabs(a as int) == iabs(b as int),
                    iabs(b as int) > 0,
            ;
            1
        } else {
            assert(iabs(a as int) / iabs(b as int) == 0) by (nonlinear_arith)
                requires
                    iabs(a as int) < iabs(b as int),
            ;
            0
        }
    } else {
        let nb = -b;
        let q = a / nb;
        assert(a >= 0 ==> q == (a as int) / (nb as int));
        assert(a < 0 ==> q == -(((-a) as int) / (nb as int)));
        assert(q != i64::MIN) by {
            if a < 0 {
                if nb == 1 {
                    assert(a != i64::MIN);
                } else {
                    assert(((-a) as int) / (nb as int) < i64::MAX) by (nonlinear_arith)
                        requires
                            (-a) as int >= 0,
                            (-a) as int <= 0x8000_0000_0000_0000,
                            nb as int >= 2,
                    ;
                }
            }
        }
        -q
    }
}

// ───────────────────────── gcd and lcm ─────────────────────────

/// Euclid's algorithm with Rust's `%` (`gcd(a, 0) == a`).
pub open spec fn gcd_rust(a: int, b: int) -> int
    decreases iabs(b),
{
    if b == 0 {
        a
    } else {
        proof {
            lemma_trem_smaller(a, b);
        }
        gcd_rust(b, trem(a, b))
    }
}

pub proof fn lemma_trem_smaller(a: int, b: int)
    requires
        b != 0,
    ensures
        iabs(trem(a, b)) < iabs(b),
{
    assert(iabs(a) % iabs(b) < iabs(b)) by (nonlinear_arith)
        requires
            iabs(b) > 0,
    ;
}

/// No step of Euclid's algorithm computes `i64::MIN % -1` (which panics).
pub open spec fn gcd_safe(a: int, b: int) -> bool
    decreases iabs(b),
{
    if b == 0 {
        true
    } else {
        proof {
            lemma_trem_smaller(a, b);
        }
        !(a == i64::MIN && b == -1) && gcd_safe(b, trem(a, b))
    }
}

pub proof fn lemma_trem_range(a: int, b: int)
    requires
        b != 0,
        i64::MIN <= a <= i64::MAX,
        i64::MIN <= b <= i64::MAX,
    ensures
        i64::MIN <= trem(a, b) <= i64::MAX,
{
    lemma_trem_smaller(a, b);
}

/// The greatest common divisor by Euclid's algorithm, as Rust computes it.
pub fn gcd(a: i64, b: i64) -> (r: i64)
    requires
        gcd_safe(a as int, b as int),
    ensures
        r as int == gcd_rust(a as int, b as int),
    decreases iabs(b as int),
{
    if b == 0 {
        a
    } else {
        proof {
            lemma_trem_smaller(a as int, b as int);
        }
        let r = rem_trunc(a, b);
        gcd(b, r)
    }
}

/// `a / gcd(a, b) * b` can be computed without a panic.
pub open spec fn lcm_ok(a: int, b: int) -> bool {
    &&& gcd_safe(a, b)
    &&& gcd_rust(a, b) != 0
    &&& !(a == i64::MIN && gcd_rust(a, b) == -1)
    &&& i64::MIN <= tdiv(a, gcd_rust(a, b)) * b <= i64::MAX
}

/// The least common multiple as `a / gcd(a, b) * b`.
pub fn lcm(a: i64, b: i64) -> (r: i64)
    requires
        lcm_ok(a as int, b as int),
    ensures
        r as int == tdiv(a as int, gcd_rust(a as int, b as int)) * b,
{
    let g = gcd(a, b);
    let q = div_trunc(a, g);
    q * b
}

pub proof fn lemma_gcd_nonneg(a: int, b: int)
    requires
        a >= 0,
        b >= 0,
    ensures
        gcd_rust(a, b) == gcd_spec(a as nat, b as nat),
    decreases b,
{
    if b != 0 {
        assert(trem(a, b) == a % b);
        lemma_gcd_nonneg(b, a % b);
    }
}

/// On positive numbers the lcm is a common multiple of both: a rate with
/// either denominator can be written over it exactly.
pub proof fn lemma_lcm_multiple(a: int, b: int)
    requires
        a > 0,
        b > 0,
    ensures
        divides(a, tdiv(a, gcd_rust(a, b)) * b),
        divides(b, tdiv(a, gcd_rust(a, b)) * b),
        tdiv(a, gcd_rust(a, b)) * b > 0,
{
    lemma_gcd_nonneg(a, b);
    let g = gcd_spec(a as nat, b as nat) as int;
    lemma_gcd_divides(a as nat, b as nat);
    let ka = choose|k: int| a == times(k, g);
    let kb = choose|k: int| b == times(k, g);
    assert(g > 0);
    assert(a == ka * g && b == kb * g);
    assert(ka > 0) by (nonlinear_arith)
        requires
            a == ka * g,
            a > 0,
            g > 0,
    ;
    assert(kb > 0) by (nonlinear_arith)
        requires
            b == kb * g,
            b > 0,
            g > 0,
    ;
    assert(a / g == ka) by {
        vstd::arithmetic::div_mod::lemma_div_multiples_vanish(ka, g);
        assert(g * ka == ka * g) by (nonlinear_arith);
    }
    assert(tdiv(a, g) == ka);
    let l = ka * b;
    assert(l == times(ka, b));
    assert(l == times(kb, a)) by (nonlinear_arith)
        requires
            l == ka * b,
            a == ka * g,
            b == kb * g,
    ;
    assert(l > 0) by (nonlinear_arith)
        requires
            l == ka * b,
            ka > 0,
            b > 0,
    ;
}


// ───────────────────────── stored fractions ─────────────────────────

pub open spec fn rate_scale(r: Rate) -> nat {
    if r.numerator.scale >= r.denominator.scale {
        r.numerator.scale as nat
    } else {
        r.denominator.scale as nat
    }
}

/// A decimal times `10^s` (`Decimal * Decimal::from(10^s)`), as the integer
/// `i64::try_from` reads from it.
pub open spec fn scaled_part(d: Dec, s: nat) -> Option<int> {
    match decimal_mul(d.mantissa as int, d.scale as nat, pow10(s) as int, 0) {
        Some((m, sc)) => Some(trunc_value(m, sc)),
        None => None,
    }
}

pub open spec fn in_i64(x: int) -> bool {
    i64::MIN <= x <= i64::MAX
}

/// Turning the rate into integers succeeds without a panic: the scale fits
/// `10u64.pow`, the products exist and fit `i64`, and the gcd divides safely.
pub open spec fn rate_integers_ok(r: Rate) -> bool {
    let s = rate_scale(r);
    &&& dec_wf(r.numerator) && dec_wf(r.denominator)
    &&& s <= 19
    &&& match (scaled_part(r.numerator, s), scaled_part(r.denominator, s)) {
        (Some(n), Some(d)) => {
            &&& in_i64(n) && in_i64(d)
            &&& gcd_safe(n, d)
            &&& gcd_rust(n, d) != 0
            &&& !(n == i64::MIN && gcd_rust(n, d) == -1)
            &&& !(d == i64::MIN && gcd_rust(n, d) == -1)
        },
        _ => false,
    }
}

/// The rate as a fraction of integers: both parts scaled by the larger scale,
/// then divided by their gcd.
pub open spec fn rate_integers_spec(r: Rate) -> (int, int) {
    let s = rate_scale(r);
    let n = scaled_part(r.numerator, s)->0;
    let d = scaled_part(r.denominator, s)->0;
    (tdiv(n, gcd_rust(n, d)), tdiv(d, gcd_rust(n, d)))
}

/// Rust's signed division and remainder put the dividend back together.
proof fn lemma_div_identity(a: int, b: int)
    requires
        b != 0,
    ensures
        tdiv(a, b) * b + trem(a, b) == a,
{
    let x = iabs(a) as int;
    let y = iabs(b) as int;
    vstd::arithmetic::div_mod::lemma_fundamental_div_mod(x, y);
    let q = x / y;
    let m = x % y;
    assert(x == y * q + m);
    if a >= 0 && b > 0 {
        assert(tdiv(a, b) * b + trem(a, b) == q * y + m) by (nonlinear_arith)
            requires
                tdiv(a, b) == q,
                trem(a, b) == m,
                b == y,
        ;
    } else if a >= 0 {
        assert(tdiv(a, b) * b + trem(a, b) == q * y + m) by (nonlinear_arith)
            requires
                tdiv(a, b) == -q,
                trem(a, b) == m,
                b == -y,
        ;
    } else if b > 0 {
        assert(tdiv(a, b) * b + trem(a, b) == -(q * y + m)) by (nonlinear_arith)
            requires
                tdiv(a, b) == -q,
                trem(a, b) == -m,
                b == y,
        ;
    } else {
        assert(tdiv(a, b) * b + trem(a, b) == -(q * y + m)) by (nonlinear_arith)
            requires
                tdiv(a, b) == q,
                trem(a, b) == -m,
                b == -y,
        ;
    }
}

/// The gcd as Rust computes it divides both arguments.
proof fn lemma_gcd_rust_divides(a: int, b: int)
    ensures
        divides(gcd_rust(a, b), a),
        divides(gcd_rust(a, b), b),
    decreases iabs(b),
{
    let g = gcd_rust(a, b);
    if b == 0 {
        assert(a == times(1, a));
        assert(b == times(0, a));
    } else {
        lemma_trem_smaller(a, b);
        lemma_gcd_rust_divides(b, trem(a, b));
        let kb = choose|k: int| b == #[trigger] times(k, g);
        let kr = choose|k: int| trem(a, b) == #[trigger] times(k, g);
        lemma_div_identity(a, b);
        let q = tdiv(a, b);
        assert(a == times(q * kb + kr, g)) by (nonlinear_arith)
            requires
                q * b + trem(a, b) == a,
                b == kb * g,
                trem(a, b) == kr * g,
        ;
    }
}

/// Dividing by an exact divisor loses nothing.
proof fn lemma_exact_tdiv(x: int, g: int)
    requires
        g != 0,
        divides(g, x),
    ensures
        tdiv(x, g) * g == x,
{
    let k = choose|k: int| x == #[trigger] times(k, g);
    let ax = iabs(x) as int;
    let ag = iabs(g) as int;
    assert(ax == iabs(k) * ag) by (nonlinear_arith)
        requires
            x == k * g,
            ax == (if x >= 0 { x } else { -x }),
            ag == (if g >= 0 { g } else { -g }),
            iabs(k) == (if k >= 0 { k } else { -k }),
    ;
    vstd::arithmetic::div_mod::lemma_mod_multiples_basic(iabs(k) as int, ag);
    assert(trem(x, g) == 0);
    lemma_div_identity(x, g);
}

/// `10^s` is a multiple of `10^t` for `t <= s`.
proof fn lemma_pow10_split(t: nat, s: nat)
    requires
        t <= s,
    ensures
        pow10(s) == pow10(t) * pow10((s - t) as nat),
    decreases s,
{
    if t < s {
        lemma_pow10_split(t, (s - 1) as nat);
        assert(pow10(s) == 10 * pow10((s - 1) as nat));
        assert(pow10((s - t) as nat) == 10 * pow10((s - 1 - t) as nat));
        assert(10 * (pow10(t) * pow10((s - 1 - t) as nat)) == pow10(t) * (10 * pow10((s - 1 - t) as nat))) by (nonlinear_arith);
    } else {
        assert(pow10(0) == 1);
        assert((s - t) as nat == 0);
    }
}

/// Scaling by a factor that is a multiple of `10^d.scale` gives an exact
/// integer: `v * 10^d.scale == d.mantissa * factor`.
pub open spec fn exact_scaling(d: Dec, factor: Dec) -> bool {
    factor.scale == 0 && factor.mantissa > 0 && (factor.mantissa as int) % (pow10(d.scale as nat) as int) == 0
}

fn scaled_int(d: &Dec, factor: &Dec) -> (r: Option<i64>)
    requires
        dec_wf(*d),
        dec_wf(*factor),
    ensures
        match r {
            Some(v) => decimal_mul(d.mantissa as int, d.scale as nat, factor.mantissa as int, factor.scale as nat) matches Some((m, sc)) && v as int == trunc_value(m, sc),
            None => match decimal_mul(d.mantissa as int, d.scale as nat, factor.mantissa as int, factor.scale as nat) {
                Some((m, sc)) => !in_i64(trunc_value(m, sc)),
                None => true,
            },
        },
        exact_scaling(*d, *factor) ==> (r matches Some(v) ==> v * pow10(d.scale as nat) == d.mantissa * factor.mantissa),
{
    match dec_mul(d, factor) {
        Some(p) => {
            let r = dec_to_i64(&p);
            proof {
                if exact_scaling(*d, *factor) && r is Some {
                    let e = pow10(d.scale as nat) as int;
                    let ps = pow10(p.scale as nat) as int;
                    crate::rates::lemma_pow10_pos(d.scale as nat);
                    crate::rates::lemma_pow10_pos(p.scale as nat);
                    let j = (factor.mantissa as int) / e;
                    vstd::arithmetic::div_mod::lemma_fundamental_div_mod(factor.mantissa as int, e);
                    assert(factor.mantissa as int == e * j);
                    let k = d.mantissa as int * j;
                    assert(p.mantissa * e == (k * ps) * e) by (nonlinear_arith)
                        requires
                            p.mantissa * e == d.mantissa * factor.mantissa * ps,
                            factor.mantissa as int == e * j,
                            k == d.mantissa as int * j,
                    ;
                    assert(p.mantissa == k * ps) by (nonlinear_arith)
                        requires
                            p.mantissa * e == (k * ps) * e,
                            e >= 1,
                    ;
                    if k >= 0 {
                        vstd::arithmetic::div_mod::lemma_div_multiples_vanish(k, ps);
                        assert(ps * k == k * ps) by (nonlinear_arith);
                        assert(trunc_value(p.mantissa as int, p.scale as nat) == k);
                    } else {
                        vstd::arithmetic::div_mod::lemma_div_multiples_vanish(-k, ps);
                        assert(ps * (-k) == -(k * ps)) by (nonlinear_arith);
                        assert(trunc_value(p.mantissa as int, p.scale as nat) == k);
                    }
                    assert(k * e == d.mantissa * factor.mantissa) by (nonlinear_arith)
                        requires
                            k == d.mantissa as int * j,
                            factor.mantissa as int == e * j,
                    ;
                }
            }
            r
        },
        None => None,
    }
}

fn scale_factor(r: &Rate) -> (f: Option<Dec>)
    ensures
        match f {
            Some(x) => rate_scale(*r) <= 19 && x.mantissa as int == pow10(rate_scale(*r)) as int && x.scale == 0 && dec_wf(x),
            None => rate_scale(*r) > 19,
        },
{
    let s = if r.numerator.scale >= r.denominator.scale {
        r.numerator.scale
    } else {
        r.denominator.scale
    };
    if s > 19 {
        return None;
    }
    let p = pow10_u64(s);
    proof {
        crate::rates::lemma_pow10_18();
        crate::rates::lemma_pow10_mono(s as nat, 19);
    }
    Some(Dec { mantissa: p as i128, scale: 0 })
}

/// `a / b` has the value of the rate, `numerator / denominator`.
pub open spec fn same_rate_value(a: int, b: int, r: Rate) -> bool {
    a * r.denominator.mantissa * pow10(r.numerator.scale as nat) == b * r.numerator.mantissa * pow10(r.denominator.scale as nat)
}

proof fn lemma_factor_exact(d: Dec, f: Dec, s: nat)
    requires
        d.scale <= s,
        f.scale == 0,
        f.mantissa as int == pow10(s) as int,
    ensures
        exact_scaling(d, f),
{
    lemma_pow10_split(d.scale as nat, s);
    crate::rates::lemma_pow10_pos(d.scale as nat);
    crate::rates::lemma_pow10_pos(s);
    let x = pow10((s - d.scale) as nat) as int;
    let e = pow10(d.scale as nat) as int;
    vstd::arithmetic::div_mod::lemma_mod_multiples_basic(x, e);
    assert(x * e == e * x) by (nonlinear_arith);
}

proof fn lemma_reduced_value(r: Rate, n: int, d: int)
    requires
        n * pow10(r.numerator.scale as nat) == r.numerator.mantissa * pow10(rate_scale(r)),
        d * pow10(r.denominator.scale as nat) == r.denominator.mantissa * pow10(rate_scale(r)),
        gcd_rust(n, d) != 0,
    ensures
        same_rate_value(tdiv(n, gcd_rust(n, d)), tdiv(d, gcd_rust(n, d)), r),
{
    let g = gcd_rust(n, d);
    lemma_gcd_rust_divides(n, d);
    lemma_exact_tdiv(n, g);
    lemma_exact_tdiv(d, g);
    let a = tdiv(n, g);
    let b = tdiv(d, g);
    let (nm, dm) = (r.numerator.mantissa as int, r.denominator.mantissa as int);
    let (en, ed, es) = (pow10(r.numerator.scale as nat) as int, pow10(r.denominator.scale as nat) as int, pow10(rate_scale(r)) as int);
    assert(n * dm * en == d * nm * ed) by (nonlinear_arith)
        requires
            n * en == nm * es,
            d * ed == dm * es,
    ;
    let x = a * dm * en;
    let y = b * nm * ed;
    assert(x * g == n * dm * en) by (nonlinear_arith)
        requires
            x == a * dm * en,
            a * g == n,
    ;
    assert(y * g == d * nm * ed) by (nonlinear_arith)
        requires
            y == b * nm * ed,
            b * g == d,
    ;
    assert(x == y) by (nonlinear_arith)
        requires
            x * g == y * g,
            g != 0,
    ;
}

/// A stored rate as a fraction of integers in lowest terms (the fraction the
/// database must hold).
pub fn rate_to_integers(rate: &Rate) -> (r: (i64, i64))
    requires
        rate_integers_ok(*rate),
    ensures
        (r.0 as int, r.1 as int) == rate_integers_spec(*rate),
        same_rate_value(r.0 as int, r.1 as int, *rate),
{
    let factor = scale_factor(rate).unwrap();
    proof {
        lemma_factor_exact(rate.numerator, factor, rate_scale(*rate));
        lemma_factor_exact(rate.denominator, factor, rate_scale(*rate));
    }
    let n = scaled_int(&rate.numerator, &factor).unwrap();
    let d = scaled_int(&rate.denominator, &factor).unwrap();
    proof {
        lemma_reduced_value(*rate, n as int, d as int);
    }
    let g = gcd(n, d);
    (div_trunc(n, g), div_trunc(d, g))
}

/// `rate_to_integers` where it succeeds; `None` where it would panic.
pub fn checked_rate_to_integers(rate: &Rate) -> (r: Option<(i64, i64)>)
    requires
        dec_wf(rate.numerator),
        dec_wf(rate.denominator),
    ensures
        match r {
            Some((a, b)) => rate_integers_ok(*rate) && (a as int, b as int) == rate_integers_spec(*rate)
                && same_rate_value(a as int, b as int, *rate),
            None => !rate_integers_ok(*rate),
        },
{
    let factor = match scale_factor(rate) {
        Some(f) => f,
        None => return None,
    };
    let n = match scaled_int(&rate.numerator, &factor) {
        Some(v) => v,
        None => return None,
    };
    let d = match scaled_int(&rate.denominator, &factor) {
        Some(v) => v,
        None => return None,
    };
    if !gcd_safe_exec(n, d) {
        return None;
    }
    let g = gcd(n, d);
    if g == 0 || (n == i64::MIN && g == -1) || (d == i64::MIN && g == -1) {
        return None;
    }
    Some(rate_to_integers(rate))
}

fn gcd_safe_exec(a: i64, b: i64) -> (r: bool)
    ensures
        r == gcd_safe(a as int, b as int),
    decreases iabs(b as int),
{
    if b == 0 {
        true
    } else if a == i64::MIN && b == -1 {
        false
    } else {
        proof {
            lemma_trem_smaller(a as int, b as int);
        }
        let r = rem_trunc(a, b);
        gcd_safe_exec(b, r)
    }
}

/// The lcm of all denominators, from 1 (`fold(1, lcm)`).
pub open spec fn fold_lcm(ds: Seq<i64>) -> int
    decreases ds.len(),
{
    if ds.len() == 0 {
        1
    } else {
        let acc = fold_lcm(ds.drop_last());
        tdiv(acc, gcd_rust(acc, ds.last() as int)) * ds.last()
    }
}

/// Every step of the fold can be computed without a panic.
pub open spec fn fold_lcm_ok(ds: Seq<i64>) -> bool
    decreases ds.len(),
{
    if ds.len() == 0 {
        true
    } else {
        fold_lcm_ok(ds.drop_last()) && in_i64(fold_lcm(ds.drop_last())) && lcm_ok(fold_lcm(ds.drop_last()), ds.last() as int)
    }
}

/// The common denominator of a scope: the lcm of its rates' denominators.
pub fn common_denominator(denominators: &Vec<i64>) -> (r: i64)
    requires
        fold_lcm_ok(denominators@),
    ensures
        r as int == fold_lcm(denominators@),
{
    let mut acc: i64 = 1;
    let mut i: usize = 0;
    proof {
        assert forall|k: int| 0 <= k <= denominators@.len() implies #[trigger] fold_lcm_ok(denominators@.subrange(0, k)) by {
            lemma_prefix_ok(denominators@, k);
        }
    }
    while i < denominators.len()
        invariant
            i <= denominators@.len(),
            fold_lcm_ok(denominators@.subrange(0, i as int)) || i == 0,
            acc as int == fold_lcm(denominators@.subrange(0, i as int)),
            forall|k: int| 0 <= k <= denominators@.len() ==> #[trigger] fold_lcm_ok(denominators@.subrange(0, k)),
        decreases denominators.len() - i,
    {
        let ghost next = denominators@.subrange(0, i + 1);
        assert(next.drop_last() =~= denominators@.subrange(0, i as int));
        assert(fold_lcm_ok(next));
        acc = lcm(acc, denominators[i]);
        i += 1;
    }
    assert(denominators@.subrange(0, denominators@.len() as int) =~= denominators@);
    acc
}

/// `lcm` where it succeeds; `None` where it would panic.
pub fn checked_lcm(a: i64, b: i64) -> (r: Option<i64>)
    ensures
        match r {
            Some(x) => lcm_ok(a as int, b as int) && x as int == tdiv(a as int, gcd_rust(a as int, b as int)) * b,
            None => !lcm_ok(a as int, b as int),
        },
{
    if !gcd_safe_exec(a, b) {
        return None;
    }
    let g = gcd(a, b);
    if g == 0 || (a == i64::MIN && g == -1) {
        return None;
    }
    let q = div_trunc(a, g);
    q.checked_mul(b)
}

/// `common_denominator` where it succeeds; `None` where a step would panic.
pub fn checked_common_denominator(denominators: &Vec<i64>) -> (r: Option<i64>)
    ensures
        match r {
            Some(l) => fold_lcm_ok(denominators@) && l as int == fold_lcm(denominators@),
            None => !fold_lcm_ok(denominators@),
        },
{
    let mut acc: i64 = 1;
    let mut i: usize = 0;
    while i < denominators.len()
        invariant
            i <= denominators@.len(),
            fold_lcm_ok(denominators@.subrange(0, i as int)),
            acc as int == fold_lcm(denominators@.subrange(0, i as int)),
        decreases denominators.len() - i,
    {
        let ghost prefix = denominators@.subrange(0, i as int);
        let ghost next = denominators@.subrange(0, i + 1);
        assert(next.drop_last() =~= prefix);
        assert(next.last() == denominators@[i as int]);
        match checked_lcm(acc, denominators[i]) {
            Some(x) => {
                acc = x;
            },
            None => {
                proof {
                    assert(!fold_lcm_ok(next));
                    if fold_lcm_ok(denominators@) {
                        lemma_prefix_ok(denominators@, i + 1);
                    }
                }
                return None;
            },
        }
        i += 1;
    }
    assert(denominators@.subrange(0, denominators@.len() as int) =~= denominators@);
    Some(acc)
}

/// The reduced denominators of a scope's rates.
pub open spec fn reduced_dens(rs: Seq<Rate>) -> Seq<i64> {
    rs.map_values(|r: Rate| rate_integers_spec(r).1 as i64)
}

/// A reduced rate can be written over `l` without a panic.
pub open spec fn scaled_ok(r: Rate, l: int) -> bool {
    let (n, d) = rate_integers_spec(r);
    d != 0 && !(l == i64::MIN && d == -1) && in_i64(n * tdiv(l, d))
}

/// Every rate of the scope reduces, their denominators have an lcm, and
/// every numerator can be written over it, all without a panic.
pub open spec fn scope_ok(rs: Seq<Rate>) -> bool {
    &&& forall|i: int| 0 <= i < rs.len() ==> #[trigger] rate_integers_ok(rs[i])
    &&& fold_lcm_ok(reduced_dens(rs))
    &&& forall|i: int| 0 <= i < rs.len() ==> #[trigger] scaled_ok(rs[i], fold_lcm(reduced_dens(rs)))
}

/// The rates of one scope (a pack's variants, or one slot) as integers over
/// their common denominator: the lcm of the reduced denominators and each
/// reduced numerator scaled to it; `None` when a step would overflow.
pub fn scope_fractions(rates: &Vec<Rate>) -> (r: Option<(i64, Vec<i64>)>)
    requires
        forall|i: int| 0 <= i < rates@.len() ==> dec_wf((#[trigger] rates@[i]).numerator) && dec_wf(rates@[i].denominator),
    ensures
        match r {
            Some((l, ns)) => {
                &&& scope_ok(rates@)
                &&& l as int == fold_lcm(reduced_dens(rates@))
                &&& ns@.len() == rates@.len()
                &&& forall|i: int| 0 <= i < ns@.len() ==> (#[trigger] ns@[i]) as int
                    == rate_integers_spec(rates@[i]).0 * tdiv(l as int, rate_integers_spec(rates@[i]).1)
                &&& (forall|i: int| 0 <= i < rates@.len() ==> #[trigger] rate_integers_spec(rates@[i]).1 > 0)
                    ==> forall|i: int| 0 <= i < ns@.len() ==> same_rate_value(#[trigger] ns@[i] as int, l as int, rates@[i])
            },
            None => !scope_ok(rates@),
        },
{
    let mut pairs: Vec<(i64, i64)> = Vec::new();
    let mut dens: Vec<i64> = Vec::new();
    let mut i: usize = 0;
    while i < rates.len()
        invariant
            i <= rates@.len(),
            pairs@.len() == i,
            dens@.len() == i,
            forall|k: int| 0 <= k < rates@.len() ==> dec_wf((#[trigger] rates@[k]).numerator) && dec_wf(rates@[k].denominator),
            forall|k: int| 0 <= k < i ==> #[trigger] rate_integers_ok(rates@[k]),
            forall|k: int| 0 <= k < i ==> (#[trigger] pairs@[k].0 as int, pairs@[k].1 as int) == rate_integers_spec(rates@[k]),
            forall|k: int| 0 <= k < i ==> same_rate_value(#[trigger] pairs@[k].0 as int, pairs@[k].1 as int, rates@[k]),
            forall|k: int| 0 <= k < i ==> #[trigger] dens@[k] == pairs@[k].1,
        decreases rates.len() - i,
    {
        match checked_rate_to_integers(&rates[i]) {
            Some(p) => {
                pairs.push(p);
                dens.push(p.1);
            },
            None => {
                return None;
            },
        }
        i += 1;
    }
    assert forall|k: int| 0 <= k < dens@.len() implies dens@[k] == reduced_dens(rates@)[k] by {
        let x = pairs@[k].1;
        assert((pairs@[k].0 as int, pairs@[k].1 as int) == rate_integers_spec(rates@[k]));
        assert(rate_integers_spec(rates@[k]).1 == x as int);
        assert((x as int) as i64 == x);
    }
    assert(dens@ =~= reduced_dens(rates@));
    let l = match checked_common_denominator(&dens) {
        Some(l) => l,
        None => {
            return None;
        },
    };
    let ghost pos = forall|i: int| 0 <= i < rates@.len() ==> #[trigger] rate_integers_spec(rates@[i]).1 > 0;
    proof {
        if pos {
            assert forall|k: int| 0 <= k < dens@.len() implies #[trigger] dens@[k] > 0 by {
                assert(rate_integers_spec(rates@[k]).1 > 0);
                assert(dens@[k] == pairs@[k].1);
                assert((pairs@[k].0 as int, pairs@[k].1 as int) == rate_integers_spec(rates@[k]));
            }
            lemma_fold_lcm_multiple(dens@);
        }
    }
    let mut ns: Vec<i64> = Vec::new();
    let mut j: usize = 0;
    while j < pairs.len()
        invariant
            j <= pairs@.len(),
            pairs@.len() == rates@.len(),
            ns@.len() == j,
            dens@ == reduced_dens(rates@),
            l as int == fold_lcm(dens@),
            forall|k: int| 0 <= k < rates@.len() ==> (#[trigger] pairs@[k].0 as int, pairs@[k].1 as int) == rate_integers_spec(rates@[k]),
            forall|k: int| 0 <= k < j ==> #[trigger] scaled_ok(rates@[k], l as int),
            forall|k: int| 0 <= k < j ==> (#[trigger] ns@[k]) as int
                == rate_integers_spec(rates@[k]).0 * tdiv(l as int, rate_integers_spec(rates@[k]).1),
            forall|k: int| 0 <= k < rates@.len() ==> same_rate_value(#[trigger] pairs@[k].0 as int, pairs@[k].1 as int, rates@[k]),
            pos ==> forall|k: int| 0 <= k < dens@.len() ==> divides(#[trigger] dens@[k] as int, l as int),
            pos == (forall|i: int| 0 <= i < rates@.len() ==> #[trigger] rate_integers_spec(rates@[i]).1 > 0),
            pos ==> forall|k: int| 0 <= k < j ==> same_rate_value(#[trigger] ns@[k] as int, l as int, rates@[k]),
        decreases pairs.len() - j,
    {
        let (n, d) = pairs[j];
        assert((n as int, d as int) == rate_integers_spec(rates@[j as int]));
        if d == 0 || (l == i64::MIN && d == -1) {
            assert(!scaled_ok(rates@[j as int], l as int));
            return None;
        }
        let q = div_trunc(l, d);
        match n.checked_mul(q) {
            Some(x) => {
                proof {
                    if pos {
                        assert(dens@[j as int] == d);
                        assert(rate_integers_spec(rates@[j as int]).1 > 0);
                        lemma_exact_tdiv(l as int, d as int);
                        let r = rates@[j as int];
                        assert(same_rate_value(n as int, d as int, r));
                        let (nm, dm) = (r.numerator.mantissa as int, r.denominator.mantissa as int);
                        let (en, ed) = (pow10(r.numerator.scale as nat) as int, pow10(r.denominator.scale as nat) as int);
                        let (ni, di, qi, ci) = (n as int, d as int, q as int, l as int);
                        assert(ni * qi * dm * en == ci * nm * ed) by (nonlinear_arith)
                            requires
                                ni * dm * en == di * nm * ed,
                                qi * di == ci,
                        ;
                        assert(same_rate_value(x as int, l as int, r));
                    }
                }
                ns.push(x);
            },
            None => {
                assert(!scaled_ok(rates@[j as int], l as int));
                return None;
            },
        }
        j += 1;
    }
    Some((l, ns))
}

/// A rarity's rate in a slot, over the slot's denominator: the sum of its
/// normal and foil numerators (those it has); `None` when it has neither or
/// the sum overflows.
pub fn rarity_numerator(normal: Option<i64>, foil: Option<i64>) -> (r: Option<i64>)
    ensures
        r == (match (normal, foil) {
            (Some(a), Some(b)) => if in_i64(a + b) {
                Some((a + b) as i64)
            } else {
                None
            },
            (Some(a), None) => Some(a),
            (None, Some(b)) => Some(b),
            (None, None) => None,
        }),
{
    match (normal, foil) {
        (Some(a), Some(b)) => a.checked_add(b),
        (Some(a), None) => Some(a),
        (None, Some(b)) => Some(b),
        (None, None) => None,
    }
}

/// One reduced rate written over `common`: its numerator scaled by
/// `common / d`; `None` when a step would overflow.
pub fn scaled_rate(rate: &Rate, common: i64) -> (r: Option<i64>)
    requires
        dec_wf(rate.numerator),
        dec_wf(rate.denominator),
    ensures
        match r {
            Some(x) => rate_integers_ok(*rate) && scaled_ok(*rate, common as int)
                && x as int == rate_integers_spec(*rate).0 * tdiv(common as int, rate_integers_spec(*rate).1),
            None => !(rate_integers_ok(*rate) && scaled_ok(*rate, common as int)),
        },
        divides(rate_integers_spec(*rate).1, common as int) ==> (r matches Some(x) ==> same_rate_value(x as int, common as int, *rate)),
{
    let (n, d) = match checked_rate_to_integers(rate) {
        Some(p) => p,
        None => return None,
    };
    if d == 0 || (common == i64::MIN && d == -1) {
        return None;
    }
    let q = div_trunc(common, d);
    let r = n.checked_mul(q);
    proof {
        if r is Some && divides(d as int, common as int) {
            lemma_exact_tdiv(common as int, d as int);
            let (nm, dm) = (rate.numerator.mantissa as int, rate.denominator.mantissa as int);
            let (en, ed) = (pow10(rate.numerator.scale as nat) as int, pow10(rate.denominator.scale as nat) as int);
            let (ni, di, qi, ci) = (n as int, d as int, q as int, common as int);
            assert(ni * qi * dm * en == ci * nm * ed) by (nonlinear_arith)
                requires
                    ni * dm * en == di * nm * ed,
                    qi * di == ci,
            ;
        }
    }
    r
}

pub open spec fn opt_seq(o: Option<Rate>) -> Seq<Rate> {
    match o {
        Some(r) => seq![r],
        None => Seq::empty(),
    }
}

/// The rates of a slot's rarities: each rarity's normal then foil rate (those
/// it has), in slot order.
pub open spec fn rarity_scope(rs: Seq<(String, RaritySlotRates)>) -> Seq<Rate>
    decreases rs.len(),
{
    if rs.len() == 0 {
        Seq::empty()
    } else {
        rarity_scope(rs.drop_last()) + opt_seq(rs.last().1.normal) + opt_seq(rs.last().1.foil)
    }
}

/// The rates the cards have in a slot, in card order.
pub open spec fn card_scope(cs: Seq<(String, Vec<Option<Rate>>)>, slot: int) -> Seq<Rate>
    decreases cs.len(),
{
    if cs.len() == 0 {
        Seq::empty()
    } else {
        card_scope(cs.drop_last(), slot) + if 0 <= slot < cs.last().1@.len() {
            opt_seq(cs.last().1@[slot])
        } else {
            Seq::empty()
        }
    }
}

/// The scope of one slot of a variant: its rarities' rates, then its cards'.
pub open spec fn slot_scope_spec(v: PackVariantRates, slot: int) -> Seq<Rate> {
    (if 0 <= slot < v.rarity_rates_by_slot@.len() {
        rarity_scope(v.rarity_rates_by_slot@[slot]@)
    } else {
        Seq::empty()
    }) + card_scope(v.card_rates@, slot)
}

fn push_opt_rate(out: &mut Vec<Rate>, o: &Option<Rate>)
    ensures
        final(out)@ == old(out)@ + opt_seq(*o),
{
    match o {
        Some(r) => {
            out.push(clone_rate(r));
        },
        None => {},
    }
    assert(out@ =~= old(out)@ + opt_seq(*o));
}

/// The rates of one slot of a variant, in the order of `slot_scope_spec`.
pub fn slot_scope(variant: &PackVariantRates, slot: usize) -> (r: Vec<Rate>)
    ensures
        r@ == slot_scope_spec(*variant, slot as int),
{
    let mut out: Vec<Rate> = Vec::new();
    if slot < variant.rarity_rates_by_slot.len() {
        let rs = &variant.rarity_rates_by_slot[slot];
        let mut i: usize = 0;
        assert(out@ =~= rarity_scope(rs@.subrange(0, 0)));
        while i < rs.len()
            invariant
                i <= rs@.len(),
                out@ == rarity_scope(rs@.subrange(0, i as int)),
            decreases rs.len() - i,
        {
            assert(rs@.subrange(0, i + 1).drop_last() =~= rs@.subrange(0, i as int));
            assert(rs@.subrange(0, i + 1).last() == rs@[i as int]);
            push_opt_rate(&mut out, &rs[i].1.normal);
            push_opt_rate(&mut out, &rs[i].1.foil);
            i += 1;
        }
        assert(rs@.subrange(0, rs@.len() as int) =~= rs@);
    }
    let ghost base = out@;
    assert(base =~= (if (slot as int) < variant.rarity_rates_by_slot@.len() {
        rarity_scope(variant.rarity_rates_by_slot@[slot as int]@)
    } else {
        Seq::empty()
    }));
    let cs = &variant.card_rates;
    let mut j: usize = 0;
    assert(out@ =~= base + card_scope(cs@.subrange(0, 0), slot as int));
    while j < cs.len()
        invariant
            j <= cs@.len(),
            out@ == base + card_scope(cs@.subrange(0, j as int), slot as int),
        decreases cs.len() - j,
    {
        assert(cs@.subrange(0, j + 1).drop_last() =~= cs@.subrange(0, j as int));
        assert(cs@.subrange(0, j + 1).last() == cs@[j as int]);
        let ghost before = out@;
        if slot < cs[j].1.len() {
            push_opt_rate(&mut out, &cs[j].1[slot]);
        } else {
            assert(out@ =~= before + Seq::<Rate>::empty());
        }
        assert(out@ =~= base + card_scope(cs@.subrange(0, j + 1), slot as int));
        j += 1;
    }
    assert(cs@.subrange(0, cs@.len() as int) =~= cs@);
    out
}

pub proof fn lemma_prefix_ok(ds: Seq<i64>, k: int)
    requires
        fold_lcm_ok(ds),
        0 <= k <= ds.len(),
    ensures
        fold_lcm_ok(ds.subrange(0, k)),
    decreases ds.len() - k,
{
    if k < ds.len() {
        lemma_prefix_ok(ds, k + 1);
        assert(ds.subrange(0, k + 1).drop_last() =~= ds.subrange(0, k));
    } else {
        assert(ds.subrange(0, k) =~= ds);
    }
}

/// A rate's numerator over the scope's common denominator: `n * (L / d)`.
pub fn scaled_numerator(n: i64, d: i64, common: i64) -> (r: i64)
    requires
        d != 0,
        !(common == i64::MIN && d == -1),
        in_i64(n * tdiv(common as int, d as int)),
    ensures
        r as int == n * tdiv(common as int, d as int),
{
    let q = div_trunc(common, d);
    n * q
}

/// The common denominator of positive denominators is a positive multiple
/// of each of them.
pub proof fn lemma_fold_lcm_multiple(ds: Seq<i64>)
    requires
        forall|i: int| 0 <= i < ds.len() ==> #[trigger] ds[i] > 0,
    ensures
        fold_lcm(ds) > 0,
        forall|i: int| 0 <= i < ds.len() ==> divides(#[trigger] ds[i] as int, fold_lcm(ds)),
    decreases ds.len(),
{
    if ds.len() > 0 {
        let pre = ds.drop_last();
        assert forall|i: int| 0 <= i < pre.len() implies #[trigger] pre[i] > 0 by {
            assert(pre[i] == ds[i]);
        }
        lemma_fold_lcm_multiple(pre);
        let acc = fold_lcm(pre);
        lemma_lcm_multiple(acc, ds.last() as int);
        let l = fold_lcm(ds);
        assert forall|i: int| 0 <= i < ds.len() implies divides(#[trigger] ds[i] as int, fold_lcm(ds)) by {
            if i < ds.len() - 1 {
                assert(pre[i] == ds[i]);
                assert(divides(pre[i] as int, acc));
                let k1 = choose|k: int| acc == #[trigger] times(k, pre[i] as int);
                let k2 = choose|k: int| l == #[trigger] times(k, acc);
                assert(l == times(k2 * k1, ds[i] as int)) by (nonlinear_arith)
                    requires
                        acc == k1 * ds[i],
                        l == k2 * acc,
                ;
            }
        }
    }
}

/// A fraction written over a common multiple of its denominator and read
/// back gives the same value: `(n * (L / d)) / L == n / d`.
pub proof fn lemma_scaled_round_trip(n: int, d: int, l: int)
    requires
        d > 0,
        l > 0,
        divides(d, l),
    ensures
        (n * tdiv(l, d)) * d == n * l,
{
    let k = choose|k: int| l == #[trigger] times(k, d);
    assert(l == k * d);
    assert(k > 0) by (nonlinear_arith)
        requires
            l == k * d,
            l > 0,
            d > 0,
    ;
    assert(l / d == k) by {
        vstd::arithmetic::div_mod::lemma_div_multiples_vanish(k, d);
        assert(d * k == k * d) by (nonlinear_arith);
    }
    assert(tdiv(l, d) == k);
    assert((n * k) * d == n * l) by (nonlinear_arith)
        requires
            l == k * d,
    ;
}


proof fn lemma_gcd_rust_in_i64(a: int, b: int)
    requires
        in_i64(a),
        in_i64(b),
    ensures
        in_i64(gcd_rust(a, b)),
    decreases iabs(b),
{
    if b != 0 {
        lemma_trem_range(a, b);
        lemma_trem_smaller(a, b);
        lemma_gcd_rust_in_i64(b, trem(a, b));
    }
}

proof fn lemma_tdiv_in_i64(a: int, b: int)
    requires
        in_i64(a),
        in_i64(b),
        b != 0,
        !(a == i64::MIN && b == -1),
    ensures
        in_i64(tdiv(a, b)),
{
    let (x, y) = (iabs(a) as int, iabs(b) as int);
    assert(y >= 1);
    assert(x / y <= x) by (nonlinear_arith)
        requires
            x >= 0,
            y >= 1,
    ;
    assert(x / y >= 0) by (nonlinear_arith)
        requires
            x >= 0,
            y >= 1,
    ;
    if a == i64::MIN && b < 0 {
        assert(y >= 2);
        vstd::arithmetic::div_mod::lemma_div_is_ordered_by_denominator(x, 2, y);
        assert(x / 2 <= i64::MAX);
    }
}

proof fn lemma_reduced_in_i64(r: Rate)
    requires
        rate_integers_ok(r),
    ensures
        in_i64(rate_integers_spec(r).0),
        in_i64(rate_integers_spec(r).1),
{
    let s = rate_scale(r);
    let n = scaled_part(r.numerator, s)->0;
    let d = scaled_part(r.denominator, s)->0;
    let g = gcd_rust(n, d);
    lemma_gcd_rust_in_i64(n, d);
    lemma_tdiv_in_i64(n, g);
    lemma_tdiv_in_i64(d, g);
}

/// Each rate of a scope, written over the scope's common denominator, keeps
/// its value: `(n * (L / d)) / L == n / d` for its reduced fraction `n / d`
/// (when the reduced denominators are positive).
pub proof fn lemma_scope_keeps_values(rs: Seq<Rate>, i: int)
    requires
        scope_ok(rs),
        0 <= i < rs.len(),
        forall|k: int| 0 <= k < rs.len() ==> #[trigger] rate_integers_spec(rs[k]).1 > 0,
    ensures
        ({
            let (n, d) = rate_integers_spec(rs[i]);
            let l = fold_lcm(reduced_dens(rs));
            l > 0 && (n * tdiv(l, d)) * d == n * l
        }),
{
    let ds = reduced_dens(rs);
    assert forall|k: int| 0 <= k < ds.len() implies #[trigger] ds[k] > 0 by {
        assert(rate_integers_ok(rs[k]));
        lemma_reduced_in_i64(rs[k]);
        assert(rate_integers_spec(rs[k]).1 > 0);
    }
    lemma_fold_lcm_multiple(ds);
    let (n, d) = rate_integers_spec(rs[i]);
    assert(rate_integers_ok(rs[i]));
    lemma_reduced_in_i64(rs[i]);
    assert(ds[i] as int == d);
    lemma_scaled_round_trip(n, d, fold_lcm(ds));
}


// ───────────────────────── originals of reprints ─────────────────────────

/// The reprint flag of the last version with the key (what collecting the
/// versions into a map keeps).
pub open spec fn last_reprint(vs: Seq<CardVersion>, k: VKey) -> Option<bool>
    decreases vs.len(),
{
    if vs.len() == 0 {
        None
    } else if vkey(vs.last()) == k {
        Some(vs.last().is_reprint)
    } else {
        last_reprint(vs.drop_last(), k)
    }
}

/// The database id of the last entry with the key.
pub open spec fn last_id(ids: Seq<((String, u32), i64)>, k: VKey) -> Option<i64>
    decreases ids.len(),
{
    if ids.len() == 0 {
        None
    } else if (ids.last().0.0@, ids.last().0.1 as nat) == k {
        Some(ids.last().1)
    } else {
        last_id(ids.drop_last(), k)
    }
}

pub open spec fn ref_key(r: VersionRef) -> VKey {
    (r.set@, r.number as nat)
}

/// The first duplicate that is not itself a reprint.
pub open spec fn first_original(ds: Seq<VersionRef>, vs: Seq<CardVersion>) -> Option<VKey>
    decreases ds.len(),
{
    if ds.len() == 0 {
        None
    } else if last_reprint(vs, ref_key(ds[0])) == Some(false) {
        Some(ref_key(ds[0]))
    } else {
        first_original(ds.drop_first(), vs)
    }
}

/// The version a duplicate link points to: itself when it is not a reprint,
/// else the first of its duplicates that is not a reprint (itself when that
/// one has no database id).
pub open spec fn original_spec(v: CardVersion, vs: Seq<CardVersion>, ids: Seq<((String, u32), i64)>, self_id: i64) -> i64 {
    if !v.is_reprint {
        self_id
    } else {
        match first_original(v.duplicates@, vs) {
            Some(k) => match last_id(ids, k) {
                Some(x) => x,
                None => self_id,
            },
            None => self_id,
        }
    }
}

fn reprint_of(vs: &Vec<CardVersion>, set: &[char], number: u32) -> (r: Option<bool>)
    ensures
        r == last_reprint(vs@, (set@, number as nat)),
{
    let mut i = vs.len();
    assert(vs@.subrange(0, vs@.len() as int) =~= vs@);
    while i > 0
        invariant
            i <= vs@.len(),
            last_reprint(vs@, (set@, number as nat)) == last_reprint(vs@.subrange(0, i as int), (set@, number as nat)),
        decreases i,
    {
        let ghost pre = vs@.subrange(0, i as int);
        assert(pre.drop_last() =~= vs@.subrange(0, i - 1));
        assert(pre.last() == vs@[i - 1]);
        if seq_eq(&chars_of(vs[i - 1].set.as_str()), set) && vs[i - 1].number == number {
            return Some(vs[i - 1].is_reprint);
        }
        i -= 1;
    }
    None
}

fn id_of(ids: &Vec<((String, u32), i64)>, set: &[char], number: u32) -> (r: Option<i64>)
    ensures
        r == last_id(ids@, (set@, number as nat)),
{
    let mut i = ids.len();
    assert(ids@.subrange(0, ids@.len() as int) =~= ids@);
    while i > 0
        invariant
            i <= ids@.len(),
            last_id(ids@, (set@, number as nat)) == last_id(ids@.subrange(0, i as int), (set@, number as nat)),
        decreases i,
    {
        let ghost pre = ids@.subrange(0, i as int);
        assert(pre.drop_last() =~= ids@.subrange(0, i - 1));
        assert(pre.last() == ids@[i - 1]);
        if seq_eq(&chars_of(ids[i - 1].0.0.as_str()), set) && ids[i - 1].0.1 == number {
            return Some(ids[i - 1].1);
        }
        i -= 1;
    }
    None
}

/// The database id of the version a duplicate link of `version` points to.
pub fn original_version_id(
    version: &CardVersion,
    all_versions: &Vec<CardVersion>,
    version_ids: &Vec<((String, u32), i64)>,
    self_id: i64,
) -> (r: i64)
    ensures
        r == original_spec(*version, all_versions@, version_ids@, self_id),
{
    if !version.is_reprint {
        return self_id;
    }
    let ds = &version.duplicates;
    let mut t: usize = 0;
    assert(ds@.subrange(0, ds@.len() as int) =~= ds@);
    while t < ds.len()
        invariant
            t <= ds@.len(),
            ds@ == version.duplicates@,
            version.is_reprint,
            first_original(ds@, all_versions@) == first_original(ds@.subrange(t as int, ds@.len() as int), all_versions@),
        decreases ds.len() - t,
    {
        let ghost rest = ds@.subrange(t as int, ds@.len() as int);
        assert(rest.drop_first() =~= ds@.subrange(t + 1, ds@.len() as int));
        assert(rest[0] == ds@[t as int]);
        let set = chars_of(ds[t].set.as_str());
        if reprint_of(all_versions, &set, ds[t].number) == Some(false) {
            return match id_of(version_ids, &set, ds[t].number) {
                Some(x) => x,
                None => self_id,
            };
        }
        t += 1;
    }
    assert(ds@.subrange(t as int, ds@.len() as int) =~= Seq::<VersionRef>::empty());
    self_id
}

// ───────────────────────── string tables ─────────────────────────

/// All strings of all lists.
pub open spec fn flatten(ls: Seq<Vec<String>>) -> Seq<Seq<char>>
    decreases ls.len(),
{
    if ls.len() == 0 {
        Seq::empty()
    } else {
        flatten(ls.drop_last()) + strs(ls.last()@)
    }
}

/// The distinct strings of all lists, sorted (a `BTreeSet` of them): the
/// order in which lookup tables are seeded.
pub fn sorted_union(lists: &Vec<Vec<String>>) -> (r: Vec<String>)
    ensures
        sorted_distinct(strs(r@)),
        forall|y: Seq<char>| strs(r@).contains(y) <==> flatten(lists@).contains(y),
{
    let mut all: Vec<String> = Vec::new();
    let mut i: usize = 0;
    assert(strs(all@) =~= flatten(lists@.subrange(0, 0)));
    while i < lists.len()
        invariant
            i <= lists@.len(),
            strs(all@) == flatten(lists@.subrange(0, i as int)),
        decreases lists.len() - i,
    {
        assert(lists@.subrange(0, i + 1).drop_last() =~= lists@.subrange(0, i as int));
        let ghost base = strs(all@);
        let l = &lists[i];
        let mut j: usize = 0;
        while j < l.len()
            invariant
                j <= l@.len(),
                strs(all@) == base + strs(l@.subrange(0, j as int)),
            decreases l.len() - j,
        {
            let ghost before = strs(all@);
            all.push(l[j].clone());
            assert(strs(l@.subrange(0, j + 1)) =~= strs(l@.subrange(0, j as int)).push(l@[j as int]@));
            assert(strs(all@) =~= before.push(l@[j as int]@));
            j += 1;
        }
        assert(l@.subrange(0, l@.len() as int) =~= l@);
        i += 1;
    }
    assert(lists@.subrange(0, lists@.len() as int) =~= lists@);
    sort_dedup_strings(&all)
}

/// The tables of strings that abstract cards refer to.
pub enum CardStrings {
    CardNames,
    Stages,
    PokemonVariants,
    AbilityNames,
    AbilityEffects,
    AttackNames,
    AttackEffects,
    TrainerKinds,
    TrainerEffects,
}

pub open spec fn opt_list(o: Option<String>) -> Seq<Seq<char>> {
    match o {
        Some(s) => seq![s@],
        None => Seq::empty(),
    }
}

pub open spec fn attack_strings(atks: Seq<crate::models::Attack>, names: bool) -> Seq<Seq<char>>
    decreases atks.len(),
{
    if atks.len() == 0 {
        Seq::empty()
    } else {
        attack_strings(atks.drop_last(), names) + if names {
            seq![atks.last().name@]
        } else {
            opt_list(atks.last().effect)
        }
    }
}

/// The strings one card contributes to a table: its name and the name it
/// evolves from; its stage; its variants; its ability's name or effect; its
/// attacks' names or effects; its trainer kind; and, for a trainer, its effect
/// ("" when it has none).
pub open spec fn card_strings(c: AbstractCard, kind: CardStrings) -> Seq<Seq<char>> {
    match kind {
        CardStrings::CardNames => seq![c.name@] + opt_list(c.evolves_from),
        CardStrings::Stages => opt_list(c.stage),
        CardStrings::PokemonVariants => strs(c.variants@),
        CardStrings::AbilityNames => match c.ability {
            Some(a) => seq![a.name@],
            None => Seq::empty(),
        },
        CardStrings::AbilityEffects => match c.ability {
            Some(a) => seq![a.effect@],
            None => Seq::empty(),
        },
        CardStrings::AttackNames => attack_strings(c.attacks@, true),
        CardStrings::AttackEffects => attack_strings(c.attacks@, false),
        CardStrings::TrainerKinds => opt_list(c.trainer_kind),
        CardStrings::TrainerEffects => if c.card_type@ == "trainer"@ {
            match c.trainer_effect {
                Some(e) => seq![e@],
                None => seq![Seq::<char>::empty()],
            }
        } else {
            Seq::empty()
        },
    }
}

pub open spec fn cards_strings(cs: Seq<AbstractCard>, kind: CardStrings) -> Seq<Seq<char>>
    decreases cs.len(),
{
    if cs.len() == 0 {
        Seq::empty()
    } else {
        cards_strings(cs.drop_last(), kind) + card_strings(cs.last(), kind)
    }
}

fn push_opt(v: &mut Vec<String>, o: &Option<String>)
    ensures
        strs(final(v)@) == strs(old(v)@) + opt_list(*o),
{
    match o {
        Some(s) => {
            let ghost before = strs(v@);
            v.push(s.clone());
            assert(strs(v@) =~= before + seq![s@]);
        },
        None => {
            assert(strs(v@) =~= strs(v@) + Seq::<Seq<char>>::empty());
        },
    }
}

fn push_str(v: &mut Vec<String>, s: &String)
    ensures
        strs(final(v)@) == strs(old(v)@) + seq![s@],
{
    let ghost before = strs(v@);
    v.push(s.clone());
    assert(strs(v@) =~= before + seq![s@]);
}

fn strings_of_card(c: &AbstractCard, kind: &CardStrings) -> (r: Vec<String>)
    ensures
        strs(r@) == card_strings(*c, *kind),
{
    let mut out: Vec<String> = Vec::new();
    assert(strs(out@) =~= Seq::<Seq<char>>::empty());
    match kind {
        CardStrings::CardNames => {
            push_str(&mut out, &c.name);
            push_opt(&mut out, &c.evolves_from);
        },
        CardStrings::Stages => {
            push_opt(&mut out, &c.stage);
        },
        CardStrings::PokemonVariants => {
            let mut i: usize = 0;
            while i < c.variants.len()
                invariant
                    i <= c.variants@.len(),
                    strs(out@) == strs(c.variants@.subrange(0, i as int)),
                decreases c.variants.len() - i,
            {
                push_str(&mut out, &c.variants[i]);
                assert(strs(c.variants@.subrange(0, i + 1)) =~= strs(c.variants@.subrange(0, i as int)) + seq![c.variants@[i as int]@]);
                i += 1;
            }
            assert(c.variants@.subrange(0, c.variants@.len() as int) =~= c.variants@);
        },
        CardStrings::AbilityNames => {
            match &c.ability {
                Some(a) => push_str(&mut out, &a.name),
                None => {},
            }
        },
        CardStrings::AbilityEffects => {
            match &c.ability {
                Some(a) => push_str(&mut out, &a.effect),
                None => {},
            }
        },
        CardStrings::AttackNames | CardStrings::AttackEffects => {
            let names = match kind {
                CardStrings::AttackNames => true,
                _ => false,
            };
            let mut i: usize = 0;
            assert(strs(out@) =~= attack_strings(c.attacks@.subrange(0, 0), names));
            while i < c.attacks.len()
                invariant
                    i <= c.attacks@.len(),
                    strs(out@) == attack_strings(c.attacks@.subrange(0, i as int), names),
                decreases c.attacks.len() - i,
            {
                assert(c.attacks@.subrange(0, i + 1).drop_last() =~= c.attacks@.subrange(0, i as int));
                if names {
                    push_str(&mut out, &c.attacks[i].name);
                } else {
                    push_opt(&mut out, &c.attacks[i].effect);
                }
                i += 1;
            }
            assert(c.attacks@.subrange(0, c.attacks@.len() as int) =~= c.attacks@);
        },
        CardStrings::TrainerKinds => {
            push_opt(&mut out, &c.trainer_kind);
        },
        CardStrings::TrainerEffects => {
            if seq_eq(&chars_of(c.card_type.as_str()), &chars_of("trainer")) {
                match &c.trainer_effect {
                    Some(e) => push_str(&mut out, e),
                    None => {
                        let empty = string_of(&Vec::new());
                        push_str(&mut out, &empty);
                        assert(empty@ =~= Seq::<char>::empty());
                    },
                }
            }
        },
    }
    out
}

/// One lookup table of strings for the abstract cards, sorted, each once
/// (seeded before the cards so that ids follow alphabetical order).
pub fn card_string_table(cards: &Vec<AbstractCard>, kind: CardStrings) -> (r: Vec<String>)
    ensures
        sorted_distinct(strs(r@)),
        forall|y: Seq<char>| strs(r@).contains(y) <==> cards_strings(cards@, kind).contains(y),
{
    let mut all: Vec<String> = Vec::new();
    let mut i: usize = 0;
    assert(strs(all@) =~= cards_strings(cards@.subrange(0, 0), kind));
    while i < cards.len()
        invariant
            i <= cards@.len(),
            strs(all@) == cards_strings(cards@.subrange(0, i as int), kind),
        decreases cards.len() - i,
    {
        assert(cards@.subrange(0, i + 1).drop_last() =~= cards@.subrange(0, i as int));
        let part = strings_of_card(&cards[i], &kind);
        let ghost base = strs(all@);
        let mut j: usize = 0;
        while j < part.len()
            invariant
                j <= part@.len(),
                strs(all@) == base + strs(part@.subrange(0, j as int)),
            decreases part.len() - j,
        {
            let ghost before = strs(all@);
            all.push(part[j].clone());
            assert(strs(part@.subrange(0, j + 1)) =~= strs(part@.subrange(0, j as int)).push(part@[j as int]@));
            assert(strs(all@) =~= before.push(part@[j as int]@));
            j += 1;
        }
        assert(part@.subrange(0, part@.len() as int) =~= part@);
        i += 1;
    }
    assert(cards@.subrange(0, cards@.len() as int) =~= cards@);
    sort_dedup_strings(&all)
}

/// The code point of a damage suffix's first character.
pub fn suffix_codepoint(suffix: &Option<String>) -> (r: Option<i64>)
    ensures
        r == (match suffix {
            Some(s) => if s@.len() > 0 {
                Some((s@[0] as u32) as i64)
            } else {
                None
            },
            None => None,
        }),
{
    match suffix {
        Some(s) => {
            let c = chars_of(s.as_str());
            if c.len() > 0 {
                Some((c[0] as u32) as i64)
            } else {
                None
            }
        },
        None => None,
    }
}


// ───────────────────────── what is reported ─────────────────────────

/// The constraint violations the database build reports (those that carry
/// an outside error's text are written where that error is met).
pub enum Violation {
    ElementsMissing,
    CardsMissing,
    SetNotInDatabase { set: String },
    AbstractCardMissing { set: String, number: u32, card_id: u32 },
    UnknownRarity { set: String, number: u32, rarity: String },
    PackMissing { set: String, number: u32, subtitle: String },
    NoNatdex { name: String },
    NatdexNotFound { name: String, natdex: u32 },
    UnknownCardType { id: u32, name: String, card_type: String },
    TrainerKindMissing { name: String },
    PullRateSetMissing { set: String },
    PullRateSetMismatch { dir: String, subtitle: String, set: String },
    PullRatePackMissing { set: String, subtitle: String },
    PullRateUnknownRarity { set: String, subtitle: String, rarity: String },
    PullRateInvalidKey { set: String, subtitle: String, key: String },
    PullRateCardMissing { set: String, subtitle: String, number: u32 },
}

/// `set/NNN` of a card version.
pub open spec fn version_label(set: Seq<char>, number: u32) -> Seq<char> {
    set + "/"@ + padded_spec(number as nat, 3)
}

/// `pull_rates/SET/SUBTITLE` of a pull-rate file.
pub open spec fn rate_file_label(set: Seq<char>, subtitle: Seq<char>) -> Seq<char> {
    "pull_rates/"@ + set + "/"@ + subtitle
}

/// The text of a violation.
pub open spec fn violation_text(v: Violation) -> Seq<char> {
    match v {
        Violation::ElementsMissing => "elements.json not found — run `global-master` first"@,
        Violation::CardsMissing => "data/cards/ not found — run `cards` command first"@,
        Violation::SetNotInDatabase { set } => set@ + ": set missing from DB map — versions skipped"@,
        Violation::AbstractCardMissing { set, number, card_id } =>
            version_label(set@, number) + ": abstract card "@ + padded_spec(card_id as nat, 5) + " not found"@,
        Violation::UnknownRarity { set, number, rarity } =>
            version_label(set@, number) + ": unknown rarity '"@ + rarity@ + "'"@,
        Violation::PackMissing { set, number, subtitle } =>
            version_label(set@, number) + ": pack '"@ + subtitle@ + "' not found"@,
        Violation::NoNatdex { name } => "pokemon "@ + name@ + ": no natdex_number — inserting by name"@,
        Violation::NatdexNotFound { name, natdex } =>
            "pokemon "@ + name@ + ": natdex "@ + decimal_spec(natdex as nat) + " not in base_pokemon — inserting by name"@,
        Violation::UnknownCardType { id, name, card_type } =>
            "card "@ + decimal_spec(id as nat) + " ("@ + name@ + "): unknown card_type '"@ + card_type@ + "'"@,
        Violation::TrainerKindMissing { name } => "trainer "@ + name@ + ": missing trainer_kind — skipped"@,
        Violation::PullRateSetMissing { set } => "pull_rates/"@ + set@ + ": set not found in DB"@,
        Violation::PullRateSetMismatch { dir, subtitle, set } =>
            rate_file_label(dir@, subtitle@) + ": set field '"@ + set@ + "' does not match directory"@,
        Violation::PullRatePackMissing { set, subtitle } =>
            rate_file_label(set@, subtitle@) + ": pack '"@ + subtitle@ + "' not found"@,
        Violation::PullRateUnknownRarity { set, subtitle, rarity } =>
            rate_file_label(set@, subtitle@) + ": unknown rarity '"@ + rarity@ + "'"@,
        Violation::PullRateInvalidKey { set, subtitle, key } =>
            rate_file_label(set@, subtitle@) + ": invalid card key '"@ + key@ + "'"@,
        Violation::PullRateCardMissing { set, subtitle, number } =>
            rate_file_label(set@, subtitle@) + ": card "@ + padded_spec(number as nat, 3) + " not found"@,
    }
}

fn app(a: &[char], b: &str) -> (r: Vec<char>)
    ensures
        r@ == a@ + b@,
{
    concat(a, &chars_of(b))
}

fn app_s(a: &[char], b: &String) -> (r: Vec<char>)
    ensures
        r@ == a@ + b@,
{
    concat(a, &chars_of(b.as_str()))
}

fn version_label_exec(set: &String, number: u32) -> (r: Vec<char>)
    ensures
        r@ == version_label(set@, number),
{
    concat(&app(&chars_of(set.as_str()), "/"), &padded(number as u64, 3))
}

fn rate_file_label_exec(set: &String, subtitle: &String) -> (r: Vec<char>)
    ensures
        r@ == rate_file_label(set@, subtitle@),
{
    app_s(&app(&app_s(&chars_of("pull_rates/"), set), "/"), subtitle)
}

impl Violation {
    /// The text reported for this violation.
    pub fn message(&self) -> (r: String)
        ensures
            r@ == violation_text(*self),
    {
        let m = match self {
            Violation::ElementsMissing => chars_of("elements.json not found — run `global-master` first"),
            Violation::CardsMissing => chars_of("data/cards/ not found — run `cards` command first"),
            Violation::SetNotInDatabase { set } => app(&chars_of(set.as_str()), ": set missing from DB map — versions skipped"),
            Violation::AbstractCardMissing { set, number, card_id } => {
                let m = app(&version_label_exec(set, *number), ": abstract card ");
                app(&concat(&m, &padded(*card_id as u64, 5)), " not found")
            },
            Violation::UnknownRarity { set, number, rarity } =>
                app(&app_s(&app(&version_label_exec(set, *number), ": unknown rarity '"), rarity), "'"),
            Violation::PackMissing { set, number, subtitle } =>
                app(&app_s(&app(&version_label_exec(set, *number), ": pack '"), subtitle), "' not found"),
            Violation::NoNatdex { name } => app(&app_s(&chars_of("pokemon "), name), ": no natdex_number — inserting by name"),
            Violation::NatdexNotFound { name, natdex } => {
                let m = app(&app_s(&chars_of("pokemon "), name), ": natdex ");
                app(&concat(&m, &decimal(*natdex as u64)), " not in base_pokemon — inserting by name")
            },
            Violation::UnknownCardType { id, name, card_type } => {
                let m = app(&concat(&chars_of("card "), &decimal(*id as u64)), " (");
                app(&app_s(&app(&app_s(&m, name), "): unknown card_type '"), card_type), "'")
            },
            Violation::TrainerKindMissing { name } => app(&app_s(&chars_of("trainer "), name), ": missing trainer_kind — skipped"),
            Violation::PullRateSetMissing { set } => app(&app_s(&chars_of("pull_rates/"), set), ": set not found in DB"),
            Violation::PullRateSetMismatch { dir, subtitle, set } =>
                app(&app_s(&app(&rate_file_label_exec(dir, subtitle), ": set field '"), set), "' does not match directory"),
            Violation::PullRatePackMissing { set, subtitle } =>
                app(&app_s(&app(&rate_file_label_exec(set, subtitle), ": pack '"), subtitle), "' not found"),
            Violation::PullRateUnknownRarity { set, subtitle, rarity } =>
                app(&app_s(&app(&rate_file_label_exec(set, subtitle), ": unknown rarity '"), rarity), "'"),
            Violation::PullRateInvalidKey { set, subtitle, key } =>
                app(&app_s(&app(&rate_file_label_exec(set, subtitle), ": invalid card key '"), key), "'"),
            Violation::PullRateCardMissing { set, subtitle, number } => {
                let m = app(&rate_file_label_exec(set, subtitle), ": card ");
                app(&concat(&m, &padded(*number as u64, 3)), " not found")
            },
        };
        string_of(&m)
    }
}

// ───────────────────────── what a card contributes ─────────────────────────

/// The two kinds of abstract card the database knows.
pub enum CardKind {
    Pokemon,
    Trainer,
}

/// A card's kind by its `card_type`, or the violation for any other type.
pub open spec fn card_kind_spec(c: AbstractCard) -> Result<CardKind, Violation> {
    if c.card_type@ == "pokemon"@ {
        Ok(CardKind::Pokemon)
    } else if c.card_type@ == "trainer"@ {
        Ok(CardKind::Trainer)
    } else {
        Err(Violation::UnknownCardType { id: c.id, name: c.name, card_type: c.card_type })
    }
}

pub fn card_kind(card: &AbstractCard) -> (r: Result<CardKind, Violation>)
    ensures
        r == card_kind_spec(*card),
{
    let t = chars_of(card.card_type.as_str());
    if seq_eq(&t, &chars_of("pokemon")) {
        Ok(CardKind::Pokemon)
    } else if seq_eq(&t, &chars_of("trainer")) {
        Ok(CardKind::Trainer)
    } else {
        Err(Violation::UnknownCardType { id: card.id, name: card.name.clone(), card_type: card.card_type.clone() })
    }
}

/// What is reported when a Pokémon's base Pokémon is inserted by name: it
/// has no national dex number, or (`natdex_known` false) its number is not
/// among the base Pokémon.
pub open spec fn base_pokemon_note_spec(c: AbstractCard, natdex_known: bool) -> Option<Violation> {
    match c.natdex_number {
        Some(n) => if natdex_known {
            None
        } else {
            Some(Violation::NatdexNotFound { name: c.name, natdex: n })
        },
        None => Some(Violation::NoNatdex { name: c.name }),
    }
}

pub fn base_pokemon_note(card: &AbstractCard, natdex_known: bool) -> (r: Option<Violation>)
    ensures
        r == base_pokemon_note_spec(*card, natdex_known),
{
    match card.natdex_number {
        Some(n) => if natdex_known {
            None
        } else {
            Some(Violation::NatdexNotFound { name: card.name.clone(), natdex: n })
        },
        None => Some(Violation::NoNatdex { name: card.name.clone() }),
    }
}

/// The Pokémon row of a card: its element and stage (a card without either
/// gets no row), retreat cost and HP, and whether it is an ex or a Mega.
pub struct PokemonRow {
    pub element: String,
    pub stage: String,
    pub retreat_cost: Option<u32>,
    pub hp: Option<u32>,
    pub is_ex: bool,
    pub is_mega: bool,
}

pub open spec fn pokemon_row_spec(c: AbstractCard) -> Option<PokemonRow> {
    match (c.element, c.stage) {
        (Some(e), Some(st)) => Some(PokemonRow {
            element: e,
            stage: st,
            retreat_cost: c.retreat_cost,
            hp: c.hp,
            is_ex: c.is_ex == Some(true),
            is_mega: c.is_mega == Some(true),
        }),
        _ => None,
    }
}

pub fn pokemon_row(card: &AbstractCard) -> (r: Option<PokemonRow>)
    ensures
        r == pokemon_row_spec(*card),
{
    match (&card.element, &card.stage) {
        (Some(e), Some(st)) => Some(PokemonRow {
            element: e.clone(),
            stage: st.clone(),
            retreat_cost: card.retreat_cost,
            hp: card.hp,
            is_ex: match card.is_ex {
                Some(b) => b,
                None => false,
            },
            is_mega: match card.is_mega {
                Some(b) => b,
                None => false,
            },
        }),
        _ => None,
    }
}

/// The trainer row of a card: its kind and its effect ("" when it has none),
/// or the violation when it has no kind.
pub open spec fn trainer_row_spec(c: AbstractCard) -> Result<(String, Seq<char>), Violation> {
    match c.trainer_kind {
        Some(k) => Ok((k, match c.trainer_effect {
            Some(e) => e@,
            None => Seq::empty(),
        })),
        None => Err(Violation::TrainerKindMissing { name: c.name }),
    }
}

pub fn trainer_row(card: &AbstractCard) -> (r: Result<(String, String), Violation>)
    ensures
        match r {
            Ok((k, e)) => trainer_row_spec(*card) == Ok::<(String, Seq<char>), Violation>((k, e@)),
            Err(v) => trainer_row_spec(*card) == Err::<(String, Seq<char>), Violation>(v),
        },
{
    match &card.trainer_kind {
        Some(k) => {
            let e = match &card.trainer_effect {
                Some(e) => e.clone(),
                None => {
                    let e = string_of(&Vec::new());
                    assert(e@ =~= Seq::<char>::empty());
                    e
                },
            };
            Ok((k.clone(), e))
        },
        None => Err(Violation::TrainerKindMissing { name: card.name.clone() }),
    }
}

} // verus!
