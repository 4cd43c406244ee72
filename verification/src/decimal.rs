//! Fixed-point decimal numbers: a plain model of `rust_decimal::Decimal`, and the
//! calls into that crate that the position logic makes.

use rust_decimal::Decimal;
use std::str::FromStr;
use vstd::prelude::*;

use crate::digits::{
    all_digits, digits_value, lemma_pow10_add, lemma_pow10_positive, nat_digits, pad_digits,
    pow10,
};

verus! {

/// The number `mantissa / 10^scale`: what a `rust_decimal::Decimal` holds.
#[derive(Clone, Copy, Debug, PartialEq, Eq, Structural)]
pub struct Dec {
    pub mantissa: i128,
    pub scale: u32,
}

/// The largest mantissa that fits in the 96 bits of a decimal.
pub open spec fn max_mantissa() -> int {
    79228162514264337593543950335
}

impl Dec {
    /// The mantissa fits in 96 bits and the scale is at most 28.
    pub open spec fn wf(self) -> bool {
        &&& -max_mantissa() <= self.mantissa <= max_mantissa()
        &&& self.scale <= 28
    }
}

pub open spec fn abs_int(m: int) -> nat {
    if m < 0 {
        (-m) as nat
    } else {
        m as nat
    }
}

/// `d` denotes the number `num / 10^exp`.
pub open spec fn has_value(d: Dec, num: int, exp: nat) -> bool {
    d.mantissa * pow10(exp) == num * pow10(d.scale as nat)
}

/// `q / 10^s` is `num / 10^exp`, with a scale of at most 28 and room for one more digit.
pub open spec fn exact_at(num: int, exp: nat, q: int, s: nat) -> bool {
    &&& s <= 28
    &&& -max_mantissa() <= q * 10 <= max_mantissa()
    &&& q * pow10(exp) == num * pow10(s)
}

/// `num / 10^exp` can be held exactly by a decimal.
pub open spec fn representable(num: int, exp: nat) -> bool {
    exists|q: int, s: nat| #[trigger] exact_at(num, exp, q, s)
}

/// `q / 10^s` is the quotient `a / b`, with a scale of at most 28 and room for one more digit.
pub open spec fn quotient_at(a: Dec, b: Dec, q: int, s: nat) -> bool {
    &&& s <= 28
    &&& -max_mantissa() <= q * 10 <= max_mantissa()
    &&& q * b.mantissa * pow10(a.scale as nat) == a.mantissa * pow10(b.scale as nat) * pow10(s)
}

/// The quotient `a / b` can be held exactly by a decimal.
pub open spec fn exact_quotient(a: Dec, b: Dec) -> bool {
    exists|q: int, s: nat| #[trigger] quotient_at(a, b, q, s)
}

pub open spec fn max_scale(a: Dec, b: Dec) -> nat {
    if a.scale >= b.scale {
        a.scale as nat
    } else {
        b.scale as nat
    }
}

/// The mantissa of `d` brought to the scale `s`.
pub open spec fn align(d: Dec, s: nat) -> int {
    d.mantissa * pow10((s - d.scale) as nat)
}

/// Both operands, brought to the larger scale, fit together in 96 bits.
pub open spec fn aligned_fits(a: Dec, b: Dec) -> bool {
    abs_int(align(a, max_scale(a, b))) + abs_int(align(b, max_scale(a, b))) <= max_mantissa()
}

/// The sum that the outside type forms: a zero operand gives the other one back,
/// otherwise both are brought to the larger scale.
pub open spec fn add_result(a: Dec, b: Dec) -> Dec {
    if a.mantissa == 0 {
        b
    } else if b.mantissa == 0 {
        a
    } else {
        Dec {
            mantissa: (align(a, max_scale(a, b)) + align(b, max_scale(a, b))) as i128,
            scale: max_scale(a, b) as u32,
        }
    }
}

/// The difference that the outside type forms, as `add_result` does.
pub open spec fn sub_result(a: Dec, b: Dec) -> Dec {
    if a.mantissa == 0 {
        Dec { mantissa: (-b.mantissa) as i128, scale: b.scale }
    } else if b.mantissa == 0 {
        a
    } else {
        Dec {
            mantissa: (align(a, max_scale(a, b)) - align(b, max_scale(a, b))) as i128,
            scale: max_scale(a, b) as u32,
        }
    }
}

/// The representation of `m / 10^s` without trailing zeros (zero has scale 0).
pub open spec fn canon(m: int, s: nat) -> Dec
    decreases s,
{
    if s > 0 && m % 10 == 0 {
        canon(m / 10, (s - 1) as nat)
    } else {
        Dec { mantissa: m as i128, scale: s as u32 }
    }
}

/// The text that `to_string` gives for a decimal: an optional sign, the integer
/// part, and when the scale is positive a point followed by exactly `scale` digits.
pub open spec fn dec_text(d: Dec) -> Seq<char> {
    let a = abs_int(d.mantissa as int);
    let s = d.scale as nat;
    let body = nat_digits(a / pow10(s)) + if s > 0 {
        seq!['.'] + pad_digits(a % pow10(s), s)
    } else {
        Seq::<char>::empty()
    };
    if d.mantissa < 0 {
        seq!['-'] + body
    } else {
        body
    }
}

/// `s` is a decimal numeral (digits, optionally a point and more digits) that denotes `d`.
pub open spec fn parses_to(s: Seq<char>, d: Dec) -> bool {
    ||| (s.len() > 0 && all_digits(s) && d.mantissa == digits_value(s) && d.scale == 0)
    ||| exists|k: int|
        0 < k < s.len() - 1 && #[trigger] s[k] == '.' && all_digits(s.take(k)) && all_digits(
            s.skip(k + 1),
        ) && d.mantissa == digits_value(s.take(k) + s.skip(k + 1)) && d.scale == s.len() - k
            - 1
}

/// `Decimal::from` for a `u32`: the number at scale 0.
#[verifier::external_body]
pub(crate) fn dec_from_u32(n: u32) -> (r: Dec)
    ensures
        r == (Dec { mantissa: n as i128, scale: 0 }),
{
    let d = Decimal::from(n);
    Dec { mantissa: d.mantissa(), scale: d.scale() }
}

/// `Decimal::new`: the decimal `num / 10^scale`, for a scale of at most 28 (larger
/// scales panic).
#[verifier::external_body]
pub(crate) fn dec_new(num: i64, scale: u32) -> (r: Dec)
    requires
        scale <= 28,
    ensures
        r == (Dec { mantissa: num as i128, scale: scale }),
{
    let d = Decimal::new(num, scale);
    Dec { mantissa: d.mantissa(), scale: d.scale() }
}

/// `Decimal + Decimal` (`Add` of `rust_decimal::Decimal`): exact when the sum can be
/// held; a zero operand gives the other one back, and operands that fit together at
/// the larger scale are added at that scale. Which representation of the sum comes
/// back when the operands must first be rescaled is left unsaid.
#[verifier::external_body]
pub(crate) fn dec_add(a: Dec, b: Dec) -> (r: Dec)
    requires
        a.wf(),
        b.wf(),
        representable(align(a, max_scale(a, b)) + align(b, max_scale(a, b)), max_scale(a, b)),
    ensures
        r.wf(),
        has_value(r, align(a, max_scale(a, b)) + align(b, max_scale(a, b)), max_scale(a, b)),
        (a.mantissa == 0 || b.mantissa == 0 || aligned_fits(a, b)) ==> r == add_result(a, b),
{
    let d = Decimal::from_i128_with_scale(a.mantissa, a.scale) + Decimal::from_i128_with_scale(
        b.mantissa,
        b.scale,
    );
    Dec { mantissa: d.mantissa(), scale: d.scale() }
}

/// `Decimal - Decimal` (`Sub` of `rust_decimal::Decimal`), with the same guarantees
/// as `dec_add`; likewise the representation after a rescaling is left unsaid.
#[verifier::external_body]
pub(crate) fn dec_sub(a: Dec, b: Dec) -> (r: Dec)
    requires
        a.wf(),
        b.wf(),
        representable(align(a, max_scale(a, b)) - align(b, max_scale(a, b)), max_scale(a, b)),
    ensures
        r.wf(),
        has_value(r, align(a, max_scale(a, b)) - align(b, max_scale(a, b)), max_scale(a, b)),
        (a.mantissa == 0 || b.mantissa == 0 || aligned_fits(a, b)) ==> r == sub_result(a, b),
{
    let d = Decimal::from_i128_with_scale(a.mantissa, a.scale) - Decimal::from_i128_with_scale(
        b.mantissa,
        b.scale,
    );
    Dec { mantissa: d.mantissa(), scale: d.scale() }
}

/// `Decimal * Decimal` (`Mul` of `rust_decimal::Decimal`): exact when the product can
/// be held; zero when an operand is zero; mantissas multiplied and scales added when
/// that fits. The representation of a product that must be rescaled is left unsaid.
#[verifier::external_body]
pub(crate) fn dec_mul(a: Dec, b: Dec) -> (r: Dec)
    requires
        a.wf(),
        b.wf(),
        representable(a.mantissa * b.mantissa, (a.scale + b.scale) as nat),
    ensures
        r.wf(),
        has_value(r, a.mantissa * b.mantissa, (a.scale + b.scale) as nat),
        (a.mantissa == 0 || b.mantissa == 0) ==> r == (Dec { mantissa: 0, scale: 0 }),
        (a.mantissa != 0 && b.mantissa != 0 && a.scale + b.scale <= 28 && abs_int(
            a.mantissa * b.mantissa,
        ) <= max_mantissa()) ==> r == (Dec {
            mantissa: (a.mantissa * b.mantissa) as i128,
            scale: (a.scale + b.scale) as u32,
        }),
{
    let d = Decimal::from_i128_with_scale(a.mantissa, a.scale) * Decimal::from_i128_with_scale(
        b.mantissa,
        b.scale,
    );
    Dec { mantissa: d.mantissa(), scale: d.scale() }
}

/// `Decimal / Decimal` (`Div` of `rust_decimal::Decimal`): exact when the quotient can
/// be held. Only the number that comes back is stated, not its scale.
#[verifier::external_body]
pub(crate) fn dec_div(a: Dec, b: Dec) -> (r: Dec)
    requires
        a.wf(),
        b.wf(),
        b.mantissa != 0,
        exact_quotient(a, b),
    ensures
        r.wf(),
        r.mantissa * b.mantissa * pow10(a.scale as nat) == a.mantissa * pow10(b.scale as nat)
            * pow10(r.scale as nat),
{
    let d = Decimal::from_i128_with_scale(a.mantissa, a.scale) / Decimal::from_i128_with_scale(
        b.mantissa,
        b.scale,
    );
    Dec { mantissa: d.mantissa(), scale: d.scale() }
}

/// `Decimal::abs`: the same mantissa without its sign, at the same scale.
#[verifier::external_body]
pub(crate) fn dec_abs(a: Dec) -> (r: Dec)
    requires
        a.wf(),
    ensures
        r == (Dec { mantissa: abs_int(a.mantissa as int) as i128, scale: a.scale }),
{
    let d = Decimal::from_i128_with_scale(a.mantissa, a.scale).abs();
    Dec { mantissa: d.mantissa(), scale: d.scale() }
}

/// `Decimal::normalize`: strips the trailing zeros of the mantissa, lowering the scale;
/// zero comes back with scale 0.
#[verifier::external_body]
pub(crate) fn dec_normalize(a: Dec) -> (r: Dec)
    requires
        a.wf(),
    ensures
        r == canon(a.mantissa as int, a.scale as nat),
{
    let d = Decimal::from_i128_with_scale(a.mantissa, a.scale).normalize();
    Dec { mantissa: d.mantissa(), scale: d.scale() }
}

/// `Decimal::fract`: the number minus its integer part, for zero and positive numbers
/// (zero comes back with scale 0); what it gives for a negative number is left unsaid.
#[verifier::external_body]
pub(crate) fn dec_fract(a: Dec) -> (r: Dec)
    requires
        a.wf(),
    ensures
        a.mantissa == 0 ==> r == (Dec { mantissa: 0, scale: 0 }),
        a.mantissa > 0 ==> r == (Dec {
            mantissa: (a.mantissa % (pow10(a.scale as nat) as i128)) as i128,
            scale: a.scale,
        }),
{
    let d = Decimal::from_i128_with_scale(a.mantissa, a.scale).fract();
    Dec { mantissa: d.mantissa(), scale: d.scale() }
}

/// `Decimal < Decimal` (`PartialOrd` of `rust_decimal::Decimal`): compares the numbers.
#[verifier::external_body]
pub(crate) fn dec_lt(a: Dec, b: Dec) -> (r: bool)
    requires
        a.wf(),
        b.wf(),
    ensures
        r == (a.mantissa * pow10(b.scale as nat) < b.mantissa * pow10(a.scale as nat)),
{
    Decimal::from_i128_with_scale(a.mantissa, a.scale) < Decimal::from_i128_with_scale(
        b.mantissa,
        b.scale,
    )
}

/// `Decimal::to_string` (its `Display`): an optional `'-'`, the integer part, and the
/// `scale` digits of the fraction after a point when the scale is positive.
#[verifier::external_body]
pub(crate) fn dec_to_string(a: Dec) -> (r: String)
    requires
        a.wf(),
    ensures
        r@ == dec_text(a),
{
    Decimal::from_i128_with_scale(a.mantissa, a.scale).to_string()
}

/// `Decimal::from_str`: a decimal numeral of at most 28 characters (digits, with at
/// most one point between digits) is read exactly, at the scale its digits after the
/// point give. What other texts give is left unsaid.
#[verifier::external_body]
pub(crate) fn dec_from_str(s: &str) -> (r: Option<Dec>)
    ensures
        forall|d: Dec| #[trigger] parses_to(s@, d) && s@.len() <= 28 ==> r == Some(d),
{
    match Decimal::from_str(s) {
        Ok(d) => Some(Dec { mantissa: d.mantissa(), scale: d.scale() }),
        Err(_) => None,
    }
}

pub proof fn lemma_representable(num: int, exp: nat, q: int, s: nat)
    requires
        exact_at(num, exp, q, s),
    ensures
        representable(num, exp),
{
}

pub proof fn lemma_exact_quotient(a: Dec, b: Dec, q: int, s: nat)
    requires
        quotient_at(a, b, q, s),
    ensures
        exact_quotient(a, b),
{
}

/// Stripping trailing zeros keeps the number.
pub proof fn lemma_canon(m: int, s: nat)
    requires
        abs_int(m) <= max_mantissa(),
        s <= 28,
    ensures
        canon(m, s).mantissa * pow10(s) == m * pow10(canon(m, s).scale as nat),
        canon(m, s).scale <= s,
        abs_int(canon(m, s).mantissa as int) <= abs_int(m),
        m == 0 ==> canon(m, s) == (Dec { mantissa: 0, scale: 0 }),
        canon(m, s).scale > 0 ==> canon(m, s).mantissa % 10 != 0,
        canon(m, s).wf(),
    decreases s,
{
    if s > 0 && m % 10 == 0 {
        let m1 = m / 10;
        lemma_canon(m1, (s - 1) as nat);
        let c = canon(m1, (s - 1) as nat);
        assert(m == 10 * m1);
        assert(pow10(s) == 10 * pow10((s - 1) as nat));
        assert(c.mantissa * pow10((s - 1) as nat) == m1 * pow10(c.scale as nat));
        assert(c.mantissa * pow10(s) == m * pow10(c.scale as nat)) by (nonlinear_arith)
            requires
                c.mantissa * pow10((s - 1) as nat) == m1 * pow10(c.scale as nat),
                pow10(s) == 10 * pow10((s - 1) as nat),
                m == 10 * m1,
        ;
    } else {
        if m == 0 {
            assert(s == 0);
        }
    }
}

/// Scaling a representation up by trailing zeros does not change its canonical form.
pub proof fn lemma_canon_scale_up(m: int, s: nat, k: nat)
    ensures
        canon(m * pow10(k), s + k) == canon(m, s),
    decreases k,
{
    if k > 0 {
        lemma_canon_scale_up(m, s, (k - 1) as nat);
        let p = pow10((k - 1) as nat);
        assert(pow10(k) == 10 * p);
        assert(m * pow10(k) == (m * p) * 10) by (nonlinear_arith)
            requires
                pow10(k) == 10 * p,
        ;
        assert((m * p) * 10 % 10 == 0) by (nonlinear_arith);
        assert((m * p) * 10 / 10 == m * p) by (nonlinear_arith);
        assert((s + k - 1) as nat == s + (k - 1) as nat);
    } else {
        assert(pow10(0) == 1);
        assert(m * pow10(0) == m);
    }
}

/// Two representations of one number have the same canonical form.
pub proof fn lemma_canon_same_value(m1: int, s1: nat, m2: int, s2: nat)
    requires
        m1 * pow10(s2) == m2 * pow10(s1),
    ensures
        canon(m1, s1) == canon(m2, s2),
{
    if s1 <= s2 {
        let d = (s2 - s1) as nat;
        lemma_pow10_add(s1, d);
        lemma_pow10_positive(s1);
        let p1 = pow10(s1);
        let pd = pow10(d);
        assert(m1 * (p1 * pd) == m2 * p1);
        assert(m2 == m1 * pd) by (nonlinear_arith)
            requires
                m1 * (p1 * pd) == m2 * p1,
                p1 >= 1,
        ;
        lemma_canon_scale_up(m1, s1, d);
        assert(s1 + d == s2);
    } else {
        let d = (s1 - s2) as nat;
        lemma_pow10_add(s2, d);
        lemma_pow10_positive(s2);
        let p2 = pow10(s2);
        let pd = pow10(d);
        assert(m1 * p2 == m2 * (p2 * pd));
        assert(m1 == m2 * pd) by (nonlinear_arith)
            requires
                m1 * p2 == m2 * (p2 * pd),
                p2 >= 1,
        ;
        lemma_canon_scale_up(m2, s2, d);
        assert(s2 + d == s1);
    }
}

} // verus!
