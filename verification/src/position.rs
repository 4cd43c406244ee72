//! Generating a position identifier between two others.

use vstd::prelude::*;

use crate::crdt::Id;
use crate::decimal::{
    abs_int, align, aligned_fits, canon, dec_abs, dec_add, dec_div, dec_from_str,
    dec_from_u32, dec_mul, dec_new, dec_normalize, dec_sub, dec_text, dec_to_string, exact_at,
    lemma_canon, lemma_canon_same_value, lemma_exact_quotient, lemma_representable,
    max_mantissa, max_scale, parses_to, quotient_at, representable, sub_result, Dec,
};
use crate::digits::{
    all_digits, char_digit, digits_value, digit_values, lemma_pow10_add, lemma_pow10_monotonic,
    lemma_pow10_positive, pow10, string_chars, to_digit,
};

verus! {

/// The number whose decimal digits are the numbers of the identifier levels.
pub open spec fn ids_value(s: Seq<Id>) -> nat
    decreases s.len(),
{
    if s.len() == 0 {
        0
    } else {
        ids_value(s.drop_last()) * 10 + s.last().number as nat
    }
}

/// The fraction `0.d1 d2 ... dn` that a position identifier denotes, without trailing zeros.
pub open spec fn pos_decimal(s: Seq<Id>) -> Dec {
    canon(ids_value(s) as int, s.len())
}

/// The largest number `u32` can hold.
pub open spec fn max_u32() -> nat {
    4294967295
}

/// Prepending a level adds its number at the highest place.
pub proof fn lemma_ids_value_prepend(d: Id, t: Seq<Id>)
    ensures
        ids_value(seq![d] + t) == d.number * pow10(t.len()) + ids_value(t),
    decreases t.len(),
{
    if t.len() == 0 {
        assert((seq![d] + t).drop_last() =~= Seq::<Id>::empty());
        assert((seq![d] + t).last() == d);
        assert(ids_value(Seq::<Id>::empty()) == 0);
        assert(pow10(0) == 1);
    } else {
        lemma_ids_value_prepend(d, t.drop_last());
        assert((seq![d] + t).drop_last() =~= seq![d] + t.drop_last());
        assert((seq![d] + t).last() == t.last());
        assert(pow10(t.len()) == 10 * pow10((t.len() - 1) as nat));
        let p = pow10((t.len() - 1) as nat);
        assert((d.number * p + ids_value(t.drop_last())) * 10 + t.last().number == d.number * (10
            * p) + (ids_value(t.drop_last()) * 10 + t.last().number)) by (nonlinear_arith);
    }
}

/// A bound on the number of a position identifier.
pub proof fn lemma_ids_value_bound(s: Seq<Id>)
    ensures
        ids_value(s) * 9 <= max_u32() * (pow10(s.len()) - 1),
    decreases s.len(),
{
    lemma_pow10_positive(s.len());
    if s.len() > 0 {
        lemma_ids_value_bound(s.drop_last());
        let v = ids_value(s.drop_last());
        let p = pow10((s.len() - 1) as nat);
        lemma_pow10_positive((s.len() - 1) as nat);
        assert(pow10(s.len()) == 10 * p);
        let d = s.last().number;
        assert((v * 10 + d) * 9 <= max_u32() * (10 * p - 1)) by (nonlinear_arith)
            requires
                v * 9 <= max_u32() * (p - 1),
                d <= max_u32(),
                p >= 1,
        ;
    }
}

pub proof fn lemma_pow10_18()
    ensures
        pow10(17) == 100000000000000000,
        pow10(18) == 1000000000000000000,
{
    reveal_with_fuel(pow10, 19);
}

/// A small non-negative integer can be held exactly by a decimal.
pub proof fn lemma_representable_int(v: int)
    requires
        0 <= v,
        v * 10 <= max_mantissa(),
    ensures
        representable(v, 0),
{
    assert(pow10(0) == 1);
    assert(exact_at(v, 0, v, 0));
    lemma_representable(v, 0, v, 0);
}

/// `Decimal` value of a position identifier: `0.d1 d2 ... dn`, normalized.
pub fn pos_id_to_decimal(x: &Vec<Id>) -> (r: Dec)
    requires
        x.len() <= 18,
    ensures
        r == pos_decimal(x@),
        r.wf(),
{
    let n = x.len();
    let mut res: Vec<u32> = Vec::new();
    let mut k: usize = 0;
    while k < n
        invariant
            n == x.len(),
            k <= n,
            res.len() == k,
            forall|j: int| 0 <= j < k ==> res[j] == x@[j].number,
        decreases n - k,
    {
        res.push(x[k].number);
        k = k + 1;
    }
    let mut sum = Dec { mantissa: 0, scale: 0 };
    let mut p: i64 = 1;
    let mut i: usize = 0;
    proof {
        assert(x@.skip(n as int) =~= Seq::<Id>::empty());
        assert(pow10(0) == 1);
    }
    while i < n
        invariant
            n == x.len(),
            n <= 18,
            i <= n,
            res.len() == n,
            forall|j: int| 0 <= j < n ==> res[j] == x@[j].number,
            p == pow10(i as nat),
            sum == (Dec { mantissa: ids_value(x@.skip(n - i)) as i128, scale: 0 }),
        decreases n - i,
    {
        let digit = res[n - 1 - i];
        let ghost t = x@.skip(n - i);
        let ghost t1 = x@.skip(n - i - 1);
        proof {
            assert(t1 =~= seq![x@[n - 1 - i]] + t);
            lemma_ids_value_prepend(x@[n - 1 - i], t);
            lemma_ids_value_bound(t1);
            lemma_pow10_monotonic(i as nat, 17);
            lemma_pow10_monotonic(t1.len(), 18);
            lemma_pow10_18();
            assert(digit * p <= max_u32() * 100000000000000000) by (nonlinear_arith)
                requires
                    digit <= max_u32(),
                    p <= 100000000000000000,
                    p >= 0,
            ;
            lemma_representable_int(digit * p);
            lemma_representable_int(ids_value(t1) as int);
            assert(pow10(0) == 1);
        }
        let a = dec_from_u32(digit);
        let b = dec_new(p, 0);
        let term = dec_mul(a, b);
        proof {
            assert(a.mantissa == digit);
            assert(b.mantissa == p);
            assert(a.scale + b.scale == 0);
            assert(a.mantissa * b.mantissa == digit * p);
            assert(abs_int(a.mantissa * b.mantissa) <= max_mantissa());
            if digit == 0 {
                assert(digit * p == 0);
            }
        }
        assert(term == Dec { mantissa: (digit * p) as i128, scale: 0 });
        proof {
            assert(pow10(0) == 1);
            assert((0 - sum.scale) as nat == 0);
            assert(align(sum, 0) == sum.mantissa * pow10(0));
            assert(align(sum, 0) == sum.mantissa);
            assert((0 - term.scale) as nat == 0);
            assert(align(term, 0) == term.mantissa * pow10(0));
            assert(align(term, 0) == term.mantissa);
            assert(max_scale(sum, term) == 0);
        }
        sum = dec_add(sum, term);
        i = i + 1;
        proof {
            lemma_pow10_monotonic(i as nat, 18);
            lemma_pow10_18();
        }
        p = p * 10;
    }
    let divisor = dec_new(p, 0);
    proof {
        assert(x@.skip(0) =~= x@);
        let nv = ids_value(x@) as int;
        lemma_ids_value_bound(x@);
        lemma_pow10_monotonic(n as nat, 18);
        lemma_pow10_18();
        lemma_pow10_positive(n as nat);
        assert(pow10(0) == 1);
        assert(nv * 10 <= max_mantissa());
        assert(sum.mantissa == nv);
        assert(divisor.mantissa == pow10(n as nat));
        assert(nv * divisor.mantissa * pow10(0) == sum.mantissa * pow10(0) * pow10(n as nat))
            by (nonlinear_arith)
            requires
                pow10(0) == 1,
                sum.mantissa == nv,
                divisor.mantissa == pow10(n as nat),
        ;
        assert(quotient_at(sum, divisor, nv, n as nat));
        lemma_exact_quotient(sum, divisor, nv, n as nat);
    }
    let decimal = dec_div(sum, divisor);
    proof {
        let nv = ids_value(x@) as int;
        assert(pow10(0) == 1);
        assert(decimal.mantissa * pow10(n as nat) == nv * pow10(decimal.scale as nat))
            by (nonlinear_arith)
            requires
                pow10(0) == 1,
                sum.mantissa == nv,
                divisor.mantissa == pow10(n as nat),
                decimal.mantissa * divisor.mantissa * pow10(sum.scale as nat) == sum.mantissa
                    * pow10(divisor.scale as nat) * pow10(decimal.scale as nat),
                sum.scale == 0,
                divisor.scale == 0,
        ;
        lemma_canon_same_value(decimal.mantissa as int, decimal.scale as nat, nv, n as nat);
        lemma_canon(nv, n as nat);
    }
    dec_normalize(decimal)
}


/// The exponent `e` of the step `10^-e` added to the lower position, read from the
/// digits of the difference after its leading `"0."`: one more place per leading zero,
/// and one place further when the first other digit is a `1`.
pub open spec fn step_exp(t: Seq<char>) -> nat
    decreases t.len(),
{
    if t.len() == 0 {
        1
    } else if t[0] == '0' {
        1 + step_exp(t.drop_first())
    } else if t[0] == '1' {
        2
    } else {
        1
    }
}

/// How many times the step is divided by ten while reading `t`.
pub open spec fn step_divs(t: Seq<char>) -> nat
    decreases t.len(),
{
    if t.len() == 0 {
        0
    } else if t[0] == '0' {
        1 + step_divs(t.drop_first())
    } else {
        1
    }
}

/// The text of the difference without its first two characters.
pub open spec fn gap_digits(dif: Dec) -> Seq<char> {
    dec_text(dif).skip(2)
}

/// The scale at which `x + 10^-e` is written exactly.
pub open spec fn gap_exp(x: Dec, e: nat) -> nat {
    if x.scale >= e {
        x.scale as nat
    } else {
        e
    }
}

/// The mantissa of `x + 10^-e` at the scale `gap_exp(x, e)`.
pub open spec fn gap_num(x: Dec, e: nat) -> int {
    x.mantissa * pow10((gap_exp(x, e) - x.scale) as nat) + pow10((gap_exp(x, e) - e) as nat)
}

/// `add` can run on `x` and the difference `dif` without a panic and without rounding.
pub open spec fn gap_ok(x: Dec, dif: Dec) -> bool {
    &&& x.wf()
    &&& dif.wf()
    &&& dec_text(dif).len() >= 2
    &&& step_divs(gap_digits(dif)) <= 27
    &&& representable(gap_num(x, step_exp(gap_digits(dif))), gap_exp(x, step_exp(gap_digits(dif))))
}

/// `x + 10^-e`, normalized, for the step read from the difference.
pub open spec fn gap_result(x: Dec, dif: Dec) -> Dec {
    canon(gap_num(x, step_exp(gap_digits(dif))), gap_exp(x, step_exp(gap_digits(dif))))
}

proof fn lemma_step_prefix(t: Seq<char>)
    requires
        t.len() > 0,
        t[0] == '0',
    ensures
        step_exp(t) == 1 + step_exp(t.drop_first()),
        step_divs(t) == 1 + step_divs(t.drop_first()),
{
}

/// Two representations of one number are representable together.
pub proof fn lemma_representable_same_value(n1: int, e1: nat, n2: int, e2: nat)
    requires
        n1 * pow10(e2) == n2 * pow10(e1),
        representable(n1, e1),
    ensures
        representable(n2, e2),
{
    let (q, s) = choose|q: int, s: nat| #[trigger] exact_at(n1, e1, q, s);
    lemma_pow10_positive(e1);
    let p1 = pow10(e1);
    let p2 = pow10(e2);
    let ps = pow10(s);
    assert(q * p2 == n2 * ps) by (nonlinear_arith)
        requires
            q * p1 == n1 * ps,
            n1 * p2 == n2 * p1,
            p1 >= 1,
    {
        assert(q * p2 * p1 == n1 * ps * p2);
        assert(n1 * ps * p2 == n2 * p1 * ps);
        assert((q * p2) * p1 == (n2 * ps) * p1);
    }
    assert(exact_at(n2, e2, q, s));
    lemma_representable(n2, e2, q, s);
}

/// Dividing `10^-e` by `10.0` gives `10^-(e+1)`.
proof fn lemma_div_step(res: Dec, e: nat, r: Dec)
    requires
        res.mantissa * pow10(e) == pow10(res.scale as nat),
        r.mantissa * 100 * pow10(res.scale as nat) == res.mantissa * pow10(1) * pow10(
            r.scale as nat,
        ),
    ensures
        r.mantissa * pow10(e + 1) == pow10(r.scale as nat),
{
    lemma_pow10_positive(e);
    lemma_pow10_positive(res.scale as nat);
    assert(pow10(1) == 10) by {
        reveal_with_fuel(pow10, 2);
    }
    assert(pow10(e + 1) == 10 * pow10(e));
    let rm = res.mantissa as int;
    let pe = pow10(e);
    let prs = pow10(res.scale as nat);
    let prr = pow10(r.scale as nat);
    let m = r.mantissa as int;
    assert(rm > 0) by (nonlinear_arith)
        requires
            rm * pe == prs,
            pe >= 1,
            prs >= 1,
    ;
    assert(m * (10 * pe) == prr) by (nonlinear_arith)
        requires
            rm * pe == prs,
            m * 100 * prs == rm * 10 * prr,
            rm > 0,
    {
        assert(m * 100 * (rm * pe) == rm * 10 * prr);
        assert(rm * (m * 100 * pe) == rm * (10 * prr));
    }
}

/// Multiplying `10^-(e+1)` by `10.0` gives `10^-e`.
proof fn lemma_mul_step(r: Dec, e: nat, m: Dec)
    requires
        r.mantissa * pow10(e + 1) == pow10(r.scale as nat),
        m.mantissa * pow10((r.scale + 1) as nat) == r.mantissa * 100 * pow10(m.scale as nat),
    ensures
        m.mantissa * pow10(e) == pow10(m.scale as nat),
{
    lemma_pow10_positive(e);
    lemma_pow10_positive(r.scale as nat);
    assert(pow10(e + 1) == 10 * pow10(e));
    assert(pow10((r.scale + 1) as nat) == 10 * pow10(r.scale as nat));
    let pe = pow10(e);
    let prs = pow10(r.scale as nat);
    let pms = pow10(m.scale as nat);
    let rm = r.mantissa as int;
    let mm = m.mantissa as int;
    assert(mm * pe == pms) by (nonlinear_arith)
        requires
            rm * (10 * pe) == prs,
            mm * (10 * prs) == rm * 100 * pms,
            prs >= 1,
    {
        assert(mm * 10 * prs * pe == rm * 100 * pms * pe);
        assert(rm * 100 * pe == 10 * prs);
        assert(mm * 10 * prs * pe == 10 * prs * pms);
        assert((mm * pe) * (10 * prs) == pms * (10 * prs));
    }
}

/// The product `10^-(e+1) * 10.0` is `10^-e`, which a decimal holds.
proof fn lemma_mul_step_exact(r: Dec, e: nat)
    requires
        r.mantissa * pow10(e + 1) == pow10(r.scale as nat),
        e <= 28,
    ensures
        exact_at(r.mantissa * 100, (r.scale + 1) as nat, 1, e),
{
    lemma_pow10_positive(e);
    assert(pow10(e + 1) == 10 * pow10(e));
    assert(pow10((r.scale + 1) as nat) == 10 * pow10(r.scale as nat));
    let pe = pow10(e);
    let prs = pow10(r.scale as nat);
    let rm = r.mantissa as int;
    assert(1 * pow10((r.scale + 1) as nat) == rm * 100 * pe) by (nonlinear_arith)
        requires
            rm * (10 * pe) == prs,
            pow10((r.scale + 1) as nat) == 10 * prs,
    ;
}

/// `x + 10^-e` at the scale of both operands has the value of `gap_num`.
proof fn lemma_gap_value(x: Dec, res: Dec, e: nat)
    requires
        res.mantissa * pow10(e) == pow10(res.scale as nat),
    ensures
        (align(x, max_scale(x, res)) + align(res, max_scale(x, res))) * pow10(gap_exp(x, e))
            == gap_num(x, e) * pow10(max_scale(x, res)),
{
    let s = max_scale(x, res);
    let g = gap_exp(x, e);
    let xs = x.scale as nat;
    let rs = res.scale as nat;
    lemma_pow10_add((s - xs) as nat, g);
    lemma_pow10_add((g - xs) as nat, s);
    assert((s - xs) as nat + g == (g - xs) as nat + s);
    let xm = x.mantissa as int;
    assert(xm * pow10((s - xs) as nat) * pow10(g) == xm * pow10((g - xs) as nat) * pow10(s))
        by (nonlinear_arith)
        requires
            pow10((s - xs) as nat) * pow10(g) == pow10((g - xs) as nat) * pow10(s),
    ;
    lemma_pow10_add((s - rs) as nat, g);
    lemma_pow10_add(rs, (s - rs) as nat + g);
    lemma_pow10_add((g - e) as nat, s);
    lemma_pow10_add(e, (g - e) as nat + s);
    assert(rs + ((s - rs) as nat + g) == e + ((g - e) as nat + s));
    lemma_pow10_positive(e);
    let rm = res.mantissa as int;
    let a = pow10((s - rs) as nat + g);
    let b = pow10((g - e) as nat + s);
    assert(rm * a == b) by (nonlinear_arith)
        requires
            rm * pow10(e) == pow10(rs),
            pow10(rs) * a == pow10(e) * b,
            pow10(e) >= 1,
    {
        assert(pow10(e) * (rm * a) == pow10(e) * b);
    }
    assert(rm * pow10((s - rs) as nat) * pow10(g) == pow10((g - e) as nat) * pow10(s))
        by (nonlinear_arith)
        requires
            rm * a == b,
            a == pow10((s - rs) as nat) * pow10(g),
            b == pow10((g - e) as nat) * pow10(s),
    ;
    let ax = xm * pow10((s - xs) as nat);
    let ar = rm * pow10((s - rs) as nat);
    assert(align(x, s) == ax);
    assert(align(res, s) == ar);
    let gx = xm * pow10((g - xs) as nat);
    let ge = pow10((g - e) as nat);
    assert(gap_num(x, e) == gx + ge);
    let pg = pow10(g);
    let ps = pow10(s);
    assert((ax + ar) * pg == (gx + ge) * ps) by (nonlinear_arith)
        requires
            ax * pg == gx * ps,
            ar * pg == ge * ps,
    ;
}

/// The decimal `10.0`, read from its text.
fn decimal_ten() -> (r: Dec)
    ensures
        r == (Dec { mantissa: 100, scale: 1 }),
{
    proof {
        reveal_strlit("10.0");
        let t = "10.0"@;
        assert(t.take(2) =~= seq!['1', '0']);
        assert(t.skip(3) =~= seq!['0']);
        assert(t.take(2) + t.skip(3) =~= seq!['1', '0', '0']);
        assert(digits_value(seq!['1', '0', '0']) == 100) by {
            reveal_with_fuel(digits_value, 4);
            assert(seq!['1', '0', '0'].drop_last() =~= seq!['1', '0']);
            assert(seq!['1', '0'].drop_last() =~= seq!['1']);
            assert(seq!['1'].drop_last() =~= Seq::<char>::empty());
        }
        assert(t[2] == '.');
        assert(parses_to(t, Dec { mantissa: 100, scale: 1 }));
    }
    dec_from_str("10.0").unwrap()
}

/// Adds to `x` a step derived from the first significant digit
/// of the difference `dif`, and normalizes the sum.
fn add_gap(x: Dec, dif: Dec) -> (r: Dec)
    requires
        gap_ok(x, dif),
    ensures
        r == gap_result(x, dif),
        r.wf(),
{
    let mut res = dec_new(1, 1);
    let text = dec_to_string(dif);
    let s = string_chars(text.as_str());
    let ghost t = gap_digits(dif);
    let ghost e0 = step_exp(t);
    let mut i: usize = 2;
    let ghost mut e: nat = 1;
    proof {
        assert(s@.skip(2) == t);
        assert(pow10(1) == 10) by {
            reveal_with_fuel(pow10, 2);
        }
    }
    while i < s.len()
        invariant_except_break
            2 <= i <= s.len(),
            s@ == dec_text(dif),
            t == s@.skip(2),
            e == i - 1,
            res.wf(),
            res.mantissa * pow10(e) == pow10(res.scale as nat),
            step_exp(t) == (i - 2) + step_exp(s@.skip(i as int)),
            step_divs(t) == (i - 2) + step_divs(s@.skip(i as int)),
            step_divs(t) <= 27,
            pow10(1) == 10,
        ensures
            res.wf(),
            res.mantissa * pow10(step_exp(t)) == pow10(res.scale as nat),
        decreases s.len() - i,
    {
        let c = s[i];
        let ghost rest = s@.skip(i as int);
        proof {
            assert(rest[0] == c);
            assert(step_divs(rest) >= 1);
            assert(e + 1 <= 28);
        }
        let ten = decimal_ten();
        proof {
            assert(quotient_at(res, ten, 1, (e + 1) as nat)) by {
                assert(pow10(e + 1) == 10 * pow10(e));
                assert(1 * ten.mantissa * pow10(res.scale as nat) == res.mantissa * pow10(1)
                    * pow10(e + 1)) by (nonlinear_arith)
                    requires
                        ten.mantissa == 100,
                        pow10(1) == 10,
                        pow10(e + 1) == 10 * pow10(e),
                        res.mantissa * pow10(e) == pow10(res.scale as nat),
                ;
            }
            lemma_exact_quotient(res, ten, 1, (e + 1) as nat);
        }
        let ghost before = res;
        res = dec_div(res, ten);
        proof {
            lemma_div_step(before, e, res);
        }
        if c != '0' {
            if c != '1' {
                let ghost r1 = res;
                proof {
                    lemma_pow10_positive(e);
                    assert(pow10((r1.scale + 1) as nat) == 10 * pow10(r1.scale as nat));
                    lemma_mul_step_exact(r1, e);
                    lemma_representable(r1.mantissa * ten.mantissa, (r1.scale + ten.scale) as nat, 1, e);
                }
                res = dec_mul(res, ten);
                proof {
                    lemma_mul_step(r1, e, res);
                    assert(step_exp(rest) == 1);
                }
            } else {
                proof {
                    assert(step_exp(rest) == 2);
                }
            }
            break;
        }
        i = i + 1;
        proof {
            e = e + 1;
            lemma_step_prefix(rest);
            assert(rest.drop_first() =~= s@.skip(i as int));
        }
    }
    proof {
        let e1 = step_exp(t);
        lemma_gap_value(x, res, e1);
        let sm = max_scale(x, res);
        let an = align(x, sm) + align(res, sm);
        lemma_representable_same_value(gap_num(x, e1), gap_exp(x, e1), an, sm);
    }
    let sum = dec_add(x, res);
    proof {
        let e1 = step_exp(t);
        let sm = max_scale(x, res);
        let an = align(x, sm) + align(res, sm);
        lemma_canon_same_value(sum.mantissa as int, sum.scale as nat, an, sm);
        lemma_canon_same_value(an, sm, gap_num(x, e1), gap_exp(x, e1));
        lemma_canon(sum.mantissa as int, sum.scale as nat);
    }
    dec_normalize(sum)
}


/// Level `i` of the digits agrees with the lower or the upper position.
pub open spec fn matches_at(start: Seq<Id>, d: Seq<u32>, end: Seq<Id>, i: int) -> bool {
    ||| (i < start.len() && start[i].number == d[i])
    ||| (i < end.len() && end[i].number == d[i])
}

/// The first level from `i` on where the digits agree with neither position.
pub open spec fn first_mismatch(start: Seq<Id>, d: Seq<u32>, end: Seq<Id>, i: nat) -> Option<nat>
    decreases d.len() - i,
{
    if i >= d.len() {
        None
    } else if matches_at(start, d, end, i as int) {
        first_mismatch(start, d, end, i + 1)
    } else {
        Some(i)
    }
}

/// The level taken from the lower position when it has the digit, else from the upper one.
pub open spec fn pick(start: Seq<Id>, d: Seq<u32>, end: Seq<Id>, i: int) -> Id {
    if i < start.len() && start[i].number == d[i] {
        start[i]
    } else {
        end[i]
    }
}

/// The position whose levels carry the digits `d`: the levels that agree
/// with the lower or upper position are taken from it, up to the first level that
/// agrees with neither; from there on (or, when every level agrees, from the length
/// of the lower position on) the digits get levels of the new user.
pub open spec fn merged_ids(start: Seq<Id>, d: Seq<u32>, end: Seq<Id>, u: u32) -> Seq<Id> {
    let stop: nat = match first_mismatch(start, d, end, 0) {
        Some(k) => k,
        None => d.len(),
    };
    let j: nat = match first_mismatch(start, d, end, 0) {
        Some(k) => k,
        None => start.len(),
    };
    let fresh: nat = if j < d.len() {
        (d.len() - j) as nat
    } else {
        0
    };
    Seq::new(stop, |i: int| pick(start, d, end, i)) + Seq::new(
        fresh,
        |k: int| Id { number: d[j + k], user: u },
    )
}

/// The characters of the text of `z` after its first two.
pub open spec fn digits_tail(z: Dec) -> Seq<char> {
    if dec_text(z).len() >= 2 {
        dec_text(z).skip(2)
    } else {
        Seq::empty()
    }
}

fn decimal_to_pos_id_vec(start: &Vec<Id>, x: Dec, end: &Vec<Id>, new_user_id: u32) -> (res: Vec<Id>)
    requires
        x.wf(),
        all_digits(digits_tail(x)),
    ensures
        res@ == merged_ids(start@, digit_values(digits_tail(x)), end@, new_user_id),
{
    let number_str = dec_to_string(x);
    let cs = string_chars(number_str.as_str());
    let ghost tail = digits_tail(x);
    let mut digits: Vec<u32> = Vec::new();
    let mut k: usize = 2;
    proof {
        if cs.len() < 2 {
            assert(tail =~= Seq::<char>::empty());
        }
    }
    while k < cs.len()
        invariant
            cs@ == dec_text(x),
            tail == digits_tail(x),
            all_digits(tail),
            k >= 2,
            cs.len() >= 2 ==> 2 <= k <= cs.len(),
            cs.len() >= 2 ==> tail == cs@.skip(2),
            cs.len() >= 2 ==> digits@ =~= digit_values(tail).take(k - 2),
            cs.len() < 2 ==> digits@.len() == 0,
        decreases cs.len() - k,
    {
        let c = cs[k];
        assert(tail[k - 2] == c);
        assert(char_digit(tail[k - 2]) is Some);
        let v = to_digit(c).unwrap();
        digits.push(v);
        k = k + 1;
        assert(digits@ =~= digit_values(tail).take(k - 2));
    }
    let ghost d = digit_values(tail);
    proof {
        if cs.len() >= 2 {
            assert(digits@ =~= d);
        } else {
            assert(d =~= Seq::<u32>::empty());
            assert(digits@ =~= d);
        }
    }
    let mut res: Vec<Id> = Vec::new();
    let mut j: usize = start.len();
    let mut i: usize = 0;
    while i < digits.len()
        invariant_except_break
            digits@ == d,
            i <= d.len(),
            j == start.len(),
            res@ =~= Seq::new(i as nat, |m: int| pick(start@, d, end@, m)),
            first_mismatch(start@, d, end@, 0) == first_mismatch(start@, d, end@, i as nat),
        ensures
            digits@ == d,
            res@ =~= Seq::new(
                match first_mismatch(start@, d, end@, 0) {
                    Some(k) => k,
                    None => d.len(),
                },
                |m: int| pick(start@, d, end@, m),
            ),
            j == match first_mismatch(start@, d, end@, 0) {
                Some(k) => k,
                None => start.len() as nat,
            },
        decreases d.len() - i,
    {
        if start.len() > i && start[i].number == digits[i] {
            res.push(start[i]);
        } else if end.len() > i && end[i].number == digits[i] {
            res.push(end[i]);
        } else {
            j = i;
            break;
        }
        i = i + 1;
    }
    let mut i2: usize = j;
    let ghost prefix = res@;
    while i2 < digits.len()
        invariant
            digits@ == d,
            j <= i2 <= d.len() || (j >= d.len() && i2 == j),
            res@ =~= prefix + Seq::new(
                (i2 - j) as nat,
                |m: int| Id { number: d[j + m], user: new_user_id },
            ),
        decreases d.len() - i2,
    {
        res.push(Id { number: digits[i2], user: new_user_id });
        i2 = i2 + 1;
    }
    res
}


/// The lower position, or `[0]` of the new user when it is empty.
pub open spec fn pad_low(p: Seq<Id>, u: u32) -> Seq<Id> {
    if p.len() == 0 {
        seq![Id { number: 0, user: u }]
    } else {
        p
    }
}

/// The upper position, or `[9]` of the new user when it is empty.
pub open spec fn pad_high(p: Seq<Id>, u: u32) -> Seq<Id> {
    if p.len() == 0 {
        seq![Id { number: 9, user: u }]
    } else {
        p
    }
}

/// The absolute difference of the decimals of two positions.
pub open spec fn split_dif(q1: Seq<Id>, q2: Seq<Id>) -> Dec {
    let d = sub_result(pos_decimal(q1), pos_decimal(q2));
    Dec { mantissa: abs_int(d.mantissa as int) as i128, scale: d.scale }
}

/// The decimal between two positions whose first levels differ.
pub open spec fn split_point(q1: Seq<Id>, q2: Seq<Id>) -> Dec {
    gap_result(pos_decimal(q1), split_dif(q1, q2))
}

/// The decimal computation for two positions whose first levels differ runs without
/// a panic, an overflow, or a rounding of the outside decimal type.
pub open spec fn split_ok(q1: Seq<Id>, q2: Seq<Id>) -> bool {
    let x = pos_decimal(q1);
    let y = pos_decimal(q2);
    &&& q1.len() <= 18
    &&& q2.len() <= 18
    &&& aligned_fits(x, y)
    &&& representable(align(x, max_scale(x, y)) - align(y, max_scale(x, y)), max_scale(x, y))
    &&& gap_ok(x, split_dif(q1, q2))
    &&& all_digits(digits_tail(split_point(q1, q2)))
}

/// The position between two positions whose first levels differ.
pub open spec fn split_ids(q1: Seq<Id>, q2: Seq<Id>, u: u32) -> Seq<Id> {
    merged_ids(q1, digit_values(digits_tail(split_point(q1, q2))), q2, u)
}

/// `generate_pos_id` runs on these positions without a panic and with every decimal
/// operation exact: it never meets two first levels with the same number where the
/// lower one has the larger user, and the decimal computation between positions whose
/// first levels differ runs exactly. For positions of digit levels this is `gen_runs`.
pub open spec fn gen_ok(p1: Seq<Id>, p2: Seq<Id>, u: u32) -> bool
    decreases p1.len() + p2.len(),
{
    if p1.len() == 0 && p2.len() == 0 {
        true
    } else {
        let q1 = pad_low(p1, u);
        let q2 = pad_high(p2, u);
        let b = q1[0];
        let e = q2[0];
        if b == e {
            gen_ok(q1.drop_first(), q2.drop_first(), u)
        } else if b.number == e.number && b.user < e.user {
            gen_ok(q1.drop_first(), Seq::empty(), u)
        } else if b.number != e.number {
            split_ok(q1, q2)
        } else {
            false
        }
    }
}

/// The position that `generate_pos_id` creates for a new character between the
/// positions `p1` and `p2` (an empty one standing for the start or the end).
pub open spec fn gen(p1: Seq<Id>, p2: Seq<Id>, u: u32) -> Seq<Id>
    decreases p1.len() + p2.len(),
{
    if p1.len() == 0 && p2.len() == 0 {
        seq![Id { number: 1, user: u }]
    } else {
        let q1 = pad_low(p1, u);
        let q2 = pad_high(p2, u);
        let b = q1[0];
        let e = q2[0];
        if b == e {
            seq![b] + gen(q1.drop_first(), q2.drop_first(), u)
        } else if b.number == e.number && b.user < e.user {
            seq![b] + gen(q1.drop_first(), Seq::empty(), u)
        } else if b.number != e.number {
            split_ids(q1, q2, u)
        } else {
            Seq::empty()
        }
    }
}

/// The levels of a position after the first.
pub(crate) fn tail_ids(v: &Vec<Id>) -> (r: Vec<Id>)
    requires
        v.len() >= 1,
    ensures
        r@ == v@.drop_first(),
{
    let mut r: Vec<Id> = Vec::new();
    let mut i: usize = 1;
    while i < v.len()
        invariant
            1 <= i <= v.len(),
            r@ =~= v@.subrange(1, i as int),
        decreases v.len() - i,
    {
        r.push(v[i]);
        i = i + 1;
    }
    assert(v@.subrange(1, v.len() as int) =~= v@.drop_first());
    r
}

/// Generates a position identifier for a character between the characters at
/// positions `pos_id_1` and `pos_id_2`; an empty position stands for the start or
/// the end of the document.
pub fn generate_pos_id(pos_id_1: Vec<Id>, pos_id_2: Vec<Id>, new_user_id: u32) -> (res: Vec<Id>)
    requires
        gen_ok(pos_id_1@, pos_id_2@, new_user_id),
    ensures
        res@ == gen(pos_id_1@, pos_id_2@, new_user_id),
    decreases pos_id_1@.len() + pos_id_2@.len(),
{
    let mut res: Vec<Id> = Vec::new();
    if pos_id_1.len() == 0 && pos_id_2.len() == 0 {
        res.push(Id { number: 1, user: new_user_id });
        return res;
    }
    let ghost p1 = pos_id_1@;
    let ghost p2 = pos_id_2@;
    let mut pos_id_1 = pos_id_1;
    let mut pos_id_2 = pos_id_2;
    let mut begin = Id { number: 0, user: new_user_id };
    let mut end = Id { number: 9, user: new_user_id };
    if pos_id_1.len() == 0 {
        pos_id_1.push(begin);
    }
    if pos_id_2.len() == 0 {
        pos_id_2.push(end);
    }
    begin.number = pos_id_1[0].number;
    begin.user = pos_id_1[0].user;
    end.number = pos_id_2[0].number;
    end.user = pos_id_2[0].user;
    proof {
        assert(pos_id_1@ =~= pad_low(p1, new_user_id));
        assert(pos_id_2@ =~= pad_high(p2, new_user_id));
        assert(begin == pos_id_1@[0]);
        assert(end == pos_id_2@[0]);
    }
    if begin.number == end.number && begin.user == end.user {
        res.push(begin);
        let mut rest = generate_pos_id(tail_ids(&pos_id_1), tail_ids(&pos_id_2), new_user_id);
        res.append(&mut rest);
    } else if begin.number == end.number && begin.user < end.user {
        res.push(begin);
        let mut rest = generate_pos_id(tail_ids(&pos_id_1), Vec::new(), new_user_id);
        res.append(&mut rest);
    } else if begin.number != end.number {
        let x_decimal = pos_id_to_decimal(&pos_id_1);
        let y_decimal = pos_id_to_decimal(&pos_id_2);
        let dif = dec_abs(dec_sub(x_decimal, y_decimal));
        let mut rest = decimal_to_pos_id_vec(
            &pos_id_1,
            add_gap(x_decimal, dif),
            &pos_id_2,
            new_user_id,
        );
        res.append(&mut rest);
    }
    return res;
}

} // verus!
