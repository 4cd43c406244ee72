//! When generating a position runs: for positions whose levels hold decimal digits,
//! the decimal computation is always exact, and only two things stop it.

use vstd::prelude::*;

use crate::between::{
    dig, digit_levels, lemma_digit_levels_numbers, lemma_first_digit_order, lemma_fraction_text,
    lemma_ids_val, lemma_pow10_split, lemma_scale_to, lemma_step_exp_bound, lemma_val_agree,
    lemma_val_bounds, lemma_val_eq_digits, lemma_val_first_diff, lemma_val_pad, lemma_val_split,
    numbers, val,
};
use crate::keys::dec_value_lt;
use crate::session::copy_ids;
use crate::crdt::Id;
use crate::decimal::{
    abs_int, align, aligned_fits, canon, dec_text, exact_at, lemma_canon, lemma_representable,
    max_scale, representable, sub_result, Dec,
};
use crate::digits::{
    all_digits, lemma_pad_digits, lemma_pow10_add, lemma_pow10_monotonic, lemma_pow10_positive,
    nat_digits, pad_digits, pow10,
};
use crate::position::{
    digits_tail, gap_digits, gap_exp, gap_num, gap_ok, gen_ok, ids_value, lemma_pow10_18, pad_high,
    pad_low, pos_decimal, split_dif, split_ok, split_point, step_divs, step_exp, tail_ids,
};

verus! {

/// `generate_pos_id` meets no pair of first levels with the same number where the
/// lower one has the larger user, and every pair of positions it turns into decimals
/// has at most 18 levels each.
pub open spec fn gen_runs(p1: Seq<Id>, p2: Seq<Id>, u: u32) -> bool
    decreases p1.len() + p2.len(),
{
    if p1.len() == 0 && p2.len() == 0 {
        true
    } else {
        let q1 = pad_low(p1, u);
        let q2 = pad_high(p2, u);
        let b = q1[0];
        let e = q2[0];
        if b == e {
            gen_runs(q1.drop_first(), q2.drop_first(), u)
        } else if b.number == e.number && b.user < e.user {
            gen_runs(q1.drop_first(), Seq::empty(), u)
        } else if b.number != e.number {
            q1.len() <= 18 && q2.len() <= 18
        } else {
            false
        }
    }
}

/// A position of at most 18 digit levels as a decimal: a fraction below one, written
/// at any scale `n` from its length on as the number of its digits.
proof fn lemma_position_fraction(q: Seq<Id>, n: nat)
    requires
        digit_levels(q),
        1 <= q.len() <= 18,
        q.len() <= n,
    ensures
        pos_decimal(q).wf(),
        0 <= pos_decimal(q).mantissa < pow10(pos_decimal(q).scale as nat),
        pos_decimal(q).scale <= q.len(),
        pos_decimal(q).mantissa * pow10((n - pos_decimal(q).scale) as nat) == val(numbers(q), n),
{
    let l = q.len();
    lemma_digit_levels_numbers(q);
    lemma_ids_val(q);
    let v = ids_value(q) as int;
    lemma_val_bounds(numbers(q), l);
    lemma_pow10_monotonic(l, 18);
    lemma_pow10_18();
    lemma_canon(v, l);
    let x = pos_decimal(q);
    let xm = x.mantissa as int;
    let xs = x.scale as nat;
    lemma_pow10_positive(l);
    lemma_pow10_positive(xs);
    assert(xm * pow10(l) == v * pow10(xs));
    assert(0 <= xm < pow10(xs)) by (nonlinear_arith)
        requires
            xm * pow10(l) == v * pow10(xs),
            0 <= v < pow10(l),
            pow10(l) >= 1,
            pow10(xs) >= 1,
    ;
    lemma_val_pad(numbers(q), n);
    lemma_scale_to(xm, xs, v, l, n);
}

/// For positions of at most 18 digit levels whose first numbers differ, the
/// difference of their decimals is computed exactly and is a fraction below one.
proof fn lemma_digit_difference(q1: Seq<Id>, q2: Seq<Id>, n: nat)
    requires
        digit_levels(q1),
        digit_levels(q2),
        1 <= q1.len() <= 18,
        1 <= q2.len() <= 18,
        q1.len() < n,
        q2.len() < n,
        q1[0].number != q2[0].number,
    ensures
        aligned_fits(pos_decimal(q1), pos_decimal(q2)),
        representable(
            align(pos_decimal(q1), max_scale(pos_decimal(q1), pos_decimal(q2))) - align(
                pos_decimal(q2),
                max_scale(pos_decimal(q1), pos_decimal(q2)),
            ),
            max_scale(pos_decimal(q1), pos_decimal(q2)),
        ),
        ({
            let dif = split_dif(q1, q2);
            &&& dif.wf()
            &&& 1 <= dif.scale <= 18
            &&& 0 < dif.mantissa < pow10(dif.scale as nat)
            &&& dif.mantissa * pow10((n - dif.scale) as nat) == abs_int(
                val(numbers(q1), n) - val(numbers(q2), n),
            )
        }),
{
    let x = pos_decimal(q1);
    let y = pos_decimal(q2);
    lemma_position_fraction(q1, n);
    lemma_position_fraction(q2, n);
    lemma_digit_levels_numbers(q1);
    lemma_digit_levels_numbers(q2);
    let xx = val(numbers(q1), n);
    let yy = val(numbers(q2), n);
    lemma_val_bounds(numbers(q1), n);
    lemma_val_bounds(numbers(q2), n);
    if q1[0].number < q2[0].number {
        lemma_first_digit_order(q1, q2, n);
    } else {
        lemma_first_digit_order(q2, q1, n);
    }
    assert(xx != yy);
    let s = max_scale(x, y);
    lemma_pow10_18();
    lemma_pow10_monotonic(s, 18);
    let ax = align(x, s);
    let ay = align(y, s);
    lemma_pow10_add(x.scale as nat, (s - x.scale) as nat);
    lemma_pow10_add(y.scale as nat, (s - y.scale) as nat);
    assert(x.scale + (s - x.scale) as nat == s);
    assert(y.scale + (s - y.scale) as nat == s);
    let gx = pow10((s - x.scale) as nat);
    let gy = pow10((s - y.scale) as nat);
    lemma_pow10_positive((s - x.scale) as nat);
    lemma_pow10_positive((s - y.scale) as nat);
    assert(0 <= ax < pow10(s)) by (nonlinear_arith)
        requires
            ax == x.mantissa * gx,
            0 <= x.mantissa < pow10(x.scale as nat),
            pow10(x.scale as nat) * gx == pow10(s),
            gx >= 1,
    ;
    assert(0 <= ay < pow10(s)) by (nonlinear_arith)
        requires
            ay == y.mantissa * gy,
            0 <= y.mantissa < pow10(y.scale as nat),
            pow10(y.scale as nat) * gy == pow10(s),
            gy >= 1,
    ;
    assert(aligned_fits(x, y));
    assert(exact_at(ax - ay, s, ax - ay, s));
    lemma_representable(ax - ay, s, ax - ay, s);
    // the difference as the outside type forms it
    let sr = sub_result(x, y);
    let ps = pow10((n - s) as nat);
    lemma_pow10_add((s - x.scale) as nat, (n - s) as nat);
    lemma_pow10_add((s - y.scale) as nat, (n - s) as nat);
    assert((s - x.scale) as nat + (n - s) as nat == (n - x.scale) as nat);
    assert((s - y.scale) as nat + (n - s) as nat == (n - y.scale) as nat);
    assert(ax * ps == xx) by (nonlinear_arith)
        requires
            ax == x.mantissa * gx,
            x.mantissa * pow10((n - x.scale) as nat) == xx,
            gx * ps == pow10((n - x.scale) as nat),
    ;
    assert(ay * ps == yy) by (nonlinear_arith)
        requires
            ay == y.mantissa * gy,
            y.mantissa * pow10((n - y.scale) as nat) == yy,
            gy * ps == pow10((n - y.scale) as nat),
    ;
    let srm = sr.mantissa as int;
    let pss = pow10((n - sr.scale) as nat);
    if x.mantissa == 0 {
        assert(xx == 0) by (nonlinear_arith)
            requires
                x.mantissa * pow10((n - x.scale) as nat) == xx,
                x.mantissa == 0,
        ;
        assert(srm * pss == xx - yy) by (nonlinear_arith)
            requires
                srm == -y.mantissa,
                pss == pow10((n - y.scale) as nat),
                y.mantissa * pow10((n - y.scale) as nat) == yy,
                xx == 0,
        ;
    } else if y.mantissa == 0 {
        assert(yy == 0) by (nonlinear_arith)
            requires
                y.mantissa * pow10((n - y.scale) as nat) == yy,
                y.mantissa == 0,
        ;
        assert(srm * pss == xx - yy);
    } else {
        assert(srm == ax - ay);
        assert(srm * pss == xx - yy) by (nonlinear_arith)
            requires
                srm == ax - ay,
                pss == ps,
                ax * ps == xx,
                ay * ps == yy,
        ;
    }
    let dif = split_dif(q1, q2);
    let ds = dif.scale as nat;
    let dm = dif.mantissa as int;
    assert(ds == sr.scale);
    assert(ds <= 18);
    assert(-pow10(s) < srm < pow10(s)) by {
        if x.mantissa == 0 {
            assert(srm == -y.mantissa);
            lemma_pow10_monotonic(y.scale as nat, s);
        } else if y.mantissa == 0 {
            assert(srm == x.mantissa);
            lemma_pow10_monotonic(x.scale as nat, s);
        }
    }
    assert(dm == abs_int(srm));
    lemma_pow10_positive((n - ds) as nat);
    assert(dm * pss == abs_int(xx - yy)) by (nonlinear_arith)
        requires
            dm == abs_int(srm),
            srm * pss == xx - yy,
            pss >= 1,
    ;
    lemma_pow10_split(ds, n);
    lemma_pow10_positive(ds);
    assert(0 < dm < pow10(ds)) by (nonlinear_arith)
        requires
            dm * pss == abs_int(xx - yy),
            xx != yy,
            0 <= xx < pow10(n),
            0 <= yy < pow10(n),
            pow10(ds) * pss == pow10(n),
            pss >= 1,
    ;
    if ds == 0 {
        assert(pow10(0) == 1);
        assert(false);
    }
}

/// Reading the step from a string of digits divides by ten at most once per digit.
proof fn lemma_step_divs_bound(t: Seq<char>)
    ensures
        step_divs(t) <= t.len(),
    decreases t.len(),
{
    if t.len() > 0 && t[0] == '0' {
        lemma_step_divs_bound(t.drop_first());
    }
}

/// The text of a decimal below two has one character before its point.
proof fn lemma_below_two_text(z: Dec)
    requires
        0 < z.mantissa < 2 * pow10(z.scale as nat),
    ensures
        all_digits(digits_tail(z)),
{
    let a = z.mantissa as nat;
    let s = z.scale as nat;
    lemma_pow10_positive(s);
    let w = a / pow10(s);
    assert(w <= 1) by (nonlinear_arith)
        requires
            a < 2 * pow10(s),
            pow10(s) >= 1,
            w == a / pow10(s),
    ;
    assert(nat_digits(w).len() == 1);
    if s > 0 {
        let body = nat_digits(w) + (seq!['.'] + pad_digits(a % pow10(s), s));
        assert(dec_text(z) == body);
        assert(body.skip(2) =~= pad_digits(a % pow10(s), s));
        lemma_pad_digits(a % pow10(s), s);
    } else {
        assert(pow10(0) == 1);
        assert(dec_text(z) == nat_digits(w));
        assert(digits_tail(z) =~= Seq::<char>::empty());
    }
}

/// For positions of at most 18 digit levels whose first numbers differ, the decimal
/// computation between them runs exactly.
pub proof fn lemma_split_ok_of_digits(q1: Seq<Id>, q2: Seq<Id>)
    requires
        digit_levels(q1),
        digit_levels(q2),
        1 <= q1.len() <= 18,
        1 <= q2.len() <= 18,
        q1[0].number != q2[0].number,
    ensures
        split_ok(q1, q2),
{
    let n: nat = 19;
    lemma_digit_difference(q1, q2, n);
    lemma_position_fraction(q1, n);
    let x = pos_decimal(q1);
    let dif = split_dif(q1, q2);
    let ds = dif.scale as nat;
    let dm = dif.mantissa as int;
    lemma_fraction_text(dif);
    let t = pad_digits(dm as nat, ds);
    assert(gap_digits(dif) =~= t);
    lemma_pad_digits(dm as nat, ds);
    assert((dm as nat) % pow10(ds) == dm) by (nonlinear_arith)
        requires
            0 < dm < pow10(ds),
    ;
    lemma_step_divs_bound(t);
    lemma_step_exp_bound(t);
    let e = step_exp(t);
    let g = gap_exp(x, e);
    let gn = gap_num(x, e);
    assert(g <= 19);
    lemma_pow10_add(x.scale as nat, (g - x.scale) as nat);
    assert(x.scale + (g - x.scale) as nat == g);
    lemma_pow10_monotonic((g - e) as nat, g);
    lemma_pow10_positive((g - x.scale) as nat);
    lemma_pow10_positive((g - e) as nat);
    let gx = pow10((g - x.scale) as nat);
    let ge = pow10((g - e) as nat);
    assert(0 < gn < 2 * pow10(g)) by (nonlinear_arith)
        requires
            gn == x.mantissa * gx + ge,
            0 <= x.mantissa < pow10(x.scale as nat),
            pow10(x.scale as nat) * gx == pow10(g),
            1 <= ge <= pow10(g),
            gx >= 1,
    ;
    lemma_pow10_monotonic(g, 19);
    lemma_pow10_18();
    assert(pow10(19) == 10 * pow10(18));
    assert(exact_at(gn, g, gn, g));
    lemma_representable(gn, g, gn, g);
    assert(gap_ok(x, dif));
    // the point between them has only digits after its first two characters
    lemma_canon(gn, g);
    let z = canon(gn, g);
    assert(split_point(q1, q2) == z);
    let zm = z.mantissa as int;
    let zs = z.scale as nat;
    lemma_pow10_positive(zs);
    lemma_pow10_positive(g);
    assert(0 < zm < 2 * pow10(zs)) by (nonlinear_arith)
        requires
            zm * pow10(g) == gn * pow10(zs),
            0 < gn < 2 * pow10(g),
            pow10(g) >= 1,
            pow10(zs) >= 1,
    ;
    lemma_below_two_text(z);
}

/// On positions whose levels hold decimal digits, `generate_pos_id` runs exactly when
/// it meets no pair of first levels with the same number where the lower one has
/// the larger user, and every pair it turns into decimals has at most 18 levels each:
/// the decimal computation is then always exact.
pub proof fn lemma_gen_ok_digits(p1: Seq<Id>, p2: Seq<Id>, u: u32)
    requires
        digit_levels(p1),
        digit_levels(p2),
    ensures
        gen_ok(p1, p2, u) == gen_runs(p1, p2, u),
    decreases p1.len() + p2.len(),
{
    if p1.len() == 0 && p2.len() == 0 {
        return;
    }
    let q1 = pad_low(p1, u);
    let q2 = pad_high(p2, u);
    let b = q1[0];
    let e = q2[0];
    let t1 = q1.drop_first();
    let t2 = q2.drop_first();
    assert(digit_levels(q1));
    assert(digit_levels(q2));
    assert(digit_levels(t1)) by {
        assert forall|k: int| 0 <= k < t1.len() implies #[trigger] t1[k].number <= 9 by {
            assert(t1[k] == q1[k + 1]);
        }
    }
    assert(digit_levels(t2)) by {
        assert forall|k: int| 0 <= k < t2.len() implies #[trigger] t2[k].number <= 9 by {
            assert(t2[k] == q2[k + 1]);
        }
    }
    if b == e {
        lemma_gen_ok_digits(t1, t2, u);
    } else if b.number == e.number && b.user < e.user {
        lemma_gen_ok_digits(t1, Seq::empty(), u);
    } else if b.number != e.number {
        if q1.len() <= 18 && q2.len() <= 18 {
            lemma_split_ok_of_digits(q1, q2);
        }
    }
}

/// Decides `gen_runs`.
fn runs_from(p1: &Vec<Id>, p2: &Vec<Id>, u: u32) -> (b: bool)
    ensures
        b == gen_runs(p1@, p2@, u),
    decreases p1@.len() + p2@.len(),
{
    if p1.len() == 0 && p2.len() == 0 {
        return true;
    }
    let mut q1: Vec<Id> = Vec::new();
    if p1.len() == 0 {
        q1.push(Id { number: 0, user: u });
    } else {
        q1 = copy_ids(p1);
    }
    let mut q2: Vec<Id> = Vec::new();
    if p2.len() == 0 {
        q2.push(Id { number: 9, user: u });
    } else {
        q2 = copy_ids(p2);
    }
    assert(q1@ =~= pad_low(p1@, u));
    assert(q2@ =~= pad_high(p2@, u));
    let b = q1[0];
    let e = q2[0];
    if b.number == e.number && b.user == e.user {
        runs_from(&tail_ids(&q1), &tail_ids(&q2), u)
    } else if b.number == e.number && b.user < e.user {
        runs_from(&tail_ids(&q1), &Vec::new(), u)
    } else if b.number != e.number {
        q1.len() <= 18 && q2.len() <= 18
    } else {
        false
    }
}

/// Every level holds a decimal digit.
fn has_digit_levels(p: &Vec<Id>) -> (b: bool)
    ensures
        b == digit_levels(p@),
{
    let mut i: usize = 0;
    while i < p.len()
        invariant
            i <= p.len(),
            forall|k: int| 0 <= k < i ==> #[trigger] p@[k].number <= 9,
        decreases p.len() - i,
    {
        if p[i].number > 9 {
            return false;
        }
        i = i + 1;
    }
    true
}

/// Tells whether `generate_pos_id` can run on two positions: on positions whose
/// levels hold decimal digits it answers exactly its requirement `gen_ok`, and on
/// others it answers `false`.
pub fn can_generate_pos_id(p1: &Vec<Id>, p2: &Vec<Id>, u: u32) -> (b: bool)
    ensures
        b ==> gen_ok(p1@, p2@, u),
        digit_levels(p1@) && digit_levels(p2@) ==> b == gen_ok(p1@, p2@, u),
        !(digit_levels(p1@) && digit_levels(p2@)) ==> !b,
{
    if !has_digit_levels(p1) || !has_digit_levels(p2) {
        return false;
    }
    let r = runs_from(p1, p2, u);
    proof {
        lemma_gen_ok_digits(p1@, p2@, u);
    }
    r
}

/// At place `i` the number of `a` is smaller than that of `b`, and before it they agree.
pub open spec fn differ_first_at(a: Seq<u32>, b: Seq<u32>, i: int) -> bool {
    &&& 0 <= i < a.len()
    &&& i < b.len()
    &&& forall|k: int| 0 <= k < i ==> a[k] == b[k]
    &&& a[i] < b[i]
}

/// `a` comes before `b` in dictionary order: at the first place where they differ `a`
/// has the smaller number, or `a` is a proper prefix of `b`.
pub open spec fn digits_lt(a: Seq<u32>, b: Seq<u32>) -> bool {
    ||| exists|i: int| #[trigger] differ_first_at(a, b, i)
    ||| (a.len() < b.len() && forall|k: int| 0 <= k < a.len() ==> a[k] == b[k])
}

/// The numbers of two decimals compare as the numbers of them written at a common scale.
proof fn lemma_value_lt_at_scale(x: Dec, y: Dec, n: nat, xx: int, yy: int)
    requires
        x.scale <= n,
        y.scale <= n,
        x.mantissa * pow10((n - x.scale) as nat) == xx,
        y.mantissa * pow10((n - y.scale) as nat) == yy,
    ensures
        dec_value_lt(x, y) <==> xx < yy,
{
    lemma_pow10_split(x.scale as nat, n);
    lemma_pow10_split(y.scale as nat, n);
    lemma_pow10_positive(x.scale as nat);
    lemma_pow10_positive(y.scale as nat);
    lemma_pow10_positive(n);
    let px = pow10(x.scale as nat);
    let py = pow10(y.scale as nat);
    let pn = pow10(n);
    let xm = x.mantissa as int;
    let ym = y.mantissa as int;
    assert(xx * px == xm * pn) by (nonlinear_arith)
        requires
            xm * pow10((n - x.scale) as nat) == xx,
            px * pow10((n - x.scale) as nat) == pn,
    ;
    assert(yy * py == ym * pn) by (nonlinear_arith)
        requires
            ym * pow10((n - y.scale) as nat) == yy,
            py * pow10((n - y.scale) as nat) == pn,
    ;
    assert((xm * py < ym * px) <==> (xx < yy)) by (nonlinear_arith)
        requires
            xx * px == xm * pn,
            yy * py == ym * pn,
            px >= 1,
            py >= 1,
            pn >= 1,
    {
        assert(xx * px * py == xm * py * pn);
        assert(yy * py * px == ym * px * pn);
        if xm * py < ym * px {
            assert(xm * py * pn < ym * px * pn);
        }
        if xx < yy {
            assert(xx * (px * py) < yy * (px * py));
        }
    }
}

/// The numbers of digit sequences compare as the sequences do in dictionary order,
/// when the longer one does not end in a zero.
proof fn lemma_val_order(xs: Seq<u32>, ys: Seq<u32>, n: nat)
    requires
        forall|k: int| 0 <= k < xs.len() ==> #[trigger] xs[k] <= 9,
        forall|k: int| 0 <= k < ys.len() ==> #[trigger] ys[k] <= 9,
        1 <= xs.len() <= n,
        1 <= ys.len() <= n,
        ys[ys.len() - 1] != 0,
    ensures
        val(xs, n) < val(ys, n) <==> digits_lt(xs, ys),
{
    let xx = val(xs, n);
    let yy = val(ys, n);
    if xx < yy {
        let i = lemma_val_first_diff(xs, ys, n);
        assert(i < ys.len());
        if i < xs.len() {
            assert forall|k: int| 0 <= k < i implies xs[k] == ys[k] by {
                assert(dig(xs, k) == dig(ys, k));
            }
            assert(dig(xs, i as int) == xs[i as int]);
            assert(differ_first_at(xs, ys, i as int));
        } else {
            assert forall|k: int| 0 <= k < xs.len() implies xs[k] == ys[k] by {
                assert(dig(xs, k) == dig(ys, k));
            }
        }
    }
    if digits_lt(xs, ys) {
        if exists|i: int| #[trigger] differ_first_at(xs, ys, i) {
            let i = choose|i: int| #[trigger] differ_first_at(xs, ys, i);
            lemma_val_agree(xs, ys, i as nat);
            let v = val(xs, i as nat);
            assert(val(xs, (i + 1) as nat) == v * 10 + xs[i]);
            assert(val(ys, (i + 1) as nat) == v * 10 + ys[i]);
            lemma_val_split(xs, (i + 1) as nat, n);
            lemma_val_split(ys, (i + 1) as nat, n);
            let p = pow10((n - (i + 1)) as nat);
            let vx = val(xs, (i + 1) as nat);
            let vy = val(ys, (i + 1) as nat);
            assert(xx < yy) by (nonlinear_arith)
                requires
                    xx < (vx + 1) * p,
                    vy * p <= yy,
                    vx + 1 <= vy,
                    p >= 0,
            ;
        } else {
            let l = xs.len();
            let m = ys.len();
            assert forall|k: int| 0 <= k < l implies dig(xs, k) == dig(ys, k) by {}
            lemma_val_agree(xs, ys, l);
            lemma_val_pad(xs, n);
            lemma_val_pad(ys, n);
            lemma_val_split(ys, l, (m - 1) as nat);
            let v = val(ys, l);
            let w = val(ys, (m - 1) as nat);
            let q = pow10((m - 1 - l) as nat);
            assert(val(ys, m) == w * 10 + ys[m - 1]);
            assert(pow10((m - l) as nat) == 10 * q);
            lemma_pow10_add((m - l) as nat, (n - m) as nat);
            assert((m - l) as nat + (n - m) as nat == (n - l) as nat);
            let r = pow10((n - m) as nat);
            lemma_pow10_positive((n - m) as nat);
            let d = ys[m - 1] as int;
            assert(xx < yy) by (nonlinear_arith)
                requires
                    xx == v * (10 * q * r),
                    yy == (w * 10 + d) * r,
                    v * q <= w,
                    d >= 1,
                    r >= 1,
            {
                assert((w * 10 + d) * r >= (v * q * 10 + 1) * r);
            }
        }
    }
}

/// The decimals of positions of at most 18 digit levels, none ending in a level `0`,
/// are ordered like the positions' digits in dictionary order (a proper prefix first),
/// and are the same decimal exactly when the positions have the same digits. These are
/// the decimals that `generate_pos_id` computes for its positions.
pub proof fn lemma_position_decimal_order(a: Seq<Id>, b: Seq<Id>)
    requires
        digit_levels(a),
        digit_levels(b),
        1 <= a.len() <= 18,
        1 <= b.len() <= 18,
        a[a.len() - 1].number != 0,
        b[b.len() - 1].number != 0,
    ensures
        dec_value_lt(pos_decimal(a), pos_decimal(b)) <==> digits_lt(numbers(a), numbers(b)),
        (pos_decimal(a) == pos_decimal(b)) <==> numbers(a) == numbers(b),
{
    let n: nat = 18;
    let xs = numbers(a);
    let ys = numbers(b);
    lemma_position_fraction(a, n);
    lemma_position_fraction(b, n);
    lemma_digit_levels_numbers(a);
    lemma_digit_levels_numbers(b);
    let x = pos_decimal(a);
    let y = pos_decimal(b);
    let xx = val(xs, n);
    let yy = val(ys, n);
    lemma_value_lt_at_scale(x, y, n, xx, yy);
    assert forall|k: int| 0 <= k < xs.len() implies #[trigger] xs[k] <= 9 by {}
    assert forall|k: int| 0 <= k < ys.len() implies #[trigger] ys[k] <= 9 by {}
    lemma_val_order(xs, ys, n);
    if xs == ys {
        lemma_ids_val(a);
        lemma_ids_val(b);
        assert(a.len() == b.len());
    }
    if x == y {
        assert(xx == yy);
        lemma_val_eq_digits(xs, ys, n);
        if xs.len() < ys.len() {
            assert(dig(ys, ys.len() - 1) != 0);
            assert(dig(xs, ys.len() - 1) == 0);
        }
        if ys.len() < xs.len() {
            assert(dig(xs, xs.len() - 1) != 0);
            assert(dig(ys, xs.len() - 1) == 0);
        }
        assert forall|k: int| 0 <= k < xs.len() implies xs[k] == ys[k] by {
            assert(dig(xs, k) == dig(ys, k));
        }
        assert(xs =~= ys);
    }
}

} // verus!
