//! A generated position lies strictly between the positions it was generated for.

use vstd::prelude::*;

use crate::crdt::{id_order, pos_lt, pos_order, Id};
use crate::decimal::{
    align, aligned_fits, canon, dec_text, lemma_canon, max_mantissa, max_scale, sub_result, Dec,
};
use crate::digits::{
    all_digits, char_digit, digit_values, digits_value, dv, lemma_digits_value_prepend,
    lemma_pad_digits, lemma_pow10_add, lemma_pow10_monotonic, lemma_pow10_positive, nat_digits,
    pad_digits, pow10,
};
use crate::limits::{gen_runs, lemma_gen_ok_digits};
use crate::position::{
    digits_tail, first_mismatch, gap_digits, gap_exp, gap_num, gen, gen_ok, ids_value,
    lemma_pow10_18, matches_at, merged_ids, pad_high, pad_low, pick, pos_decimal, split_dif,
    split_ok, split_point, step_exp,
};
use std::cmp::Ordering;

verus! {

/// Digit `k` of `a`, zero past its end.
pub open spec fn dig(a: Seq<u32>, k: int) -> int {
    if 0 <= k < a.len() {
        a[k] as int
    } else {
        0
    }
}

/// The number that the first `n` digits of `a` denote (missing digits count as zero).
pub open spec fn val(a: Seq<u32>, n: nat) -> int
    decreases n,
{
    if n == 0 {
        0
    } else {
        val(a, (n - 1) as nat) * 10 + dig(a, n - 1)
    }
}

/// Every entry is a decimal digit.
pub open spec fn small_digits(a: Seq<u32>) -> bool {
    forall|k: int| 0 <= k < a.len() ==> #[trigger] a[k] <= 9
}

pub proof fn lemma_val_bounds(a: Seq<u32>, n: nat)
    requires
        small_digits(a),
    ensures
        0 <= val(a, n) < pow10(n),
    decreases n,
{
    if n > 0 {
        lemma_val_bounds(a, (n - 1) as nat);
        if 0 <= n - 1 < a.len() {
            assert(a[n - 1] <= 9);
        }
    }
}

/// The first `i` digits give the leading part of the number of the first `n`.
pub proof fn lemma_val_split(a: Seq<u32>, i: nat, n: nat)
    requires
        small_digits(a),
        i <= n,
    ensures
        val(a, i) * pow10((n - i) as nat) <= val(a, n) < (val(a, i) + 1) * pow10((n - i) as nat),
    decreases n,
{
    if n == i {
        assert((n - i) as nat == 0);
        assert(pow10(0) == 1);
    } else {
        lemma_val_split(a, i, (n - 1) as nat);
        assert(val(a, n) == val(a, (n - 1) as nat) * 10 + dig(a, n - 1));
        let p = pow10((n - 1 - i) as nat);
        assert(pow10((n - i) as nat) == 10 * p);
        let v = val(a, i);
        let w = val(a, (n - 1) as nat);
        let d = dig(a, n - 1);
        if 0 <= n - 1 < a.len() {
            assert(a[n - 1] <= 9);
        }
        assert(0 <= d <= 9);
        assert(v * (10 * p) <= w * 10 + d < (v + 1) * (10 * p)) by (nonlinear_arith)
            requires
                v * p <= w < (v + 1) * p,
                0 <= d <= 9,
        ;
    }
}

/// Equal numbers of the first `m` digits mean equal digits.
pub proof fn lemma_val_eq_digits(a: Seq<u32>, b: Seq<u32>, m: nat)
    requires
        small_digits(a),
        small_digits(b),
        val(a, m) == val(b, m),
    ensures
        forall|k: int| 0 <= k < m ==> dig(a, k) == dig(b, k),
    decreases m,
{
    if m > 0 {
        let m1 = (m - 1) as nat;
        if 0 <= m1 < a.len() {
            assert(a[m1 as int] <= 9);
        }
        if 0 <= m1 < b.len() {
            assert(b[m1 as int] <= 9);
        }
        let da = dig(a, m1 as int);
        let db = dig(b, m1 as int);
        let va = val(a, m1);
        let vb = val(b, m1);
        assert(va * 10 + da == vb * 10 + db);
        assert(va == vb && da == db) by (nonlinear_arith)
            requires
                va * 10 + da == vb * 10 + db,
                0 <= da <= 9,
                0 <= db <= 9,
        ;
        lemma_val_eq_digits(a, b, m1);
    }
}

/// Equal digits give equal numbers.
pub proof fn lemma_val_agree(a: Seq<u32>, b: Seq<u32>, i: nat)
    requires
        forall|k: int| 0 <= k < i ==> dig(a, k) == dig(b, k),
    ensures
        val(a, i) == val(b, i),
    decreases i,
{
    if i > 0 {
        lemma_val_agree(a, b, (i - 1) as nat);
    }
}

/// A smaller number has a smaller digit at the first place where the digits differ.
pub proof fn lemma_val_first_diff(a: Seq<u32>, b: Seq<u32>, n: nat) -> (i: nat)
    requires
        small_digits(a),
        small_digits(b),
        val(a, n) < val(b, n),
    ensures
        i < n,
        forall|k: int| 0 <= k < i ==> dig(a, k) == dig(b, k),
        dig(a, i as int) < dig(b, i as int),
    decreases n,
{
    let n1 = (n - 1) as nat;
    let va = val(a, n1);
    let vb = val(b, n1);
    let da = dig(a, n1 as int);
    let db = dig(b, n1 as int);
    if 0 <= n1 < a.len() {
        assert(a[n1 as int] <= 9);
    }
    if 0 <= n1 < b.len() {
        assert(b[n1 as int] <= 9);
    }
    if va < vb {
        lemma_val_first_diff(a, b, n1)
    } else {
        assert(va == vb) by (nonlinear_arith)
            requires
                va * 10 + da < vb * 10 + db,
                va >= vb,
                0 <= da <= 9,
                0 <= db <= 9,
        ;
        lemma_val_eq_digits(a, b, n1);
        n1
    }
}

/// Adding `10^(n-m)` to a number whose first digit then changes: the prefix of `m`
/// digits grows by one, and the digits between are nines that become zeros.
pub proof fn lemma_carry(x: Seq<u32>, z: Seq<u32>, n: nat, m: nat)
    requires
        small_digits(x),
        small_digits(z),
        1 <= m <= n,
        val(z, n) == val(x, n) + pow10((n - m) as nat),
        dig(z, 0) != dig(x, 0),
    ensures
        val(z, m) == val(x, m) + 1,
        forall|k: int| 1 <= k < m ==> dig(z, k) == 0 && dig(x, k) == 9,
{
    lemma_carry_prefix(x, z, n, m, m);
    assert forall|k: int| 1 <= k < m implies dig(z, k) == 0 && dig(x, k) == 9 by {
        lemma_carry_digits(x, z, n, m, m, k);
    }
}

/// Up to `m` digits, the prefixes of `x` and `x + 10^(n-m)` differ by zero or one.
proof fn lemma_prefix_gap(x: Seq<u32>, z: Seq<u32>, n: nat, m: nat, j: nat)
    requires
        small_digits(x),
        small_digits(z),
        j <= m <= n,
        val(z, n) == val(x, n) + pow10((n - m) as nat),
    ensures
        0 <= val(z, j) - val(x, j) <= 1,
{
    lemma_val_split(x, j, n);
    lemma_val_split(z, j, n);
    let t = pow10((n - j) as nat);
    let s = pow10((n - m) as nat);
    lemma_pow10_monotonic((n - m) as nat, (n - j) as nat);
    lemma_pow10_positive((n - m) as nat);
    let vz = val(z, j);
    let vx = val(x, j);
    let zz = val(z, n);
    let xx = val(x, n);
    assert(0 <= vz - vx <= 1) by (nonlinear_arith)
        requires
            vz * t <= zz < (vz + 1) * t,
            vx * t <= xx < (vx + 1) * t,
            zz == xx + s,
            1 <= s <= t,
    ;
}

/// With the first digit changed, every prefix of at most `m` digits grows by one.
proof fn lemma_carry_prefix(x: Seq<u32>, z: Seq<u32>, n: nat, m: nat, j: nat)
    requires
        small_digits(x),
        small_digits(z),
        1 <= j <= m <= n,
        val(z, n) == val(x, n) + pow10((n - m) as nat),
        dig(z, 0) != dig(x, 0),
    ensures
        val(z, j) == val(x, j) + 1,
    decreases j,
{
    lemma_prefix_gap(x, z, n, m, j);
    if j == 1 {
        assert(val(z, 0) == 0 && val(x, 0) == 0);
        assert(val(z, 1) == dig(z, 0));
        assert(val(x, 1) == dig(x, 0));
    } else {
        let j1 = (j - 1) as nat;
        lemma_carry_prefix(x, z, n, m, j1);
        let dz = dig(z, j1 as int);
        let dx = dig(x, j1 as int);
        if 0 <= j1 < z.len() {
            assert(z[j1 as int] <= 9);
        }
        if 0 <= j1 < x.len() {
            assert(x[j1 as int] <= 9);
        }
        assert(val(z, j) == val(z, j1) * 10 + dz);
        assert(val(x, j) == val(x, j1) * 10 + dx);
    }
}

/// The digits strictly inside the carry are nines that become zeros.
proof fn lemma_carry_digits(x: Seq<u32>, z: Seq<u32>, n: nat, m: nat, j: nat, k: int)
    requires
        small_digits(x),
        small_digits(z),
        1 <= k < j <= m <= n,
        val(z, n) == val(x, n) + pow10((n - m) as nat),
        dig(z, 0) != dig(x, 0),
    ensures
        dig(z, k) == 0 && dig(x, k) == 9,
{
    lemma_carry_prefix(x, z, n, m, k as nat);
    lemma_carry_prefix(x, z, n, m, (k + 1) as nat);
    if 0 <= k < z.len() {
        assert(z[k] <= 9);
    }
    if 0 <= k < x.len() {
        assert(x[k] <= 9);
    }
    assert(val(z, (k + 1) as nat) == val(z, k as nat) * 10 + dig(z, k));
    assert(val(x, (k + 1) as nat) == val(x, k as nat) * 10 + dig(x, k));
}

/// When the step is at most half the distance to `y`, the number `x + step` cannot
/// share its first `m` digits with `y`.
pub proof fn lemma_step_leaves_prefix(x: Seq<u32>, y: Seq<u32>, z: Seq<u32>, n: nat, m: nat)
    requires
        small_digits(y),
        small_digits(z),
        m <= n,
        val(z, n) == val(x, n) + pow10((n - m) as nat),
        val(y, n) - val(x, n) >= 2 * pow10((n - m) as nat),
    ensures
        val(z, m) != val(y, m),
{
    lemma_val_split(y, m, n);
    lemma_val_split(z, m, n);
    let s = pow10((n - m) as nat);
    let vy = val(y, m);
    let vz = val(z, m);
    if vy == vz {
        assert(false) by (nonlinear_arith)
            requires
                vy * s <= val(y, n) < (vy + 1) * s,
                vz * s <= val(z, n) < (vz + 1) * s,
                vy == vz,
                val(z, n) == val(x, n) + s,
                val(y, n) - val(x, n) >= 2 * s,
        ;
    }
}

/// The first level from `i` on that agrees with neither position is the first one.
pub proof fn lemma_first_mismatch(start: Seq<Id>, d: Seq<u32>, end: Seq<Id>, i: nat)
    ensures
        match first_mismatch(start, d, end, i) {
            Some(k) => {
                &&& i <= k < d.len()
                &&& !matches_at(start, d, end, k as int)
                &&& forall|l: int| i <= l < k ==> matches_at(start, d, end, l)
            },
            None => forall|l: int| i <= l < d.len() ==> matches_at(start, d, end, l),
        },
    decreases d.len() - i,
{
    if i < d.len() && matches_at(start, d, end, i as int) {
        lemma_first_mismatch(start, d, end, i + 1);
    }
}

/// The levels of a merged position: one per digit, with that digit as its number; the
/// picked level of the lower or upper position while every level so far agrees with
/// one of them; and nothing beyond the digits when every level agrees and the lower
/// position is at least as long.
pub proof fn lemma_merged_levels(start: Seq<Id>, d: Seq<u32>, end: Seq<Id>, u: u32)
    ensures
        merged_ids(start, d, end, u).len() >= d.len(),
        forall|k: int| 0 <= k < d.len() ==> (#[trigger] merged_ids(start, d, end, u)[k]).number == d[k],
        forall|k: int|
            0 <= k < d.len() && (forall|l: int| 0 <= l <= k ==> matches_at(start, d, end, l))
                ==> #[trigger] merged_ids(start, d, end, u)[k] == pick(start, d, end, k),
        (forall|l: int| 0 <= l < d.len() ==> matches_at(start, d, end, l)) && start.len() >= d.len()
            ==> merged_ids(start, d, end, u).len() == d.len(),
{
    lemma_first_mismatch(start, d, end, 0);
    let r = merged_ids(start, d, end, u);
    match first_mismatch(start, d, end, 0) {
        Some(m0) => {
            assert forall|k: int| 0 <= k < d.len() implies (#[trigger] r[k]).number == d[k] by {
                if k < m0 {
                    assert(matches_at(start, d, end, k));
                }
            }
            assert forall|k: int|
                0 <= k < d.len() && (forall|l: int| 0 <= l <= k ==> matches_at(start, d, end, l))
                    implies #[trigger] r[k] == pick(start, d, end, k) by {
                if k >= m0 {
                    assert(matches_at(start, d, end, m0 as int));
                }
            }
        },
        None => {
            assert forall|k: int| 0 <= k < d.len() implies (#[trigger] r[k]).number == d[k] by {
                assert(matches_at(start, d, end, k));
            }
        },
    }
}

/// Positions that agree on their first `i` levels and then differ in number are
/// ordered by that number.
pub proof fn lemma_pos_lt_at(a: Seq<Id>, b: Seq<Id>, i: int)
    requires
        0 <= i < a.len(),
        i < b.len(),
        forall|k: int| 0 <= k < i ==> a[k] == b[k],
        a[i].number < b[i].number,
    ensures
        pos_lt(a, b),
    decreases i,
{
    if i > 0 {
        assert(a[0] == b[0]);
        assert(id_order(a[0], b[0]) == Ordering::Equal);
        lemma_pos_lt_at(a.drop_first(), b.drop_first(), i - 1);
    }
}

/// A proper prefix comes first.
pub proof fn lemma_pos_lt_prefix(a: Seq<Id>, b: Seq<Id>)
    requires
        a.len() < b.len(),
        forall|k: int| 0 <= k < a.len() ==> a[k] == b[k],
    ensures
        pos_lt(a, b),
    decreases a.len(),
{
    if a.len() > 0 {
        assert(a[0] == b[0]);
        assert(id_order(a[0], b[0]) == Ordering::Equal);
        lemma_pos_lt_prefix(a.drop_first(), b.drop_first());
    }
}

/// The same first level keeps the order of the rest.
pub proof fn lemma_pos_lt_cons(h: Id, a: Seq<Id>, b: Seq<Id>)
    ensures
        pos_lt(seq![h] + a, seq![h] + b) == pos_lt(a, b),
{
    assert((seq![h] + a).drop_first() =~= a);
    assert((seq![h] + b).drop_first() =~= b);
    assert(id_order(h, h) == Ordering::Equal);
}

/// A smaller first level comes first, whatever follows.
pub proof fn lemma_pos_lt_head(g: Id, h: Id, a: Seq<Id>, b: Seq<Id>)
    requires
        id_order(g, h) == Ordering::Less,
    ensures
        pos_lt(seq![g] + a, seq![h] + b),
{
}

/// The numbers of the levels of a position.
pub open spec fn numbers(q: Seq<Id>) -> Seq<u32> {
    q.map_values(|i: Id| i.number)
}

/// The digits `d` of `x + 10^(n-m)`, where `x` and `y` are the numbers of `q1` and
/// `q2` and the step is at most half their distance, give a merged position strictly
/// between `q1` and `q2` when their first levels differ in number.
pub proof fn lemma_split_between(q1: Seq<Id>, q2: Seq<Id>, d: Seq<u32>, u: u32, n: nat, m: nat)
    requires
        small_digits(numbers(q1)),
        small_digits(numbers(q2)),
        small_digits(d),
        1 <= q1.len() <= n,
        1 <= q2.len() <= n,
        1 <= d.len() <= n,
        1 <= m <= n,
        val(d, n) == val(numbers(q1), n) + pow10((n - m) as nat),
        val(numbers(q2), n) - val(numbers(q1), n) >= 2 * pow10((n - m) as nat),
        q1[0].number < q2[0].number,
    ensures
        pos_lt(q1, merged_ids(q1, d, q2, u)),
        pos_lt(merged_ids(q1, d, q2, u), q2),
{
    let x = numbers(q1);
    let y = numbers(q2);
    let r = merged_ids(q1, d, q2, u);
    lemma_merged_levels(q1, d, q2, u);
    lemma_pow10_positive((n - m) as nat);
    assert(dig(x, 0) == q1[0].number);
    assert(dig(y, 0) == q2[0].number);
    // the lower position comes first
    let i1 = lemma_val_first_diff(x, d, n);
    assert(i1 < d.len());
    assert forall|k: int| 0 <= k < i1 && k < q1.len() implies matches_at(q1, d, q2, k) by {
        assert(dig(x, k) == q1[k].number);
    }
    if i1 < q1.len() {
        assert forall|k: int| 0 <= k < i1 implies q1[k] == r[k] by {
            assert(forall|l: int| 0 <= l <= k ==> matches_at(q1, d, q2, l));
            assert(dig(x, k) == q1[k].number);
        }
        assert(dig(x, i1 as int) == q1[i1 as int].number);
        lemma_pos_lt_at(q1, r, i1 as int);
    } else {
        assert forall|k: int| 0 <= k < q1.len() implies q1[k] == r[k] by {
            assert(forall|l: int| 0 <= l <= k ==> matches_at(q1, d, q2, l));
            assert(dig(x, k) == q1[k].number);
        }
        lemma_pos_lt_prefix(q1, r);
    }
    // the upper position comes after
    let i2 = lemma_val_first_diff(d, y, n);
    assert(i2 < q2.len());
    assert forall|k: int| 0 <= k < i2 && k < d.len() implies matches_at(q1, d, q2, k) by {
        assert(dig(y, k) == q2[k].number);
    }
    if i2 >= 1 {
        assert(dig(d, 0) != dig(x, 0));
        lemma_carry(x, d, n, m);
        if i2 >= m {
            lemma_val_agree(d, y, m);
            lemma_step_leaves_prefix(x, y, d, n, m);
        }
        assert(i2 < m);
    }
    assert forall|k: int| 0 <= k < i2 && k < d.len() implies r[k] == q2[k] by {
        assert(forall|l: int| 0 <= l <= k ==> matches_at(q1, d, q2, l));
        assert(dig(y, k) == q2[k].number);
        if k < q1.len() {
            assert(dig(x, k) == q1[k].number);
        }
    }
    if i2 < d.len() {
        assert(dig(y, i2 as int) == q2[i2 as int].number);
        lemma_pos_lt_at(r, q2, i2 as int);
    } else {
        assert(dig(x, m - 1) == 9);
        assert(q1.len() >= d.len());
        assert(forall|l: int| 0 <= l < d.len() ==> matches_at(q1, d, q2, l));
        lemma_pos_lt_prefix(r, q2);
    }
}

/// The number of a position's levels is the number of its digits.
pub proof fn lemma_ids_val(q: Seq<Id>)
    ensures
        ids_value(q) == val(numbers(q), q.len()),
    decreases q.len(),
{
    if q.len() > 0 {
        let p = q.drop_last();
        lemma_ids_val(p);
        assert forall|k: int| 0 <= k < p.len() implies dig(numbers(p), k) == dig(numbers(q), k) by {
            assert(p[k] == q[k]);
        }
        lemma_val_agree(numbers(p), numbers(q), p.len());
        assert(dig(numbers(q), q.len() - 1) == q.last().number);
    }
}

/// Zeros past the end of the digits scale the number by powers of ten.
pub proof fn lemma_val_pad(a: Seq<u32>, n: nat)
    requires
        n >= a.len(),
    ensures
        val(a, n) == val(a, a.len()) * pow10((n - a.len()) as nat),
    decreases n,
{
    if n == a.len() {
        assert((n - a.len()) as nat == 0);
        assert(pow10(0) == 1);
    } else {
        lemma_val_pad(a, (n - 1) as nat);
        assert(pow10((n - a.len()) as nat) == 10 * pow10((n - 1 - a.len()) as nat));
        let v = val(a, a.len());
        let p = pow10((n - 1 - a.len()) as nat);
        assert(val(a, n) == val(a, (n - 1) as nat) * 10 + dig(a, n - 1));
        assert(v * p * 10 == v * (10 * p)) by (nonlinear_arith);
    }
}

/// The digit values of a string of digits denote the number the string does.
pub proof fn lemma_digit_values_val(t: Seq<char>)
    requires
        all_digits(t),
    ensures
        digit_values(t).len() == t.len(),
        small_digits(digit_values(t)),
        val(digit_values(t), t.len()) == digits_value(t),
    decreases t.len(),
{
    let a = digit_values(t);
    assert forall|k: int| 0 <= k < a.len() implies #[trigger] a[k] <= 9 by {
        assert(char_digit(t[k]) is Some);
    }
    if t.len() > 0 {
        let p = t.drop_last();
        assert(all_digits(p)) by {
            assert forall|i: int| 0 <= i < p.len() implies (#[trigger] char_digit(p[i])) is Some by {
                assert(p[i] == t[i]);
            }
        }
        lemma_digit_values_val(p);
        assert forall|k: int| 0 <= k < p.len() implies dig(digit_values(p), k) == dig(a, k) by {
            assert(p[k] == t[k]);
        }
        lemma_val_agree(digit_values(p), a, p.len());
        assert(char_digit(t.last()) is Some);
        assert(dig(a, t.len() - 1) == dv(t.last()));
    }
}

/// The step read from the digits of a positive fraction `0.t` is at most half of it.
pub proof fn lemma_step_exp_bound(t: Seq<char>)
    requires
        all_digits(t),
        digits_value(t) > 0,
    ensures
        digits_value(t) * pow10(step_exp(t)) >= 2 * pow10(t.len()),
        1 <= step_exp(t) <= t.len() + 1,
    decreases t.len(),
{
    if t.len() == 0 {
        assert(digits_value(t) == 0);
    } else {
        lemma_digits_value_prepend(t);
        let v = digits_value(t);
        let r = t.drop_first();
        let p = pow10((t.len() - 1) as nat);
        lemma_pow10_positive((t.len() - 1) as nat);
        assert(pow10(t.len()) == 10 * p);
        assert(char_digit(t[0]) is Some);
        assert(all_digits(r)) by {
            assert forall|i: int| 0 <= i < r.len() implies (#[trigger] char_digit(r[i])) is Some by {
                assert(r[i] == t[i + 1]);
            }
        }
        if t[0] == '0' {
            assert(dv(t[0]) == 0);
            lemma_step_exp_bound(r);
            let e1 = step_exp(r);
            assert(pow10(e1 + 1) == 10 * pow10(e1));
            assert(step_exp(t) == e1 + 1);
            assert(v * (10 * pow10(e1)) >= 2 * (10 * p)) by (nonlinear_arith)
                requires
                    v * pow10(e1) >= 2 * p,
            ;
        } else if t[0] == '1' {
            assert(dv(t[0]) == 1);
            assert(pow10(2) == 100) by {
                reveal_with_fuel(pow10, 3);
            }
            assert(dv(t[0]) * p == p) by (nonlinear_arith)
                requires
                    dv(t[0]) == 1,
            ;
            assert(v >= p);
            assert(v * 100 >= 2 * (10 * p)) by (nonlinear_arith)
                requires
                    v >= p,
                    p >= 1,
            ;
        } else {
            assert(dv(t[0]) >= 2);
            assert(pow10(1) == 10) by {
                reveal_with_fuel(pow10, 2);
            }
            let d0 = dv(t[0]);
            assert(d0 * p >= 2 * p) by (nonlinear_arith)
                requires
                    d0 >= 2,
                    p >= 1,
            ;
            assert(v * 10 >= 2 * (10 * p));
        }
    }
}

/// The text of a fraction `m / 10^s` strictly between zero and one: `"0."` and the
/// `s` digits of `m`.
pub proof fn lemma_fraction_text(f: Dec)
    requires
        0 < f.mantissa < pow10(f.scale as nat),
        f.scale >= 1,
    ensures
        dec_text(f) == seq!['0', '.'] + pad_digits(f.mantissa as nat, f.scale as nat),
{
    let a = f.mantissa as nat;
    let s = f.scale as nat;
    assert(a / pow10(s) == 0) by (nonlinear_arith)
        requires
            a < pow10(s),
    ;
    assert(a % pow10(s) == a) by (nonlinear_arith)
        requires
            a < pow10(s),
    ;
    assert(nat_digits(0) == seq!['0']);
    assert(dec_text(f) =~= seq!['0'] + (seq!['.'] + pad_digits(a, s)));
}

/// `m / 10^s == v / 10^l`, written at the common scale `n`.
pub proof fn lemma_scale_to(m: int, s: nat, v: int, l: nat, n: nat)
    requires
        m * pow10(l) == v * pow10(s),
        s <= n,
        l <= n,
    ensures
        m * pow10((n - s) as nat) == v * pow10((n - l) as nat),
{
    lemma_pow10_add(s, (n - s) as nat);
    lemma_pow10_add(l, (n - l) as nat);
    lemma_pow10_positive(s);
    lemma_pow10_positive(l);
    let ps = pow10(s);
    let pl = pow10(l);
    let a = pow10((n - s) as nat);
    let b = pow10((n - l) as nat);
    assert(s + (n - s) as nat == n);
    assert(l + (n - l) as nat == n);
    assert(ps * a == pl * b);
    assert(m * a == v * b) by (nonlinear_arith)
        requires
            m * pl == v * ps,
            ps * a == pl * b,
            ps >= 1,
            pl >= 1,
    {
        assert(m * a * ps * pl == m * pl * (ps * a));
        assert(v * b * ps * pl == v * ps * (pl * b));
        assert((m * a) * (ps * pl) == (v * b) * (ps * pl));
    }
}

/// `10^a * 10^(n-a) == 10^n`.
pub proof fn lemma_pow10_split(a: nat, n: nat)
    requires
        a <= n,
    ensures
        pow10(a) * pow10((n - a) as nat) == pow10(n),
{
    lemma_pow10_add(a, (n - a) as nat);
    assert(a + (n - a) as nat == n);
}

/// The two positions as decimals, written at the scale `n`, and their difference.
proof fn lemma_split_difference(q1: Seq<Id>, q2: Seq<Id>, n: nat)
    requires
        split_ok(q1, q2),
        small_digits(numbers(q1)),
        small_digits(numbers(q2)),
        1 <= q1.len() < n,
        1 <= q2.len() < n,
        n <= 19,
        q1[0].number < q2[0].number,
    ensures
        pos_decimal(q1).mantissa * pow10((n - pos_decimal(q1).scale) as nat) == val(numbers(q1), n),
        pos_decimal(q1).scale < n,
        0 <= val(numbers(q1), n) < val(numbers(q2), n) < pow10(n),
        ({
            let dif = split_dif(q1, q2);
            &&& 1 <= dif.scale < n
            &&& 0 < dif.mantissa < pow10(dif.scale as nat)
            &&& dif.mantissa * pow10((n - dif.scale) as nat) == val(numbers(q2), n) - val(
                numbers(q1),
                n,
            )
        }),
{
    let l1 = q1.len();
    let l2 = q2.len();
    let xs = numbers(q1);
    let ys = numbers(q2);
    lemma_ids_val(q1);
    lemma_ids_val(q2);
    let i1 = ids_value(q1) as int;
    let i2 = ids_value(q2) as int;
    lemma_val_bounds(xs, l1);
    lemma_val_bounds(ys, l2);
    lemma_val_bounds(xs, n);
    lemma_val_bounds(ys, n);
    lemma_pow10_monotonic(l1, 18);
    lemma_pow10_monotonic(l2, 18);
    lemma_pow10_18();
    lemma_canon(i1, l1);
    lemma_canon(i2, l2);
    let x = pos_decimal(q1);
    let y = pos_decimal(q2);
    lemma_val_pad(xs, n);
    lemma_val_pad(ys, n);
    let xx = val(xs, n);
    let yy = val(ys, n);
    lemma_scale_to(x.mantissa as int, x.scale as nat, i1, l1, n);
    lemma_scale_to(y.mantissa as int, y.scale as nat, i2, l2, n);
    assert(x.mantissa * pow10((n - x.scale) as nat) == xx);
    assert(y.mantissa * pow10((n - y.scale) as nat) == yy);
    lemma_first_digit_order(q1, q2, n);
    let s = max_scale(x, y);
    let sr = sub_result(x, y);
    assert(y.mantissa != 0) by {
        if y.mantissa == 0 {
            assert(0 * pow10((n - y.scale) as nat) == 0);
        }
    }
    if x.mantissa == 0 {
        assert(0 * pow10((n - x.scale) as nat) == 0);
        let py = pow10((n - y.scale) as nat);
        assert(sr.mantissa == -y.mantissa);
        assert(sr.scale == y.scale);
        assert(sr.mantissa * py == xx - yy) by (nonlinear_arith)
            requires
                sr.mantissa == -y.mantissa,
                y.mantissa * py == yy,
                xx == 0,
        ;
    } else {
        let ax = align(x, s);
        let ay = align(y, s);
        assert(aligned_fits(x, y));
        assert(-max_mantissa() <= ax - ay <= max_mantissa());
        assert(sr.mantissa == ax - ay);
        let ps = pow10((n - s) as nat);
        lemma_pow10_add((s - x.scale) as nat, (n - s) as nat);
        lemma_pow10_add((s - y.scale) as nat, (n - s) as nat);
        assert((s - x.scale) as nat + (n - s) as nat == (n - x.scale) as nat);
        assert((s - y.scale) as nat + (n - s) as nat == (n - y.scale) as nat);
        let qx = pow10((s - x.scale) as nat);
        let qy = pow10((s - y.scale) as nat);
        assert(ax * ps == xx) by (nonlinear_arith)
            requires
                ax == x.mantissa * qx,
                x.mantissa * (qx * ps) == xx,
        ;
        assert(ay * ps == yy) by (nonlinear_arith)
            requires
                ay == y.mantissa * qy,
                y.mantissa * (qy * ps) == yy,
        ;
        assert(sr.mantissa * ps == xx - yy) by (nonlinear_arith)
            requires
                sr.mantissa == ax - ay,
                ax * ps == xx,
                ay * ps == yy,
        ;
    }
    let dif = split_dif(q1, q2);
    let ds = dif.scale as nat;
    let pds = pow10((n - ds) as nat);
    lemma_pow10_positive((n - ds) as nat);
    let srm = sr.mantissa as int;
    assert(srm * pds == xx - yy);
    assert(srm < 0) by (nonlinear_arith)
        requires
            srm * pds == xx - yy,
            xx < yy,
            pds >= 1,
    ;
    let dm = dif.mantissa as int;
    assert(dm == -srm);
    assert(dm * pds == yy - xx) by (nonlinear_arith)
        requires
            dm == -srm,
            srm * pds == xx - yy,
    ;
    lemma_pow10_split(ds, n);
    lemma_pow10_positive(ds);
    assert(dm < pow10(ds)) by (nonlinear_arith)
        requires
            dm * pds == yy - xx,
            yy < pow10(n),
            xx >= 0,
            pow10(ds) * pds == pow10(n),
            pds >= 1,
    ;
    assert(dm > 0) by (nonlinear_arith)
        requires
            dm * pds == yy - xx,
            xx < yy,
            pds >= 1,
    ;
    if ds == 0 {
        assert(pow10(0) == 1);
        assert(false);
    }
}

/// Positions whose first levels differ in number are ordered as their numbers.
pub proof fn lemma_first_digit_order(q1: Seq<Id>, q2: Seq<Id>, n: nat)
    requires
        small_digits(numbers(q1)),
        small_digits(numbers(q2)),
        1 <= q1.len(),
        1 <= q2.len(),
        1 <= n,
        q1[0].number < q2[0].number,
    ensures
        val(numbers(q1), n) < val(numbers(q2), n),
{
    let xs = numbers(q1);
    let ys = numbers(q2);
    lemma_val_split(xs, 1, n);
    lemma_val_split(ys, 1, n);
    assert(val(xs, 0) == 0 && val(ys, 0) == 0);
    assert(val(xs, 1) == q1[0].number);
    assert(val(ys, 1) == q2[0].number);
    let p1 = pow10((n - 1) as nat);
    lemma_pow10_positive((n - 1) as nat);
    let a0 = q1[0].number as int;
    let b0 = q2[0].number as int;
    let xx = val(xs, n);
    let yy = val(ys, n);
    assert(xx < yy) by (nonlinear_arith)
        requires
            xx < (a0 + 1) * p1,
            b0 * p1 <= yy,
            a0 + 1 <= b0,
            p1 >= 1,
    ;
}

/// The step read from the difference is at most half of it.
proof fn lemma_split_step(dif: Dec, gap: int, n: nat) -> (e: nat)
    requires
        1 <= dif.scale < n,
        0 < dif.mantissa < pow10(dif.scale as nat),
        dif.mantissa * pow10((n - dif.scale) as nat) == gap,
    ensures
        e == step_exp(gap_digits(dif)),
        1 <= e <= n,
        gap >= 2 * pow10((n - e) as nat),
{
    let ds = dif.scale as nat;
    let dm = dif.mantissa as int;
    lemma_fraction_text(dif);
    let t = pad_digits(dm as nat, ds);
    assert(gap_digits(dif) =~= t);
    lemma_pad_digits(dm as nat, ds);
    assert((dm as nat) % pow10(ds) == dm) by (nonlinear_arith)
        requires
            0 < dm < pow10(ds),
    ;
    lemma_step_exp_bound(t);
    let e = step_exp(t);
    lemma_pow10_split(e, n);
    lemma_pow10_split(ds, n);
    lemma_pow10_positive(e);
    lemma_pow10_positive((n - ds) as nat);
    let pe = pow10(e);
    let pne = pow10((n - e) as nat);
    let pd = pow10(ds);
    let pds = pow10((n - ds) as nat);
    assert(gap >= 2 * pne) by (nonlinear_arith)
        requires
            dm * pds == gap,
            dm * pe >= 2 * pd,
            pd * pds == pow10(n),
            pe * pne == pow10(n),
            pe >= 1,
            pds >= 1,
    {
        assert(gap * pe == dm * pe * pds);
        assert(dm * pe * pds >= 2 * pd * pds);
        assert(gap * pe >= 2 * pne * pe);
    }
    e
}

/// The digits of `x + 10^-e`, for `x` written at the scale `n` as `xx`, below `yy`.
proof fn lemma_point_digits(x: Dec, e: nat, n: nat, xx: int, yy: int)
    requires
        x.scale < n,
        n <= 19,
        1 <= e <= n,
        x.mantissa * pow10((n - x.scale) as nat) == xx,
        0 <= xx,
        xx + pow10((n - e) as nat) < yy,
        yy < pow10(n),
    ensures
        ({
            let d = digit_values(digits_tail(canon(gap_num(x, e), gap_exp(x, e))));
            &&& small_digits(d)
            &&& 1 <= d.len() <= n
            &&& val(d, n) == xx + pow10((n - e) as nat)
        }),
{
    let g = gap_exp(x, e);
    let gn = gap_num(x, e);
    let pne = pow10((n - e) as nat);
    let zz = xx + pne;
    lemma_pow10_positive((n - e) as nat);
    lemma_pow10_add((g - x.scale) as nat, (n - g) as nat);
    lemma_pow10_add((g - e) as nat, (n - g) as nat);
    assert((g - x.scale) as nat + (n - g) as nat == (n - x.scale) as nat);
    assert((g - e) as nat + (n - g) as nat == (n - e) as nat);
    let pg = pow10((n - g) as nat);
    let gx = pow10((g - x.scale) as nat);
    let ge = pow10((g - e) as nat);
    assert(gn * pg == zz) by (nonlinear_arith)
        requires
            gn == x.mantissa * gx + ge,
            x.mantissa * (gx * pg) == xx,
            ge * pg == pne,
            zz == xx + pne,
    ;
    lemma_pow10_positive((n - g) as nat);
    lemma_pow10_split(g, n);
    lemma_pow10_monotonic(g, 19);
    lemma_pow10_18();
    assert(pow10(19) == 10 * pow10(18));
    assert(gn < pow10(g)) by (nonlinear_arith)
        requires
            gn * pg == zz,
            zz < yy,
            yy < pow10(n),
            pow10(g) * pg == pow10(n),
            pg >= 1,
    ;
    assert(gn > 0) by (nonlinear_arith)
        requires
            gn * pg == zz,
            zz > 0,
            pg >= 1,
    ;
    lemma_canon(gn, g);
    let z = canon(gn, g);
    lemma_scale_to(z.mantissa as int, z.scale as nat, gn, g, n);
    let zs = z.scale as nat;
    let zm = z.mantissa as int;
    let pzs = pow10((n - zs) as nat);
    lemma_pow10_positive((n - zs) as nat);
    lemma_pow10_split(zs, n);
    assert(zm * pzs == zz);
    assert(0 < zm < pow10(zs)) by (nonlinear_arith)
        requires
            zm * pzs == zz,
            0 < zz < pow10(n),
            pow10(zs) * pzs == pow10(n),
            pzs >= 1,
    ;
    if zs == 0 {
        assert(pow10(0) == 1);
        assert(false);
    }
    lemma_fraction_text(z);
    let dt = pad_digits(zm as nat, zs);
    assert(digits_tail(z) =~= dt);
    lemma_pad_digits(zm as nat, zs);
    assert((zm as nat) % pow10(zs) == zm) by (nonlinear_arith)
        requires
            0 < zm < pow10(zs),
    ;
    lemma_digit_values_val(dt);
    let d = digit_values(dt);
    lemma_val_pad(d, n);
}

/// The numbers behind the decimal computation between two positions whose first
/// levels differ: at a common scale `n`, the digits of the computed point are the
/// lower position's number plus a step `10^(n-m)` that is at most half the distance
/// to the upper position's number.
pub proof fn lemma_split_point_digits(q1: Seq<Id>, q2: Seq<Id>) -> (nm: (nat, nat))
    requires
        split_ok(q1, q2),
        small_digits(numbers(q1)),
        small_digits(numbers(q2)),
        q1.len() >= 1,
        q2.len() >= 1,
        q1[0].number < q2[0].number,
    ensures
        ({
            let n = nm.0;
            let m = nm.1;
            let d = digit_values(digits_tail(split_point(q1, q2)));
            &&& small_digits(d)
            &&& 1 <= d.len() <= n
            &&& q1.len() <= n
            &&& q2.len() <= n
            &&& 1 <= m <= n
            &&& val(d, n) == val(numbers(q1), n) + pow10((n - m) as nat)
            &&& val(numbers(q2), n) - val(numbers(q1), n) >= 2 * pow10((n - m) as nat)
        }),
{
    let l1 = q1.len();
    let l2 = q2.len();
    let n: nat = (if l1 >= l2 {
        l1
    } else {
        l2
    }) + 1;
    lemma_split_difference(q1, q2, n);
    let xx = val(numbers(q1), n);
    let yy = val(numbers(q2), n);
    let dif = split_dif(q1, q2);
    let e = lemma_split_step(dif, yy - xx, n);
    lemma_pow10_positive((n - e) as nat);
    lemma_point_digits(pos_decimal(q1), e, n, xx, yy);
    assert(split_point(q1, q2) == canon(gap_num(pos_decimal(q1), e), gap_exp(pos_decimal(q1), e)));
    (n, e)
}

/// What the order of two positions says of their first levels.
proof fn lemma_pos_lt_first(p1: Seq<Id>, p2: Seq<Id>)
    requires
        p1.len() > 0,
        p2.len() > 0,
        pos_lt(p1, p2),
    ensures
        p1[0] == p2[0] ==> pos_lt(p1.drop_first(), p2.drop_first()),
        p1[0].number != p2[0].number ==> p1[0].number < p2[0].number,
        p1[0].number == p2[0].number ==> p1[0].user <= p2[0].user,
{
}

/// A position never comes before its own first level alone.
proof fn lemma_not_lt_head(b: Id, x: Seq<Id>)
    ensures
        !pos_lt(seq![b] + x, seq![b]),
{
    let a = seq![b] + x;
    assert(a[0] == b);
    assert(seq![b][0] == b);
    assert(a.drop_first() =~= x);
    assert(seq![b].drop_first() =~= Seq::<Id>::empty());
    assert(id_order(b, b) == Ordering::Equal);
    assert(pos_order(a, seq![b]) == pos_order(x, Seq::<Id>::empty()));
    assert(pos_order(x, Seq::<Id>::empty()) != Ordering::Less);
}

/// Every level of the position has a decimal digit as its number.
pub open spec fn digit_levels(p: Seq<Id>) -> bool {
    forall|k: int| 0 <= k < p.len() ==> #[trigger] p[k].number <= 9
}

/// `p2` is `p1` followed by levels `0` of the user `u` only.
pub open spec fn zero_extension(p1: Seq<Id>, p2: Seq<Id>, u: u32) -> bool {
    &&& p1.len() < p2.len()
    &&& p2.take(p1.len() as int) == p1
    &&& forall|k: int| p1.len() <= k < p2.len() ==> p2[k] == (Id { number: 0, user: u })
}

/// Digit levels have digits as their numbers.
pub proof fn lemma_digit_levels_numbers(p: Seq<Id>)
    requires
        digit_levels(p),
    ensures
        small_digits(numbers(p)),
{
    assert forall|k: int| 0 <= k < numbers(p).len() implies #[trigger] numbers(p)[k] <= 9 by {
        assert(p[k].number <= 9);
    }
}

/// The padded positions have digit levels too.
proof fn lemma_pad_digit_levels(p1: Seq<Id>, p2: Seq<Id>, u: u32)
    requires
        digit_levels(p1),
        digit_levels(p2),
    ensures
        digit_levels(pad_low(p1, u)),
        digit_levels(pad_high(p2, u)),
        digit_levels(pad_low(p1, u).drop_first()),
        digit_levels(pad_high(p2, u).drop_first()),
{
    let q1 = pad_low(p1, u);
    let q2 = pad_high(p2, u);
    assert forall|k: int| 0 <= k < q1.drop_first().len() implies #[trigger] q1.drop_first()[k].number
        <= 9 by {
        assert(q1.drop_first()[k] == q1[k + 1]);
    }
    assert forall|k: int| 0 <= k < q2.drop_first().len() implies #[trigger] q2.drop_first()[k].number
        <= 9 by {
        assert(q2.drop_first()[k] == q2[k + 1]);
    }
}

/// A digit level in front of digit levels.
proof fn lemma_digit_levels_cons(b: Id, g: Seq<Id>)
    requires
        b.number <= 9,
        digit_levels(g),
    ensures
        digit_levels(seq![b] + g),
{
    assert forall|k: int| 0 <= k < (seq![b] + g).len() implies #[trigger] (seq![b] + g)[k].number
        <= 9 by {
        if k > 0 {
            assert((seq![b] + g)[k] == g[k - 1]);
        }
    }
}

/// A merged position of digits has digit levels.
proof fn lemma_merged_digit_levels(start: Seq<Id>, d: Seq<u32>, end: Seq<Id>, u: u32)
    requires
        small_digits(d),
    ensures
        digit_levels(merged_ids(start, d, end, u)),
{
    lemma_first_mismatch(start, d, end, 0);
    let r = merged_ids(start, d, end, u);
    assert forall|k: int| 0 <= k < r.len() implies #[trigger] r[k].number <= 9 by {
        match first_mismatch(start, d, end, 0) {
            Some(m0) => {
                if k < m0 {
                    assert(matches_at(start, d, end, k));
                    assert(d[k] <= 9);
                } else {
                    assert(d[k] <= 9);
                }
            },
            None => {
                if k < d.len() {
                    assert(matches_at(start, d, end, k));
                    assert(d[k] <= 9);
                } else {
                    let j = start.len() as int;
                    assert(d[j + (k - d.len())] <= 9);
                }
            },
        }
    }
}

/// Dropping a shared first level keeps a pair of positions from being a zero extension.
proof fn lemma_zero_extension_tail(p1: Seq<Id>, p2: Seq<Id>, u: u32)
    requires
        p1.len() > 0 || p2.len() > 0,
        pad_low(p1, u)[0] == pad_high(p2, u)[0],
        !zero_extension(p1, p2, u),
    ensures
        !zero_extension(pad_low(p1, u).drop_first(), pad_high(p2, u).drop_first(), u),
{
    let q1 = pad_low(p1, u);
    let q2 = pad_high(p2, u);
    let b = q1[0];
    let t1 = q1.drop_first();
    let t2 = q2.drop_first();
    if zero_extension(t1, t2, u) {
        if p1.len() > 0 {
            assert(p2.len() > 0);
            assert(q1 =~= seq![b] + t1);
            assert(q2 =~= seq![b] + t2);
            assert(p2.take(p1.len() as int) =~= seq![b] + t2.take(t1.len() as int));
            assert forall|k: int| p1.len() <= k < p2.len() implies p2[k] == (Id {
                number: 0,
                user: u,
            }) by {
                assert(p2[k] == t2[k - 1]);
            }
            assert(zero_extension(p1, p2, u));
        } else {
            assert(p2.len() > 0);
            assert(p2.take(0) =~= p1);
            assert forall|k: int| 0 <= k < p2.len() implies p2[k] == (Id { number: 0, user: u }) by {
                if k > 0 {
                    assert(p2[k] == t2[k - 1]);
                }
            }
            assert(zero_extension(p1, p2, u));
        }
    }
}

/// A position generated between two positions lies strictly between them: after the
/// lower one when there is one, and before the upper one when there is one; its
/// levels hold decimal digits again. The levels of the given positions hold decimal
/// digits, the lower position comes before the upper one, and the upper one is not
/// the lower one followed only by levels `0` of the new user (for such a pair the
/// generated position comes after the upper one). On such positions
/// `generate_pos_id` runs exactly when `gen_runs` holds (see `lemma_gen_ok_digits`).
pub proof fn lemma_generated_between(p1: Seq<Id>, p2: Seq<Id>, u: u32)
    requires
        gen_runs(p1, p2, u),
        digit_levels(p1),
        digit_levels(p2),
        p1.len() > 0 && p2.len() > 0 ==> pos_lt(p1, p2),
        !zero_extension(p1, p2, u),
    ensures
        gen(p1, p2, u).len() > 0,
        digit_levels(gen(p1, p2, u)),
        p1.len() > 0 ==> pos_lt(p1, gen(p1, p2, u)),
        p2.len() > 0 ==> pos_lt(gen(p1, p2, u), p2),
    decreases p1.len() + p2.len(),
{
    lemma_gen_ok_digits(p1, p2, u);
    if p1.len() == 0 && p2.len() == 0 {
        assert(gen(p1, p2, u)[0].number == 1);
        return;
    }
    let q1 = pad_low(p1, u);
    let q2 = pad_high(p2, u);
    let b = q1[0];
    let e = q2[0];
    let t1 = q1.drop_first();
    let t2 = q2.drop_first();
    lemma_pad_digit_levels(p1, p2, u);
    assert(q1 =~= seq![b] + t1);
    assert(q2 =~= seq![e] + t2);
    if p1.len() > 0 && p2.len() > 0 {
        lemma_pos_lt_first(p1, p2);
    }
    if b == e {
        let g = gen(t1, t2, u);
        assert(gen(p1, p2, u) == seq![b] + g);
        lemma_zero_extension_tail(p1, p2, u);
        lemma_generated_between(t1, t2, u);
        lemma_digit_levels_cons(b, g);
        if p1.len() > 0 {
            if t1.len() > 0 {
                lemma_pos_lt_cons(b, t1, g);
            } else {
                assert(p1 =~= seq![b]);
                lemma_pos_lt_prefix(p1, seq![b] + g);
            }
        }
        if p2.len() > 0 {
            if t2.len() > 0 {
                lemma_pos_lt_cons(b, g, t2);
            } else {
                assert(p2 =~= seq![b]);
                if p1.len() > 0 {
                    lemma_not_lt_head(b, t1);
                } else {
                    assert(p2.take(0) =~= p1);
                    assert(zero_extension(p1, p2, u));
                }
            }
        }
    } else if b.number == e.number && b.user < e.user {
        let g = gen(t1, Seq::empty(), u);
        assert(gen(p1, p2, u) == seq![b] + g);
        lemma_generated_between(t1, Seq::empty(), u);
        lemma_digit_levels_cons(b, g);
        if p1.len() > 0 {
            if t1.len() > 0 {
                lemma_pos_lt_cons(b, t1, g);
            } else {
                assert(p1 =~= seq![b]);
                lemma_pos_lt_prefix(p1, seq![b] + g);
            }
        }
        if p2.len() > 0 {
            assert(id_order(b, e) == Ordering::Less);
            lemma_pos_lt_head(b, e, g, t2);
        }
    } else if b.number != e.number {
        assert(b.number < e.number);
        lemma_digit_levels_numbers(q1);
        lemma_digit_levels_numbers(q2);
        let nm = lemma_split_point_digits(q1, q2);
        let d = digit_values(digits_tail(split_point(q1, q2)));
        lemma_split_between(q1, q2, d, u, nm.0, nm.1);
        lemma_merged_levels(q1, d, q2, u);
        lemma_merged_digit_levels(q1, d, q2, u);
    }
}

} // verus!
