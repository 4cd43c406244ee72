//! The initial positions of a document's characters: each character gets the digits
//! of a fraction `0.c`, for counters `c` that skip the multiples of ten, in the
//! order of those fractions.

use std::cmp::Ordering;
use vstd::prelude::*;

use crate::crdt::{pos_order, Id};
use crate::decimal::{
    dec_fract, dec_from_str, dec_lt, dec_text, dec_to_string, max_mantissa, parses_to, Dec,
};
use crate::digits::{
    all_digits, char_digit, digits_value, dv, lex_le, lemma_nat_digits, lemma_pow10_positive, nat_digits,
    pad_digits, pow10, string_chars, string_from_chars, trim_end, trim_end_matches,
    trim_start_matches_pair, trim_start_pair, usize_digits,
};

verus! {

/// The counter that follows `c`: the next number that is not a multiple of ten.
pub open spec fn next_count(c: nat) -> nat {
    if (c + 1) % 10 == 0 {
        c + 2
    } else {
        c + 1
    }
}

/// The counter of the `i`-th character: 1, 2, ..., 9, 11, 12, ...
pub open spec fn count_at(i: nat) -> nat
    decreases i,
{
    if i == 0 {
        1
    } else {
        next_count(count_at((i - 1) as nat))
    }
}

/// The number of decimal digits of `c`.
pub open spec fn digit_count(c: nat) -> nat {
    nat_digits(c).len()
}

/// The fraction `0.c`, as a decimal.
pub open spec fn count_key(c: nat) -> Dec {
    Dec { mantissa: c as i128, scale: digit_count(c) as u32 }
}

/// The fractions of the counters of the first `n` characters, in counter order.
pub open spec fn initial_keys(n: nat) -> Seq<Dec> {
    Seq::new(n, |i: int| count_key(count_at(i as nat)))
}

/// `keys` holds the fractions of the counters of `n` characters, in increasing order.
pub open spec fn initial_order(keys: Seq<Dec>, n: nat) -> bool {
    &&& keys.to_multiset() == initial_keys(n).to_multiset()
    &&& forall|i: int, j: int|
        0 <= i < j < keys.len() ==> dec_value_lt(#[trigger] keys[i], #[trigger] keys[j])
}

pub proof fn lemma_count_at(i: nat)
    ensures
        count_at(i) >= 1,
        count_at(i) % 10 != 0,
        count_at(i) <= 2 * i + 1,
    decreases i,
{
    if i > 0 {
        lemma_count_at((i - 1) as nat);
    }
}

pub proof fn lemma_count_at_increasing(i: nat, j: nat)
    requires
        i < j,
    ensures
        count_at(i) < count_at(j),
    decreases j,
{
    if i + 1 < j {
        lemma_count_at_increasing(i, (j - 1) as nat);
    }
}

/// A leading zero does not change the number that digits denote.
pub proof fn lemma_leading_zero(s: Seq<char>)
    ensures
        digits_value(seq!['0'] + s) == digits_value(s),
    decreases s.len(),
{
    if s.len() == 0 {
        assert(seq!['0'] + s =~= seq!['0']);
        assert(seq!['0'].drop_last() =~= Seq::<char>::empty());
        assert(seq!['0'].last() == '0');
        assert(digits_value(Seq::<char>::empty()) == 0);
        assert(digits_value(seq!['0']) == 0);
    } else {
        lemma_leading_zero(s.drop_last());
        assert((seq!['0'] + s).drop_last() =~= seq!['0'] + s.drop_last());
        assert((seq!['0'] + s).last() == s.last());
    }
}

/// Padding a number to its own length gives its digits.
pub proof fn lemma_pad_own_length(n: nat)
    ensures
        pad_digits(n, digit_count(n)) == nat_digits(n),
    decreases n,
{
    if n < 10 {
        assert(digit_count(n) == 1);
        assert(pad_digits(n / 10, 0) =~= Seq::<char>::empty());
        assert(pad_digits(n, 1) =~= seq![crate::digits::digit_char(n % 10)]);
    } else {
        lemma_pad_own_length(n / 10);
        assert(digit_count(n) == digit_count(n / 10) + 1);
    }
}

/// The text of the fraction `0.c`.
pub proof fn lemma_key_text(c: nat)
    requires
        1 <= c <= max_mantissa(),
        digit_count(c) <= 28,
    ensures
        dec_text(count_key(c)) == seq!['0', '.'] + nat_digits(c),
{
    lemma_nat_digits(c);
    lemma_pad_own_length(c);
    let k = digit_count(c);
    assert(c < pow10(k));
    assert(c / pow10(k) == 0) by (nonlinear_arith)
        requires
            c < pow10(k),
    ;
    assert(c % pow10(k) == c) by (nonlinear_arith)
        requires
            c < pow10(k),
    ;
    assert(nat_digits(0) == seq!['0']);
    assert(count_key(c).mantissa == c);
    assert(count_key(c).scale == k);
    assert(dec_text(count_key(c)) =~= seq!['0'] + (seq!['.'] + nat_digits(c)));
    assert(seq!['0'] + (seq!['.'] + nat_digits(c)) =~= seq!['0', '.'] + nat_digits(c));
}

/// The numeral `0.c` denotes the fraction `0.c`.
pub proof fn lemma_key_parses(c: nat)
    requires
        1 <= c <= max_mantissa(),
        digit_count(c) <= 28,
    ensures
        parses_to(seq!['0', '.'] + nat_digits(c), count_key(c)),
{
    lemma_nat_digits(c);
    let s = seq!['0', '.'] + nat_digits(c);
    assert(s.take(1) =~= seq!['0']);
    assert(s.skip(2) =~= nat_digits(c));
    assert(s[1] == '.');
    assert(all_digits(s.take(1)));
    lemma_leading_zero(nat_digits(c));
    assert(s.take(1) + s.skip(2) =~= seq!['0'] + nat_digits(c));
    assert(s.len() - 1 - 1 == digit_count(c));
    assert(count_key(c).mantissa == c);
    assert(0 < 1 < s.len() - 1);
}

/// The text `"0."` followed by the digits of `c`.
pub fn key_numeral(c: usize) -> (s: Vec<char>)
    ensures
        s@ == seq!['0', '.'] + nat_digits(c as nat),
{
    let digits = usize_digits(c);
    let mut s: Vec<char> = Vec::new();
    s.push('0');
    s.push('.');
    let mut i: usize = 0;
    while i < digits.len()
        invariant
            i <= digits.len(),
            s@ =~= seq!['0', '.'] + digits@.take(i as int),
        decreases digits.len() - i,
    {
        s.push(digits[i]);
        i = i + 1;
        assert(s@ =~= seq!['0', '.'] + digits@.take(i as int));
    }
    assert(digits@.take(digits.len() as int) =~= digits@);
    s
}


/// `a` is at most `b` as a number.
pub open spec fn dec_le(a: Dec, b: Dec) -> bool {
    a.mantissa * pow10(b.scale as nat) <= b.mantissa * pow10(a.scale as nat)
}

/// `a` is smaller than `b` as a number.
pub open spec fn dec_value_lt(a: Dec, b: Dec) -> bool {
    a.mantissa * pow10(b.scale as nat) < b.mantissa * pow10(a.scale as nat)
}

pub proof fn lemma_dec_le_transitive(a: Dec, b: Dec, c: Dec)
    requires
        dec_le(a, b),
        dec_le(b, c),
    ensures
        dec_le(a, c),
{
    lemma_pow10_positive(a.scale as nat);
    lemma_pow10_positive(b.scale as nat);
    lemma_pow10_positive(c.scale as nat);
    let pa = pow10(a.scale as nat);
    let pb = pow10(b.scale as nat);
    let pc = pow10(c.scale as nat);
    let am = a.mantissa as int;
    let bm = b.mantissa as int;
    let cm = c.mantissa as int;
    assert(am * pc <= cm * pa) by (nonlinear_arith)
        requires
            am * pb <= bm * pa,
            bm * pc <= cm * pb,
            pa >= 1,
            pb >= 1,
            pc >= 1,
    {
        assert(am * pb * pc <= bm * pa * pc);
        assert(bm * pc * pa <= cm * pb * pa);
        assert((am * pc) * pb <= (cm * pa) * pb);
    }
}

/// `a` and `b` are the same number.
pub open spec fn same_value(a: Dec, b: Dec) -> bool {
    a.mantissa * pow10(b.scale as nat) == b.mantissa * pow10(a.scale as nat)
}

/// The test for a decimal of the same number as `d`.
pub open spec fn is_value(d: Dec) -> spec_fn(Dec) -> bool {
    |k: Dec| same_value(k, d)
}

/// The decimals of `s` that are the same number as `d`, in their order.
pub open spec fn with_value(s: Seq<Dec>, d: Dec) -> Seq<Dec> {
    s.filter(is_value(d))
}

/// A strictly smaller number followed by one that is not smaller stays strictly smaller.
proof fn lemma_dec_lt_le(a: Dec, b: Dec, c: Dec)
    requires
        dec_value_lt(a, b),
        dec_le(b, c),
    ensures
        dec_value_lt(a, c),
{
    lemma_pow10_positive(a.scale as nat);
    lemma_pow10_positive(b.scale as nat);
    lemma_pow10_positive(c.scale as nat);
    let pa = pow10(a.scale as nat);
    let pb = pow10(b.scale as nat);
    let pc = pow10(c.scale as nat);
    let am = a.mantissa as int;
    let bm = b.mantissa as int;
    let cm = c.mantissa as int;
    assert(am * pc < cm * pa) by (nonlinear_arith)
        requires
            am * pb < bm * pa,
            bm * pc <= cm * pb,
            pa >= 1,
            pb >= 1,
            pc >= 1,
    {
        assert(am * pb * pc < bm * pa * pc);
        assert(bm * pc * pa <= cm * pb * pa);
        assert((am * pc) * pb < (cm * pa) * pb);
    }
}

/// A number strictly above one of the numbers of `d` is not the number of `d`.
proof fn lemma_lt_not_same(x: Dec, o: Dec, d: Dec)
    requires
        dec_value_lt(x, o),
        same_value(x, d),
    ensures
        !same_value(o, d),
{
    lemma_pow10_positive(x.scale as nat);
    lemma_pow10_positive(o.scale as nat);
    lemma_pow10_positive(d.scale as nat);
    let px = pow10(x.scale as nat);
    let po = pow10(o.scale as nat);
    let pd = pow10(d.scale as nat);
    let xm = x.mantissa as int;
    let om = o.mantissa as int;
    let dm = d.mantissa as int;
    if om * pd == dm * po {
        assert(false) by (nonlinear_arith)
            requires
                xm * po < om * px,
                xm * pd == dm * px,
                om * pd == dm * po,
                px >= 1,
                po >= 1,
                pd >= 1,
        {
            assert(xm * po * pd < om * px * pd);
            assert(om * pd * px == dm * po * px);
            assert(xm * pd * po == dm * px * po);
        }
    }
}

/// Inserting `x` in front of decimals that are all strictly larger changes the
/// decimals of each number as appending it does.
proof fn lemma_with_value_insert(s: Seq<Dec>, j: int, x: Dec, d: Dec)
    requires
        0 <= j <= s.len(),
        forall|k: int| j <= k < s.len() ==> dec_value_lt(x, #[trigger] s[k]),
    ensures
        with_value(s.insert(j, x), d) == with_value(s.push(x), d),
{
    broadcast use vstd::seq_lib::group_seq_properties;

    let f = is_value(d);
    let a = s.take(j);
    let b = s.skip(j);
    let e = Seq::<Dec>::empty();
    assert(s =~= a + b);
    assert(seq![x] =~= e.push(x));
    assert(s.insert(j, x) =~= a + (seq![x] + b));
    assert(e.filter(f) =~= e) by {
        reveal(Seq::filter);
    }
    e.lemma_filter_push(x, f);
    vstd::seq::Seq::filter_distributes_over_add(a, b, f);
    vstd::seq::Seq::filter_distributes_over_add(a, seq![x] + b, f);
    vstd::seq::Seq::filter_distributes_over_add(seq![x], b, f);
    s.lemma_filter_push(x, f);
    if same_value(x, d) {
        assert forall|k: int| 0 <= k < b.len() implies !f(#[trigger] b[k]) by {
            assert(b[k] == s[j + k]);
            lemma_lt_not_same(x, b[k], d);
        }
        assert(b.all(|c: Dec| !f(c)));
        b.lemma_all_neg_filter_empty(f);
        assert(b.filter(f) =~= e);
        assert(seq![x].filter(f) =~= seq![x]);
        assert(s.filter(f) =~= a.filter(f));
        assert(s.insert(j, x).filter(f) =~= a.filter(f).push(x));
    } else {
        assert(seq![x].filter(f) =~= e);
        assert(s.insert(j, x).filter(f) =~= s.filter(f));
    }
}

/// Sorts decimals by their numbers; decimals of the same number keep their order.
pub fn sort_keys(v: &Vec<Dec>) -> (r: Vec<Dec>)
    requires
        forall|i: int| 0 <= i < v.len() ==> (#[trigger] v[i]).wf(),
    ensures
        r@.to_multiset() == v@.to_multiset(),
        forall|i: int, j: int| 0 <= i < j < r.len() ==> dec_le(#[trigger] r[i], #[trigger] r[j]),
        forall|d: Dec| #[trigger] with_value(r@, d) == with_value(v@, d),
        forall|i: int| 0 <= i < r.len() ==> (#[trigger] r[i]).wf(),
        r.len() == v.len(),
{
    broadcast use vstd::seq_lib::group_to_multiset_ensures;

    let mut out: Vec<Dec> = Vec::new();
    let mut i: usize = 0;
    while i < v.len()
        invariant
            i <= v.len(),
            forall|k: int| 0 <= k < v.len() ==> (#[trigger] v[k]).wf(),
            out@.to_multiset() == v@.take(i as int).to_multiset(),
            out.len() == i,
            forall|a: int, b: int|
                0 <= a < b < out.len() ==> dec_le(#[trigger] out[a], #[trigger] out[b]),
            forall|k: int| 0 <= k < out.len() ==> (#[trigger] out[k]).wf(),
            forall|d: Dec| #[trigger] with_value(out@, d) == with_value(v@.take(i as int), d),
        decreases v.len() - i,
    {
        let x = v[i];
        let mut j: usize = 0;
        while j < out.len() && !dec_lt(x, out[j])
            invariant
                j <= out.len(),
                x.wf(),
                forall|k: int| 0 <= k < out.len() ==> (#[trigger] out[k]).wf(),
                forall|k: int| 0 <= k < j ==> dec_le(#[trigger] out[k], x),
            decreases out.len() - j,
        {
            j = j + 1;
        }
        let ghost old_out = out@;
        proof {
            if j < out.len() {
                assert(dec_le(x, out[j as int]));
                assert forall|k: int| j <= k < out.len() implies dec_le(x, #[trigger] out[k]) by {
                    if k > j {
                        lemma_dec_le_transitive(x, out[j as int], out[k]);
                    }
                }
                assert forall|k: int| j <= k < out.len() implies dec_value_lt(
                    x,
                    #[trigger] old_out[k],
                ) by {
                    if k > j {
                        lemma_dec_lt_le(x, out[j as int], out[k]);
                    }
                }
            }
        }
        out.insert(j, x);
        proof {
            assert(v@.take(i + 1) =~= v@.take(i as int).push(x));
            assert(out@ == old_out.insert(j as int, x));
            vstd::seq_lib::to_multiset_insert(old_out, j as int, x);
            vstd::seq_lib::to_multiset_build(v@.take(i as int), x);
            assert(out@.to_multiset() == v@.take(i + 1).to_multiset());
            assert forall|d: Dec| #[trigger] with_value(out@, d) == with_value(v@.take(i + 1), d) by {
                assert(with_value(old_out, d) == with_value(v@.take(i as int), d));
                lemma_with_value_insert(old_out, j as int, x, d);
                old_out.lemma_filter_push(x, is_value(d));
                v@.take(i as int).lemma_filter_push(x, is_value(d));
            }
            assert forall|a: int, b: int| 0 <= a < b < out.len() implies dec_le(
                #[trigger] out[a],
                #[trigger] out[b],
            ) by {
                if b < j {
                } else if b == j {
                    assert(out[a] == old_out[a]);
                } else if a < j {
                    assert(out[b] == old_out[b - 1]);
                    assert(out[a] == old_out[a]);
                    lemma_dec_le_transitive(old_out[a], x, old_out[b - 1]);
                } else if a == j {
                    assert(out[b] == old_out[b - 1]);
                } else {
                    assert(out[b] == old_out[b - 1]);
                    assert(out[a] == old_out[a - 1]);
                }
            }
            assert forall|k: int| 0 <= k < out.len() implies (#[trigger] out[k]).wf() by {
                if k < j {
                    assert(out[k] == old_out[k]);
                } else if k > j {
                    assert(out[k] == old_out[k - 1]);
                }
            }
        }
        i = i + 1;
    }
    assert(v@.take(v.len() as int) =~= v@);
    out
}


/// The position of the character whose counter is `c`: the digits of `c`, each as a
/// level of user `u`.
pub open spec fn count_ids(c: nat, u: u32) -> Seq<Id> {
    ids_of_digits(nat_digits(c), u)
}

/// The digits of `s`, each as a level of user `u`.
pub open spec fn ids_of_digits(s: Seq<char>, u: u32) -> Seq<Id> {
    Seq::new(s.len(), |k: int| Id { number: char_digit(s[k]).unwrap(), user: u })
}

/// A counter of a `usize` has at most 20 digits.
pub proof fn lemma_usize_digit_count(c: nat)
    requires
        c <= 18446744073709551615,
    ensures
        digit_count(c) <= 20,
{
    lemma_nat_digits(c);
    if digit_count(c) > 20 {
        crate::digits::lemma_pow10_monotonic(20, (digit_count(c) - 1) as nat);
        assert(pow10(20) == 100000000000000000000) by {
            reveal_with_fuel(pow10, 21);
        }
    }
}

/// The last digit of a number that is not a multiple of ten is not `'0'`.
pub proof fn lemma_last_digit(c: nat)
    requires
        c % 10 != 0,
    ensures
        nat_digits(c).last() != '0',
        nat_digits(c).last() != '.',
{
}

/// The fraction `0.c`, read from the text `"0." + c`, written out, trimmed of
/// trailing zeros and of a trailing point, and read again.
pub fn counter_key(c: usize) -> (r: Dec)
    requires
        c >= 1,
        c % 10 != 0,
    ensures
        r == count_key(c as nat),
        r.wf(),
{
    let numeral = key_numeral(c);
    let s = string_from_chars(&numeral);
    proof {
        assert(c <= 18446744073709551615);
        lemma_usize_digit_count(c as nat);
        lemma_key_parses(c as nat);
        lemma_key_text(c as nat);
    }
    let res = dec_from_str(s.as_str()).unwrap();
    let res_string = dec_to_string(res);
    let rc = string_chars(res_string.as_str());
    proof {
        lemma_last_digit(c as nat);
        let t = seq!['0', '.'] + nat_digits(c as nat);
        assert(t.last() == nat_digits(c as nat).last());
        assert(trim_end(t, '0') == t);
        assert(trim_end(t, '.') == t);
    }
    let t1 = trim_end_matches(&rc, '0');
    let t2 = trim_end_matches(&t1, '.');
    let s2 = string_from_chars(&t2);
    dec_from_str(s2.as_str()).unwrap()
}

/// The position of a character from its fraction: the digits of the fraction's
/// fractional part, after its leading `"0."`.
pub fn key_pos_id(key: Dec, user_id: u32) -> (r: Vec<Id>)
    requires
        key.mantissa >= 1,
        key.mantissa <= 18446744073709551615,
        key == count_key(key.mantissa as nat),
    ensures
        r@ == count_ids(key.mantissa as nat, user_id),
{
    let ghost c = key.mantissa as nat;
    proof {
        lemma_usize_digit_count(c);
        lemma_nat_digits(c);
        assert(key.wf());
        assert(c < pow10(digit_count(c)));
        lemma_pow10_positive(digit_count(c));
        crate::digits::lemma_pow10_monotonic(digit_count(c), 20);
        assert(pow10(20) == 100000000000000000000) by {
            reveal_with_fuel(pow10, 21);
        }
        assert(c % pow10(digit_count(c)) == c) by (nonlinear_arith)
            requires
                c < pow10(digit_count(c)),
        ;
    }
    let fract = dec_fract(key);
    assert(fract == key);
    let text = dec_to_string(fract);
    let cs = string_chars(text.as_str());
    proof {
        lemma_key_text(c);
        let d = nat_digits(c);
        assert(cs@.skip(2) =~= d);
        assert(trim_start_pair(cs@, '0', '.') == trim_start_pair(d, '0', '.'));
        assert(d[0] != '0');
        assert(trim_start_pair(d, '0', '.') == d);
    }
    let ds = trim_start_matches_pair(&cs, '0', '.');
    let mut pos: Vec<Id> = Vec::new();
    let mut k: usize = 0;
    while k < ds.len()
        invariant
            ds@ == nat_digits(c),
            all_digits(ds@),
            k <= ds.len(),
            pos@ =~= count_ids(c, user_id).take(k as int),
        decreases ds.len() - k,
    {
        assert(char_digit(ds@[k as int]) is Some);
        let n = crate::digits::to_digit(ds[k]).unwrap();
        pos.push(Id { number: n, user: user_id });
        k = k + 1;
        assert(pos@ =~= count_ids(c, user_id).take(k as int));
    }
    assert(count_ids(c, user_id).take(ds.len() as int) =~= count_ids(c, user_id));
    pos
}


/// Fractions of two different counters that are not multiples of ten differ.
pub proof fn lemma_count_keys_differ(a: nat, b: nat)
    requires
        a != b,
        a % 10 != 0,
        b % 10 != 0,
        a <= max_mantissa(),
        b <= max_mantissa(),
        digit_count(a) <= 28,
        digit_count(b) <= 28,
    ensures
        a * pow10(digit_count(b)) != b * pow10(digit_count(a)),
{
    let p = digit_count(a);
    let q = digit_count(b);
    if a * pow10(q) == b * pow10(p) {
        if p <= q {
            crate::digits::lemma_pow10_add(p, (q - p) as nat);
            lemma_pow10_positive(p);
            let pp = pow10(p);
            let pd = pow10((q - p) as nat);
            assert(a * (pp * pd) == b * pp);
            assert(b == a * pd) by (nonlinear_arith)
                requires
                    a * (pp * pd) == b * pp,
                    pp >= 1,
            ;
            if q > p {
                assert(pd == 10 * pow10((q - p - 1) as nat));
                let t = a * pow10((q - p - 1) as nat);
                assert(b == t * 10) by (nonlinear_arith)
                    requires
                        b == a * pd,
                        pd == 10 * pow10((q - p - 1) as nat),
                        t == a * pow10((q - p - 1) as nat),
                ;
                vstd::arithmetic::div_mod::lemma_mod_multiples_basic(t as int, 10);
            } else {
                assert(pd == 1);
                assert(a * pd == a) by (nonlinear_arith)
                    requires
                        pd == 1,
                ;
                assert(b == a);
            }
        } else {
            crate::digits::lemma_pow10_add(q, (p - q) as nat);
            lemma_pow10_positive(q);
            let pq = pow10(q);
            let pd = pow10((p - q) as nat);
            assert(a * pq == b * (pq * pd));
            assert(a == b * pd) by (nonlinear_arith)
                requires
                    a * pq == b * (pq * pd),
                    pq >= 1,
            ;
            assert(pd == 10 * pow10((p - q - 1) as nat));
            let t = b * pow10((p - q - 1) as nat);
            assert(a == t * 10) by (nonlinear_arith)
                requires
                    a == b * pd,
                    pd == 10 * pow10((p - q - 1) as nat),
                    t == b * pow10((p - q - 1) as nat),
            ;
            vstd::arithmetic::div_mod::lemma_mod_multiples_basic(t as int, 10);
        }
    }
}

/// The initial fractions are all different.
pub proof fn lemma_initial_keys_no_duplicates(n: nat)
    requires
        n <= 18446744073709551615,
    ensures
        initial_keys(n).no_duplicates(),
{
    assert forall|i: int, j: int|
        0 <= i < initial_keys(n).len() && 0 <= j < initial_keys(n).len() && i != j implies
        initial_keys(n)[i] != initial_keys(n)[j] by {
        if i < j {
            lemma_count_at_increasing(i as nat, j as nat);
        } else {
            lemma_count_at_increasing(j as nat, i as nat);
        }
        lemma_count_at(i as nat);
        lemma_count_at(j as nat);
        assert(count_at(i as nat) != count_at(j as nat));
        assert(initial_keys(n)[i].mantissa == count_at(i as nat));
        assert(initial_keys(n)[j].mantissa == count_at(j as nat));
    }
}

/// `d` is the fraction of the counter of one of the first `n` characters.
pub open spec fn is_initial_key(d: Dec, n: nat) -> bool {
    exists|idx: nat| idx < n && d == #[trigger] count_key(count_at(idx))
}

/// The position of a character from its fraction.
pub open spec fn key_ids(key: Dec, u: u32) -> Seq<Id> {
    count_ids(key.mantissa as nat, u)
}

/// The fraction of a counter of a `usize` keeps the counter as its mantissa.
pub proof fn lemma_key_mantissa(c: nat)
    requires
        c <= 18446744073709551615,
    ensures
        count_key(c).mantissa as nat == c,
        key_ids(count_key(c), 0) == count_ids(c, 0),
        forall|u: u32| #[trigger] key_ids(count_key(c), u) == count_ids(c, u),
        digit_count(c) <= 20,
{
    lemma_usize_digit_count(c);
}

/// A key of an ordered initial sequence is the fraction of one of the counters.
pub proof fn lemma_initial_key_member(keys: Seq<Dec>, n: nat, i: int)
    requires
        initial_order(keys, n),
        0 <= i < keys.len(),
    ensures
        is_initial_key(keys[i], n),
{
    broadcast use vstd::seq_lib::group_to_multiset_ensures;

    assert(keys.contains(keys[i]));
    assert(keys.to_multiset().count(keys[i]) > 0);
    assert(initial_keys(n).contains(keys[i]));
    let m = choose|m: int| 0 <= m < initial_keys(n).len() && initial_keys(n)[m] == keys[i];
    assert(keys[i] == count_key(count_at(m as nat)));
    assert((m as nat) < n);
}


/// Two strictly increasing sequences of the same decimals are the same.
proof fn lemma_increasing_unique(a: Seq<Dec>, b: Seq<Dec>)
    requires
        a.to_multiset() == b.to_multiset(),
        forall|i: int, j: int| 0 <= i < j < a.len() ==> dec_value_lt(#[trigger] a[i], #[trigger] a[j]),
        forall|i: int, j: int| 0 <= i < j < b.len() ==> dec_value_lt(#[trigger] b[i], #[trigger] b[j]),
    ensures
        a == b,
    decreases a.len(),
{
    broadcast use vstd::seq_lib::group_to_multiset_ensures;
    broadcast use vstd::multiset::group_multiset_axioms;

    assert(a.len() == a.to_multiset().len());
    assert(b.len() == b.to_multiset().len());
    if a.len() == 0 {
        assert(a =~= b);
    } else {
        assert(a.to_multiset().count(a[0]) > 0);
        assert(b.contains(a[0]));
        assert(b.to_multiset().count(b[0]) > 0);
        assert(a.contains(b[0]));
        let j = choose|j: int| 0 <= j < b.len() && b[j] == a[0];
        let i = choose|i: int| 0 <= i < a.len() && a[i] == b[0];
        if i > 0 && j > 0 {
            assert(dec_value_lt(a[0], b[0]));
            assert(dec_value_lt(b[0], a[0]));
            lemma_dec_lt_le(a[0], b[0], a[0]);
            assert(false);
        }
        assert(a[0] == b[0]);
        let ta = a.drop_first();
        let tb = b.drop_first();
        assert(ta.to_multiset() =~= a.to_multiset().remove(a[0])) by {
            vstd::seq_lib::to_multiset_remove(a, 0);
            assert(a.remove(0) =~= ta);
        }
        assert(tb.to_multiset() =~= b.to_multiset().remove(b[0])) by {
            vstd::seq_lib::to_multiset_remove(b, 0);
            assert(b.remove(0) =~= tb);
        }
        assert forall|x: int, y: int| 0 <= x < y < ta.len() implies dec_value_lt(
            #[trigger] ta[x],
            #[trigger] ta[y],
        ) by {
            assert(ta[x] == a[x + 1] && ta[y] == a[y + 1]);
        }
        assert forall|x: int, y: int| 0 <= x < y < tb.len() implies dec_value_lt(
            #[trigger] tb[x],
            #[trigger] tb[y],
        ) by {
            assert(tb[x] == b[x + 1] && tb[y] == b[y + 1]);
        }
        lemma_increasing_unique(ta, tb);
        assert(a =~= seq![a[0]] + ta);
        assert(b =~= seq![b[0]] + tb);
    }
}

/// The fractions of the characters of a file, in increasing order, depend only on
/// the number of characters.
pub proof fn lemma_initial_order_unique(k1: Seq<Dec>, k2: Seq<Dec>, n: nat)
    requires
        initial_order(k1, n),
        initial_order(k2, n),
    ensures
        k1 == k2,
{
    lemma_increasing_unique(k1, k2);
}

/// Positions made of the digits of one user are ordered like the digit strings.
pub proof fn lemma_digit_ids_order(x: Seq<char>, y: Seq<char>, u: u32)
    requires
        all_digits(x),
        all_digits(y),
        pos_order(ids_of_digits(x, u), ids_of_digits(y, u)) != Ordering::Less,
    ensures
        lex_le(y, x),
    decreases x.len(),
{
    let a = ids_of_digits(x, u);
    let b = ids_of_digits(y, u);
    if x.len() != 0 && y.len() != 0 {
        assert(char_digit(x[0]) is Some);
        assert(char_digit(y[0]) is Some);
        assert(a[0].number == dv(x[0]));
        assert(b[0].number == dv(y[0]));
        if dv(x[0]) == dv(y[0]) {
            assert(a.drop_first() =~= ids_of_digits(x.drop_first(), u));
            assert(b.drop_first() =~= ids_of_digits(y.drop_first(), u));
            lemma_digit_ids_order(x.drop_first(), y.drop_first(), u);
        }
    }
}

/// The initial positions increase along the document: the `i`-th character's
/// position comes before the `j`-th one's whenever `i < j`.
pub proof fn lemma_initial_positions_increase(keys: Seq<Dec>, n: nat, u: u32, i: int, j: int)
    requires
        n <= usize::MAX / 4,
        initial_order(keys, n),
        0 <= i < j < keys.len(),
    ensures
        pos_order(key_ids(keys[i], u), key_ids(keys[j], u)) == Ordering::Less,
{
    broadcast use vstd::seq_lib::group_to_multiset_ensures;

    lemma_initial_key_member(keys, n, i);
    lemma_initial_key_member(keys, n, j);
    let a = choose|idx: nat| idx < n && keys[i] == #[trigger] count_key(count_at(idx));
    let b = choose|idx: nat| idx < n && keys[j] == #[trigger] count_key(count_at(idx));
    let ca = count_at(a);
    let cb = count_at(b);
    lemma_count_at(a);
    lemma_count_at(b);
    lemma_key_mantissa(ca);
    lemma_key_mantissa(cb);
    assert(dec_value_lt(keys[i], keys[j]));
    assert(ca * pow10(digit_count(cb)) < cb * pow10(digit_count(ca)));
    lemma_nat_digits(ca);
    lemma_nat_digits(cb);
    if pos_order(key_ids(keys[i], u), key_ids(keys[j], u)) != Ordering::Less {
        lemma_digit_ids_order(nat_digits(ca), nat_digits(cb), u);
        crate::digits::lemma_lex_le_value(nat_digits(cb), nat_digits(ca));
    }
}

} // verus!
