//! Decimal digits, digit characters and the small text operations built on them.

use vstd::prelude::*;

verus! {

/// `10` raised to `n`.
pub open spec fn pow10(n: nat) -> nat
    decreases n,
{
    if n == 0 {
        1
    } else {
        10 * pow10((n - 1) as nat)
    }
}

/// The character of a decimal digit.
pub open spec fn digit_char(d: nat) -> char {
    if d == 0 {
        '0'
    } else if d == 1 {
        '1'
    } else if d == 2 {
        '2'
    } else if d == 3 {
        '3'
    } else if d == 4 {
        '4'
    } else if d == 5 {
        '5'
    } else if d == 6 {
        '6'
    } else if d == 7 {
        '7'
    } else if d == 8 {
        '8'
    } else {
        '9'
    }
}

/// The value of an ASCII decimal digit character, as `char::to_digit(10)` gives it.
pub open spec fn char_digit(c: char) -> Option<u32> {
    if c == '0' {
        Some(0)
    } else if c == '1' {
        Some(1)
    } else if c == '2' {
        Some(2)
    } else if c == '3' {
        Some(3)
    } else if c == '4' {
        Some(4)
    } else if c == '5' {
        Some(5)
    } else if c == '6' {
        Some(6)
    } else if c == '7' {
        Some(7)
    } else if c == '8' {
        Some(8)
    } else if c == '9' {
        Some(9)
    } else {
        None
    }
}

/// Every character is an ASCII decimal digit.
pub open spec fn all_digits(s: Seq<char>) -> bool {
    forall|i: int| 0 <= i < s.len() ==> (#[trigger] char_digit(s[i])) is Some
}

/// The number that a string of decimal digits denotes.
pub open spec fn digits_value(s: Seq<char>) -> nat
    decreases s.len(),
{
    if s.len() == 0 {
        0
    } else {
        let d: nat = match char_digit(s.last()) {
            Some(v) => v as nat,
            None => 0,
        };
        digits_value(s.drop_last()) * 10 + d
    }
}

/// The shortest decimal representation of `n` (`"0"` for zero).
pub open spec fn nat_digits(n: nat) -> Seq<char>
    decreases n,
{
    if n < 10 {
        seq![digit_char(n)]
    } else {
        nat_digits(n / 10).push(digit_char(n % 10))
    }
}

/// The last `k` decimal digits of `r`, padded on the left with zeros.
pub open spec fn pad_digits(r: nat, k: nat) -> Seq<char>
    decreases k,
{
    if k == 0 {
        Seq::empty()
    } else {
        pad_digits(r / 10, (k - 1) as nat).push(digit_char(r % 10))
    }
}

/// The digit values of a string of digit characters.
pub open spec fn digit_values(s: Seq<char>) -> Seq<u32> {
    s.map_values(|c: char| char_digit(c).unwrap())
}

pub proof fn lemma_pow10_positive(n: nat)
    ensures
        pow10(n) >= 1,
    decreases n,
{
    if n > 0 {
        lemma_pow10_positive((n - 1) as nat);
    }
}

pub proof fn lemma_pow10_add(a: nat, b: nat)
    ensures
        pow10(a + b) == pow10(a) * pow10(b),
    decreases b,
{
    if b == 0 {
        assert(a + b == a);
        assert(pow10(0) == 1);
    } else {
        let pa = pow10(a);
        let pb1 = pow10((b - 1) as nat);
        lemma_pow10_add(a, (b - 1) as nat);
        assert((a + b - 1) as nat == a + (b - 1) as nat);
        assert(pow10(a + b) == 10 * pow10((a + b - 1) as nat));
        assert(pow10(a + b) == 10 * (pa * pb1));
        assert(pow10(b) == 10 * pb1);
        assert(pa * (10 * pb1) == 10 * (pa * pb1)) by (nonlinear_arith);
    }
}

pub proof fn lemma_pow10_monotonic(a: nat, b: nat)
    requires
        a <= b,
    ensures
        pow10(a) <= pow10(b),
    decreases b,
{
    if a < b {
        lemma_pow10_monotonic(a, (b - 1) as nat);
        lemma_pow10_positive((b - 1) as nat);
    }
}

pub proof fn lemma_char_digit_of_digit_char(d: nat)
    requires
        d < 10,
    ensures
        char_digit(digit_char(d)) == Some(d as u32),
{
}

/// The digits of a number are digits, and they denote that number.
pub proof fn lemma_nat_digits(n: nat)
    ensures
        all_digits(nat_digits(n)),
        digits_value(nat_digits(n)) == n,
        nat_digits(n).len() >= 1,
        n > 0 ==> nat_digits(n)[0] != '0',
        n < pow10(nat_digits(n).len()),
        n > 0 ==> pow10((nat_digits(n).len() - 1) as nat) <= n,
    decreases n,
{
    if n < 10 {
        assert(nat_digits(n).drop_last() =~= Seq::<char>::empty());
        lemma_char_digit_of_digit_char(n);
        assert(nat_digits(n).last() == digit_char(n));
        assert(digits_value(Seq::<char>::empty()) == 0);
        assert(pow10(1) == 10) by {
            reveal_with_fuel(pow10, 2);
        }
        assert(pow10(0) == 1);
    } else {
        lemma_nat_digits(n / 10);
        let s = nat_digits(n / 10);
        assert(nat_digits(n).drop_last() =~= s);
        lemma_char_digit_of_digit_char(n % 10);
        assert(nat_digits(n).last() == digit_char(n % 10));
        assert(digits_value(nat_digits(n)) == digits_value(s) * 10 + n % 10);
        assert forall|i: int| 0 <= i < nat_digits(n).len() implies (#[trigger] char_digit(
            nat_digits(n)[i],
        )) is Some by {
            if i < s.len() {
                assert(nat_digits(n)[i] == s[i]);
            }
        }
        assert(nat_digits(n)[0] == s[0]);
        assert(pow10(nat_digits(n).len()) == 10 * pow10(s.len()));
        assert(pow10((nat_digits(n).len() - 1) as nat) == pow10(s.len()));
        if s.len() >= 1 {
            assert(pow10(s.len()) == 10 * pow10((s.len() - 1) as nat));
        }
    }
}

/// The padded digits are digits, and they denote the number modulo `10^k`.
pub proof fn lemma_pad_digits(r: nat, k: nat)
    ensures
        all_digits(pad_digits(r, k)),
        digits_value(pad_digits(r, k)) == r % pow10(k),
        pad_digits(r, k).len() == k,
    decreases k,
{
    if k > 0 {
        lemma_pad_digits(r / 10, (k - 1) as nat);
        let s = pad_digits(r / 10, (k - 1) as nat);
        assert(pad_digits(r, k).drop_last() =~= s);
        lemma_char_digit_of_digit_char(r % 10);
        assert forall|i: int| 0 <= i < pad_digits(r, k).len() implies (#[trigger] char_digit(
            pad_digits(r, k)[i],
        )) is Some by {
            if i < s.len() {
                assert(pad_digits(r, k)[i] == s[i]);
            }
        }
        let p = pow10((k - 1) as nat);
        lemma_pow10_positive((k - 1) as nat);
        assert(pow10(k) == 10 * p);
        let q = (r / 10) / p;
        let m = (r / 10) % p;
        assert(r == 10 * (r / 10) + r % 10);
        vstd::arithmetic::div_mod::lemma_fundamental_div_mod((r / 10) as int, p as int);
        assert(r / 10 == p * q + m);
        assert(r == (10 * p) * q + (m * 10 + r % 10)) by (nonlinear_arith)
            requires
                r == 10 * (r / 10) + r % 10,
                r / 10 == p * q + m,
        ;
        assert(0 <= m * 10 + r % 10 < 10 * p) by (nonlinear_arith)
            requires
                0 <= m < p,
                0 <= r % 10 < 10,
        ;
        vstd::arithmetic::div_mod::lemma_fundamental_div_mod_converse(
            r as int,
            (10 * p) as int,
            q as int,
            (m * 10 + r % 10) as int,
        );
    }
}

/// Exact value of an ASCII digit character; `None` for every other character.
pub fn to_digit(c: char) -> (r: Option<u32>)
    ensures
        r == char_digit(c),
{
    match c {
        '0' => Some(0),
        '1' => Some(1),
        '2' => Some(2),
        '3' => Some(3),
        '4' => Some(4),
        '5' => Some(5),
        '6' => Some(6),
        '7' => Some(7),
        '8' => Some(8),
        '9' => Some(9),
        _ => None,
    }
}

/// The character of a decimal digit.
pub fn from_digit(d: u32) -> (c: char)
    requires
        d < 10,
    ensures
        c == digit_char(d as nat),
{
    match d {
        0 => '0',
        1 => '1',
        2 => '2',
        3 => '3',
        4 => '4',
        5 => '5',
        6 => '6',
        7 => '7',
        8 => '8',
        _ => '9',
    }
}

/// The decimal representation of `n`, as `n.to_string()` writes it.
pub fn usize_digits(n: usize) -> (r: Vec<char>)
    ensures
        r@ == nat_digits(n as nat),
    decreases n,
{
    if n < 10 {
        let mut v: Vec<char> = Vec::new();
        v.push(from_digit(n as u32));
        v
    } else {
        let mut v = usize_digits(n / 10);
        v.push(from_digit((n % 10) as u32));
        v
    }
}

/// Appends a character to a string.
#[verifier::external_body]
pub(crate) fn string_push(s: &mut String, c: char)
    ensures
        final(s)@ == old(s)@.push(c),
{
    s.push(c);
}

/// A string made of the given characters.
pub fn string_from_chars(cs: &Vec<char>) -> (s: String)
    ensures
        s@ == cs@,
{
    let mut s = String::new();
    let mut i: usize = 0;
    while i < cs.len()
        invariant
            i <= cs.len(),
            s@ =~= cs@.take(i as int),
        decreases cs.len() - i,
    {
        string_push(&mut s, cs[i]);
        i = i + 1;
        assert(s@ =~= cs@.take(i as int));
    }
    assert(cs@.take(cs.len() as int) =~= cs@);
    s
}

/// The characters of a string.
pub fn string_chars(s: &str) -> (cs: Vec<char>)
    ensures
        cs@ == s@,
{
    let n = s.unicode_len();
    let mut cs: Vec<char> = Vec::new();
    let mut i: usize = 0;
    while i < n
        invariant
            n == s@.len(),
            i <= n,
            cs@ =~= s@.take(i as int),
        decreases n - i,
    {
        cs.push(s.get_char(i));
        i = i + 1;
        assert(cs@ =~= s@.take(i as int));
    }
    assert(s@.take(n as int) =~= s@);
    cs
}


/// `s` without the copies of `ch` at its end (`trim_end_matches`).
pub open spec fn trim_end(s: Seq<char>, ch: char) -> Seq<char>
    decreases s.len(),
{
    if s.len() > 0 && s.last() == ch {
        trim_end(s.drop_last(), ch)
    } else {
        s
    }
}

/// `s` without the repetitions of the pair `a b` at its start (`trim_start_matches`
/// with a two-character pattern).
pub open spec fn trim_start_pair(s: Seq<char>, a: char, b: char) -> Seq<char>
    decreases s.len(),
{
    if s.len() >= 2 && s[0] == a && s[1] == b {
        trim_start_pair(s.skip(2), a, b)
    } else {
        s
    }
}

/// Removes the copies of `ch` at the end.
pub fn trim_end_matches(cs: &Vec<char>, ch: char) -> (r: Vec<char>)
    ensures
        r@ == trim_end(cs@, ch),
{
    let mut n: usize = cs.len();
    assert(cs@.take(n as int) =~= cs@);
    while n > 0 && cs[n - 1] == ch
        invariant
            n <= cs.len(),
            trim_end(cs@, ch) == trim_end(cs@.take(n as int), ch),
        decreases n,
    {
        assert(cs@.take(n as int).drop_last() =~= cs@.take(n - 1));
        n = n - 1;
    }
    let mut r: Vec<char> = Vec::new();
    let mut i: usize = 0;
    while i < n
        invariant
            i <= n <= cs.len(),
            r@ =~= cs@.take(i as int),
        decreases n - i,
    {
        r.push(cs[i]);
        i = i + 1;
        assert(r@ =~= cs@.take(i as int));
    }
    r
}

/// Removes the repetitions of the pair `a b` at the start.
pub fn trim_start_matches_pair(cs: &Vec<char>, a: char, b: char) -> (r: Vec<char>)
    ensures
        r@ == trim_start_pair(cs@, a, b),
{
    let mut i: usize = 0;
    assert(cs@.skip(0) =~= cs@);
    while i < cs.len() && cs.len() - i >= 2 && cs[i] == a && cs[i + 1] == b
        invariant
            i <= cs.len(),
            trim_start_pair(cs@, a, b) == trim_start_pair(cs@.skip(i as int), a, b),
        decreases cs.len() - i,
    {
        assert(cs@.skip(i as int).skip(2) =~= cs@.skip(i + 2));
        i = i + 2;
    }
    let mut r: Vec<char> = Vec::new();
    let mut k: usize = i;
    while k < cs.len()
        invariant
            i <= k <= cs.len(),
            r@ =~= cs@.subrange(i as int, k as int),
        decreases cs.len() - k,
    {
        r.push(cs[k]);
        k = k + 1;
        assert(r@ =~= cs@.subrange(i as int, k as int));
    }
    assert(cs@.subrange(i as int, cs.len() as int) =~= cs@.skip(i as int));
    r
}


/// The value of a digit character (zero for other characters).
pub open spec fn dv(c: char) -> nat {
    match char_digit(c) {
        Some(v) => v as nat,
        None => 0,
    }
}

/// `y` comes before `x`, or equals it, in the dictionary order of digit strings
/// (a prefix comes first).
pub open spec fn lex_le(y: Seq<char>, x: Seq<char>) -> bool
    decreases y.len(),
{
    if y.len() == 0 {
        true
    } else if x.len() == 0 {
        false
    } else if dv(y[0]) < dv(x[0]) {
        true
    } else if dv(y[0]) == dv(x[0]) {
        lex_le(y.drop_first(), x.drop_first())
    } else {
        false
    }
}

/// A leading digit contributes its value at the highest place.
pub proof fn lemma_digits_value_prepend(s: Seq<char>)
    requires
        s.len() >= 1,
    ensures
        digits_value(s) == dv(s[0]) * pow10((s.len() - 1) as nat) + digits_value(s.drop_first()),
    decreases s.len(),
{
    if s.len() == 1 {
        assert(s.drop_first() =~= Seq::<char>::empty());
        assert(s.drop_last() =~= Seq::<char>::empty());
        assert(pow10(0) == 1);
        assert(s.last() == s[0]);
        assert(digits_value(s) == digits_value(s.drop_last()) * 10 + dv(s.last()));
        assert(digits_value(s.drop_last()) == 0);
        assert(digits_value(s.drop_first()) == 0);
        assert(digits_value(s) == dv(s[0]));
        assert(dv(s[0]) * pow10(0) == dv(s[0]));
    } else {
        let t = s.drop_last();
        lemma_digits_value_prepend(t);
        assert(t.drop_first() =~= s.drop_first().drop_last());
        assert(s.drop_first().last() == s.last());
        assert(t[0] == s[0]);
        let p = pow10((t.len() - 1) as nat);
        assert(pow10((s.len() - 1) as nat) == 10 * p);
        let d0 = dv(s[0]);
        let dl = dv(s.last());
        let vt = digits_value(t.drop_first());
        assert(digits_value(s) == digits_value(t) * 10 + dl);
        assert(s.drop_first().drop_last() =~= t.drop_first());
        assert(digits_value(s.drop_first()) == vt * 10 + dl);
        assert(digits_value(t) == d0 * p + vt);
        assert((d0 * p + vt) * 10 + dl == d0 * (10 * p) + (vt * 10 + dl)) by (nonlinear_arith);
        assert(digits_value(s) == d0 * pow10((s.len() - 1) as nat) + digits_value(s.drop_first()));
    }
}

/// Digits denote less than the next power of ten.
pub proof fn lemma_digits_value_bound(s: Seq<char>)
    ensures
        digits_value(s) < pow10(s.len()),
    decreases s.len(),
{
    if s.len() > 0 {
        lemma_digits_value_bound(s.drop_last());
        let v = digits_value(s.drop_last());
        let p = pow10(s.drop_last().len());
        assert(pow10(s.len()) == 10 * p);
        let d: nat = match char_digit(s.last()) {
            Some(v) => v as nat,
            None => 0,
        };
        assert(d < 10);
        assert(v * 10 + d < 10 * p) by (nonlinear_arith)
            requires
                v < p,
                d < 10,
        ;
    }
}

/// Digit strings in dictionary order denote fractions `0.y <= 0.x`.
pub proof fn lemma_lex_le_value(y: Seq<char>, x: Seq<char>)
    requires
        lex_le(y, x),
    ensures
        digits_value(y) * pow10(x.len()) <= digits_value(x) * pow10(y.len()),
    decreases y.len(),
{
    lemma_pow10_positive(x.len());
    lemma_pow10_positive(y.len());
    if y.len() == 0 {
        assert(digits_value(y) == 0);
    } else {
        let p = (y.len() - 1) as nat;
        let q = (x.len() - 1) as nat;
        lemma_digits_value_prepend(y);
        lemma_digits_value_prepend(x);
        let vy = digits_value(y.drop_first());
        let vx = digits_value(x.drop_first());
        let py = pow10(p);
        let px = pow10(q);
        lemma_pow10_positive(p);
        lemma_pow10_positive(q);
        assert(pow10(y.len()) == 10 * py);
        assert(pow10(x.len()) == 10 * px);
        let a = dv(y[0]);
        let b = dv(x[0]);
        if a < b {
            lemma_digits_value_bound(y.drop_first());
            assert((a * py + vy) * (10 * px) <= (b * px + vx) * (10 * py)) by (nonlinear_arith)
                requires
                    a < b,
                    vy < py,
                    vx >= 0,
                    py >= 1,
                    px >= 1,
            {
                assert(a * py + vy < (a + 1) * py);
                assert((a + 1) * py <= b * py);
                assert((a * py + vy) * px <= b * py * px);
                assert(b * py * px <= (b * px + vx) * py);
            }
        } else {
            lemma_lex_le_value(y.drop_first(), x.drop_first());
            assert((a * py + vy) * (10 * px) <= (b * px + vx) * (10 * py)) by (nonlinear_arith)
                requires
                    a == b,
                    vy * px <= vx * py,
            ;
        }
    }
}


/// The digits of an unsigned numeral: after a leading `'+'` when one is followed by more.
pub open spec fn unsigned_digits(s: Seq<char>) -> Seq<char> {
    if s.len() >= 2 && s[0] == '+' {
        s.drop_first()
    } else {
        s
    }
}

/// What `str::parse::<u32>` gives: the number that the digits denote, after an optional
/// `'+'`, when there is at least one digit, nothing else, and the number fits.
pub open spec fn parse_u32_spec(s: Seq<char>) -> Option<u32> {
    let d = unsigned_digits(s);
    if d.len() >= 1 && all_digits(d) && digits_value(d) <= 4294967295 {
        Some(digits_value(d) as u32)
    } else {
        None
    }
}

/// A prefix of digits denotes at most what the whole string does.
pub proof fn lemma_digits_value_prefix(s: Seq<char>, k: int)
    requires
        0 <= k <= s.len(),
    ensures
        digits_value(s.take(k)) <= digits_value(s),
    decreases s.len(),
{
    if k < s.len() {
        lemma_digits_value_prefix(s.drop_last(), k);
        assert(s.drop_last().take(k) =~= s.take(k));
    } else {
        assert(s.take(k) =~= s);
    }
}

/// The number that the characters from `start` on denote, when they are all digits
/// and the number is at most `max`.
fn read_digits(cs: &Vec<char>, start: usize, max: u64) -> (r: Option<u64>)
    requires
        start < cs.len(),
        max <= 4294967296,
    ensures
        r == (if all_digits(cs@.skip(start as int)) && digits_value(cs@.skip(start as int)) <= max {
            Some(digits_value(cs@.skip(start as int)) as u64)
        } else {
            None::<u64>
        }),
{
    let ghost d = cs@.skip(start as int);
    let mut acc: u64 = 0;
    let mut k: usize = start;
    proof {
        assert(d.take(0) =~= Seq::<char>::empty());
    }
    while k < cs.len()
        invariant
            start <= k <= cs.len(),
            start < cs.len(),
            max <= 4294967296,
            d == cs@.skip(start as int),
            all_digits(d.take(k - start)),
            acc == digits_value(d.take(k - start)),
            acc <= max,
        decreases cs.len() - k,
    {
        let ghost pre = d.take(k - start);
        let v = to_digit(cs[k]);
        match v {
            None => {
                proof {
                    assert(d[k - start] == cs@[k as int]);
                    assert(!all_digits(d));
                }
                return None;
            },
            Some(x) => {
                let ghost next = d.take(k - start + 1);
                proof {
                    assert(next.drop_last() =~= pre);
                    assert(next.last() == cs@[k as int]);
                    assert(digits_value(next) == acc * 10 + x);
                }
                acc = acc * 10 + x as u64;
                k = k + 1;
                if acc > max {
                    proof {
                        lemma_digits_value_prefix(d, k - start);
                    }
                    return None;
                }
                proof {
                    assert forall|i: int| 0 <= i < next.len() implies (#[trigger] char_digit(
                        next[i],
                    )) is Some by {
                        if i < pre.len() {
                            assert(next[i] == pre[i]);
                        }
                    }
                }
            },
        }
    }
    proof {
        assert(d.take(k - start) =~= d);
    }
    Some(acc)
}

/// Reads an unsigned 32-bit number, as `str::parse::<u32>` does.
pub fn parse_u32(s: &str) -> (r: Option<u32>)
    ensures
        r == parse_u32_spec(s@),
{
    let cs = string_chars(s);
    let start: usize = if cs.len() >= 2 && cs[0] == '+' {
        1
    } else {
        0
    };
    if start >= cs.len() {
        return None;
    }
    proof {
        assert(unsigned_digits(s@) =~= cs@.skip(start as int));
    }
    match read_digits(&cs, start, 4294967295) {
        Some(v) => Some(v as u32),
        None => None,
    }
}

/// What `str::parse::<i32>` gives: an optional sign, then at least one digit and
/// nothing else, for a number in the range of `i32`.
pub open spec fn parse_i32_spec(s: Seq<char>) -> Option<i32> {
    if s.len() >= 2 && s[0] == '-' {
        let d = s.drop_first();
        if all_digits(d) && digits_value(d) <= 2147483648 {
            Some((0 - digits_value(d)) as i32)
        } else {
            None
        }
    } else {
        let d = unsigned_digits(s);
        if d.len() >= 1 && all_digits(d) && digits_value(d) <= 2147483647 {
            Some(digits_value(d) as i32)
        } else {
            None
        }
    }
}

/// Reads a signed 32-bit number, as `str::parse::<i32>` does.
pub fn parse_i32(s: &str) -> (r: Option<i32>)
    ensures
        r == parse_i32_spec(s@),
{
    let cs = string_chars(s);
    if cs.len() >= 2 && cs[0] == '-' {
        proof {
            assert(s@.drop_first() =~= cs@.skip(1));
        }
        match read_digits(&cs, 1, 2147483648) {
            Some(v) => {
                let w: i64 = 0 - (v as i64);
                Some(w as i32)
            },
            None => None,
        }
    } else {
        let start: usize = if cs.len() >= 2 && cs[0] == '+' {
            1
        } else {
            0
        };
        if start >= cs.len() {
            return None;
        }
        proof {
            assert(unsigned_digits(s@) =~= cs@.skip(start as int));
        }
        match read_digits(&cs, start, 2147483647) {
            Some(v) => Some(v as i32),
            None => None,
        }
    }
}

} // verus!
