//! Fixed-point decimal numbers: the values a dialer shows and adjusts.
use vstd::prelude::*;
use vstd::arithmetic::div_mod::{
    lemma_div_denominator, lemma_div_is_ordered, lemma_div_multiples_vanish_quotient,
};

verus! {

/// The largest number of fractional digits a `Decimal` may carry.
pub const MAX_SCALE: u8 = 18;

/// The number `mantissa * 10^(-scale)`.
#[derive(Clone, Copy, Debug, PartialEq, Eq)]
pub struct Decimal {
    pub mantissa: i64,
    pub scale: u8,
}

impl Decimal {
    /// The scale is within the supported range.
    pub open spec fn wf(self) -> bool {
        self.scale <= MAX_SCALE
    }
}

/// The mantissa of `d` at scale `t` (at least `d.scale`): `d * 10^t`.
pub open spec fn units(d: Decimal, t: nat) -> int {
    d.mantissa * pow10((t - d.scale) as nat)
}

pub open spec fn max_nat(a: nat, b: nat) -> nat {
    if a >= b {
        a
    } else {
        b
    }
}

/// `a <= b` as numbers.
pub open spec fn le(a: Decimal, b: Decimal) -> bool {
    let t = max_nat(a.scale as nat, b.scale as nat);
    units(a, t) <= units(b, t)
}

/// `a < b` as numbers.
pub open spec fn lt(a: Decimal, b: Decimal) -> bool {
    !le(b, a)
}

/// `val` clamped into `[min, max]`.
pub open spec fn clamp(val: Decimal, min: Decimal, max: Decimal) -> Decimal {
    if lt(val, min) {
        min
    } else if lt(max, val) {
        max
    } else {
        val
    }
}

/// `10^n`.
pub open spec fn pow10(n: nat) -> int
    decreases n,
{
    if n == 0 {
        1
    } else {
        10 * pow10((n - 1) as nat)
    }
}

pub proof fn lemma_pow10_pos(n: nat)
    ensures
        pow10(n) >= 1,
    decreases n,
{
    if n > 0 {
        lemma_pow10_pos((n - 1) as nat);
    }
}

pub proof fn lemma_pow10_add(a: nat, b: nat)
    ensures
        pow10(a + b) == pow10(a) * pow10(b),
    decreases a,
{
    if a > 0 {
        lemma_pow10_add((a - 1) as nat, b);
        assert(pow10(a + b) == 10 * pow10((a - 1 + b) as nat));
        assert(10 * (pow10((a - 1) as nat) * pow10(b)) == (10 * pow10((a - 1) as nat)) * pow10(b))
            by (nonlinear_arith);
    }
}

pub proof fn lemma_pow10_mono(a: nat, b: nat)
    requires
        a <= b,
    ensures
        pow10(a) <= pow10(b),
    decreases b,
{
    if a < b {
        lemma_pow10_mono(a, (b - 1) as nat);
        lemma_pow10_pos((b - 1) as nat);
    }
}

pub proof fn lemma_units_rescale(d: Decimal, t: nat, u: nat)
    requires
        d.scale <= t <= u,
    ensures
        units(d, u) == units(d, t) * pow10((u - t) as nat),
{
    lemma_pow10_add((t - d.scale) as nat, (u - t) as nat);
    assert((u - d.scale) as nat == (t - d.scale) as nat + (u - t) as nat);
    let a = pow10((t - d.scale) as nat);
    let b = pow10((u - t) as nat);
    assert(d.mantissa * (a * b) == (d.mantissa * a) * b) by (nonlinear_arith);
}

/// Comparing at any common scale agrees with `le`.
pub proof fn lemma_le_at(a: Decimal, b: Decimal, u: nat)
    requires
        a.scale <= u,
        b.scale <= u,
    ensures
        le(a, b) <==> units(a, u) <= units(b, u),
{
    let t = max_nat(a.scale as nat, b.scale as nat);
    lemma_units_rescale(a, t, u);
    lemma_units_rescale(b, t, u);
    let k = pow10((u - t) as nat);
    lemma_pow10_pos((u - t) as nat);
    let x = units(a, t);
    let y = units(b, t);
    assert(x <= y <==> x * k <= y * k) by (nonlinear_arith)
        requires
            k >= 1,
    ;
}

pub proof fn lemma_units_bound(d: Decimal, t: nat)
    requires
        d.scale <= t <= MAX_SCALE,
    ensures
        -9223372036854775808000000000000000000 <= units(d, t) <= 9223372036854775807000000000000000000,
{
    let k = (t - d.scale) as nat;
    lemma_pow10_mono(k, 18);
    lemma_pow10_pos(k);
    reveal_with_fuel(pow10, 19);
    assert(pow10(18) == 1000000000000000000);
    let p = pow10(k);
    let m = d.mantissa as int;
    assert(-9223372036854775808 * p <= m * p <= 9223372036854775807 * p) by (nonlinear_arith)
        requires
            -9223372036854775808 <= m <= 9223372036854775807,
            p >= 1,
    ;
}

pub proof fn lemma_pow10_38()
    ensures
        pow10(37) == 10000000000000000000000000000000000000,
        pow10(38) == 100000000000000000000000000000000000000,
{
    reveal_with_fuel(pow10, 39);
}

/// `10^n` as an `i128`.
pub(crate) fn pow10_i128(n: u32) -> (r: i128)
    requires
        n <= 38,
    ensures
        r == pow10(n as nat),
{
    let mut r: i128 = 1;
    let mut k: u32 = 0;
    while k < n
        invariant
            k <= n <= 38,
            r == pow10(k as nat),
        decreases n - k,
    {
        proof {
            lemma_pow10_mono(k as nat, 37);
            lemma_pow10_38();
            lemma_pow10_pos(k as nat);
            assert(r <= 10000000000000000000000000000000000000);
        }
        r = r * 10;
        k = k + 1;
    }
    r
}

/// `d` at scale `t`, as an `i128`.
pub(crate) fn units_at(d: Decimal, t: u8) -> (r: i128)
    requires
        d.scale <= t <= MAX_SCALE,
    ensures
        r == units(d, t as nat),
{
    let p = pow10_i128((t - d.scale) as u32);
    proof {
        lemma_units_bound(d, t as nat);
    }
    d.mantissa as i128 * p
}

impl Decimal {
    /// Whether `self <= other` as numbers.
    pub fn le_value(&self, other: &Decimal) -> (r: bool)
        requires
            self.wf(),
            other.wf(),
        ensures
            r == le(*self, *other),
    {
        let t = if self.scale >= other.scale {
            self.scale
        } else {
            other.scale
        };
        units_at(*self, t) <= units_at(*other, t)
    }

    /// Whether `self` and `other` are the same number.
    pub fn eq_value(&self, other: &Decimal) -> (r: bool)
        requires
            self.wf(),
            other.wf(),
        ensures
            r == (le(*self, *other) && le(*other, *self)),
    {
        self.le_value(other) && other.le_value(self)
    }
}

/// `val` clamped into `[min, max]`.
pub fn clamp_value(val: Decimal, min: Decimal, max: Decimal) -> (r: Decimal)
    requires
        val.wf(),
        min.wf(),
        max.wf(),
    ensures
        r == clamp(val, min, max),
{
    if !min.le_value(&val) {
        min
    } else if !val.le_value(&max) {
        max
    } else {
        val
    }
}

/// `d` writes the number `x * 10^(-t)`.
pub open spec fn writes(d: Decimal, x: int, t: nat) -> bool {
    if d.scale <= t {
        d.mantissa * pow10((t - d.scale) as nat) == x
    } else {
        d.mantissa == x * pow10((d.scale - t) as nat)
    }
}

/// `m`, negated when `neg`.
pub open spec fn signed(neg: bool, m: nat) -> int {
    if neg {
        -m
    } else {
        m as int
    }
}

/// The largest magnitude of a mantissa of the given sign.
pub open spec fn mantissa_bound(neg: bool) -> nat {
    if neg {
        0x8000_0000_0000_0000
    } else {
        0x7fff_ffff_ffff_ffff
    }
}

/// The number `signed(neg, m) * 10^(-t)` with trailing zeros dropped from the
/// mantissa, scale by scale, until the mantissa fits; `None` where it never
/// fits.
pub open spec fn shortest(neg: bool, m: nat, t: nat) -> Option<Decimal>
    decreases t,
{
    if m <= mantissa_bound(neg) {
        Some(Decimal { mantissa: signed(neg, m) as i64, scale: t as u8 })
    } else if t > 0 && m % 10 == 0 {
        shortest(neg, m / 10, (t - 1) as nat)
    } else {
        None
    }
}

/// What `shortest` gives is the number asked for, and where it gives nothing
/// no well-formed `Decimal` writes that number.
pub proof fn lemma_shortest(neg: bool, m: nat, t: nat)
    requires
        t <= MAX_SCALE,
    ensures
        shortest(neg, m, t) matches Some(d) ==> d.wf() && d.scale <= t && units(d, t) == signed(
            neg,
            m,
        ),
        shortest(neg, m, t) is None ==> forall|d: Decimal|
            d.wf() ==> !#[trigger] writes(d, signed(neg, m), t),
    decreases t,
{
    let x = signed(neg, m);
    if m <= mantissa_bound(neg) {
        assert(pow10(0) == 1);
        let d = Decimal { mantissa: x as i64, scale: t as u8 };
        assert(units(d, t) == x * pow10(0));
    } else if t > 0 && m % 10 == 0 {
        let t1 = (t - 1) as nat;
        lemma_shortest(neg, m / 10, t1);
        let y = signed(neg, m / 10);
        assert(x == 10 * y);
        if let Some(d) = shortest(neg, m / 10, t1) {
            lemma_units_rescale(d, t1, t);
            assert(pow10(1) == 10 * pow10(0));
            assert(units(d, t) == y * 10);
        } else {
            assert forall|d: Decimal| d.wf() implies !#[trigger] writes(d, x, t) by {
                if writes(d, x, t) {
                    lemma_pow10_pos((t - d.scale) as nat);
                    if d.scale < t {
                        let k1 = (t - d.scale - 1) as nat;
                        assert(pow10((t - d.scale) as nat) == 10 * pow10(k1));
                        let q = d.mantissa * pow10(k1);
                        let a = d.mantissa as int;
                        let p1 = pow10(k1);
                        assert(a * (10 * p1) == 10 * (a * p1)) by (nonlinear_arith);
                        assert(q == y);
                        assert(writes(d, y, t1));
                    } else if d.scale == t {
                        assert((t - d.scale) as nat == 0);
                        assert(pow10(0) == 1);
                        assert(d.mantissa * pow10((t - d.scale) as nat) == x);
                        assert(d.mantissa * 1 == x);
                        assert(d.mantissa == x);
                    } else {
                        let p = pow10((d.scale - t) as nat);
                        lemma_pow10_pos((d.scale - t) as nat);
                        assert(x * p <= x || x * p >= x) by (nonlinear_arith)
                            requires
                                p >= 1,
                        ;
                        if neg {
                            assert(x * p <= x) by (nonlinear_arith)
                                requires
                                    p >= 1,
                                    x < 0,
                            ;
                        } else {
                            assert(x * p >= x) by (nonlinear_arith)
                                requires
                                    p >= 1,
                                    x > 0,
                            ;
                        }
                    }
                }
            }
        }
    } else {
        assert forall|d: Decimal| d.wf() implies !#[trigger] writes(d, x, t) by {
            if writes(d, x, t) {
                if d.scale < t {
                    let k1 = (t - d.scale - 1) as nat;
                    assert(pow10((t - d.scale) as nat) == 10 * pow10(k1));
                    let q = d.mantissa * pow10(k1);
                    let a = d.mantissa as int;
                        let p1 = pow10(k1);
                        assert(a * (10 * p1) == 10 * (a * p1)) by (nonlinear_arith);
                    assert(m % 10 == 0);
                } else if d.scale == t {
                    assert((t - d.scale) as nat == 0);
                    assert(pow10(0) == 1);
                    assert(d.mantissa * pow10((t - d.scale) as nat) == x);
                    assert(d.mantissa * 1 == x);
                    assert(d.mantissa == x);
                } else {
                    let p = pow10((d.scale - t) as nat);
                    lemma_pow10_pos((d.scale - t) as nat);
                    if neg {
                        assert(x * p <= x) by (nonlinear_arith)
                            requires
                                p >= 1,
                                x < 0,
                        ;
                    } else {
                        assert(x * p >= x) by (nonlinear_arith)
                            requires
                                p >= 1,
                                x > 0,
                        ;
                    }
                }
            }
        }
    }
}

/// The number `signed(neg, m) * 10^(-t)` at the finest scale whose mantissa
/// fits, if there is one.
pub(crate) fn shortest_decimal(neg: bool, m0: u128, t0: u8) -> (r: Option<Decimal>)
    ensures
        r == shortest(neg, m0 as nat, t0 as nat),
{
    let mut m = m0;
    let mut t = t0;
    let bound: u128 = if neg {
        0x8000_0000_0000_0000
    } else {
        0x7fff_ffff_ffff_ffff
    };
    while m > bound
        invariant
            bound == mantissa_bound(neg),
            shortest(neg, m as nat, t as nat) == shortest(neg, m0 as nat, t0 as nat),
        decreases t,
    {
        if t > 0 && m % 10 == 0 {
            m = m / 10;
            t = t - 1;
        } else {
            return None;
        }
    }
    let mantissa: i64 = if neg {
        (0 - m as i128) as i64
    } else {
        m as i64
    };
    Some(Decimal { mantissa, scale: t })
}

/// The character of the decimal digit `d`.
pub open spec fn digit_char(d: int) -> char {
    ((48 + d) as u32) as char
}

pub open spec fn is_digit(c: char) -> bool {
    '0' <= c && c <= '9'
}

/// The value of the digit character `c`.
pub open spec fn digit_value(c: char) -> int {
    (c as u32) - 48
}

/// The decimal digits of `n`, most significant first, with no leading zero
/// (zero is the single digit `0`).
pub open spec fn nat_text(n: nat) -> Seq<char>
    decreases n,
{
    if n < 10 {
        seq![digit_char(n as int)]
    } else {
        nat_text(n / 10).push(digit_char(n as int % 10))
    }
}

/// `n` zero characters.
pub open spec fn zeros(n: nat) -> Seq<char> {
    Seq::new(n, |i: int| '0')
}

/// `s` with zeros put in front until it is at least `n` long.
pub open spec fn zero_pad(s: Seq<char>, n: nat) -> Seq<char> {
    if s.len() < n {
        zeros((n - s.len()) as nat) + s
    } else {
        s
    }
}

/// The magnitude of a mantissa.
pub open spec fn magnitude(m: i64) -> nat {
    if m < 0 {
        (-m) as nat
    } else {
        m as nat
    }
}

/// The digits of the mantissa, padded so that at least one digit stands
/// before the point.
pub open spec fn padded_digits(d: Decimal) -> Seq<char> {
    zero_pad(nat_text(magnitude(d.mantissa)), d.scale as nat + 1)
}

/// The sign, then the integer part of the text of `d`.
pub open spec fn int_part_text(d: Decimal) -> Seq<char> {
    let ds = padded_digits(d);
    let ip = ds.subrange(0, ds.len() - d.scale);
    if d.mantissa < 0 {
        seq!['-'] + ip
    } else {
        ip
    }
}

/// The fractional digits of the text of `d`: exactly `scale` of them.
pub open spec fn frac_part_text(d: Decimal) -> Seq<char> {
    let ds = padded_digits(d);
    ds.subrange(ds.len() - d.scale, ds.len() as int)
}

/// The text of `d`: an optional minus sign, the integer digits, and, when the
/// scale is positive, a point followed by `scale` digits.
pub open spec fn decimal_text(d: Decimal) -> Seq<char> {
    if d.scale == 0 {
        int_part_text(d)
    } else {
        int_part_text(d) + seq!['.'] + frac_part_text(d)
    }
}

pub proof fn lemma_nat_text_digits(n: nat)
    ensures
        nat_text(n).len() >= 1,
        forall|i: int| 0 <= i < nat_text(n).len() ==> is_digit(#[trigger] nat_text(n)[i]),
        n > 0 ==> nat_text(n)[0] != '0',
    decreases n,
{
    if n >= 10 {
        lemma_nat_text_digits(n / 10);
    }
}

pub proof fn lemma_nat_text_len(n: nat, k: nat)
    requires
        k >= 1,
        n < pow10(k),
    ensures
        nat_text(n).len() <= k,
    decreases n,
{
    if n >= 10 {
        assert(k >= 2) by {
            if k == 1 {
                assert(pow10(1) == 10 * pow10(0));
            }
        }
        assert(pow10(k) == 10 * pow10((k - 1) as nat));
        lemma_nat_text_len(n / 10, (k - 1) as nat);
    }
}

pub proof fn lemma_nat_text_len_mono(a: nat, b: nat)
    requires
        a <= b,
    ensures
        nat_text(a).len() <= nat_text(b).len(),
    decreases b,
{
    if a >= 10 {
        lemma_nat_text_len_mono(a / 10, b / 10);
    } else {
        lemma_nat_text_digits(b);
    }
}

pub proof fn lemma_nat_text_len_lower(n: nat, k: nat)
    requires
        n >= pow10(k),
    ensures
        nat_text(n).len() >= k + 1,
    decreases k,
{
    lemma_nat_text_digits(n);
    if k > 0 {
        lemma_pow10_pos((k - 1) as nat);
        assert(n / 10 >= pow10((k - 1) as nat));
        lemma_nat_text_len_lower(n / 10, (k - 1) as nat);
    }
}

/// Dropping the last `k` digits of `n` leaves the digits of `n / 10^k`.
pub proof fn lemma_nat_text_take(n: nat, k: nat)
    requires
        nat_text(n).len() > k,
    ensures
        nat_text(n).subrange(0, nat_text(n).len() - k) == nat_text((n as int / pow10(k)) as nat),
    decreases k,
{
    if k == 0 {
        assert(nat_text(n).subrange(0, nat_text(n).len() as int) =~= nat_text(n));
    } else {
        assert(n >= 10);
        let q = n / 10;
        lemma_nat_text_take(q, (k - 1) as nat);
        assert(nat_text(n).subrange(0, nat_text(n).len() - k) =~= nat_text(q).subrange(
            0,
            nat_text(q).len() - (k - 1),
        ));
        lemma_pow10_pos((k - 1) as nat);
        lemma_div_denominator(n as int, 10, pow10((k - 1) as nat));
    }
}

/// The integer digits of a non-negative `d` are those of its whole part.
pub proof fn lemma_int_part_text(d: Decimal)
    requires
        d.mantissa >= 0,
    ensures
        int_part_text(d) == nat_text((d.mantissa as int / pow10(d.scale as nat)) as nat),
{
    let a = d.mantissa as nat;
    let s = d.scale as nat;
    lemma_pow10_pos(s);
    if nat_text(a).len() > s {
        lemma_nat_text_take(a, s);
    } else {
        if a >= pow10(s) {
            lemma_nat_text_len_lower(a, s);
        }
        let p = pow10(s);
        assert(a as int / p == 0) by (nonlinear_arith)
            requires
                0 <= a < p,
        ;
        assert(int_part_text(d) =~= seq!['0']);
    }
}

/// Whole parts keep the order of the numbers.
pub proof fn lemma_whole_part_mono(a: Decimal, b: Decimal)
    requires
        le(a, b),
        a.mantissa >= 0,
    ensures
        b.mantissa >= 0,
        a.mantissa as int / pow10(a.scale as nat) <= b.mantissa as int / pow10(b.scale as nat),
{
    let t = max_nat(a.scale as nat, b.scale as nat);
    let ka = pow10((t - a.scale) as nat);
    let kb = pow10((t - b.scale) as nat);
    lemma_pow10_pos((t - a.scale) as nat);
    lemma_pow10_pos((t - b.scale) as nat);
    lemma_pow10_pos(a.scale as nat);
    lemma_pow10_pos(b.scale as nat);
    assert(a.mantissa * ka >= 0) by (nonlinear_arith)
        requires
            a.mantissa >= 0,
            ka >= 1,
    ;
    assert(b.mantissa >= 0) by (nonlinear_arith)
        requires
            b.mantissa * kb >= 0,
            kb >= 1,
    ;
    lemma_pow10_add((t - a.scale) as nat, a.scale as nat);
    lemma_pow10_add((t - b.scale) as nat, b.scale as nat);
    assert((t - a.scale) as nat + a.scale as nat == t);
    assert((t - b.scale) as nat + b.scale as nat == t);
    lemma_div_multiples_vanish_quotient(ka, a.mantissa as int, pow10(a.scale as nat));
    lemma_div_multiples_vanish_quotient(kb, b.mantissa as int, pow10(b.scale as nat));
    assert(ka * a.mantissa == a.mantissa * ka) by (nonlinear_arith);
    assert(kb * b.mantissa == b.mantissa * kb) by (nonlinear_arith);
    lemma_div_is_ordered(units(a, t), units(b, t), pow10(t));
}

/// The position of the first point in `s`, if there is one.
pub open spec fn point_index(s: Seq<char>) -> Option<nat>
    decreases s.len(),
{
    if s.len() == 0 {
        None
    } else if s[0] == '.' {
        Some(0)
    } else {
        match point_index(s.drop_first()) {
            Some(i) => Some(i + 1),
            None => None,
        }
    }
}

pub proof fn lemma_point_index(s: Seq<char>, k: int)
    requires
        0 <= k <= s.len(),
        forall|j: int| 0 <= j < k ==> s[j] != '.',
    ensures
        k < s.len() && s[k] == '.' ==> point_index(s) == Some(k as nat),
        k == s.len() ==> point_index(s) == None::<nat>,
    decreases k,
{
    if k > 0 {
        lemma_point_index(s.drop_first(), k - 1);
    }
}

/// The position of the first point in `s`, if there is one.
pub(crate) fn find_point(s: &Vec<char>) -> (r: Option<usize>)
    ensures
        r matches Some(i) ==> i < s@.len() && point_index(s@) == Some(i as nat),
        r is None ==> point_index(s@) is None,
{
    let mut k: usize = 0;
    while k < s.len()
        invariant
            k <= s@.len(),
            forall|j: int| 0 <= j < k ==> s@[j] != '.',
        decreases s@.len() - k,
    {
        if s[k] == '.' {
            proof {
                lemma_point_index(s@, k as int);
            }
            return Some(k);
        }
        k = k + 1;
    }
    proof {
        lemma_point_index(s@, k as int);
    }
    None
}

/// The position of the first point in `s`, if there is one.
pub(crate) fn str_point(s: &str) -> (r: Option<usize>)
    ensures
        r matches Some(i) ==> i < s@.len() && point_index(s@) == Some(i as nat),
        r is None ==> point_index(s@) is None,
{
    let n = s.unicode_len();
    let mut k: usize = 0;
    while k < n
        invariant
            k <= n == s@.len(),
            forall|j: int| 0 <= j < k ==> s@[j] != '.',
        decreases n - k,
    {
        if s.get_char(k) == '.' {
            proof {
                lemma_point_index(s@, k as int);
            }
            return Some(k);
        }
        k = k + 1;
    }
    proof {
        lemma_point_index(s@, k as int);
    }
    None
}

/// The value of the digits `ds`, read as one decimal integer.
pub open spec fn digits_value(ds: Seq<char>) -> int
    decreases ds.len(),
{
    if ds.len() == 0 {
        0
    } else {
        digits_value(ds.drop_last()) * 10 + digit_value(ds.last())
    }
}

pub open spec fn all_digits(ds: Seq<char>) -> bool {
    forall|i: int| 0 <= i < ds.len() ==> is_digit(#[trigger] ds[i])
}

/// The digits of a number's text with its integer and fractional digits
/// joined: `(integer digits, fractional digits, whether a point was written)`.
pub open spec fn split_number(body: Seq<char>) -> (Seq<char>, Seq<char>, bool) {
    match point_index(body) {
        None => (body, Seq::empty(), false),
        Some(i) => (body.subrange(0, i as int), body.subrange((i + 1) as int, body.len() as int), true),
    }
}

/// The number that the text `s` writes: an optional minus sign, at least one
/// digit, and optionally a point followed by one to `MAX_SCALE` digits; the
/// digits together must fit the mantissa.
pub open spec fn parse_text(s: Seq<char>) -> Option<Decimal> {
    let neg = s.len() > 0 && s[0] == '-';
    let body = if neg {
        s.subrange(1, s.len() as int)
    } else {
        s
    };
    let (ip, fp, has_point) = split_number(body);
    let m = digits_value(ip + fp);
    let sm = if neg {
        -m
    } else {
        m
    };
    if ip.len() == 0 || (has_point && fp.len() == 0) || fp.len() > MAX_SCALE || !all_digits(ip + fp)
        || !(i64::MIN <= sm <= i64::MAX) {
        None
    } else {
        Some(Decimal { mantissa: sm as i64, scale: fp.len() as u8 })
    }
}

pub proof fn lemma_digits_value_nonneg(ds: Seq<char>)
    requires
        all_digits(ds),
    ensures
        digits_value(ds) >= 0,
    decreases ds.len(),
{
    if ds.len() > 0 {
        lemma_digits_value_nonneg(ds.drop_last());
    }
}

pub proof fn lemma_digits_value_prefix(ds: Seq<char>, k: int)
    requires
        all_digits(ds),
        0 <= k <= ds.len(),
    ensures
        digits_value(ds.subrange(0, k)) <= digits_value(ds),
    decreases ds.len() - k,
{
    if k < ds.len() {
        lemma_digits_value_prefix(ds, k + 1);
        let a = ds.subrange(0, k + 1);
        assert(a.drop_last() =~= ds.subrange(0, k));
        lemma_digits_value_nonneg(ds.subrange(0, k));
    } else {
        assert(ds.subrange(0, k) =~= ds);
    }
}

pub proof fn lemma_digits_value_zeros(k: nat, x: Seq<char>)
    ensures
        digits_value(zeros(k) + x) == digits_value(x),
    decreases x.len(), k,
{
    if x.len() > 0 {
        assert((zeros(k) + x).drop_last() =~= zeros(k) + x.drop_last());
        lemma_digits_value_zeros(k, x.drop_last());
    } else if k > 0 {
        assert((zeros(k) + x).drop_last() =~= zeros((k - 1) as nat) + x);
        lemma_digits_value_zeros((k - 1) as nat, x);
        assert(zeros(k) + x =~= zeros(k));
    } else {
        assert(zeros(k) + x =~= x);
    }
}

/// Reading digits and writing the number back, padded to as many digits,
/// gives the same digits.
pub proof fn lemma_digits_round_trip(e: Seq<char>)
    requires
        all_digits(e),
        e.len() >= 1,
    ensures
        nat_text(digits_value(e) as nat).len() <= e.len(),
        zero_pad(nat_text(digits_value(e) as nat), e.len()) == e,
    decreases e.len(),
{
    let c = e.last();
    let d = digit_value(c);
    assert(is_digit(e[e.len() - 1]));
    assert(0 <= d < 10);
    assert(digit_char(d) == c);
    if e.len() == 1 {
        assert(e.drop_last() =~= Seq::<char>::empty());
        assert(digits_value(e) == d);
        assert(zero_pad(nat_text(d as nat), e.len()) =~= e);
    } else {
        let e1 = e.drop_last();
        assert(all_digits(e1)) by {
            assert forall|i: int| 0 <= i < e1.len() implies is_digit(#[trigger] e1[i]) by {
                assert(e1[i] == e[i]);
            }
        }
        lemma_digits_round_trip(e1);
        lemma_digits_value_nonneg(e1);
        let v1 = digits_value(e1);
        let v = digits_value(e);
        assert(v == v1 * 10 + d);
        if v1 == 0 {
            assert(nat_text(0) == seq!['0']);
            assert forall|i: int| 0 <= i < e1.len() implies e1[i] == '0' by {
                let z = zeros((e1.len() - 1) as nat);
                assert(e1 == z + seq!['0']);
                if i < z.len() {
                    assert(e1[i] == z[i]);
                }
            }
            assert(nat_text(v as nat) == seq![c]);
            assert(zero_pad(nat_text(v as nat), e.len()) =~= e) by {
                assert forall|i: int| 0 <= i < e.len() implies zero_pad(
                    nat_text(v as nat),
                    e.len(),
                )[i] == e[i] by {
                    if i < e.len() - 1 {
                        assert(e[i] == e1[i]);
                    }
                }
            }
        } else {
            assert(v >= 10);
            assert(v / 10 == v1 && v % 10 == d);
            assert(nat_text(v as nat) == nat_text(v1 as nat).push(c));
            let nt1 = nat_text(v1 as nat);
            assert(e1 == zero_pad(nt1, e1.len()));
            assert(zero_pad(nat_text(v as nat), e.len()) =~= zero_pad(nt1, e1.len()).push(c));
            assert(e =~= e1.push(c));
        }
    }
}

/// The digits `ip`, then a point and the digits `fr` when there are any,
/// left-padded with `z` zeros.
pub open spec fn digit_string(z: nat, ip: Seq<char>, fr: Seq<char>) -> Seq<char> {
    if fr.len() > 0 {
        zeros(z) + ip + seq!['.'] + fr
    } else {
        zeros(z) + ip
    }
}

pub proof fn lemma_parse_digits(z: nat, ip: Seq<char>, fr: Seq<char>)
    requires
        all_digits(ip),
        ip.len() >= 1,
        all_digits(fr),
        fr.len() <= MAX_SCALE,
        digits_value(ip + fr) <= i64::MAX,
    ensures
        parse_text(digit_string(z, ip, fr)) == Some(
            Decimal { mantissa: digits_value(ip + fr) as i64, scale: fr.len() as u8 },
        ),
{
    let f = digit_string(z, ip, fr);
    let zl = z as int;
    let zi = zeros(z) + ip;
    assert(f[0] != '-') by {
        if zl == 0 {
            assert(f[0] == ip[0]);
        }
    }
    assert forall|j: int| 0 <= j < zl + ip.len() implies f[j] != '.' by {
        if j >= zl {
            assert(f[j] == ip[j - zl]);
        }
    }
    let e = ip + fr;
    assert(all_digits(e)) by {
        assert forall|j: int| 0 <= j < e.len() implies is_digit(#[trigger] e[j]) by {
            if j >= ip.len() {
                assert(e[j] == fr[j - ip.len()]);
            }
        }
    }
    lemma_digits_value_nonneg(e);
    lemma_digits_value_zeros(z, e);
    assert(zi + fr =~= zeros(z) + e);
    assert(all_digits(zi + fr)) by {
        assert forall|j: int| 0 <= j < (zi + fr).len() implies is_digit(#[trigger] (zi + fr)[j]) by {
            if j >= zl {
                assert((zi + fr)[j] == e[j - zl]);
            }
        }
    }
    lemma_point_index(f, zl + ip.len());
    if fr.len() > 0 {
        assert(f.subrange(0, zl + ip.len()) =~= zi);
        assert(f.subrange(zl + ip.len() + 1, f.len() as int) =~= fr);
        assert(split_number(f) == (zi, fr, true));
    } else {
        assert(fr =~= Seq::<char>::empty());
        assert(zi + fr =~= zi);
        assert(split_number(f) == (zi, fr, false));
    }
}

pub proof fn lemma_text_of_digits(ip: Seq<char>, fr: Seq<char>)
    requires
        all_digits(ip),
        ip.len() >= 1,
        ip.len() == 1 || ip[0] != '0',
        all_digits(fr),
        fr.len() <= MAX_SCALE,
        digits_value(ip + fr) <= i64::MAX,
    ensures
        decimal_text(Decimal { mantissa: digits_value(ip + fr) as i64, scale: fr.len() as u8 })
            == digit_string(0, ip, fr),
{
    let e = ip + fr;
    let p = fr.len();
    assert(all_digits(e)) by {
        assert forall|j: int| 0 <= j < e.len() implies is_digit(#[trigger] e[j]) by {
            if j >= ip.len() {
                assert(e[j] == fr[j - ip.len()]);
            }
        }
    }
    lemma_digits_value_nonneg(e);
    lemma_digits_round_trip(e);
    let m = digits_value(e);
    let w = Decimal { mantissa: m as i64, scale: p as u8 };
    let nt = nat_text(m as nat);
    assert(magnitude(w.mantissa) == m);
    assert(padded_digits(w) == e) by {
        if e.len() != p + 1 {
            assert(e[0] == ip[0]);
            if nt.len() < e.len() {
                assert(e[0] == zero_pad(nt, e.len())[0]);
            }
            assert(nt == e);
        }
    }
    assert(int_part_text(w) =~= ip);
    assert(zeros(0) =~= Seq::<char>::empty());
    if p > 0 {
        assert(frac_part_text(w) =~= fr);
        assert(decimal_text(w) =~= digit_string(0, ip, fr));
    } else {
        assert(decimal_text(w) =~= digit_string(0, ip, fr));
    }
}

impl Decimal {
    /// The number that the text `s` writes, if it writes one.
    pub fn parse(s: &str) -> (r: Option<Decimal>)
        ensures
            r == parse_text(s@),
            r matches Some(d) ==> d.wf(),
    {
        let n = s.unicode_len();
        let neg = n > 0 && s.get_char(0) == '-';
        let start: usize = if neg {
            1
        } else {
            0
        };
        let body = s.substring_char(start, n);
        assert(body@ == (if neg {
            s@.subrange(1, s@.len() as int)
        } else {
            s@
        })) by {
            if !neg {
                assert(s@.subrange(0, s@.len() as int) =~= s@);
            }
        }
        let bn = n - start;
        let pt = str_point(body);
        let (ip_end, fp_start): (usize, usize) = match pt {
            None => (bn, bn),
            Some(i) => (i, i + 1),
        };
        let ghost ip = split_number(body@).0;
        let ghost fp = split_number(body@).1;
        let ghost e = ip + fp;
        assert(ip.len() == ip_end && fp.len() == bn - fp_start);
        assert(split_number(body@) == (ip, fp, pt is Some));
        assert(neg == (s@.len() > 0 && s@[0] == '-'));
        if ip_end == 0 || (pt.is_some() && fp_start == bn) || bn - fp_start > MAX_SCALE as usize {
            return None;
        }
        let total = ip_end + (bn - fp_start);
        let mut acc: i128 = 0;
        let mut j: usize = 0;
        while j < total
            invariant
                total == e.len(),
                split_number(body@) == (ip, fp, pt is Some),
                neg == (s@.len() > 0 && s@[0] == '-'),
                body@ == (if neg {
                    s@.subrange(1, s@.len() as int)
                } else {
                    s@
                }),
                ip_end > 0,
                !(pt is Some && fp_start == bn),
                bn - fp_start <= MAX_SCALE,
                ip.len() == ip_end,
                ip_end <= fp_start <= bn == body@.len(),
                fp_start - ip_end <= 1,
                e == ip + fp,
                ip == body@.subrange(0, ip_end as int),
                fp == body@.subrange(fp_start as int, bn as int),
                j <= total,
                all_digits(e.subrange(0, j as int)),
                acc == digits_value(e.subrange(0, j as int)),
                0 <= acc <= 0x8000_0000_0000_0000,
            decreases total - j,
        {
            let pos = if j < ip_end {
                j
            } else {
                j + (fp_start - ip_end)
            };
            let c = body.get_char(pos);
            assert(c == e[j as int]);
            if c < '0' || c > '9' {
                assert(!all_digits(e)) by {
                    assert(!is_digit(e[j as int]));
                }
                assert(parse_text(s@) is None);
                return None;
            }
            let dv = (c as u32 - 48) as i128;
            proof {
                assert(e.subrange(0, j + 1).drop_last() =~= e.subrange(0, j as int));
                assert(all_digits(e.subrange(0, j + 1))) by {
                    assert forall|i: int| 0 <= i < j + 1 implies is_digit(
                        #[trigger] e.subrange(0, j + 1)[i],
                    ) by {
                        if i < j {
                            assert(e.subrange(0, j + 1)[i] == e.subrange(0, j as int)[i]);
                        }
                    }
                }
            }
            acc = acc * 10 + dv;
            j = j + 1;
            if acc > 0x8000_0000_0000_0000 {
                proof {
                    if all_digits(e) {
                        lemma_digits_value_prefix(e, j as int);
                    }
                }
                assert(parse_text(s@) is None);
                return None;
            }
        }
        assert(e.subrange(0, j as int) =~= e);
        let m: i128 = if neg {
            -acc
        } else {
            acc
        };
        assert(all_digits(e));
        if m < i64::MIN as i128 || m > i64::MAX as i128 {
            assert(parse_text(s@) is None);
            return None;
        }
        Some(Decimal { mantissa: m as i64, scale: (bn - fp_start) as u8 })
    }
}

pub proof fn lemma_text_shape(d: Decimal)
    ensures
        forall|i: int|
            0 <= i < padded_digits(d).len() ==> is_digit(#[trigger] padded_digits(d)[i]),
        padded_digits(d).len() >= d.scale as nat + 1,
        padded_digits(d).len() <= 20 || padded_digits(d).len() == d.scale as nat + 1,
        frac_part_text(d).len() == d.scale as nat,
        forall|i: int| 0 <= i < frac_part_text(d).len() ==> is_digit(#[trigger] frac_part_text(d)[i]),
        int_part_text(d).len() >= 1,
        int_part_text(d).len() <= 21,
        forall|i: int| 0 <= i < int_part_text(d).len() ==> #[trigger] int_part_text(d)[i] != '.',
        forall|i: int|
            0 <= i < int_part_text(d).len() ==> is_number_char(#[trigger] int_part_text(d)[i]),
        d.scale == 0 ==> point_index(decimal_text(d)) == None::<nat>,
        d.scale > 0 ==> point_index(decimal_text(d)) == Some(int_part_text(d).len()),
        decimal_text(d).len() == int_part_text(d).len() + if d.scale > 0 {
            d.scale + 1
        } else {
            0
        },
{
    let m = magnitude(d.mantissa);
    lemma_nat_text_digits(m);
    reveal_with_fuel(pow10, 21);
    assert(pow10(20) == 100000000000000000000);
    lemma_nat_text_len(m, 20);
    let ds = padded_digits(d);
    assert(forall|i: int| 0 <= i < ds.len() ==> is_digit(#[trigger] ds[i])) by {
        assert forall|i: int| 0 <= i < ds.len() implies is_digit(#[trigger] ds[i]) by {
            if nat_text(m).len() < d.scale as nat + 1 {
                let z = zeros((d.scale as nat + 1 - nat_text(m).len()) as nat);
                if i >= z.len() {
                    assert(ds[i] == nat_text(m)[i - z.len()]);
                }
            }
        }
    }
    let t = decimal_text(d);
    let ip = int_part_text(d);
    assert(forall|i: int| 0 <= i < ip.len() ==> #[trigger] ip[i] != '.' && is_number_char(ip[i])) by {
        assert forall|i: int| 0 <= i < ip.len() implies #[trigger] ip[i] != '.' && is_number_char(ip[i]) by {
            if d.mantissa < 0 {
                if i > 0 {
                    assert(ip[i] == ds[i - 1]);
                }
            } else {
                assert(ip[i] == ds[i]);
            }
        }
    }
    lemma_point_index(t, ip.len() as int);
    let fp = frac_part_text(d);
    assert forall|i: int| 0 <= i < fp.len() implies is_digit(#[trigger] fp[i]) by {
        assert(fp[i] == ds[ds.len() - d.scale + i]);
    }
}

/// Appends the digits of `n` to `out`.
fn push_digits(n: u64, out: &mut Vec<char>)
    ensures
        final(out)@ == old(out)@ + nat_text(n as nat),
    decreases n,
{
    if n >= 10 {
        push_digits(n / 10, out);
    }
    let c = ((48 + n % 10) as u8) as char;
    out.push(c);
    proof {
        assert(nat_text(n as nat) == if n < 10 {
            seq![digit_char(n as int)]
        } else {
            nat_text((n / 10) as nat).push(digit_char(n as int % 10))
        });
    }
    assert(final(out)@ =~= old(out)@ + nat_text(n as nat));
}


/// Appends `n` zero characters to `out`.
pub(crate) fn push_zeros(out: &mut Vec<char>, n: usize)
    ensures
        final(out)@ == old(out)@ + zeros(n as nat),
{
    let mut k: usize = 0;
    while k < n
        invariant
            k <= n,
            out@ == old(out)@ + zeros(k as nat),
        decreases n - k,
    {
        out.push('0');
        k = k + 1;
        assert(out@ =~= old(out)@ + zeros(k as nat));
    }
}

/// Appends `src[lo..hi]` to `out`.
pub(crate) fn push_range(out: &mut Vec<char>, src: &Vec<char>, lo: usize, hi: usize)
    requires
        lo <= hi <= src@.len(),
    ensures
        final(out)@ == old(out)@ + src@.subrange(lo as int, hi as int),
{
    let mut k: usize = lo;
    while k < hi
        invariant
            lo <= k <= hi <= src@.len(),
            out@ == old(out)@ + src@.subrange(lo as int, k as int),
        decreases hi - k,
    {
        out.push(src[k]);
        k = k + 1;
        assert(out@ =~= old(out)@ + src@.subrange(lo as int, k as int));
    }
}

/// The characters that the text of a number is made of.
pub open spec fn is_number_char(c: char) -> bool {
    is_digit(c) || c == '.' || c == '-'
}

/// A one-character string holding `c`.
fn char_str(c: char) -> (r: &'static str)
    requires
        is_number_char(c),
    ensures
        r@ == seq![c],
{
    proof {
        reveal_strlit("0");
        reveal_strlit("1");
        reveal_strlit("2");
        reveal_strlit("3");
        reveal_strlit("4");
        reveal_strlit("5");
        reveal_strlit("6");
        reveal_strlit("7");
        reveal_strlit("8");
        reveal_strlit("9");
        reveal_strlit(".");
        reveal_strlit("-");
    }
    let r = match c {
        '0' => "0",
        '1' => "1",
        '2' => "2",
        '3' => "3",
        '4' => "4",
        '5' => "5",
        '6' => "6",
        '7' => "7",
        '8' => "8",
        '9' => "9",
        '.' => ".",
        _ => "-",
    };
    assert(r@ =~= seq![c]);
    r
}

/// The string of the characters `v`.
pub(crate) fn chars_to_string(v: &Vec<char>) -> (r: String)
    requires
        forall|i: int| 0 <= i < v@.len() ==> is_number_char(#[trigger] v@[i]),
    ensures
        r@ == v@,
{
    proof {
        reveal_strlit("");
    }
    let mut r = String::from_str("");
    let mut k: usize = 0;
    while k < v.len()
        invariant
            k <= v@.len(),
            forall|i: int| 0 <= i < v@.len() ==> is_number_char(#[trigger] v@[i]),
            r@ == v@.subrange(0, k as int),
        decreases v@.len() - k,
    {
        r.append(char_str(v[k]));
        k = k + 1;
        assert(r@ =~= v@.subrange(0, k as int));
    }
    assert(v@.subrange(0, v@.len() as int) =~= v@);
    r
}

impl Decimal {
    /// The characters of the text of this number.
    pub fn text_chars(&self) -> (r: Vec<char>)
        ensures
            r@ == decimal_text(*self),
            forall|i: int| 0 <= i < r@.len() ==> is_number_char(#[trigger] r@[i]),
            r@.len() <= 21 + 1 + self.scale,
    {
        let mag: u64 = if self.mantissa < 0 {
            (0 - (self.mantissa as i128)) as u64
        } else {
            self.mantissa as u64
        };
        let mut digits: Vec<char> = Vec::new();
        push_digits(mag, &mut digits);
        proof {
            lemma_nat_text_digits(mag as nat);
            assert(digits@ =~= nat_text(magnitude(self.mantissa)));
        }
        let need: usize = self.scale as usize + 1;
        let mut ds: Vec<char> = Vec::new();
        if digits.len() < need {
            push_zeros(&mut ds, need - digits.len());
        }
        let dl = digits.len();
        push_range(&mut ds, &digits, 0, dl);
        assert(ds@ =~= padded_digits(*self));
        assert(forall|i: int| 0 <= i < ds@.len() ==> is_digit(#[trigger] ds@[i]));
        let mut out: Vec<char> = Vec::new();
        if self.mantissa < 0 {
            out.push('-');
        }
        let split = ds.len() - self.scale as usize;
        push_range(&mut out, &ds, 0, split);
        assert(out@ =~= int_part_text(*self));
        if self.scale > 0 {
            out.push('.');
            let n = ds.len();
            push_range(&mut out, &ds, split, n);
        }
        assert(out@ =~= decimal_text(*self));
        proof {
            lemma_text_shape(*self);
        }
        out
    }
}

} // verus!
