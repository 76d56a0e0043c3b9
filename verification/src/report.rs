//! Human-readable durations, with the value rounded as `f64` arithmetic
//! and `{:.1}` formatting round it, computed exactly on integers.

use vstd::prelude::*;

use crate::layout::{lemma_div_mod, lemma_div_mod_unique};

verus! {

/// `2^k`.
pub open spec fn two_pow(k: nat) -> nat
    decreases k,
{
    if k == 0 {
        1
    } else {
        2 * two_pow((k - 1) as nat)
    }
}

/// Number of binary digits of `n` (0 for 0).
pub open spec fn bit_len(n: nat) -> nat
    decreases n,
{
    if n == 0 {
        0
    } else {
        1 + bit_len(n / 2)
    }
}

pub proof fn lemma_two_pow_pos(k: nat)
    ensures
        two_pow(k) >= 1,
    decreases k,
{
    if k > 0 {
        lemma_two_pow_pos((k - 1) as nat);
    }
}

pub proof fn lemma_two_pow_adds(a: nat, b: nat)
    ensures
        two_pow(a + b) == two_pow(a) * two_pow(b),
    decreases b,
{
    if b > 0 {
        lemma_two_pow_adds(a, (b - 1) as nat);
        assert(two_pow(a + b) == 2 * two_pow((a + b - 1) as nat));
        assert(two_pow(a) * two_pow(b) == two_pow(a) * (2 * two_pow((b - 1) as nat)));
        assert(two_pow(a) * (2 * two_pow((b - 1) as nat)) == 2 * (two_pow(a) * two_pow((b - 1) as nat)))
            by (nonlinear_arith);
    } else {
        assert(two_pow(0) == 1);
        assert(a + b == a);
    }
}

pub proof fn lemma_two_pow_monotone(a: nat, b: nat)
    requires
        a <= b,
    ensures
        two_pow(a) <= two_pow(b),
    decreases b,
{
    if a < b {
        lemma_two_pow_monotone(a, (b - 1) as nat);
        lemma_two_pow_pos((b - 1) as nat);
    }
}

/// `2^127`, the largest power of two in a `u128`.
pub proof fn lemma_two_pow_127()
    ensures
        two_pow(127) == 0x8000_0000_0000_0000_0000_0000_0000_0000,
{
    reveal_with_fuel(two_pow, 9);
    assert(two_pow(8) == 256);
    assert(two_pow(7) == 128);
    lemma_two_pow_adds(8, 8);
    assert(two_pow(16) == 65536);
    lemma_two_pow_adds(16, 16);
    assert(two_pow(32) == 0x1_0000_0000);
    lemma_two_pow_adds(32, 32);
    assert(two_pow(64) == 0x1_0000_0000_0000_0000);
    lemma_two_pow_adds(64, 32);
    assert(two_pow(96) == 0x1_0000_0000_0000_0000_0000_0000);
    lemma_two_pow_adds(96, 16);
    assert(two_pow(112) == 0x1_0000_0000_0000_0000_0000_0000_0000);
    lemma_two_pow_adds(112, 8);
    assert(two_pow(120) == 0x1_0000_0000_0000_0000_0000_0000_0000_00);
    lemma_two_pow_adds(120, 7);
}

/// `n` has `L + 1` binary digits exactly when `2^L <= n < 2^(L + 1)`.
pub proof fn lemma_bit_len_range(n: nat)
    requires
        n >= 1,
    ensures
        bit_len(n) >= 1,
        two_pow((bit_len(n) - 1) as nat) <= n < two_pow(bit_len(n)),
    decreases n,
{
    if n >= 2 {
        lemma_bit_len_range(n / 2);
        let l = bit_len(n / 2);
        assert(two_pow(l) == 2 * two_pow((l - 1) as nat));
        assert(two_pow(l + 1) == 2 * two_pow(l));
    } else {
        assert(bit_len(0) == 0);
    }
}

pub proof fn lemma_bit_len_of_range(n: nat, l: nat)
    requires
        two_pow(l) <= n < two_pow(l + 1),
    ensures
        bit_len(n) == l + 1,
    decreases l,
{
    if l > 0 {
        assert(two_pow(l) == 2 * two_pow((l - 1) as nat));
        assert(two_pow(l + 1) == 2 * two_pow(l));
        lemma_bit_len_of_range(n / 2, (l - 1) as nat);
    } else {
        assert(n == 1);
        assert(bit_len(0) == 0);
    }
}

/// A `u128` has at most 128 binary digits.
pub proof fn lemma_bit_len_u128(n: u128)
    ensures
        bit_len(n as nat) <= 128,
{
    if n >= 1 {
        lemma_bit_len_range(n as nat);
        lemma_two_pow_127();
        let l = bit_len(n as nat);
        if l > 128 {
            lemma_two_pow_monotone(128, (l - 1) as nat);
            assert(two_pow(128) == 2 * two_pow(127));
        }
    }
}

/// `bit_len(n)`.
pub fn bit_len_of(n: u128) -> (b: u32)
    ensures
        b as nat == bit_len(n as nat),
        b <= 128,
{
    proof {
        lemma_bit_len_u128(n);
    }
    let mut x = n;
    let mut b: u32 = 0;
    while x > 0
        invariant
            bit_len(n as nat) == b + bit_len(x as nat),
            b + bit_len(x as nat) <= 128,
        decreases x,
    {
        x = x / 2;
        b = b + 1;
    }
    b
}

/// `2^k`.
pub fn two_pow_of(k: u32) -> (p: u128)
    requires
        k < 128,
    ensures
        p as nat == two_pow(k as nat),
        p >= 1,
{
    proof {
        lemma_two_pow_pos(k as nat);
    }
    let mut p: u128 = 1;
    let mut i: u32 = 0;
    while i < k
        invariant
            i <= k < 128,
            p as nat == two_pow(i as nat),
        decreases k - i,
    {
        proof {
            lemma_two_pow_monotone((i + 1) as nat, 127);
            lemma_two_pow_127();
        }
        p = p * 2;
        i = i + 1;
    }
    p
}

/// `a / b` rounded to the nearest integer, ties to the even one.
pub open spec fn round_half_even(a: nat, b: nat) -> nat {
    let q = a / b;
    let r = a % b;
    if 2 * r < b {
        q
    } else if 2 * r > b {
        q + 1
    } else if q % 2 == 0 {
        q
    } else {
        q + 1
    }
}

/// Rounding a quotient does not depend on a common factor.
pub proof fn lemma_round_scale(a: nat, b: nat, c: nat)
    requires
        b > 0,
        c > 0,
    ensures
        round_half_even(a * c, b * c) == round_half_even(a, b),
{
    lemma_div_mod(a as int, b as int);
    let q = a / b;
    let r = a % b;
    assert(a * c == q * (b * c) + r * c && r * c < b * c) by (nonlinear_arith)
        requires a == b * q + r, r < b, c > 0;
    assert(b * c > 0) by (nonlinear_arith)
        requires b > 0, c > 0;
    lemma_div_mod_unique((a * c) as int, (b * c) as int, q as int, (r * c) as int);
    assert((2 * (r * c) < b * c) == (2 * r < b)) by (nonlinear_arith)
        requires c > 0;
    assert((2 * (r * c) > b * c) == (2 * r > b)) by (nonlinear_arith)
        requires c > 0;
}

/// `round_half_even(a, b)` is a nearest integer to `a / b`: `r * b` is
/// within `b / 2` of `a`, and at exactly `b / 2` (a tie) `r` is even.
pub proof fn lemma_round_half_even_nearest(a: nat, b: nat)
    requires
        b > 0,
    ensures
        ({
            let r = round_half_even(a, b) as int;
            let diff = a as int - r * (b as int);
            &&& 2 * diff <= b
            &&& -2 * diff <= b
            &&& (2 * diff == b || -2 * diff == b) ==> r % 2 == 0
        }),
{
    lemma_div_mod(a as int, b as int);
    let q = (a / b) as int;
    let m = (a % b) as int;
    let r = round_half_even(a, b) as int;
    assert(r * (b as int) == (b as int) * r) by (nonlinear_arith);
    assert((q + 1) * (b as int) == (b as int) * q + b) by (nonlinear_arith);
}

/// The rounded quotient is at most one more than the quotient.
pub proof fn lemma_round_bounds(a: nat, b: nat)
    requires
        b > 0,
    ensures
        a / b <= round_half_even(a, b) <= a / b + 1,
{
}

/// `round_half_even(a, b)`.
pub fn round_half_even_of(a: u128, b: u128) -> (r: u128)
    requires
        b > 0,
    ensures
        r as nat == round_half_even(a as nat, b as nat),
{
    let q = a / b;
    let r = a % b;
    proof {
        lemma_div_mod(a as int, b as int);
    }
    if r < b - r {
        q
    } else if r > b - r {
        proof {
            assert(q < u128::MAX) by (nonlinear_arith)
                requires a == b * q + r, r > b - r, r < b, a <= u128::MAX, b > 0;
        }
        q + 1
    } else if q % 2 == 0 {
        q
    } else {
        proof {
            assert(q < u128::MAX) by (nonlinear_arith)
                requires a == b * q + r, r == b - r, r < b, a <= u128::MAX, b > 0;
        }
        q + 1
    }
}

/// `n as f64`: the significand and exponent of the nearest double to `n`,
/// ties to the even significand; its value is `m * 2^e`.
pub open spec fn f64_of_int(n: nat) -> (nat, nat) {
    if bit_len(n) <= 53 {
        (n, 0)
    } else {
        let s = (bit_len(n) - 53) as nat;
        (round_half_even(n, two_pow(s)), s)
    }
}

/// The double nearest to `m * 2^s / d`, ties to the even significand:
/// its significand and exponent.
pub open spec fn f64_div(m: nat, s: nat, d: nat) -> (nat, int) {
    let e = bit_len(m * two_pow(s) / d) - 53;
    if e >= 0 {
        (round_half_even(m * two_pow(s), d * two_pow(e as nat)), e)
    } else {
        (round_half_even(m * two_pow(s) * two_pow((-e) as nat), d), e)
    }
}

/// `m * 2^e` rounded to tenths, ties to even, as `{:.1}` prints it: the
/// number of tenths.
pub open spec fn tenths(m: nat, e: int) -> nat {
    if e >= 0 {
        m * two_pow(e as nat) * 10
    } else {
        round_half_even(m * 10, two_pow((-e) as nat))
    }
}

/// The decimal digit `d`.
pub open spec fn digit_char(d: nat) -> char {
    (48 + d) as char
}

/// The decimal digits of `n`.
pub open spec fn decimal(n: nat) -> Seq<char>
    decreases n,
{
    if n < 10 {
        seq![digit_char(n)]
    } else {
        decimal(n / 10).push(digit_char(n % 10))
    }
}

/// The text of a duration of `nanos` nanoseconds: whole nanoseconds below
/// ten microseconds, microseconds with one decimal below ten milliseconds,
/// milliseconds with one decimal beyond, each value computed as
/// `nanos as f64 / 1000.0` (or `1_000_000.0`) and rounded to one decimal.
pub open spec fn duration_text(nanos: nat) -> Seq<char> {
    if nanos < 10_000 {
        decimal(nanos) + seq![' ', 'n', 's']
    } else {
        let d: nat = if nanos < 10_000_000 { 1000 } else { 1_000_000 };
        let unit = if nanos < 10_000_000 { 'u' } else { 'm' };
        let (m1, s1) = f64_of_int(nanos);
        let (m2, e2) = f64_div(m1, s1, d);
        let t = tenths(m2, e2);
        decimal(t / 10) + seq!['.', digit_char(t % 10), ' ', unit, 's']
    }
}

/// `String::push` of std: appends the character `c` to `s`.
#[verifier::external_body]
fn push_char(s: &mut String, c: char)
    ensures
        final(s)@ == old(s)@.push(c),
{
    s.push(c);
}

/// `s` read backwards.
pub open spec fn reversed(s: Seq<char>) -> Seq<char> {
    Seq::new(s.len(), |i: int| s[s.len() - 1 - i])
}

/// The decimal digit `d`.
fn digit_of(d: u128) -> (c: char)
    requires
        d < 10,
    ensures
        c == digit_char(d as nat),
{
    let b: u8 = 48 + (d as u8);
    b as char
}

/// Appends the decimal digits of `n` to `s`.
pub fn push_decimal(s: &mut String, n: u128)
    ensures
        final(s)@ == old(s)@ + decimal(n as nat),
{
    let mut x = n;
    let mut ds: Vec<char> = Vec::new();
    while x >= 10
        invariant
            decimal(n as nat) == decimal(x as nat) + reversed(ds@),
        decreases x,
    {
        let ghost before = ds@;
        ds.push(digit_of(x % 10));
        proof {
            assert(reversed(ds@) =~= seq![digit_char((x % 10) as nat)] + reversed(before));
            assert(decimal(x as nat) == decimal((x / 10) as nat).push(digit_char((x % 10) as nat)));
            assert(decimal((x / 10) as nat).push(digit_char((x % 10) as nat)) + reversed(before)
                =~= decimal((x / 10) as nat) + reversed(ds@));
        }
        x = x / 10;
    }
    let ghost before = ds@;
    ds.push(digit_of(x));
    assert(reversed(ds@) =~= seq![digit_char(x as nat)] + reversed(before));
    assert(decimal(n as nat) =~= reversed(ds@));
    let ghost start = s@;
    let mut i: usize = ds.len();
    while i > 0
        invariant
            i <= ds@.len(),
            s@ == start + reversed(ds@).take((ds@.len() - i) as int),
        decreases i,
    {
        i = i - 1;
        push_char(s, ds[i]);
        assert(reversed(ds@).take((ds@.len() - i) as int) =~= reversed(ds@).take(
            (ds@.len() - i - 1) as int,
        ).push(ds@[i as int]));
    }
    assert(reversed(ds@).take(ds@.len() as int) =~= reversed(ds@));
}

/// A few powers of two used below.
proof fn lemma_two_pow_values()
    ensures
        two_pow(9) == 512,
        two_pow(20) == 0x10_0000,
        two_pow(52) == 0x10_0000_0000_0000,
        two_pow(53) == 0x20_0000_0000_0000,
{
    reveal_with_fuel(two_pow, 10);
    assert(two_pow(9) == 512);
    assert(two_pow(2) == 4);
    assert(two_pow(3) == 8);
    assert(two_pow(1) == 2);
    lemma_two_pow_adds(9, 9);
    assert(two_pow(18) == 262144);
    lemma_two_pow_adds(18, 2);
    assert(two_pow(20) == 0x10_0000);
    lemma_two_pow_adds(20, 20);
    assert(two_pow(40) == 0x100_0000_0000);
    lemma_two_pow_adds(40, 9);
    assert(two_pow(49) == 0x2_0000_0000_0000);
    lemma_two_pow_adds(49, 3);
    assert(two_pow(52) == 0x10_0000_0000_0000);
    lemma_two_pow_adds(52, 1);
}

/// `x / d < c` exactly when `x < d * c`; `c <= x / d` exactly when
/// `d * c <= x`.
proof fn lemma_div_compare(x: nat, d: nat, c: nat)
    requires
        d > 0,
    ensures
        (x / d < c) == (x < d * c),
{
    lemma_div_mod(x as int, d as int);
    let q = x / d;
    let r = x % d;
    assert((q < c) == (x < d * c)) by (nonlinear_arith)
        requires x == d * q + r, 0 <= r < d, d > 0;
}

/// Scaling a quotient that is at least one by `2^j` adds `j` binary
/// digits to its integer part.
proof fn lemma_bit_len_scale(a: nat, j: nat, d: nat)
    requires
        d > 0,
        a / d >= 1,
    ensures
        bit_len(a * two_pow(j) / d) == bit_len(a / d) + j,
{
    lemma_bit_len_range(a / d);
    let l = (bit_len(a / d) - 1) as nat;
    lemma_div_compare(a, d, two_pow(l + 1));
    lemma_div_compare(a, d, two_pow(l));
    assert(bit_len(a / d) == l + 1);
    assert(two_pow(l + 1) == two_pow(l) * two_pow(1)) by {
        lemma_two_pow_adds(l, 1);
    }
    lemma_two_pow_adds(l, j);
    lemma_two_pow_adds(l + 1, j);
    lemma_two_pow_pos(j);
    let x = a * two_pow(j);
    assert(d * two_pow(l) <= a);
    assert(a < d * two_pow(l + 1));
    assert(d * two_pow(l + j) <= x) by (nonlinear_arith)
        requires d * two_pow(l) <= a, x == a * two_pow(j), two_pow(l + j) == two_pow(l) * two_pow(j);
    assert(x < d * two_pow(l + 1 + j)) by (nonlinear_arith)
        requires
            a < d * two_pow(l + 1),
            x == a * two_pow(j),
            two_pow(l + 1 + j) == two_pow(l + 1) * two_pow(j),
            two_pow(j) >= 1;
    lemma_div_compare(x, d, two_pow(l + j));
    lemma_div_compare(x, d, two_pow(l + j + 1));
    lemma_bit_len_of_range(x / d, l + j);
}

/// The double nearest to a `u128` has a significand of at most 53 bits
/// (at least 52 when it is not exact) and a value below `2^128`.
proof fn lemma_f64_of_int_bounds(n: nat)
    requires
        1 <= n < 0x1_0000_0000_0000_0000_0000_0000_0000_0000,
    ensures
        ({
            let (m, s) = f64_of_int(n);
            &&& 1 <= m <= two_pow(53)
            &&& s <= 75
            &&& (s > 0 ==> m >= two_pow(52))
            &&& (s == 0 ==> m == n)
        }),
{
    lemma_bit_len_range(n);
    lemma_bit_len_u128(n as u128);
    lemma_two_pow_values();
    let b = bit_len(n);
    if b <= 53 {
        lemma_two_pow_monotone(b, 53);
    } else {
        let s = (b - 53) as nat;
        lemma_two_pow_adds(s, 53);
        lemma_two_pow_adds(s, 52);
        lemma_two_pow_pos(s);
        assert((b - 1) as nat == s + 52);
        lemma_div_compare(n, two_pow(s), two_pow(53));
        lemma_div_compare(n, two_pow(s), two_pow(52));
        assert(two_pow(s + 53) == two_pow(s) * two_pow(53));
        assert(n < two_pow(s) * two_pow(53));
        assert(!(n < two_pow(s) * two_pow(52)));
        lemma_round_bounds(n, two_pow(s));
    }
}

/// `n as f64` for a `u128` of at least one: significand and exponent.
fn f64_of_u128(n: u128) -> (r: (u128, u32))
    requires
        n >= 1,
    ensures
        f64_of_int(n as nat) == (r.0 as nat, r.1 as nat),
        1 <= r.0 <= two_pow(53),
        r.1 <= 75,
        r.1 > 0 ==> r.0 >= two_pow(52),
        r.1 == 0 ==> r.0 == n,
{
    proof {
        lemma_f64_of_int_bounds(n as nat);
    }
    let b = bit_len_of(n);
    if b <= 53 {
        (n, 0)
    } else {
        let s = b - 53;
        (round_half_even_of(n, two_pow_of(s)), s)
    }
}

/// The double nearest to `m * 2^s / d`: significand and exponent, for a
/// significand and exponent of a `u128` converted to a double and a
/// divisor between 1000 and `2^20` below the converted value.
fn f64_quotient(m: u128, s: u32, d: u128) -> (r: (u128, i32))
    requires
        1 <= m <= two_pow(53),
        s <= 75,
        s > 0 ==> m >= two_pow(52),
        1000 <= d <= two_pow(20),
        s == 0 ==> m >= d,
    ensures
        f64_div(m as nat, s as nat, d as nat) == (r.0 as nat, r.1 as int),
        r.0 <= two_pow(53),
        -52 <= r.1 <= 66,
{
    proof {
        lemma_two_pow_values();
    }
    // the integer part of m * 2^s / d has lb + (s - k) binary digits
    let k: u32 = if s < 20 { s } else { 20 };
    proof {
        lemma_two_pow_monotone(k as nat, 20);
        assert((m as nat) * two_pow(k as nat) <= two_pow(53) * two_pow(20)) by (nonlinear_arith)
            requires m <= two_pow(53), two_pow(k as nat) <= two_pow(20);
    }
    let a = m * two_pow_of(k);
    let qa = a / d;
    proof {
        lemma_two_pow_pos(k as nat);
        if s == 0 {
            assert(k == 0);
            assert(two_pow(0) == 1);
            assert(a == m * 1);
        } else {
            assert(a >= m) by (nonlinear_arith)
                requires a == m * two_pow(k as nat), two_pow(k as nat) >= 1;
        }
        assert(a >= d);
        lemma_div_compare(a as nat, d as nat, 1);
    }
    let lb = bit_len_of(qa);
    let ghost l1: nat = (lb + s - k) as nat;
    let ghost x: nat = (m as nat) * two_pow(s as nat);
    proof {
        lemma_quotient_digits(m as nat, s as nat, k as nat, a as nat, d as nat, qa as nat, lb as nat);
    }
    let shift: u32 = k + 53 - lb;
    proof {
        lemma_quotient_numerator(m as nat, k as nat, a as nat, d as nat, lb as nat, shift as nat);
    }
    let numer = m * two_pow_of(shift);
    let m2 = round_half_even_of(numer, d);
    proof {
        lemma_div_compare(numer as nat, d as nat, two_pow(53));
        lemma_round_bounds(numer as nat, d as nat);
        lemma_quotient_significand(m as nat, s as nat, d as nat, l1, shift as nat, numer as nat);
    }
    let e: i32 = (lb as i32) + (s as i32) - (k as i32) - 53;
    (m2, e)
}

/// The integer part of `m * 2^s / d` has `lb + s - k` binary digits, and
/// `lb` is at most `44 + k`.
proof fn lemma_quotient_digits(m: nat, s: nat, k: nat, a: nat, d: nat, qa: nat, lb: nat)
    requires
        m <= two_pow(53),
        k <= s,
        k <= 20,
        a == m * two_pow(k),
        1000 <= d,
        qa == a / d,
        qa >= 1,
        lb == bit_len(qa),
    ensures
        bit_len(m * two_pow(s) / d) == lb + s - k,
        1 <= lb <= 44 + k,
{
    lemma_two_pow_values();
    lemma_two_pow_adds(k, (s - k) as nat);
    let x = m * two_pow(s);
    assert(x == a * two_pow((s - k) as nat)) by (nonlinear_arith)
        requires
            x == m * two_pow(s),
            two_pow(s) == two_pow(k) * two_pow((s - k) as nat),
            a == m * two_pow(k);
    lemma_bit_len_scale(a, (s - k) as nat, d);
    lemma_bit_len_range(qa);
    lemma_two_pow_adds(53, k);
    lemma_two_pow_adds(9, (44 + k) as nat);
    assert(a <= two_pow((53 + k) as nat)) by (nonlinear_arith)
        requires
            a == m * two_pow(k),
            m <= two_pow(53),
            two_pow((53 + k) as nat) == two_pow(53) * two_pow(k);
    lemma_two_pow_pos((44 + k) as nat);
    assert(d * two_pow((44 + k) as nat) > two_pow((53 + k) as nat)) by (nonlinear_arith)
        requires
            d >= 1000,
            two_pow((44 + k) as nat) >= 1,
            two_pow((53 + k) as nat) == 512 * two_pow((44 + k) as nat);
    lemma_div_compare(a, d, two_pow((44 + k) as nat));
    if lb > 44 + k {
        lemma_two_pow_monotone((44 + k) as nat, (lb - 1) as nat);
    }
}

/// With `a = m * 2^k < d * 2^lb`, the numerator `m * 2^shift` of the
/// rounded significand, `shift = k + 53 - lb`, is below `d * 2^53`.
proof fn lemma_quotient_numerator(m: nat, k: nat, a: nat, d: nat, lb: nat, shift: nat)
    requires
        a == m * two_pow(k),
        d > 0,
        lb == bit_len(a / d),
        a / d >= 1,
        shift + lb == k + 53,
    ensures
        m * two_pow(shift) < d * two_pow(53),
{
    lemma_bit_len_range(a / d);
    lemma_div_compare(a, d, two_pow(lb));
    lemma_two_pow_adds(shift, lb);
    lemma_two_pow_adds(53, k);
    let p = m * two_pow(shift);
    assert(p * two_pow(lb) == a * two_pow(53)) by (nonlinear_arith)
        requires
            p == m * two_pow(shift),
            two_pow(shift + lb) == two_pow(shift) * two_pow(lb),
            two_pow(53 + k) == two_pow(53) * two_pow(k),
            shift + lb == 53 + k,
            a == m * two_pow(k);
    lemma_two_pow_pos(lb);
    lemma_two_pow_pos(53);
    assert(p < d * two_pow(53)) by (nonlinear_arith)
        requires
            p * two_pow(lb) == a * two_pow(53),
            a < d * two_pow(lb),
            two_pow(lb) > 0,
            two_pow(53) > 0;
}

/// Rounding `m * 2^shift / d` gives the significand of the double nearest
/// to `m * 2^s / d`, whose integer part has `l1` binary digits.
proof fn lemma_quotient_significand(m: nat, s: nat, d: nat, l1: nat, shift: nat, numer: nat)
    requires
        d > 0,
        bit_len(m * two_pow(s) / d) == l1,
        shift + l1 == s + 53,
        numer == m * two_pow(shift),
    ensures
        f64_div(m, s, d) == (round_half_even(numer, d), l1 - 53),
{
    let x = m * two_pow(s);
    if l1 >= 53 {
        let e = (l1 - 53) as nat;
        lemma_two_pow_adds(shift, e);
        lemma_two_pow_pos(e);
        assert(x == numer * two_pow(e)) by (nonlinear_arith)
            requires
                x == m * two_pow(s),
                two_pow(s) == two_pow(shift) * two_pow(e),
                numer == m * two_pow(shift);
        lemma_round_scale(numer, d, two_pow(e));
    } else {
        let ne = (53 - l1) as nat;
        lemma_two_pow_adds(s, ne);
        assert(x * two_pow(ne) == numer) by (nonlinear_arith)
            requires
                x == m * two_pow(s),
                two_pow(shift) == two_pow(s) * two_pow(ne),
                numer == m * two_pow(shift);
    }
}

/// `m * 2^e` in tenths, rounded as `{:.1}` rounds it.
fn tenths_of(m: u128, e: i32) -> (t: u128)
    requires
        m <= two_pow(53),
        -52 <= e <= 66,
    ensures
        t == tenths(m as nat, e as int),
{
    proof {
        lemma_two_pow_values();
    }
    if e >= 0 {
        let e2 = e as u32;
        proof {
            lemma_two_pow_monotone(e2 as nat, 66);
            lemma_two_pow_adds(53, 66);
            lemma_two_pow_adds(119, 4);
            lemma_two_pow_monotone(123, 127);
            lemma_two_pow_127();
            assert(two_pow(4) == 16) by {
                reveal_with_fuel(two_pow, 5);
            }
            assert(m * two_pow(e2 as nat) * 10 <= two_pow(53) * two_pow(66) * 16) by (nonlinear_arith)
                requires m <= two_pow(53), two_pow(e2 as nat) <= two_pow(66);
        }
        m * two_pow_of(e2) * 10
    } else {
        let ne = (-e) as u32;
        round_half_even_of(m * 10, two_pow_of(ne))
    }
}

/// A duration of `nanos` nanoseconds for display: `"{n} ns"` below ten
/// microseconds, then microseconds and, from ten milliseconds on,
/// milliseconds, with one decimal (`"12.3 us"`, `"45.6 ms"`). The value
/// shown is the one that `nanos as f64 / 1000.0` (or `/ 1_000_000.0`)
/// printed with `{:.1}` shows: the integer is rounded to the nearest
/// double, the quotient to the nearest double, and the result to tenths,
/// every tie to even.
pub fn format_duration(nanos: u128) -> (text: String)
    ensures
        text@ == duration_text(nanos as nat),
{
    let mut text = String::new();
    if nanos < 10_000 {
        push_decimal(&mut text, nanos);
        push_char(&mut text, ' ');
        push_char(&mut text, 'n');
        push_char(&mut text, 's');
        return text;
    }
    let micro = nanos < 10_000_000;
    let d: u128 = if micro { 1000 } else { 1_000_000 };
    let unit = if micro { 'u' } else { 'm' };
    proof {
        lemma_two_pow_values();
    }
    let (m1, s1) = f64_of_u128(nanos);
    let (m2, e2) = f64_quotient(m1, s1, d);
    let t = tenths_of(m2, e2);
    push_decimal(&mut text, t / 10);
    push_char(&mut text, '.');
    push_char(&mut text, digit_of(t % 10));
    push_char(&mut text, ' ');
    push_char(&mut text, unit);
    push_char(&mut text, 's');
    proof {
        assert(text@ =~= duration_text(nanos as nat));
    }
    text
}

} // verus!
