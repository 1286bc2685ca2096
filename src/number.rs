//! Exact arithmetic on decimals and the text that shows a result.
use vstd::prelude::*;
use vstd::arithmetic::div_mod::{
    lemma_fundamental_div_mod, lemma_fundamental_div_mod_converse, lemma_mod_pos_bound,
};
use crate::text::{
    has_sign, in_range, is_digit, is_number_text, is_unsigned_text, lemma_no_point_count,
    lemma_point_count_concat, point_count, unsigned_part, Decimal, MANTISSA_LIMIT, MAX_SCALE,
};

verus! {

/// One of the four binary operations.
#[derive(Clone, Copy, Debug, PartialEq, Eq)]
pub enum Operator {
    Add,
    Sub,
    Mul,
    Div,
}

pub open spec fn pow10(n: nat) -> nat
    decreases n,
{
    if n == 0 {
        1
    } else {
        10 * pow10((n - 1) as nat)
    }
}

pub proof fn lemma_pow10_pos(n: nat)
    ensures
        pow10(n) > 0,
    decreases n,
{
    if n > 0 {
        lemma_pow10_pos((n - 1) as nat);
    }
}

pub proof fn lemma_pow10_mono(a: nat, b: nat)
    requires
        a <= b,
    ensures
        pow10(a) <= pow10(b),
    decreases b,
{
    if a < b {
        lemma_pow10_mono(a, (b - 1) as nat);
    }
}

pub proof fn lemma_pow10_add(a: nat, b: nat)
    ensures
        pow10(a) * pow10(b) == pow10(a + b),
    decreases a,
{
    if a == 0 {
        assert(pow10(a) == 1);
    } else {
        let a1 = (a - 1) as nat;
        lemma_pow10_add(a1, b);
        assert(((a + b) - 1) as nat == a1 + b);
        assert(pow10(a + b) == 10 * pow10(a1 + b));
        let (x, y) = (pow10(a1), pow10(b));
        assert(pow10(a) == 10 * x);
        assert((10 * x) * y == 10 * (x * y)) by (nonlinear_arith);
    }
}

proof fn lemma_pow10_values()
    ensures
        pow10(6) == 1_000_000,
        pow10(12) == 1_000_000_000_000,
        pow10(18) == 1_000_000_000_000_000_000,
        pow10(36) == 1_000_000_000_000_000_000_000_000_000_000_000_000,
{
    reveal_with_fuel(pow10, 37);
}

/// `a op b` for decimals given as (mantissa, scale), as an exact fraction
/// `(numerator, denominator)` with a positive denominator; `None` for a
/// division by zero.
pub open spec fn apply(op: Operator, a: (int, nat), b: (int, nat)) -> Option<(int, int)> {
    let den = pow10(a.1 + b.1) as int;
    let a_scaled = a.0 * pow10(b.1);
    let b_scaled = b.0 * pow10(a.1);
    match op {
        Operator::Add => Some((a_scaled + b_scaled, den)),
        Operator::Sub => Some((a_scaled - b_scaled, den)),
        Operator::Mul => Some((a.0 * b.0, den)),
        Operator::Div => if b.0 == 0 {
            None
        } else if b.0 > 0 {
            Some((a_scaled, b_scaled))
        } else {
            Some((-a_scaled, -b_scaled))
        },
    }
}

/// `num / den` rounded to millionths, halves away from zero, as a count of millionths.
pub open spec fn round_millionths(num: int, den: int) -> int {
    let mag = if num < 0 { -num } else { num };
    let q = (2 * mag * 1_000_000 + den) / (2 * den);
    if num < 0 { -q } else { q }
}

pub open spec fn digit_char(d: nat) -> char {
    ((d + 48) as u8) as char
}

/// Decimal digits of `n`, without leading zeros.
pub open spec fn nat_text(n: nat) -> Seq<char>
    decreases n,
{
    if n < 10 {
        seq![digit_char(n)]
    } else {
        nat_text(n / 10).push(digit_char(n % 10))
    }
}

/// The last `w` decimal digits of `f`, leading zeros kept.
pub open spec fn padded_digits(f: nat, w: nat) -> Seq<char>
    decreases w,
{
    if w == 0 {
        Seq::empty()
    } else {
        padded_digits(f / 10, (w - 1) as nat).push(digit_char(f % 10))
    }
}

/// The last `w` decimal digits of `f` with the trailing zeros removed.
pub open spec fn trimmed_digits(f: nat, w: nat) -> Seq<char>
    decreases w,
{
    if w == 0 {
        Seq::empty()
    } else if f % 10 == 0 {
        trimmed_digits(f / 10, (w - 1) as nat)
    } else {
        padded_digits(f, w)
    }
}

/// The text of the number `r / 10^6`: a minus sign where it is negative,
/// its integer part, and where the fraction is not zero a point and the
/// six places of the fraction without trailing zeros.
pub open spec fn millionths_text(r: int) -> Seq<char> {
    let mag = (if r < 0 { -r } else { r }) as nat;
    let sign = if r < 0 { seq!['-'] } else { Seq::<char>::empty() };
    let frac = mag % 1_000_000;
    let tail = if frac == 0 { Seq::<char>::empty() } else { seq!['.'] + trimmed_digits(frac, 6) };
    sign + nat_text(mag / 1_000_000) + tail
}

proof fn lemma_digit_char(d: nat)
    requires
        d < 10,
    ensures
        is_digit(digit_char(d)),
{
}

proof fn lemma_nat_text_digits(n: nat)
    ensures
        nat_text(n).len() > 0,
        forall|i: int| 0 <= i < nat_text(n).len() ==> is_digit(#[trigger] nat_text(n)[i]),
    decreases n,
{
    if n >= 10 {
        lemma_nat_text_digits(n / 10);
        lemma_digit_char(n % 10);
        let p = nat_text(n / 10);
        assert forall|i: int| 0 <= i < nat_text(n).len() implies is_digit(#[trigger] nat_text(n)[i]) by {
            if i < p.len() {
                assert(nat_text(n)[i] == p[i]);
            }
        }
    } else {
        lemma_digit_char(n);
    }
}

proof fn lemma_padded_digits_digits(f: nat, w: nat)
    ensures
        forall|i: int|
            0 <= i < padded_digits(f, w).len() ==> is_digit(#[trigger] padded_digits(f, w)[i]),
    decreases w,
{
    if w > 0 {
        lemma_padded_digits_digits(f / 10, (w - 1) as nat);
        lemma_digit_char(f % 10);
        let p = padded_digits(f / 10, (w - 1) as nat);
        assert forall|i: int|
            0 <= i < padded_digits(f, w).len() implies is_digit(#[trigger] padded_digits(f, w)[i]) by {
            if i < p.len() {
                assert(padded_digits(f, w)[i] == p[i]);
            }
        }
    }
}

proof fn lemma_trimmed_digits_digits(f: nat, w: nat)
    ensures
        forall|i: int|
            0 <= i < trimmed_digits(f, w).len() ==> is_digit(#[trigger] trimmed_digits(f, w)[i]),
    decreases w,
{
    if w > 0 {
        if f % 10 == 0 {
            lemma_trimmed_digits_digits(f / 10, (w - 1) as nat);
            assert(trimmed_digits(f, w) == trimmed_digits(f / 10, (w - 1) as nat));
        } else {
            lemma_padded_digits_digits(f, w);
        }
    }
}

/// The text of a result always shows a number.
pub proof fn lemma_millionths_text_is_number(r: int)
    ensures
        is_number_text(millionths_text(r)),
{
    let mag = (if r < 0 { -r } else { r }) as nat;
    let frac = mag % 1_000_000;
    let head = nat_text(mag / 1_000_000);
    let tail = if frac == 0 { Seq::<char>::empty() } else { seq!['.'] + trimmed_digits(frac, 6) };
    let body = head + tail;
    lemma_nat_text_digits(mag / 1_000_000);
    lemma_no_point_count(head);
    lemma_point_count_concat(head, tail);
    if frac != 0 {
        let t = trimmed_digits(frac, 6);
        lemma_trimmed_digits_digits(frac, 6);
        lemma_no_point_count(t);
        lemma_point_count_concat(seq!['.'], t);
        let dot = seq!['.'];
        assert(dot.drop_last() =~= Seq::<char>::empty());
        assert(point_count(dot) == point_count(Seq::<char>::empty()) + 1);
        assert(point_count(tail) == 1);
        assert forall|i: int| 0 <= i < tail.len() implies is_digit(#[trigger] tail[i]) || tail[i] == '.' by {
            if i > 0 {
                assert(tail[i] == t[i - 1]);
            }
        }
    } else {
        assert(point_count(tail) == 0);
    }
    assert forall|i: int| 0 <= i < body.len() implies is_digit(#[trigger] body[i]) || body[i] == '.' by {
        if i < head.len() {
            assert(body[i] == head[i]);
        } else {
            assert(body[i] == tail[i - head.len()]);
        }
    }
    assert(body[0] == head[0]);
    assert(is_digit(head[0]));
    assert(point_count(body) <= 1);
    assert(is_unsigned_text(body));
    if r < 0 {
        let s = seq!['-'] + body;
        assert(s =~= millionths_text(r));
        assert(s.skip(1) =~= body);
    } else {
        assert(body =~= millionths_text(r));
    }
}

/// The text that shows `num / den`, rounded to six places.
pub open spec fn fraction_text(num: int, den: int) -> Seq<char> {
    millionths_text(round_millionths(num, den))
}

/// A fraction that `apply` gives for operands in range.
pub open spec fn fraction_in_range(num: int, den: int) -> bool {
    &&& -2 * pow10(36) < num < 2 * pow10(36)
    &&& 0 < den <= pow10(36)
}

fn pow10_exec(n: u32) -> (r: u128)
    requires
        n <= 36,
    ensures
        r == pow10(n as nat),
{
    let mut r: u128 = 1;
    let mut i: u32 = 0;
    while i < n
        invariant
            i <= n <= 36,
            r == pow10(i as nat),
        decreases n - i,
    {
        proof {
            lemma_pow10_mono((i + 1) as nat, 36);
            lemma_pow10_values();
        }
        r = r * 10;
        i = i + 1;
    }
    r
}

proof fn lemma_mul_below(x: int, y: int, xb: int, yb: int)
    requires
        -xb < x < xb,
        0 < y <= yb,
    ensures
        -xb * yb < x * y < xb * yb,
{
    assert(-xb * yb < x * y < xb * yb) by (nonlinear_arith)
        requires
            -xb < x < xb,
            0 < y <= yb,
    ;
}

/// Computes `a op b` exactly, as `apply` states it.
pub fn apply_exact(op: Operator, a: Decimal, b: Decimal) -> (r: Option<(i128, i128)>)
    requires
        in_range(a@),
        in_range(b@),
    ensures
        match r {
            Some((num, den)) => apply(op, a@, b@) == Some((num as int, den as int))
                && fraction_in_range(num as int, den as int),
            None => apply(op, a@, b@) is None,
        },
{
    proof {
        lemma_pow10_values();
        lemma_pow10_mono(a.scale as nat, 18);
        lemma_pow10_mono(b.scale as nat, 18);
        lemma_pow10_pos(a.scale as nat);
        lemma_pow10_pos(b.scale as nat);
        lemma_pow10_add(a.scale as nat, b.scale as nat);
        lemma_pow10_pos((a.scale + b.scale) as nat);
        lemma_pow10_mono((a.scale + b.scale) as nat, 36);
        lemma_mul_below(a.mantissa as int, pow10(b.scale as nat) as int, MANTISSA_LIMIT as int, pow10(18) as int);
        lemma_mul_below(b.mantissa as int, pow10(a.scale as nat) as int, MANTISSA_LIMIT as int, pow10(18) as int);
    }
    let pa = pow10_exec(a.scale) as i128;
    let pb = pow10_exec(b.scale) as i128;
    let den = pow10_exec(a.scale + b.scale) as i128;
    let a_scaled = a.mantissa as i128 * pb;
    let b_scaled = b.mantissa as i128 * pa;
    assert(-pow10(36) < a_scaled < pow10(36) && -pow10(36) < b_scaled < pow10(36));
    assert(den == pow10(a@.1 + b@.1));
    assert(a_scaled == a@.0 * pow10(b@.1));
    assert(b_scaled == b@.0 * pow10(a@.1));
    match op {
        Operator::Add => {
            assert(fraction_in_range((a_scaled + b_scaled) as int, den as int));
            Some((a_scaled + b_scaled, den))
        },
        Operator::Sub => {
            assert(fraction_in_range((a_scaled - b_scaled) as int, den as int));
            Some((a_scaled - b_scaled, den))
        },
        Operator::Mul => {
            proof {
                if b.mantissa == 0 {
                    assert(a.mantissa * b.mantissa == 0) by (nonlinear_arith) requires b.mantissa == 0;
                } else if b.mantissa > 0 {
                    lemma_mul_below(a.mantissa as int, b.mantissa as int, MANTISSA_LIMIT as int, MANTISSA_LIMIT as int);
                } else {
                    let (x, y) = (a.mantissa as int, b.mantissa as int);
                    lemma_mul_below(x, -y, MANTISSA_LIMIT as int, MANTISSA_LIMIT as int);
                    assert(x * y == -(x * (-y))) by (nonlinear_arith);
                }
            }
            Some((a.mantissa as i128 * b.mantissa as i128, den))
        },
        Operator::Div => {
            if b.mantissa == 0 {
                None
            } else if b.mantissa > 0 {
                assert(b_scaled > 0) by (nonlinear_arith)
                    requires
                        b_scaled == b.mantissa * pow10(a.scale as nat),
                        b.mantissa > 0,
                        pow10(a.scale as nat) > 0,
                ;
                Some((a_scaled, b_scaled))
            } else {
                assert(b_scaled < 0) by (nonlinear_arith)
                    requires
                        b_scaled == b.mantissa * pow10(a.scale as nat),
                        b.mantissa < 0,
                        pow10(a.scale as nat) > 0,
                ;
                Some((-a_scaled, -b_scaled))
            }
        },
    }
}

fn digit_char_exec(d: u128) -> (c: char)
    requires
        d < 10,
    ensures
        c == digit_char(d as nat),
{
    ((d as u8) + 48) as char
}

fn push_nat_text(out: &mut Vec<char>, n: u128)
    ensures
        final(out)@ == old(out)@ + nat_text(n as nat),
    decreases n,
{
    if n >= 10 {
        push_nat_text(out, n / 10);
    }
    out.push(digit_char_exec(n % 10));
    assert(final(out)@ =~= old(out)@ + nat_text(n as nat));
}

fn push_padded_digits(out: &mut Vec<char>, f: u128, w: u32)
    ensures
        final(out)@ == old(out)@ + padded_digits(f as nat, w as nat),
    decreases w,
{
    if w > 0 {
        push_padded_digits(out, f / 10, w - 1);
        out.push(digit_char_exec(f % 10));
        assert(final(out)@ =~= old(out)@ + padded_digits(f as nat, w as nat));
    } else {
        assert(final(out)@ =~= old(out)@ + padded_digits(f as nat, w as nat));
    }
}

fn push_trimmed_digits(out: &mut Vec<char>, f: u128, w: u32)
    ensures
        final(out)@ == old(out)@ + trimmed_digits(f as nat, w as nat),
    decreases w,
{
    if w == 0 {
        assert(final(out)@ =~= old(out)@ + trimmed_digits(f as nat, w as nat));
    } else if f % 10 == 0 {
        push_trimmed_digits(out, f / 10, w - 1);
    } else {
        push_padded_digits(out, f, w);
    }
}

/// The text of the number `ip + f / 10^6`, negated where `neg` holds.
fn millionths_parts_to_text(neg: bool, ip: u128, f: u128) -> (t: Vec<char>)
    requires
        f < 1_000_000,
    ensures
        t@ == millionths_text(
            if neg {
                -(ip * 1_000_000 + f)
            } else {
                ip * 1_000_000 + f
            },
        ),
{
    let ghost r: int = if neg { -(ip * 1_000_000 + f) } else { ip * 1_000_000 + f };
    let ghost mag: int = ip * 1_000_000 + f;
    proof {
        lemma_fundamental_div_mod_converse(mag, 1_000_000, ip as int, f as int);
    }
    let mut out: Vec<char> = Vec::new();
    if neg && (ip > 0 || f > 0) {
        out.push('-');
    }
    push_nat_text(&mut out, ip);
    if f != 0 {
        out.push('.');
        push_trimmed_digits(&mut out, f, 6);
    }
    assert(out@ =~= millionths_text(r));
    out
}

/// The text of the number `r / 10^6`.
pub fn millionths_to_text(r: i128) -> (t: Vec<char>)
    ensures
        t@ == millionths_text(r as int),
{
    let mag: u128 = if r < 0 { (-(r + 1)) as u128 + 1 } else { r as u128 };
    proof {
        lemma_fundamental_div_mod(mag as int, 1_000_000);
        lemma_mod_pos_bound(mag as int, 1_000_000);
    }
    millionths_parts_to_text(r < 0, mag / 1_000_000, mag % 1_000_000)
}

/// `floor(r * 10^6 / d)` and the remainder, by long division one place at a time.
fn scaled_division(r: u128, d: u128) -> (qr: (u128, u128))
    requires
        0 < d <= 1_000_000_000_000_000_000_000_000_000_000_000_000,
        r < d,
    ensures
        r * 1_000_000 == qr.0 * d + qr.1,
        qr.1 < d,
        qr.0 < 1_000_000,
{
    let mut t: u128 = 0;
    let mut x: u128 = r;
    let mut i: u32 = 0;
    let mut p: u128 = 1;
    while i < 6
        invariant
            0 < d <= 1_000_000_000_000_000_000_000_000_000_000_000_000,
            i <= 6,
            x < d,
            p == pow10(i as nat),
            p <= 1_000_000,
            t < p,
            r * p == t * d + x,
        decreases 6 - i,
    {
        proof {
            lemma_pow10_mono((i + 1) as nat, 6);
            lemma_pow10_values();
        }
        let y = x * 10;
        let digit = y / d;
        let rest = y % d;
        proof {
            lemma_fundamental_div_mod(y as int, d as int);
            lemma_mod_pos_bound(y as int, d as int);
            assert(y == d * digit + rest);
            assert(digit < 10) by (nonlinear_arith)
                requires
                    y == d * digit + rest,
                    y < 10 * d,
                    rest >= 0,
                    d > 0,
            ;
            assert(r * (10 * p) == (10 * t + digit) * d + rest) by (nonlinear_arith)
                requires
                    r * p == t * d + x,
                    y == x * 10,
                    y == d * digit + rest,
            ;
            assert(10 * t + digit < 10 * p) by (nonlinear_arith)
                requires
                    t < p,
                    digit < 10,
            ;
        }
        t = 10 * t + digit;
        x = rest;
        p = 10 * p;
        i = i + 1;
    }
    proof {
        lemma_pow10_values();
    }
    (t, x)
}

/// The text of `num / den` rounded to six places.
pub fn fraction_to_text(num: i128, den: i128) -> (r: Vec<char>)
    requires
        fraction_in_range(num as int, den as int),
    ensures
        r@ == fraction_text(num as int, den as int),
{
    proof {
        lemma_pow10_values();
    }
    let mag: u128 = if num < 0 { (-num) as u128 } else { num as u128 };
    let d = den as u128;
    let ip = mag / d;
    let rem = mag % d;
    proof {
        lemma_fundamental_div_mod(mag as int, d as int);
        lemma_mod_pos_bound(mag as int, d as int);
    }
    let (t, x) = scaled_division(rem, d);
    let fr: u128 = if 2 * x >= d { t + 1 } else { t };
    let ghost big = 2 * mag * 1_000_000 + d;
    let ghost q = big / (2 * d);
    proof {
        let rm: int = if 2 * x >= d { 2 * x - d } else { 2 * x + d };
        assert(big == (ip * 1_000_000 + fr) * (2 * d) + rm) by (nonlinear_arith)
            requires
                mag == ip * d + rem,
                rem * 1_000_000 == t * d + x,
                big == 2 * mag * 1_000_000 + d,
                fr == if 2 * x >= d { t + 1 } else { t as int },
                rm == if 2 * x >= d { 2 * x - d } else { 2 * x + d },
        ;
        lemma_fundamental_div_mod_converse(big, 2 * d, ip * 1_000_000 + fr, rm);
        assert(q == round_millionths(num as int, den as int) || q == -round_millionths(
            num as int,
            den as int,
        ));
    }
    if fr == 1_000_000 {
        millionths_parts_to_text(num < 0, ip + 1, 0)
    } else {
        millionths_parts_to_text(num < 0, ip, fr)
    }
}

/// `n` millionths lies at most half a millionth above the square root of
/// `m / 10^k`: `(n - 1/2)^2 <= m / 10^k`, scaled to integers.
pub open spec fn root_cond(n: nat, m: nat, k: nat) -> bool {
    n == 0 || (2 * n - 1) * (2 * n - 1) * pow10(k) <= 4 * m * pow10(12)
}

/// `n` millionths is the square root of `m / 10^k` rounded to six places,
/// halves rounded up.
pub open spec fn is_root_millionths(n: nat, m: nat, k: nat) -> bool {
    root_cond(n, m, k) && !root_cond(n + 1, m, k)
}

/// The square root of `m / 10^k` in millionths, rounded.
pub open spec fn root_millionths(m: nat, k: nat) -> nat {
    choose|n: nat| is_root_millionths(n, m, k)
}

proof fn lemma_root_cond_mono(a: nat, b: nat, m: nat, k: nat)
    requires
        a <= b,
        root_cond(b, m, k),
    ensures
        root_cond(a, m, k),
{
    if a > 0 {
        lemma_pow10_pos(k);
        let p = pow10(k) as int;
        let (x, y) = (2 * a - 1, 2 * b - 1);
        assert(x * x * p <= y * y * p) by (nonlinear_arith)
            requires
                1 <= x <= y,
                p > 0,
        ;
    }
}

proof fn lemma_root_unique(n1: nat, n2: nat, m: nat, k: nat)
    requires
        is_root_millionths(n1, m, k),
        is_root_millionths(n2, m, k),
    ensures
        n1 == n2,
{
    if n1 < n2 {
        lemma_root_cond_mono(n1 + 1, n2, m, k);
    } else if n2 < n1 {
        lemma_root_cond_mono(n2 + 1, n1, m, k);
    }
}

fn root_cond_exec(n: u128, m: u64, k: u32) -> (r: bool)
    requires
        n <= 10_000_000_000_000_000,
        m < MANTISSA_LIMIT,
        k <= MAX_SCALE,
    ensures
        r == root_cond(n as nat, m as nat, k as nat),
{
    if n == 0 {
        return true;
    }
    proof {
        lemma_pow10_values();
    }
    let t = 2 * n - 1;
    assert(t * t < 400_000_000_000_000_000_000_000_000_000_000) by (nonlinear_arith)
        requires
            t < 20_000_000_000_000_000,
    ;
    let sq = t * t;
    let p = pow10_exec(k);
    let rhs = 4 * (m as u128) * 1_000_000_000_000;
    match sq.checked_mul(p) {
        Some(v) => v <= rhs,
        None => false,
    }
}

/// The square root of `m / 10^k` in millionths, rounded to the nearest.
pub fn root_millionths_exec(m: u64, k: u32) -> (n: u128)
    requires
        m < MANTISSA_LIMIT,
        k <= MAX_SCALE,
    ensures
        n as nat == root_millionths(m as nat, k as nat),
        n <= 10_000_000_000_000_000,
{
    let mut lo: u128 = 0;
    let mut hi: u128 = 10_000_000_000_000_000;
    proof {
        lemma_pow10_values();
        lemma_pow10_pos(k as nat);
        let p = pow10(k as nat) as int;
        let t: int = 2 * 10_000_000_000_000_000 - 1;
        assert(t * t * p >= t * t) by (nonlinear_arith)
            requires
                p >= 1,
        ;
        assert(t * t > 4 * (m as int) * pow10(12)) by (nonlinear_arith)
            requires
                t == 2 * 10_000_000_000_000_000 - 1,
                0 <= m < 1_000_000_000_000_000_000,
                pow10(12) == 1_000_000_000_000,
        ;
        let hn = hi as nat;
        assert(2 * hn - 1 == t);
        assert(!root_cond(hn, m as nat, k as nat));
    }
    while lo + 1 < hi
        invariant
            lo < hi <= 10_000_000_000_000_000,
            m < MANTISSA_LIMIT,
            k <= MAX_SCALE,
            root_cond(lo as nat, m as nat, k as nat),
            !root_cond(hi as nat, m as nat, k as nat),
        decreases hi - lo,
    {
        let mid = lo + (hi - lo) / 2;
        if root_cond_exec(mid, m, k) {
            lo = mid;
        } else {
            hi = mid;
        }
    }
    proof {
        assert(is_root_millionths(lo as nat, m as nat, k as nat));
        lemma_root_unique(lo as nat, root_millionths(m as nat, k as nat), m as nat, k as nat);
    }
    lo
}

} // verus!
