//! Reading a number from the display text.
use vstd::prelude::*;
use vstd::arithmetic::div_mod::{
    lemma_fundamental_div_mod, lemma_fundamental_div_mod_converse, lemma_mod_pos_bound,
};
use crate::number::pow10;

verus! {

/// A number read from the display has a mantissa below this bound:
/// eighteen digits, more than the precision of a double.
pub const MANTISSA_LIMIT: u64 = 1_000_000_000_000_000_000;

/// A number read from the display is rounded to at most this many places.
pub const MAX_SCALE: u32 = 18;

pub open spec fn is_digit(c: char) -> bool {
    '0' <= c && c <= '9'
}

pub open spec fn digit_value(c: char) -> nat {
    (c as u32 - '0' as u32) as nat
}

/// Number of decimal points in `s`.
pub open spec fn point_count(s: Seq<char>) -> nat
    decreases s.len(),
{
    if s.len() == 0 {
        0
    } else {
        point_count(s.drop_last()) + if s.last() == '.' { 1nat } else { 0nat }
    }
}

/// The integer written by the digits of `s`, with any point skipped.
pub open spec fn mantissa_of(s: Seq<char>) -> nat
    decreases s.len(),
{
    if s.len() == 0 {
        0
    } else if is_digit(s.last()) {
        mantissa_of(s.drop_last()) * 10 + digit_value(s.last())
    } else {
        mantissa_of(s.drop_last())
    }
}

/// Number of characters after the first point of `s` (0 where there is none).
pub open spec fn scale_of(s: Seq<char>) -> nat
    decreases s.len(),
{
    if s.len() == 0 {
        0
    } else if point_count(s.drop_last()) > 0 {
        scale_of(s.drop_last()) + 1
    } else {
        0
    }
}

/// Unsigned decimal text: a digit first, then digits with at most one point.
pub open spec fn is_unsigned_text(s: Seq<char>) -> bool {
    &&& s.len() > 0
    &&& is_digit(s[0])
    &&& forall|i: int| 0 <= i < s.len() ==> is_digit(#[trigger] s[i]) || s[i] == '.'
    &&& point_count(s) <= 1
}

pub open spec fn has_sign(s: Seq<char>) -> bool {
    s.len() > 0 && s[0] == '-'
}

/// `s` without its leading minus sign, if it has one.
pub open spec fn unsigned_part(s: Seq<char>) -> Seq<char> {
    if has_sign(s) {
        s.skip(1)
    } else {
        s
    }
}

/// Text that shows a number: unsigned decimal text, possibly after a minus sign.
pub open spec fn is_number_text(s: Seq<char>) -> bool {
    is_unsigned_text(unsigned_part(s))
}

pub proof fn lemma_point_count_concat(a: Seq<char>, b: Seq<char>)
    ensures
        point_count(a + b) == point_count(a) + point_count(b),
    decreases b.len(),
{
    if b.len() == 0 {
        assert(a + b =~= a);
    } else {
        lemma_point_count_concat(a, b.drop_last());
        assert((a + b).drop_last() =~= a + b.drop_last());
    }
}

pub proof fn lemma_no_point_count(s: Seq<char>)
    requires
        forall|i: int| 0 <= i < s.len() ==> s[i] != '.',
    ensures
        point_count(s) == 0,
    decreases s.len(),
{
    if s.len() > 0 {
        let p = s.drop_last();
        assert forall|i: int| 0 <= i < p.len() implies p[i] != '.' by {
            assert(p[i] == s[i]);
        }
        lemma_no_point_count(p);
    }
}

/// Appending a digit to number text, or a point to number text without one,
/// gives number text.
pub proof fn lemma_push_keeps_number(s: Seq<char>, c: char)
    requires
        is_number_text(s),
        is_digit(c) || (c == '.' && !s.contains('.')),
    ensures
        is_number_text(s.push(c)),
{
    let u = unsigned_part(s);
    let v = u.push(c);
    assert(s.push(c)[0] == s[0]);
    assert(unsigned_part(s.push(c)) =~= v);
    assert(v.drop_last() =~= u);
    assert forall|i: int| 0 <= i < v.len() implies is_digit(#[trigger] v[i]) || v[i] == '.' by {
        if i < u.len() {
            assert(v[i] == u[i]);
        }
    }
    if c == '.' {
        assert forall|i: int| 0 <= i < u.len() implies u[i] != '.' by {
            if has_sign(s) {
                assert(u[i] == s[i + 1]);
            } else {
                assert(u[i] == s[i]);
            }
        }
        lemma_no_point_count(u);
    }
}

/// A single digit is number text.
pub proof fn lemma_digit_is_number(d: char)
    requires
        is_digit(d),
    ensures
        is_number_text(seq![d]),
{
    let s = seq![d];
    lemma_no_point_count(s);
    assert(!has_sign(s));
    assert(unsigned_part(s) == s);
    assert(is_unsigned_text(s));
}

/// `a / d` rounded to the nearest integer, halves up.
pub open spec fn round_div(a: nat, d: nat) -> nat {
    ((2 * a + d) / (2 * d)) as nat
}

/// The mantissa of the digits of `s` rounded to at most `MAX_SCALE` places.
pub open spec fn held_mantissa(s: Seq<char>) -> nat {
    if scale_of(s) <= MAX_SCALE {
        mantissa_of(s)
    } else {
        round_div(mantissa_of(s), pow10((scale_of(s) - MAX_SCALE) as nat))
    }
}

/// The number of places of `s`, at most `MAX_SCALE`.
pub open spec fn held_scale(s: Seq<char>) -> nat {
    if scale_of(s) <= MAX_SCALE {
        scale_of(s)
    } else {
        MAX_SCALE as nat
    }
}

/// The number that the text `s` shows, rounded to at most `MAX_SCALE`
/// places, as a mantissa and a scale (the value is `mantissa / 10^scale`);
/// a mantissa of exactly `MANTISSA_LIMIT` drops its last zero place.
/// `None` where `s` is not decimal text or the mantissa is beyond that.
pub open spec fn parse_number(s: Seq<char>) -> Option<(int, nat)> {
    let u = unsigned_part(s);
    let hm = held_mantissa(u);
    let hs = held_scale(u);
    if is_unsigned_text(u) && (hm < MANTISSA_LIMIT || (hm == MANTISSA_LIMIT && hs > 0)) {
        let (m, k) = if hm < MANTISSA_LIMIT {
            (hm as int, hs)
        } else {
            ((MANTISSA_LIMIT / 10) as int, (hs - 1) as nat)
        };
        Some((if has_sign(s) { -m } else { m }, k))
    } else {
        None
    }
}

/// The first digit dropped decides the rounding.
proof fn lemma_round_first(m: nat, d: nat)
    requires
        d < 10,
    ensures
        round_div(10 * m + d, pow10(1)) == m + if d >= 5 { 1nat } else { 0nat },
{
    assert(pow10(1) == 10) by {
        reveal_with_fuel(pow10, 2);
    }
    let x = (2 * (10 * m + d) + 10) as int;
    let r = (2 * d + 10) as int - (if d >= 5 { 20int } else { 0int });
    lemma_fundamental_div_mod_converse(x, 20, m + if d >= 5 { 1int } else { 0int }, r);
}

/// Digits after the first one dropped do not change the rounding.
proof fn lemma_round_extend(m: nat, r: nat, d: nat)
    requires
        r >= 1,
        d < 10,
    ensures
        round_div(10 * m + d, pow10(r + 1)) == round_div(m, pow10(r)),
{
    let p = pow10(r) as int;
    let p1 = pow10((r - 1) as nat) as int;
    assert(p == 10 * p1);
    crate::number::lemma_pow10_pos((r - 1) as nat);
    assert(pow10(r + 1) == 10 * p);
    let x = 2 * m + p;
    let q = x / (2 * p);
    let t = x % (2 * p);
    lemma_fundamental_div_mod(x, 2 * p);
    lemma_mod_pos_bound(x, 2 * p);
    assert(t == 2 * (m + 5 * p1 - p * q)) by (nonlinear_arith)
        requires
            x == 2 * p * q + t,
            x == 2 * m + p,
            p == 10 * p1,
    ;
    assert(t <= 2 * p - 2);
    let y = 2 * (10 * m + d) + 10 * p;
    assert(y == q * (20 * p) + (10 * t + 2 * d)) by (nonlinear_arith)
        requires
            x == 2 * p * q + t,
            x == 2 * m + p,
            y == 2 * (10 * m + d) + 10 * p,
    ;
    lemma_fundamental_div_mod_converse(y, 20 * p, q, 10 * t + 2 * d);
}

/// A decimal number `mantissa / 10^scale`.
#[derive(Clone, Copy, Debug, PartialEq, Eq)]
pub struct Decimal {
    pub mantissa: i64,
    pub scale: u32,
}

impl View for Decimal {
    type V = (int, nat);

    open spec fn view(&self) -> (int, nat) {
        (self.mantissa as int, self.scale as nat)
    }
}

/// What an operand read from number text is: its mantissa and scale, or a
/// number beyond the range that the engine holds.
pub enum Reading {
    Value(int, nat),
    OutOfRange,
}

/// The operand that the text `s` gives; `None` where `s` is not number text.
pub open spec fn read_operand(s: Seq<char>) -> Option<Reading> {
    if is_number_text(s) {
        match parse_number(s) {
            Some(v) => Some(Reading::Value(v.0, v.1)),
            None => Some(Reading::OutOfRange),
        }
    } else {
        None
    }
}

/// An operand: a decimal, or a number beyond the range that the engine holds.
#[derive(Clone, Copy, Debug, PartialEq, Eq)]
pub enum Operand {
    Number(Decimal),
    OutOfRange,
}

impl View for Operand {
    type V = Reading;

    open spec fn view(&self) -> Reading {
        match self {
            Operand::Number(d) => Reading::Value(d.mantissa as int, d.scale as nat),
            Operand::OutOfRange => Reading::OutOfRange,
        }
    }
}

/// A mantissa and scale within the bounds that the display can be read with.
pub open spec fn in_range(v: (int, nat)) -> bool {
    -MANTISSA_LIMIT < v.0 < MANTISSA_LIMIT && v.1 <= MAX_SCALE
}

/// Number text below zero: a minus sign and a digit other than zero.
pub open spec fn is_negative_text(s: Seq<char>) -> bool {
    has_sign(s) && mantissa_of(unsigned_part(s)) > 0
}

/// Number text not written below zero reads as a value not below zero.
pub proof fn lemma_unsigned_reading(s: Seq<char>)
    requires
        !is_negative_text(s),
        parse_number(s) is Some,
    ensures
        parse_number(s).unwrap().0 >= 0,
{
    let u = unsigned_part(s);
    if has_sign(s) {
        assert(mantissa_of(u) == 0);
        if scale_of(u) > MAX_SCALE {
            let p = pow10((scale_of(u) - MAX_SCALE) as nat);
            crate::number::lemma_pow10_pos((scale_of(u) - MAX_SCALE) as nat);
            assert(held_mantissa(u) == p / (2 * p));
            assert(p / (2 * p) == 0) by (nonlinear_arith)
                requires
                    p > 0,
            ;
        }
    }
}

/// Whether `s` is written below zero.
pub fn shows_negative(s: &Vec<char>) -> (r: bool)
    ensures
        r == is_negative_text(s@),
{
    let n = s.len();
    if n == 0 || s[0] != '-' {
        return false;
    }
    let ghost u = unsigned_part(s@);
    assert(u =~= s@.subrange(1, n as int));
    let mut i: usize = 1;
    let mut nonzero = false;
    while i < n
        invariant
            1 <= i <= n,
            n == s@.len(),
            u == s@.subrange(1, n as int),
            nonzero == (mantissa_of(s@.subrange(1, i as int)) > 0),
        decreases n - i,
    {
        let c = s[i];
        let ghost p = s@.subrange(1, i as int);
        let ghost q = s@.subrange(1, i + 1);
        assert(q.drop_last() =~= p);
        assert(q.last() == c);
        if '1' <= c && c <= '9' {
            nonzero = true;
        }
        i = i + 1;
    }
    nonzero
}

/// Reads the operand that `s` shows.
pub fn parse_decimal(s: &Vec<char>) -> (r: Option<Operand>)
    ensures
        match r {
            Some(o) => read_operand(s@) == Some(o@) && (o matches Operand::Number(d) ==> in_range(
                d@,
            )),
            None => read_operand(s@) is None,
        },
{
    let n = s.len();
    let neg = n > 0 && s[0] == '-';
    let start: usize = if neg { 1 } else { 0 };
    let ghost u = unsigned_part(s@);
    assert(u =~= s@.subrange(start as int, n as int));
    if start >= n || !('0' <= s[start] && s[start] <= '9') {
        return None;
    }
    let mut i: usize = start;
    let mut m: u64 = 0;
    let mut points: u32 = 0;
    let mut scale: u32 = 0;
    let mut extra = false;
    while i < n
        invariant
            start <= i <= n,
            n == s@.len(),
            u == s@.subrange(start as int, n as int),
            u == unsigned_part(s@),
            forall|j: int| start <= j < i ==> is_digit(#[trigger] s@[j]) || s@[j] == '.',
            points as nat == point_count(s@.subrange(start as int, i as int)),
            points <= 1,
            scale <= MAX_SCALE,
            scale as nat == held_scale(s@.subrange(start as int, i as int)),
            extra == (scale_of(s@.subrange(start as int, i as int)) > MAX_SCALE),
            m as nat == if held_mantissa(s@.subrange(start as int, i as int)) <= MANTISSA_LIMIT {
                held_mantissa(s@.subrange(start as int, i as int))
            } else {
                MANTISSA_LIMIT as nat + 1
            },
        decreases n - i,
    {
        let c = s[i];
        let ghost p = s@.subrange(start as int, i as int);
        let ghost q = s@.subrange(start as int, i + 1);
        assert(q.drop_last() =~= p);
        assert(q.last() == c);
        if '0' <= c && c <= '9' {
            let d = (c as u32 - '0' as u32) as u64;
            if points == 0 || scale < MAX_SCALE {
                if m <= MANTISSA_LIMIT {
                    m = m * 10 + d;
                    if m > MANTISSA_LIMIT {
                        m = MANTISSA_LIMIT + 1;
                    }
                }
                if points > 0 {
                    scale = scale + 1;
                }
            } else {
                proof {
                    let r = (scale_of(p) - MAX_SCALE) as nat;
                    if r == 0 {
                        lemma_round_first(mantissa_of(p), d as nat);
                    } else {
                        lemma_round_extend(mantissa_of(p), r, d as nat);
                    }
                }
                if !extra {
                    if m <= MANTISSA_LIMIT && d >= 5 {
                        m = m + 1;
                        if m > MANTISSA_LIMIT {
                            m = MANTISSA_LIMIT + 1;
                        }
                    }
                    extra = true;
                }
            }
        } else if c == '.' {
            if points > 0 {
                proof {
                    lemma_point_count_concat(q, s@.subrange(i + 1, n as int));
                    assert(q + s@.subrange(i + 1, n as int) =~= u);
                    assert(!is_unsigned_text(u));
                }
                return None;
            }
            points = 1;
        } else {
            assert(u[i - start] == s@[i as int]);
            assert(!(is_digit(u[i - start]) || u[i - start] == '.'));
            assert(!is_unsigned_text(u));
            return None;
        }
        i = i + 1;
    }
    assert(is_unsigned_text(u));
    if m < MANTISSA_LIMIT {
        let mi = m as i64;
        Some(Operand::Number(Decimal { mantissa: if neg { -mi } else { mi }, scale }))
    } else if m == MANTISSA_LIMIT && scale > 0 {
        let mi = (MANTISSA_LIMIT / 10) as i64;
        Some(Operand::Number(Decimal { mantissa: if neg { -mi } else { mi }, scale: scale - 1 }))
    } else {
        Some(Operand::OutOfRange)
    }
}

} // verus!
