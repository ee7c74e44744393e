//! Bounded-integer arithmetic for the value sublanguage.
//!
//! Integers are `i128`. Addition, subtraction and multiplication saturate at the representable
//! endpoints; division is floor division, and division by zero yields zero. Every value function
//! is therefore total and free of implementation-defined behaviour.
use vstd::prelude::*;

pub use crate::ast::{HashValue, Value};
use crate::ast::ValueV;
use crate::registry::Symbol;

verus! {

/// Clamp a mathematical integer into the `i128` range.
pub open spec fn clamp(x: int) -> i128 {
    if x > i128::MAX {
        i128::MAX
    } else if x < i128::MIN {
        i128::MIN
    } else {
        x as i128
    }
}

/// Floor division on mathematical integers, with division by zero yielding zero.
pub open spec fn floor_quotient(a: int, b: int) -> int {
    if b == 0 {
        0
    } else if b > 0 {
        a / b
    } else {
        (-a) / (-b)
    }
}

/// Saturating addition.
pub fn sat_add(a: i128, b: i128) -> (r: i128)
    ensures
        r == clamp(a + b),
{
    if b > 0 && a > i128::MAX - b {
        i128::MAX
    } else if b < 0 && a < i128::MIN - b {
        i128::MIN
    } else {
        a + b
    }
}

/// Saturating subtraction.
pub fn sat_sub(a: i128, b: i128) -> (r: i128)
    ensures
        r == clamp(a - b),
{
    if b < 0 && a > i128::MAX + b {
        i128::MAX
    } else if b > 0 && a < i128::MIN + b {
        i128::MIN
    } else {
        a - b
    }
}

/// Saturating multiplication.
pub fn sat_mul(a: i128, b: i128) -> (r: i128)
    ensures
        r == clamp(a * b),
{
    match a.checked_mul(b) {
        Some(p) => p,
        None => {
            if (a < 0) == (b < 0) {
                assert(a * b > 0) by (nonlinear_arith)
                    requires
                        (a < 0) == (b < 0),
                        a * b > i128::MAX || a * b < i128::MIN,
                ;
                i128::MAX
            } else {
                assert(a * b < 0) by (nonlinear_arith)
                    requires
                        (a < 0) != (b < 0),
                        a * b > i128::MAX || a * b < i128::MIN,
                ;
                i128::MIN
            }
        },
    }
}

/// The magnitude of an `i128`, which always fits a `u128`.
fn magnitude(a: i128) -> (r: u128)
    ensures
        r as int == if a < 0 {
            -a
        } else {
            a as int
        },
{
    if a >= 0 {
        a as u128
    } else if a == i128::MIN {
        0x8000_0000_0000_0000_0000_0000_0000_0000u128
    } else {
        (-a) as u128
    }
}

proof fn lemma_floor_quotient_neg(m: int, d: int, q: int, r: int)
    requires
        m >= 0,
        d > 0,
        m == d * q + r,
        0 <= r < d,
    ensures
        (-m) / d == if r == 0 {
            -q
        } else {
            -q - 1
        },
{
    if r == 0 {
        assert(-m == d * (-q) + 0) by (nonlinear_arith)
            requires
                m == d * q + r,
                r == 0,
        ;
        vstd::arithmetic::div_mod::lemma_fundamental_div_mod_converse(-m, d, -q, 0);
    } else {
        assert(-m == d * (-q - 1) + (d - r)) by (nonlinear_arith)
            requires
                m == d * q + r,
        ;
        vstd::arithmetic::div_mod::lemma_fundamental_div_mod_converse(-m, d, -q - 1, d - r);
    }
}

/// Floor division; division by zero yields zero, and the one overflowing quotient
/// (`i128::MIN / -1`) saturates to `i128::MAX`.
pub fn floor_div(a: i128, b: i128) -> (r: i128)
    ensures
        r == clamp(floor_quotient(a as int, b as int)),
{
    if b == 0 {
        return 0;
    }
    let ma = magnitude(a);
    let mb = magnitude(b);
    let q = ma / mb;
    let rem = ma % mb;
    proof {
        vstd::arithmetic::div_mod::lemma_fundamental_div_mod(ma as int, mb as int);
        vstd::arithmetic::div_mod::lemma_div_pos_is_pos(ma as int, mb as int);
        vstd::arithmetic::div_mod::lemma_div_is_ordered_by_denominator(ma as int, 1, mb as int);
        vstd::arithmetic::div_mod::lemma_div_basics(ma as int);
    }
    if (a < 0) == (b < 0) {
        // The quotient is non-negative: floor and truncation agree.
        proof {
            let m = ma as int;
            let d = mb as int;
            vstd::arithmetic::div_mod::lemma_fundamental_div_mod_converse(m, d, q as int, rem as int);
            if b < 0 {
                assert(floor_quotient(a as int, b as int) == m / d);
            } else {
                assert(floor_quotient(a as int, b as int) == m / d);
            }
        }
        if q > i128::MAX as u128 {
            i128::MAX
        } else {
            q as i128
        }
    } else {
        // The quotient is negative: round away from zero when there is a remainder.
        proof {
            let m = ma as int;
            let d = mb as int;
            lemma_floor_quotient_neg(m, d, q as int, rem as int);
            if b > 0 {
                assert(a as int == -m);
                assert(floor_quotient(a as int, b as int) == (-m) / d);
            } else {
                assert(b as int == -d);
                assert(-(a as int) == -m);
                assert(floor_quotient(a as int, b as int) == (-m) / d);
            }
            assert(q as int <= 0x8000_0000_0000_0000_0000_0000_0000_0000) by {
                vstd::arithmetic::div_mod::lemma_div_is_ordered_by_denominator(m, 1, d);
            }
        }
        if rem == 0 {
            if q == 0x8000_0000_0000_0000_0000_0000_0000_0000u128 {
                i128::MIN
            } else {
                -(q as i128)
            }
        } else {
            if q >= 0x7fff_ffff_ffff_ffff_ffff_ffff_ffff_ffffu128 {
                i128::MIN
            } else {
                -(q as i128) - 1
            }
        }
    }
}

/// `pct(n, p) = floor_div(sat_mul(n, p), 100)`.
pub fn pct(n: i128, p: i128) -> (r: i128)
    ensures
        r == clamp(floor_quotient(clamp(n * p) as int, 100)),
{
    floor_div(sat_mul(n, p), 100)
}

/// `bps(n, bp) = floor_div(sat_mul(n, bp), 10000)`.
pub fn bps(n: i128, bp: i128) -> (r: i128)
    ensures
        r == clamp(floor_quotient(clamp(n * bp) as int, 10000)),
{
    floor_div(sat_mul(n, bp), 10000)
}

impl Value {
    /// Interpret this value as an integer, if it is one.
    pub fn as_int(&self) -> (r: Option<i128>)
        ensures
            r == (match self@ {
                ValueV::Int(n) => Some(n),
                _ => None,
            }),
    {
        match self {
            Value::Int(n) => Some(*n),
            _ => None,
        }
    }

    /// Interpret this value as a symbol, if it is one.
    pub fn as_symbol(&self) -> (r: Option<&Symbol>)
        ensures
            match self@ {
                ValueV::Symbol(s) => r matches Some(sym) && sym@ == s,
                _ => r is None,
            },
    {
        match self {
            Value::Symbol(s) => Some(s),
            _ => None,
        }
    }
}

} // verus!
