//! Arithmetic in the 64-bit prime field that trace cells live in, and the
//! order-sensitive combining function used for the call-stack accumulator.

use vstd::prelude::*;

verus! {

/// The prime modulus of the 64-bit base field of the proving backend.
pub const MODULUS: u64 = 0xFFFF_FFFF_0000_0001;

/// Padding value for unused neighbor columns. It is the largest field
/// element, reserved so that it can never collide with a node id.
pub const SENTINEL: u64 = 0xFFFF_FFFF_0000_0000;

/// Multiplier of the order-sensitive stack combining function.
pub const ALPHA: u64 = 0x9E37_79B9_7F4A_7C15;

/// A cell value is a canonical field element.
pub open spec fn in_field(x: u64) -> bool {
    x < MODULUS
}

/// Canonical representative of an arbitrary 64-bit value, as the backend's
/// field type computes it.
pub open spec fn spec_reduce(x: u64) -> u64 {
    (x as int % MODULUS as int) as u64
}

/// Field addition of two canonical elements.
pub open spec fn spec_add(a: u64, b: u64) -> u64 {
    if a + b >= MODULUS {
        (a + b - MODULUS) as u64
    } else {
        (a + b) as u64
    }
}

/// Field subtraction of two canonical elements.
pub open spec fn spec_sub(a: u64, b: u64) -> u64 {
    if a >= b {
        (a - b) as u64
    } else {
        (a + MODULUS - b) as u64
    }
}

/// Field multiplication of two canonical elements.
pub open spec fn spec_mul(a: u64, b: u64) -> u64 {
    ((a as int * b as int) % MODULUS as int) as u64
}

/// Pushing return address `r` onto the stack accumulator `s`: an
/// order-sensitive affine combination. The `+ 1` keeps a push of address 0
/// onto the empty stack distinct from the empty stack itself.
pub open spec fn spec_combine(s: u64, r: u64) -> u64 {
    spec_add(spec_mul(s, ALPHA), spec_add(r, 1))
}

pub open spec fn spec_bool_felt(b: bool) -> u64 {
    if b {
        1
    } else {
        0
    }
}

pub fn reduce(x: u64) -> (r: u64)
    ensures
        r == spec_reduce(x),
        in_field(r),
{
    x % MODULUS
}

pub fn felt_add(a: u64, b: u64) -> (r: u64)
    requires
        in_field(a),
        in_field(b),
    ensures
        r == spec_add(a, b),
        in_field(r),
{
    if a >= MODULUS - b {
        a - (MODULUS - b)
    } else {
        a + b
    }
}

pub fn felt_sub(a: u64, b: u64) -> (r: u64)
    requires
        in_field(a),
        in_field(b),
    ensures
        r == spec_sub(a, b),
        in_field(r),
{
    if a >= b {
        a - b
    } else {
        a + (MODULUS - b)
    }
}

pub fn felt_mul(a: u64, b: u64) -> (r: u64)
    requires
        in_field(a),
        in_field(b),
    ensures
        r == spec_mul(a, b),
        in_field(r),
{
    proof {
        assert(a as int * b as int <= u128::MAX as int) by (nonlinear_arith)
            requires
                a < 0x1_0000_0000_0000_0000,
                b < 0x1_0000_0000_0000_0000,
        ;
    }
    let p: u128 = a as u128 * b as u128;
    (p % (MODULUS as u128)) as u64
}

pub fn combine(s: u64, r: u64) -> (c: u64)
    requires
        in_field(s),
        in_field(r),
    ensures
        c == spec_combine(s, r),
        in_field(c),
{
    let t = felt_mul(s, ALPHA);
    let u = felt_add(r, 1);
    felt_add(t, u)
}

pub fn bool_felt(b: bool) -> (r: u64)
    ensures
        r == spec_bool_felt(b),
        in_field(r),
{
    if b {
        1
    } else {
        0
    }
}

} // verus!
