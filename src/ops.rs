//! Operation codes shared with the compute kernel. Their values are part of the
//! binary instruction format and must not change.
use vstd::prelude::*;

verus! {

pub const ID: u32 = 0;
pub const RESET: u32 = 1;
pub const X: u32 = 2;
pub const Y: u32 = 3;
pub const Z: u32 = 4;
pub const H: u32 = 5;
pub const S: u32 = 6;
pub const S_ADJ: u32 = 7;
pub const T: u32 = 8;
pub const T_ADJ: u32 = 9;
pub const SX: u32 = 10;
pub const SX_ADJ: u32 = 11;
pub const RX: u32 = 12;
pub const RY: u32 = 13;
pub const RZ: u32 = 14;
pub const CX: u32 = 15;
pub const CZ: u32 = 16;
pub const RZZ: u32 = 17;
pub const CCX: u32 = 18;
pub const MZ: u32 = 19;
pub const MRESETZ: u32 = 20;
/// Measures every qubit; appended when a circuit has no explicit measurement.
pub const MEVERYZ: u32 = 21;

/// The rotation family: these operations carry an angle.
pub open spec fn takes_angle(code: u32) -> bool {
    code == RX || code == RY || code == RZ || code == RZZ
}

/// How many qubit operands an operation names.
pub open spec fn arity(code: u32) -> nat {
    if code == CX || code == CZ || code == RZZ {
        2
    } else if code == CCX {
        3
    } else {
        1
    }
}

pub fn angle_required(code: u32) -> (r: bool)
    ensures
        r == takes_angle(code),
{
    code == RX || code == RY || code == RZ || code == RZZ
}

pub fn qubit_arity(code: u32) -> (r: usize)
    ensures
        r as nat == arity(code),
{
    if code == CX || code == CZ || code == RZZ {
        2
    } else if code == CCX {
        3
    } else {
        1
    }
}

} // verus!
