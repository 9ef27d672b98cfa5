//! The request that keeps a Windows machine awake.

use crate::wake::Want;
use vstd::prelude::*;
use windows_sys::Win32::System::Power::{ES_CONTINUOUS, ES_DISPLAY_REQUIRED, ES_SYSTEM_REQUIRED};

verus! {

/// `windows_sys::Win32::System::Power::ES_CONTINUOUS`: the request stays in force
/// until the next one. It is the topmost of 32 bits.
#[verifier::external_body]
fn continuous() -> (r: u32)
    ensures
        r == 0x8000_0000,
{
    ES_CONTINUOUS
}

/// `windows_sys::Win32::System::Power::ES_SYSTEM_REQUIRED`: the system stays
/// awake. It is the lowest bit.
#[verifier::external_body]
fn system_required() -> (r: u32)
    ensures
        r == 1,
{
    ES_SYSTEM_REQUIRED
}

/// `windows_sys::Win32::System::Power::ES_DISPLAY_REQUIRED`: the display stays
/// on. It is the second lowest bit.
#[verifier::external_body]
fn display_required() -> (r: u32)
    ensures
        r == 2,
{
    ES_DISPLAY_REQUIRED
}

/// The flags of the execution state that `want` calls for.
pub fn execution_state(want: Want) -> (r: u32)
    ensures
        r == 0x8000_0000 + (if want.system {
            1int
        } else {
            0
        }) + (if want.display {
            2int
        } else {
            0
        }),
{
    let mut flags: u32 = continuous();
    if want.system {
        flags = flags | system_required();
    }
    if want.display {
        flags = flags | display_required();
    }
    assert(0x8000_0000u32 | 1 == 0x8000_0001 && 0x8000_0000u32 | 2 == 0x8000_0002 && 0x8000_0001u32
        | 2 == 0x8000_0003) by (bit_vector);
    flags
}

} // verus!
