//! What is asked of a gateway so that other peers can reach this one.

use vstd::prelude::*;

verus! {

/// How long a mapping lasts and how often it is renewed, in seconds.
pub const LEASE_DURATION_SECS: u32 = 1800;

/// The name under which a mapping is registered.
pub const DESCRIPTION: &'static str = "retorrent";

/// A port can be mapped unless it is zero.
pub fn check_port(external_port: u16) -> (r: Result<(), String>)
    ensures
        match r {
            Ok(_) => external_port != 0,
            Err(e) => external_port == 0 && e@ == "external_port is 0"@,
        },
{
    if external_port == 0 {
        return Err("external_port is 0".to_string());
    }
    Ok(())
}

/// Whether a port is mapped: if a gateway was found and accepted the mapping. A
/// gateway that is missing or that refuses is no error.
pub fn mapping_outcome(found: bool, accepted: bool) -> (r: bool)
    ensures
        r == (found && accepted),
{
    found && accepted
}

} // verus!
