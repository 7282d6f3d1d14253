//! Multi-target ICMP pinging: target lists from CIDR blocks and dotted
//! ranges, the pinger's target table and round logic, echo packet
//! encoding, and the summaries written after a run.

pub mod text;
pub mod ipv4;
pub mod fixed;
pub mod addr;
pub mod packet;
pub mod ping;
pub mod pinger;
pub mod targets;
pub mod save;
pub mod cli;

use vstd::prelude::*;

verus! {

} // verus!
