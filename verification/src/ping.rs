//! One ping target, the replies the listeners hand in, and the results
//! the pinger hands out.
//!
//! Times are counts of nanoseconds on one monotonic clock chosen by the
//! caller; durations are counts of nanoseconds.

use vstd::prelude::*;
use crate::addr::IpAddress;

verus! {

/// Calls `rand::random::<u16>()`. Nothing is claimed of the value: it is
/// drawn from the thread-local random generator.
#[verifier::external_body]
fn random_identifier() -> u16 {
    rand::random::<u16>()
}

/// The state of one target: its address, the identifier and last sequence
/// number of its echo requests, whether a reply to the last request was
/// seen, and when that request was sent.
#[derive(Clone, Copy, Debug)]
pub struct Ping {
    pub addr: IpAddress,
    pub identifier: u16,
    pub sequence_number: u16,
    pub seen: bool,
    pub send_time: u64,
}

impl Ping {
    /// A fresh target at time `now` with the given identifier.
    pub fn with_identifier(addr: IpAddress, identifier: u16, now: u64) -> (p: Ping)
        ensures
            p == (Ping { addr, identifier, sequence_number: 0, seen: false, send_time: now }),
    {
        Ping { addr, identifier, sequence_number: 0, seen: false, send_time: now }
    }

    /// A fresh target at time `now`: an IPv4 target gets a random nonzero
    /// identifier (a drawn 0 becomes 1), an IPv6 target the identifier 0.
    pub fn new(addr: IpAddress, now: u64) -> (p: Ping)
        ensures
            p.addr == addr,
            addr is V4 ==> p.identifier != 0,
            addr is V6 ==> p.identifier == 0,
            p.sequence_number == 0,
            !p.seen,
            p.send_time == now,
    {
        let identifier = if addr.is_ipv4() {
            let drawn = random_identifier();
            if drawn == 0 {
                1
            } else {
                drawn
            }
        } else {
            0
        };
        Ping::with_identifier(addr, identifier, now)
    }

    /// The identifier of the target's echo requests.
    pub fn get_identifier(&self) -> (i: u16)
        ensures
            i == self.identifier,
    {
        self.identifier
    }

    /// The sequence number of the last echo request (0 before any).
    pub fn get_sequence_number(&self) -> (s: u16)
        ensures
            s == self.sequence_number,
    {
        self.sequence_number
    }

    /// Advances the sequence number by one and returns it. The number must
    /// not already be at its maximum.
    pub fn increment_sequence_number(&mut self) -> (s: u16)
        requires
            old(self).sequence_number < u16::MAX,
        ensures
            *final(self) == (Ping { sequence_number: (old(self).sequence_number + 1) as u16, ..*old(self) }),
            s == final(self).sequence_number,
    {
        self.sequence_number = self.sequence_number + 1;
        self.sequence_number
    }
}

/// An echo reply as a listener received it: the sender, the identifier and
/// sequence number it carried, the time since the round's timer started,
/// and when it arrived.
#[derive(Clone, Copy, Debug, PartialEq, Eq, Structural)]
pub struct ReceivedPing {
    pub addr: IpAddress,
    pub identifier: u16,
    pub sequence_number: u16,
    pub rtt: u64,
    pub recv_time: u64,
}

/// The outcome for a target in a round: `Idle` when no matching reply came
/// within the maximum round-trip time, `Receive` for a matching reply, with
/// the time since the round's timer started (`rtt`) and the time since the
/// request to this target was sent (`recv_duration`).
#[derive(Clone, Copy, Debug, PartialEq, Eq, Structural)]
pub enum PingResult {
    Idle { addr: IpAddress },
    Receive { addr: IpAddress, rtt: u64, recv_duration: u64 },
}

impl PingResult {
    /// The address the result is about.
    pub open spec fn spec_addr(self) -> IpAddress {
        match self {
            PingResult::Idle { addr } => addr,
            PingResult::Receive { addr, .. } => addr,
        }
    }

    /// The address the result is about.
    pub fn address(&self) -> (a: IpAddress)
        ensures
            a == self.spec_addr(),
    {
        match self {
            PingResult::Idle { addr } => *addr,
            PingResult::Receive { addr, .. } => *addr,
        }
    }
}

/// The addresses of a sequence of results, in order.
pub open spec fn result_addrs(s: Seq<PingResult>) -> Seq<IpAddress> {
    s.map_values(|r: PingResult| r.spec_addr())
}

/// A reply as the IPv4 or IPv6 listener builds it from an echo reply
/// received at `now`, with the round's timer started at `timer_start`:
/// the round-trip time is the time since the timer started (zero if the
/// clock reads earlier).
pub open spec fn received_ping_of(addr: IpAddress, identifier: u16, sequence_number: u16, timer_start: u64, now: u64) -> ReceivedPing {
    ReceivedPing {
        addr,
        identifier,
        sequence_number,
        rtt: if now >= timer_start { (now - timer_start) as u64 } else { 0 },
        recv_time: now,
    }
}

/// Builds the reply record a listener hands to the pinger.
pub fn make_received_ping(addr: IpAddress, identifier: u16, sequence_number: u16, timer_start: u64, now: u64) -> (r: ReceivedPing)
    ensures
        r == received_ping_of(addr, identifier, sequence_number, timer_start, now),
{
    ReceivedPing {
        addr,
        identifier,
        sequence_number,
        rtt: now.saturating_sub(timer_start),
        recv_time: now,
    }
}

} // verus!
