//! The pinger's table of targets and the decisions of each pinging
//! round: which targets are pinged in which order, what is sent to each,
//! how replies are matched, when a round ends and which targets stayed
//! silent.

use vstd::prelude::*;
use std::collections::BTreeMap;
use crate::addr::{addr_lt, strictly_increasing, IpAddress};
use crate::ping::{received_ping_of, result_addrs, Ping, PingResult, ReceivedPing};
use crate::packet::{
    be16, build_echo_request, build_echo_request_v6, echo_request_frame, echo_request_packet,
    echo_request_v6_packet, hi, lo, reply_reading_v4, reply_reading_v6, ReplyReading,
    ECHO_HEADER_LEN, ICMPV6_ECHO_REPLY, ICMP_ECHO_REPLY, MAX_CHECKSUM_LEN,
};
use vstd::set_lib::{lemma_map_size, lemma_set_disjoint_lens};
use vstd::arithmetic::div_mod::lemma_add_mod_noop;
use vstd::relations::injective_on;
use vstd::std_specs::btree::{increasing_seq, spec_keys_iter};
use vstd::std_specs::iter::IteratorSpec;
use vstd::laws_cmp::lemma_ref_obeys_cmp_spec;
use vstd::std_specs::cmp::OrdSpec;

verus! {

/// The keys of a map of IPv4 targets in increasing order.
fn sorted_keys_v4(m: &BTreeMap<u32, Ping>) -> (ks: Vec<u32>)
    ensures
        ks@.to_set() == m@.dom(),
        ks@.len() == m@.dom().len(),
        forall|i: int, j: int| 0 <= i < j < ks@.len() ==> ks@[i] < ks@[j],
{
    let mut ks: Vec<u32> = Vec::new();
    let keys = m.keys();
    let ghost rem = spec_keys_iter(m).remaining();
    assert(keys == spec_keys_iter(m));
    for k in it: keys
        invariant
            it.seq() == rem,
            ks@ == rem.subrange(0, it.index()).map_values(|r: &u32| *r),
    {
        ks.push(*k);
        assert(ks@ =~= rem.subrange(0, it.index() + 1).map_values(|r: &u32| *r));
    }
    assert(ks@ =~= rem.map_values(|r: &u32| *r));
    assert(rem.unref() =~= rem.map_values(|r: &u32| *r));
    proof {
        broadcast use lemma_ref_obeys_cmp_spec;
        assert(vstd::laws_cmp::obeys_cmp::<&u32>());
        assert(increasing_seq(rem));
        assert forall|i: int, j: int| 0 <= i < j < ks@.len() implies ks@[i] < ks@[j] by {
            assert(OrdSpec::cmp_spec(&rem[i], &rem[j]) is Less);
        }
    }
    ks
}

/// The keys of a map of IPv6 targets in increasing order.
fn sorted_keys_v6(m: &BTreeMap<u128, Ping>) -> (ks: Vec<u128>)
    ensures
        ks@.to_set() == m@.dom(),
        ks@.len() == m@.dom().len(),
        forall|i: int, j: int| 0 <= i < j < ks@.len() ==> ks@[i] < ks@[j],
{
    let mut ks: Vec<u128> = Vec::new();
    let keys = m.keys();
    let ghost rem = spec_keys_iter(m).remaining();
    assert(keys == spec_keys_iter(m));
    for k in it: keys
        invariant
            it.seq() == rem,
            ks@ == rem.subrange(0, it.index()).map_values(|r: &u128| *r),
    {
        ks.push(*k);
        assert(ks@ =~= rem.subrange(0, it.index() + 1).map_values(|r: &u128| *r));
    }
    assert(ks@ =~= rem.map_values(|r: &u128| *r));
    assert(rem.unref() =~= rem.map_values(|r: &u128| *r));
    proof {
        broadcast use lemma_ref_obeys_cmp_spec;
        assert(vstd::laws_cmp::obeys_cmp::<&u128>());
        assert(increasing_seq(rem));
        assert forall|i: int, j: int| 0 <= i < j < ks@.len() implies ks@[i] < ks@[j] by {
            assert(OrdSpec::cmp_spec(&rem[i], &rem[j]) is Less);
        }
    }
    ks
}


/// Default maximum round-trip time, in milliseconds.
pub const DEFAULT_MAX_RTT_MS: u64 = 2000;

/// Default echo request payload size, in bytes.
pub const DEFAULT_PACKET_SIZE: usize = 16;

/// How the pinging thread is to run after a start request.
#[derive(Clone, Copy, Debug, PartialEq, Eq, Structural)]
pub enum RunPlan {
    /// Ping round after round until the process ends.
    Continuous,
    /// Ping this many rounds.
    Rounds(u32),
}

/// What a reply handed in by a listener does.
#[derive(Clone, Copy, Debug, PartialEq, Eq, Structural)]
pub enum ReplyOutcome {
    /// The sender is not a target; the reply is dropped.
    NotTarget,
    /// The sender is a target but the reply's identifier or sequence number
    /// differs from the last request (reported with what was expected).
    Mismatch { expected_identifier: u16, expected_sequence: u16 },
    /// The reply answers the target's last request.
    Matched(PingResult),
}

/// The pinger: its settings (maximum round-trip time in milliseconds and
/// echo request payload size in bytes), its targets keyed by address, and
/// the stop flag.
pub struct Pinger {
    max_rtt: u64,
    size: usize,
    targets_v4: BTreeMap<u32, Ping>,
    targets_v6: BTreeMap<u128, Ping>,
    stop: bool,
}

impl Pinger {
    /// Each target is stored under its own address.
    pub closed spec fn wf(self) -> bool {
        &&& forall|k: u32| #[trigger] self.targets_v4@.contains_key(k) ==> self.targets_v4@[k].addr == IpAddress::V4(k)
        &&& forall|k: u128| #[trigger] self.targets_v6@.contains_key(k) ==> self.targets_v6@[k].addr == IpAddress::V6(k)
    }

    /// The targets, by address.
    pub closed spec fn targets(self) -> Map<IpAddress, Ping> {
        Map::new(
            |a: IpAddress|
                match a {
                    IpAddress::V4(x) => self.targets_v4@.contains_key(x),
                    IpAddress::V6(x) => self.targets_v6@.contains_key(x),
                },
            |a: IpAddress|
                match a {
                    IpAddress::V4(x) => self.targets_v4@[x],
                    IpAddress::V6(x) => self.targets_v6@[x],
                },
        )
    }

    /// The maximum round-trip time, in milliseconds.
    pub closed spec fn max_rtt_ms(self) -> u64 {
        self.max_rtt
    }

    /// The payload size of each echo request, in bytes.
    pub closed spec fn packet_size(self) -> usize {
        self.size
    }

    /// Whether the pinger was asked to stop.
    pub closed spec fn stopped(self) -> bool {
        self.stop
    }

    /// The number of targets.
    pub closed spec fn target_count(self) -> nat {
        self.targets_v4@.len() + self.targets_v6@.len()
    }

    /// The settings and stop flag are those of `other`.
    pub open spec fn same_settings(self, other: Pinger) -> bool {
        &&& self.max_rtt_ms() == other.max_rtt_ms()
        &&& self.packet_size() == other.packet_size()
        &&& self.stopped() == other.stopped()
    }

    /// A pinger with no targets, not stopped. The maximum round-trip time
    /// is `max_rtt` milliseconds (2000 when absent) and each echo request
    /// carries `size` payload bytes (16 when absent).
    pub fn new(max_rtt: Option<u64>, size: Option<usize>) -> (p: Pinger)
        ensures
            p.wf(),
            p.targets() == Map::<IpAddress, Ping>::empty(),
            p.max_rtt_ms() == match max_rtt {
                Some(v) => v,
                None => DEFAULT_MAX_RTT_MS,
            },
            p.packet_size() == match size {
                Some(v) => v,
                None => DEFAULT_PACKET_SIZE,
            },
            !p.stopped(),
    {
        let mut pinger = Pinger {
            max_rtt: DEFAULT_MAX_RTT_MS,
            size: match size {
                Some(v) => v,
                None => DEFAULT_PACKET_SIZE,
            },
            targets_v4: BTreeMap::new(),
            targets_v6: BTreeMap::new(),
            stop: false,
        };
        if let Some(rtt_value) = max_rtt {
            pinger.max_rtt = rtt_value;
        }
        if let Some(size_value) = size {
            pinger.size = size_value;
        }
        assert(pinger.targets() =~= Map::<IpAddress, Ping>::empty());
        pinger
    }

    /// The maximum round-trip time, in milliseconds.
    pub fn get_max_rtt_ms(&self) -> (ms: u64)
        ensures
            ms == self.max_rtt_ms(),
    {
        self.max_rtt
    }

    /// The payload size of each echo request, in bytes.
    pub fn get_size(&self) -> (size: usize)
        ensures
            size == self.packet_size(),
    {
        self.size
    }

    /// Whether the pinger was asked to stop.
    pub fn is_stopped(&self) -> (b: bool)
        ensures
            b == self.stopped(),
    {
        self.stop
    }

    /// Stores `ping` as the target at its own address, replacing any target
    /// there.
    pub fn insert_target(&mut self, ping: Ping)
        requires
            old(self).wf(),
        ensures
            final(self).wf(),
            final(self).targets() == old(self).targets().insert(ping.addr, ping),
            final(self).same_settings(*old(self)),
    {
        match ping.addr {
            IpAddress::V4(x) => {
                self.targets_v4.insert(x, ping);
            },
            IpAddress::V6(x) => {
                self.targets_v6.insert(x, ping);
            },
        }
        assert(self.targets() =~= old(self).targets().insert(ping.addr, ping));
    }

    /// Adds a target at `addr` (replacing any target there) with a fresh
    /// state at time `now`: a random nonzero identifier for IPv4 (0 for
    /// IPv6), sequence number 0, no reply seen.
    pub fn add_ipaddr(&mut self, addr: IpAddress, now: u64)
        requires
            old(self).wf(),
        ensures
            final(self).wf(),
            final(self).targets() == old(self).targets().insert(addr, final(self).targets()[addr]),
            final(self).targets()[addr].addr == addr,
            addr is V4 ==> final(self).targets()[addr].identifier != 0,
            addr is V6 ==> final(self).targets()[addr].identifier == 0,
            final(self).targets()[addr].sequence_number == 0,
            !final(self).targets()[addr].seen,
            final(self).targets()[addr].send_time == now,
            final(self).same_settings(*old(self)),
    {
        let ping = Ping::new(addr, now);
        self.insert_target(ping);
    }

    /// Removes the target at `addr`, if any.
    pub fn remove_ipaddr(&mut self, addr: IpAddress)
        requires
            old(self).wf(),
        ensures
            final(self).wf(),
            final(self).targets() == old(self).targets().remove(addr),
            final(self).same_settings(*old(self)),
    {
        match addr {
            IpAddress::V4(x) => {
                self.targets_v4.remove(&x);
            },
            IpAddress::V6(x) => {
                self.targets_v6.remove(&x);
            },
        }
        assert(self.targets() =~= old(self).targets().remove(addr));
    }

    /// Whether there is a target at `addr`.
    pub fn contains_target(&self, addr: IpAddress) -> (b: bool)
        ensures
            b == self.targets().contains_key(addr),
    {
        match addr {
            IpAddress::V4(x) => self.targets_v4.contains_key(&x),
            IpAddress::V6(x) => self.targets_v6.contains_key(&x),
        }
    }

    /// The target at `addr`, if any.
    pub fn get_target(&self, addr: IpAddress) -> (p: Option<Ping>)
        ensures
            match p {
                Some(q) => self.targets().contains_key(addr) && q == self.targets()[addr],
                None => !self.targets().contains_key(addr),
            },
            self.wf() ==> (p matches Some(q) ==> q.addr == addr),
    {
        match addr {
            IpAddress::V4(x) => match self.targets_v4.get(&x) {
                Some(q) => Some(*q),
                None => None,
            },
            IpAddress::V6(x) => match self.targets_v6.get(&x) {
                Some(q) => Some(*q),
                None => None,
            },
        }
    }

    /// Every stored target carries its own address.
    pub proof fn lemma_target_addr(self, a: IpAddress)
        requires
            self.wf(),
            self.targets().contains_key(a),
        ensures
            self.targets()[a].addr == a,
    {
    }

    /// Asks the pinger to stop.
    pub fn stop_pinger(&mut self)
        requires
            old(self).wf(),
        ensures
            final(self).wf(),
            final(self).stopped(),
            final(self).targets() == old(self).targets(),
            final(self).max_rtt_ms() == old(self).max_rtt_ms(),
            final(self).packet_size() == old(self).packet_size(),
    {
        self.stop = true;
    }

    /// The targets' address set has `target_count()` elements.
    pub proof fn lemma_target_count(self)
        ensures
            self.targets().dom().finite(),
            self.targets().dom().len() == self.target_count(),
    {
        let d4 = self.targets_v4@.dom();
        let d6 = self.targets_v6@.dom();
        let f4 = |x: u32| IpAddress::V4(x);
        let f6 = |x: u128| IpAddress::V6(x);
        let s4 = d4.map(f4);
        let s6 = d6.map(f6);
        assert(injective_on(f4, d4));
        assert(injective_on(f6, d6));
        lemma_map_size(d4, s4, f4);
        lemma_map_size(d6, s6, f6);
        assert forall|a: IpAddress| #[trigger] self.targets().dom().contains(a) <==> (s4 + s6).contains(a) by {
            match a {
                IpAddress::V4(x) => {
                    if d4.contains(x) {
                        assert(s4.contains(f4(x)));
                    }
                },
                IpAddress::V6(x) => {
                    if d6.contains(x) {
                        assert(s6.contains(f6(x)));
                    }
                },
            }
        }
        assert(self.targets().dom() =~= s4 + s6);
        assert(s4.disjoint(s6));
        lemma_set_disjoint_lens(s4, s6);
    }

    /// The number of targets, modulo 2^32.
    pub fn get_target_count(&self) -> (n: u32)
        ensures
            n == self.targets().dom().len() % 4294967296,
    {
        proof {
            self.lemma_target_count();
        }
        let a = self.targets_v4.len() as u64;
        let b = self.targets_v6.len() as u64;
        proof {
            lemma_add_mod_noop(a as int, b as int, 4294967296);
        }
        ((a % 4294967296 + b % 4294967296) % 4294967296) as u32
    }

    /// Sets the stop flag for `run_n_of_times` rounds (set when exactly one
    /// round is asked for, cleared otherwise) and says how the pinging
    /// thread runs: zero asks for continuous pinging, any other number for
    /// that many rounds.
    fn run_pings(&mut self, run_n_of_times: Option<u32>) -> (plan: RunPlan)
        requires
            old(self).wf(),
            run_n_of_times is Some,
        ensures
            final(self).wf(),
            final(self).targets() == old(self).targets(),
            final(self).max_rtt_ms() == old(self).max_rtt_ms(),
            final(self).packet_size() == old(self).packet_size(),
            final(self).stopped() == (run_n_of_times->0 == 1),
            plan == if run_n_of_times->0 == 0 {
                RunPlan::Continuous
            } else {
                RunPlan::Rounds(run_n_of_times->0)
            },
    {
        let n = match run_n_of_times {
            Some(n) => n,
            None => 0,
        };
        if n == 1 {
            self.stop = true;
        } else {
            self.stop = false;
        }
        if n == 0 {
            RunPlan::Continuous
        } else {
            RunPlan::Rounds(n)
        }
    }

    /// Runs one round of pinging and stops: one round is planned and the
    /// stop flag is set.
    pub fn ping_once(&mut self) -> (plan: RunPlan)
        requires
            old(self).wf(),
        ensures
            final(self).wf(),
            final(self).targets() == old(self).targets(),
            final(self).max_rtt_ms() == old(self).max_rtt_ms(),
            final(self).packet_size() == old(self).packet_size(),
            final(self).stopped(),
            plan == RunPlan::Rounds(1),
    {
        self.run_pings(Some(1))
    }

    /// Starts pinging for `n` rounds (continuously when `n` is zero); the
    /// stop flag is set exactly when `n` is one.
    pub fn run_pinger(&mut self, n: u32) -> (plan: RunPlan)
        requires
            old(self).wf(),
        ensures
            final(self).wf(),
            final(self).targets() == old(self).targets(),
            final(self).max_rtt_ms() == old(self).max_rtt_ms(),
            final(self).packet_size() == old(self).packet_size(),
            final(self).stopped() == (n == 1),
            plan == if n == 0 {
                RunPlan::Continuous
            } else {
                RunPlan::Rounds(n)
            },
    {
        self.run_pings(Some(n))
    }

    /// Whether the pinging thread starts another round after `rounds_done`
    /// rounds: a continuous run goes on until the pinger is asked to stop;
    /// a run of `n` rounds runs exactly `n`.
    pub open spec fn starts_round(self, plan: RunPlan, rounds_done: u32) -> bool {
        match plan {
            RunPlan::Continuous => !self.stopped(),
            RunPlan::Rounds(n) => rounds_done < n,
        }
    }

    /// Whether the pinging thread starts another round (see
    /// `starts_round`).
    pub fn next_round(&self, plan: RunPlan, rounds_done: u32) -> (b: bool)
        ensures
            b == self.starts_round(plan, rounds_done),
    {
        match plan {
            RunPlan::Continuous => !self.stop,
            RunPlan::Rounds(n) => rounds_done < n,
        }
    }

    /// Whether a round whose timer started `elapsed` nanoseconds ago has
    /// run past the maximum round-trip time.
    pub fn round_timed_out(&self, elapsed: u64) -> (b: bool)
        ensures
            b == (elapsed as nat > self.max_rtt_ms() as nat * 1000000),
    {
        (elapsed as u128) > (self.max_rtt as u128) * 1000000
    }

    /// The targets' addresses in the standard order (IPv4 ascending, then
    /// IPv6 ascending): the order in which a round pings them.
    pub fn round_order(&self) -> (order: Vec<IpAddress>)
        ensures
            strictly_increasing(order@),
            order@.to_set() == self.targets().dom(),
            order@.len() == self.targets().dom().len(),
    {
        let ks4 = sorted_keys_v4(&self.targets_v4);
        let ks6 = sorted_keys_v6(&self.targets_v6);
        let mut order: Vec<IpAddress> = Vec::new();
        let mut i: usize = 0;
        while i < ks4.len()
            invariant
                i <= ks4@.len(),
                order@ == ks4@.subrange(0, i as int).map_values(|x: u32| IpAddress::V4(x)),
            decreases ks4.len() - i,
        {
            order.push(IpAddress::V4(ks4[i]));
            i = i + 1;
            assert(order@ =~= ks4@.subrange(0, i as int).map_values(|x: u32| IpAddress::V4(x)));
        }
        let ghost first = ks4@.map_values(|x: u32| IpAddress::V4(x));
        assert(ks4@.subrange(0, ks4@.len() as int) =~= ks4@);
        let mut j: usize = 0;
        while j < ks6.len()
            invariant
                j <= ks6@.len(),
                first == ks4@.map_values(|x: u32| IpAddress::V4(x)),
                order@ == first + ks6@.subrange(0, j as int).map_values(|x: u128| IpAddress::V6(x)),
            decreases ks6.len() - j,
        {
            order.push(IpAddress::V6(ks6[j]));
            j = j + 1;
            assert(order@ =~= first + ks6@.subrange(0, j as int).map_values(|x: u128| IpAddress::V6(x)));
        }
        assert(ks6@.subrange(0, ks6@.len() as int) =~= ks6@);
        proof {
            let second = ks6@.map_values(|x: u128| IpAddress::V6(x));
            assert(order@ =~= first + second);
            let n4 = first.len() as int;
            assert forall|a: int, b: int| 0 <= a < b < order@.len() implies addr_lt(#[trigger] order@[a], #[trigger] order@[b]) by {
                if b < n4 {
                    assert(order@[a] == IpAddress::V4(ks4@[a]));
                    assert(order@[b] == IpAddress::V4(ks4@[b]));
                } else if a >= n4 {
                    assert(order@[a] == IpAddress::V6(ks6@[a - n4]));
                    assert(order@[b] == IpAddress::V6(ks6@[b - n4]));
                } else {
                    assert(order@[a] == IpAddress::V4(ks4@[a]));
                    assert(order@[b] == IpAddress::V6(ks6@[b - n4]));
                }
            }
            assert forall|t: IpAddress| #[trigger] order@.to_set().contains(t) <==> self.targets().dom().contains(t) by {
                match t {
                    IpAddress::V4(x) => {
                        if self.targets_v4@.contains_key(x) {
                            assert(ks4@.to_set().contains(x));
                            let k = choose|k: int| 0 <= k < ks4@.len() && ks4@[k] == x;
                            assert(order@[k] == t);
                        }
                        if order@.to_set().contains(t) {
                            let k = choose|k: int| 0 <= k < order@.len() && order@[k] == t;
                            if k < n4 {
                                assert(order@[k] == IpAddress::V4(ks4@[k]));
                                assert(ks4@.to_set().contains(ks4@[k]));
                            } else {
                                assert(order@[k] == IpAddress::V6(ks6@[k - n4]));
                            }
                        }
                    },
                    IpAddress::V6(x) => {
                        if self.targets_v6@.contains_key(x) {
                            assert(ks6@.to_set().contains(x));
                            let k = choose|k: int| 0 <= k < ks6@.len() && ks6@[k] == x;
                            assert(order@[n4 + k] == t);
                        }
                        if order@.to_set().contains(t) {
                            let k = choose|k: int| 0 <= k < order@.len() && order@[k] == t;
                            if k < n4 {
                                assert(order@[k] == IpAddress::V4(ks4@[k]));
                            } else {
                                assert(order@[k] == IpAddress::V6(ks6@[k - n4]));
                                assert(ks6@.to_set().contains(ks6@[k - n4]));
                            }
                        }
                    },
                }
            }
            assert(order@.to_set() =~= self.targets().dom());
            self.lemma_target_count();
        }
        order
    }

    /// Whether an echo request can be sent to `addr`: it is a target, the
    /// packet (header and payload) fits the checksum limit, and an IPv4
    /// target's sequence number can still advance.
    pub open spec fn echo_ready(self, addr: IpAddress) -> bool {
        &&& self.targets().contains_key(addr)
        &&& self.packet_size() + ECHO_HEADER_LEN <= MAX_CHECKSUM_LEN
        &&& (addr is V4 ==> self.targets()[addr].sequence_number < u16::MAX)
    }

    /// Whether an echo request can be sent to `addr` (see `echo_ready`).
    pub fn can_send_echo(&self, addr: IpAddress) -> (b: bool)
        ensures
            b == self.echo_ready(addr),
    {
        match self.get_target(addr) {
            None => false,
            Some(p) => {
                if self.size > MAX_CHECKSUM_LEN - ECHO_HEADER_LEN {
                    false
                } else {
                    match addr {
                        IpAddress::V4(_) => p.sequence_number < u16::MAX,
                        IpAddress::V6(_) => true,
                    }
                }
            },
        }
    }

    /// Sends an echo request to `addr` at time `now`: the target's send time
    /// becomes `now`, an IPv4 target's sequence number advances by one, no
    /// reply is seen yet, and the packet to send is returned (for IPv4 it
    /// carries the target's identifier and new sequence number).
    pub fn prepare_echo(&mut self, addr: IpAddress, now: u64) -> (packet: Vec<u8>)
        requires
            old(self).wf(),
            old(self).echo_ready(addr),
        ensures
            final(self).wf(),
            final(self).same_settings(*old(self)),
            final(self).targets() == old(self).targets().insert(addr, sent_ping(old(self).targets()[addr], now)),
            packet@ == echo_packet(sent_ping(old(self).targets()[addr], now), old(self).packet_size()),
    {
        let mut p = match self.get_target(addr) {
            Some(p) => p,
            None => {
                return Vec::new();
            },
        };
        p.send_time = now;
        let packet = match addr {
            IpAddress::V4(_) => {
                let sequence = p.increment_sequence_number();
                build_echo_request(self.size, p.identifier, sequence)
            },
            IpAddress::V6(_) => build_echo_request_v6(self.size),
        };
        p.seen = false;
        self.insert_target(p);
        packet
    }

    /// Hands in a reply from a listener. A reply from a target whose
    /// identifier and sequence number are those of the target's last
    /// request marks the target as seen and yields a `Receive` result;
    /// other replies change nothing.
    pub fn handle_reply(&mut self, reply: ReceivedPing) -> (outcome: ReplyOutcome)
        requires
            old(self).wf(),
        ensures
            final(self).wf(),
            final(self).same_settings(*old(self)),
            outcome == reply_outcome(old(self).targets(), reply),
            final(self).targets() == if outcome is Matched {
                old(self).targets().insert(reply.addr, Ping { seen: true, ..old(self).targets()[reply.addr] })
            } else {
                old(self).targets()
            },
    {
        match self.get_target(reply.addr) {
            None => ReplyOutcome::NotTarget,
            Some(p) => {
                if p.identifier == reply.identifier && p.sequence_number == reply.sequence_number {
                    let mut q = p;
                    q.seen = true;
                    self.insert_target(q);
                    ReplyOutcome::Matched(
                        PingResult::Receive {
                            addr: reply.addr,
                            rtt: reply.rtt,
                            recv_duration: reply.recv_time.saturating_sub(p.send_time),
                        },
                    )
                } else {
                    ReplyOutcome::Mismatch {
                        expected_identifier: p.identifier,
                        expected_sequence: p.sequence_number,
                    }
                }
            },
        }
    }

    /// The `Idle` results of a round: one for each target with no reply
    /// seen, in the standard address order.
    pub fn idle_results(&self) -> (results: Vec<PingResult>)
        ensures
            forall|k: int| 0 <= k < results@.len() ==> #[trigger] results@[k] is Idle,
            strictly_increasing(result_addrs(results@)),
            forall|a: IpAddress| #[trigger] result_addrs(results@).contains(a) <==> (self.targets().contains_key(a) && !self.targets()[a].seen),
    {
        let order = self.round_order();
        let mut results: Vec<PingResult> = Vec::new();
        let ghost mut idx: Seq<int> = Seq::empty();
        let mut i: usize = 0;
        while i < order.len()
            invariant
                i <= order@.len(),
                strictly_increasing(order@),
                order@.to_set() == self.targets().dom(),
                idx.len() == results@.len(),
                forall|k: int| 0 <= k < results@.len() ==> #[trigger] results@[k] is Idle,
                forall|k: int| 0 <= k < idx.len() ==> 0 <= #[trigger] idx[k] < i,
                forall|k: int, l: int| 0 <= k < l < idx.len() ==> #[trigger] idx[k] < #[trigger] idx[l],
                forall|k: int| 0 <= k < results@.len() ==> (#[trigger] results@[k]).spec_addr() == order@[idx[k]],
                forall|k: int| 0 <= k < results@.len() ==> !self.targets()[(#[trigger] results@[k]).spec_addr()].seen,
                forall|m: int| 0 <= m < i && !self.targets()[order@[m]].seen ==> exists|k: int| 0 <= k < idx.len() && #[trigger] idx[k] == m,
            decreases order.len() - i,
        {
            let a = order[i];
            let ghost old_idx = idx;
            proof {
                assert(order@.to_set().contains(a));
            }
            let p = self.get_target(a);
            match p {
                Some(p) => {
                    if !p.seen {
                        results.push(PingResult::Idle { addr: a });
                        proof {
                            idx = idx.push(i as int);
                            assert(idx[idx.len() - 1] == i);
                        }
                    }
                },
                None => {},
            }
            proof {
                assert forall|m: int| 0 <= m < i + 1 && !self.targets()[order@[m]].seen implies exists|k: int| 0 <= k < idx.len() && #[trigger] idx[k] == m by {
                    if m < i {
                        let k = choose|k: int| 0 <= k < old_idx.len() && #[trigger] old_idx[k] == m;
                        assert(idx[k] == old_idx[k]);
                    } else {
                        assert(idx[idx.len() - 1] == m);
                    }
                }
            }
            i = i + 1;
        }
        proof {
            let addrs = result_addrs(results@);
            assert forall|k: int, l: int| 0 <= k < l < addrs.len() implies addr_lt(#[trigger] addrs[k], #[trigger] addrs[l]) by {
                assert(idx[k] < idx[l]);
                assert(addrs[k] == order@[idx[k]]);
                assert(addrs[l] == order@[idx[l]]);
            }
            assert forall|a: IpAddress| #[trigger] addrs.contains(a) <==> (self.targets().contains_key(a) && !self.targets()[a].seen) by {
                if addrs.contains(a) {
                    let k = choose|k: int| 0 <= k < addrs.len() && addrs[k] == a;
                    assert(results@[k].spec_addr() == a);
                    assert(order@.to_set().contains(order@[idx[k]]));
                }
                if self.targets().contains_key(a) && !self.targets()[a].seen {
                    assert(order@.to_set().contains(a));
                    let m = choose|m: int| 0 <= m < order@.len() && order@[m] == a;
                    let k = choose|k: int| 0 <= k < idx.len() && #[trigger] idx[k] == m;
                    assert(addrs[k] == a);
                }
            }
        }
        results
    }
}


/// A target's state right after an echo request is sent to it at `now`.
pub open spec fn sent_ping(p: Ping, now: u64) -> Ping {
    match p.addr {
        IpAddress::V4(_) => Ping { sequence_number: (p.sequence_number + 1) as u16, seen: false, send_time: now, ..p },
        IpAddress::V6(_) => Ping { seen: false, send_time: now, ..p },
    }
}

/// The echo request packet for a target in state `p` (after sending) and a
/// payload size.
pub open spec fn echo_packet(p: Ping, size: usize) -> Seq<u8> {
    match p.addr {
        IpAddress::V4(_) => echo_request_packet(size as nat, p.identifier, p.sequence_number),
        IpAddress::V6(_) => echo_request_v6_packet(size as nat),
    }
}

/// What a reply does to a table of targets: a reply from a non-target is
/// dropped; one whose identifier and sequence number equal the target's is
/// matched, with the time from the target's last send to the reply's
/// arrival (zero if the clock reads earlier); any other is a mismatch.
pub open spec fn reply_outcome(targets: Map<IpAddress, Ping>, r: ReceivedPing) -> ReplyOutcome {
    if !targets.contains_key(r.addr) {
        ReplyOutcome::NotTarget
    } else {
        let p = targets[r.addr];
        if p.identifier == r.identifier && p.sequence_number == r.sequence_number {
            ReplyOutcome::Matched(
                PingResult::Receive {
                    addr: r.addr,
                    rtt: r.rtt,
                    recv_duration: if r.recv_time >= p.send_time { (r.recv_time - p.send_time) as u64 } else { 0 },
                },
            )
        } else {
            ReplyOutcome::Mismatch { expected_identifier: p.identifier, expected_sequence: p.sequence_number }
        }
    }
}

/// Removing an address just added leaves the other targets as they were
/// and drops the address.
pub proof fn law_add_then_remove(before: Pinger, added: Pinger, removed: Pinger, a: IpAddress)
    requires
        added.targets() == before.targets().insert(a, added.targets()[a]),
        removed.targets() == added.targets().remove(a),
    ensures
        removed.targets() == before.targets().remove(a),
        !removed.targets().contains_key(a),
{
    assert(removed.targets() =~= before.targets().remove(a));
}

/// Adding an address that is not yet a target adds one to the target
/// count; adding one that is leaves the count as it was.
pub proof fn law_add_counts_once(before: Pinger, added: Pinger, a: IpAddress)
    requires
        added.targets() == before.targets().insert(a, added.targets()[a]),
    ensures
        added.targets().dom().len() == before.targets().dom().len() + if before.targets().contains_key(a) { 0int } else { 1int },
{
    before.lemma_target_count();
    added.lemma_target_count();
    assert(added.targets().dom() =~= before.targets().dom().insert(a));
}

/// The 16-bit big-endian value written at bytes `i` and `i + 1` reads back.
proof fn lemma_be16_roundtrip(b: Seq<u8>, i: int, v: u16)
    requires
        0 <= i,
        i + 1 < b.len(),
        b[i] == hi(v),
        b[i + 1] == lo(v),
    ensures
        be16(b, i) == v,
{
    assert((v / 256) * 256 + v % 256 == v);
}

/// A reply to the last echo request sent to an IPv4 target is matched: the
/// peer's echo of the request (type changed to echo reply) reads as an echo
/// reply with the target's identifier and new sequence number, and handing
/// that reply in, arriving at `arrival` after the send at `now`, gives a
/// `Receive` whose delay is the time since the send.
pub proof fn law_echo_reply_matches_v4(p: Ping, now: u64, size: usize, targets: Map<IpAddress, Ping>, timer_start: u64, arrival: u64)
    requires
        p.addr is V4,
        p.sequence_number < u16::MAX,
        targets.contains_key(p.addr),
        targets[p.addr] == sent_ping(p, now),
        arrival >= now,
    ensures
        ({
            let sent = sent_ping(p, now);
            let reply = echo_packet(sent, size).update(0, ICMP_ECHO_REPLY);
            &&& reply_reading_v4(reply) == (ReplyReading::EchoReply { identifier: sent.identifier, sequence_number: sent.sequence_number })
            &&& reply_outcome(targets, received_ping_of(p.addr, sent.identifier, sent.sequence_number, timer_start, arrival))
                == ReplyOutcome::Matched(PingResult::Receive {
                    addr: p.addr,
                    rtt: if arrival >= timer_start { (arrival - timer_start) as u64 } else { 0 },
                    recv_duration: (arrival - now) as u64,
                })
        }),
{
    let sent = sent_ping(p, now);
    let frame = echo_request_frame(size as nat, sent.identifier, sent.sequence_number);
    let reply = echo_packet(sent, size).update(0, ICMP_ECHO_REPLY);
    assert(reply[4] == frame[4] && reply[5] == frame[5] && reply[6] == frame[6] && reply[7] == frame[7]);
    lemma_be16_roundtrip(reply, 4, sent.identifier);
    lemma_be16_roundtrip(reply, 6, sent.sequence_number);
}

/// A reply to the echo request sent to an IPv6 target is matched when the
/// target's identifier and sequence number are zero, as they are for IPv6
/// targets: the peer's echo reads as an echo reply (type 129), and handing
/// it in gives a `Receive` whose delay is the time since the send.
pub proof fn law_echo_reply_matches_v6(p: Ping, now: u64, size: usize, targets: Map<IpAddress, Ping>, timer_start: u64, arrival: u64)
    requires
        p.addr is V6,
        p.identifier == 0,
        p.sequence_number == 0,
        targets.contains_key(p.addr),
        targets[p.addr] == sent_ping(p, now),
        arrival >= now,
    ensures
        ({
            let reply = echo_packet(sent_ping(p, now), size).update(0, ICMPV6_ECHO_REPLY);
            &&& reply_reading_v6(reply) == (ReplyReading::EchoReply { identifier: 0, sequence_number: 0 })
            &&& reply_outcome(targets, received_ping_of(p.addr, 0, 0, timer_start, arrival))
                == ReplyOutcome::Matched(PingResult::Receive {
                    addr: p.addr,
                    rtt: if arrival >= timer_start { (arrival - timer_start) as u64 } else { 0 },
                    recv_duration: (arrival - now) as u64,
                })
        }),
{
}

/// A target whose reply was matched is not reported idle: after the
/// reply, it is a target with a reply seen.
pub proof fn law_matched_target_not_idle(targets: Map<IpAddress, Ping>, r: ReceivedPing)
    requires
        reply_outcome(targets, r) is Matched,
    ensures
        ({
            let after = targets.insert(r.addr, Ping { seen: true, ..targets[r.addr] });
            after.contains_key(r.addr) && after[r.addr].seen
        }),
{
}

/// Stopping ends continuous pinging: once the pinger is stopped (as
/// `stop_pinger` leaves it), a continuous run starts no further round,
/// however many it has run.
pub proof fn law_stop_ends_continuous(p: Pinger, rounds_done: u32)
    requires
        p.stopped(),
    ensures
        !p.starts_round(RunPlan::Continuous, rounds_done),
{
}

/// The plan of `ping_once` runs exactly one round: the first round starts
/// and no later one does.
pub proof fn law_ping_once_one_round(p: Pinger, rounds_done: u32)
    ensures
        p.starts_round(RunPlan::Rounds(1), rounds_done) == (rounds_done == 0),
{
}

/// A reply is matched exactly when it comes from a target and carries both
/// the identifier and the sequence number of that target's last request;
/// a reply from a target with another identifier or sequence number is a
/// mismatch that reports what was expected.
pub proof fn law_reply_matches_only_own_request(targets: Map<IpAddress, Ping>, r: ReceivedPing)
    ensures
        reply_outcome(targets, r) is Matched <==> (targets.contains_key(r.addr)
            && targets[r.addr].identifier == r.identifier
            && targets[r.addr].sequence_number == r.sequence_number),
        targets.contains_key(r.addr) && (targets[r.addr].identifier != r.identifier
            || targets[r.addr].sequence_number != r.sequence_number) ==> reply_outcome(targets, r)
            == (ReplyOutcome::Mismatch {
                expected_identifier: targets[r.addr].identifier,
                expected_sequence: targets[r.addr].sequence_number,
            }),
        !targets.contains_key(r.addr) ==> reply_outcome(targets, r) == ReplyOutcome::NotTarget,
        reply_outcome(targets, r) matches ReplyOutcome::Matched(res)
            ==> res matches PingResult::Receive { addr, rtt, .. } && addr == r.addr && rtt == r.rtt,
{
}
} // verus!
