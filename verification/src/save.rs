//! What is kept of a run: each target's delays, their text for the
//! terminal and the CSV file, and the counts behind the closing summary.

use vstd::prelude::*;
use crate::addr::IpAddress;
use crate::fixed::{fixed2_text, ms_hundredths, ms_hundredths_of, push_fixed2};
use crate::ping::PingResult;

verus! {

/// The delay of one echo request: `Idle` when no reply came in time,
/// otherwise the time until the reply, in nanoseconds.
#[derive(Clone, Copy, Debug, PartialEq, Eq, Structural)]
pub enum Delay {
    Idle,
    DelayTime(u64),
}

/// A target's address text and the delays of its echo requests, in order.
pub struct PingRecord {
    pub ipaddress: String,
    pub delay: Vec<Delay>,
}

/// The text `TMOut`.
pub open spec fn timeout_text() -> Seq<char> {
    seq!['T', 'M', 'O', 'u', 't']
}

/// The text `idle`.
pub open spec fn idle_text() -> Seq<char> {
    seq!['i', 'd', 'l', 'e']
}

/// Whole microseconds of a duration in nanoseconds.
pub open spec fn micros_of(ns: u64) -> nat {
    ns as nat / 1000
}

impl Delay {
    /// The CSV cell of a delay: `TMOut`, or the milliseconds with two
    /// decimals as a binary64 `micros / 1000.0` prints them.
    pub open spec fn csv_text(self) -> Seq<char> {
        match self {
            Delay::Idle => timeout_text(),
            Delay::DelayTime(ns) => fixed2_text(ms_hundredths(micros_of(ns))),
        }
    }

    /// The terminal text of a delay: `idle`, or the CSV cell of a time
    /// with `ms` after it.
    pub open spec fn display_text(self) -> Seq<char> {
        match self {
            Delay::Idle => idle_text(),
            Delay::DelayTime(ns) => fixed2_text(ms_hundredths(micros_of(ns))) + seq!['m', 's'],
        }
    }

    /// The CSV cell of this delay.
    pub fn to_csv(&self) -> (s: String)
        ensures
            s@ == self.csv_text(),
    {
        let mut s = String::new();
        match self {
            Delay::Idle => {
                proof {
                    reveal_strlit("TMOut");
                }
                s.append("TMOut");
            },
            Delay::DelayTime(ns) => {
                let h = ms_hundredths_of(*ns / 1000);
                push_fixed2(&mut s, h);
            },
        }
        assert(s@ =~= self.csv_text());
        s
    }

    /// The terminal text of this delay.
    pub fn to_display_string(&self) -> (s: String)
        ensures
            s@ == self.display_text(),
    {
        match self {
            Delay::Idle => {
                proof {
                    reveal_strlit("idle");
                }
                let mut s = String::new();
                s.append("idle");
                assert(s@ =~= self.display_text());
                s
            },
            Delay::DelayTime(_) => {
                let mut s = self.to_csv();
                proof {
                    reveal_strlit("ms");
                }
                s.append("ms");
                assert(s@ =~= self.display_text());
                s
            },
        }
    }
}

/// The CSV cells of a sequence of delays, in order.
pub fn delay_cells(delays: &Vec<Delay>) -> (cells: Vec<String>)
    ensures
        cells@.len() == delays@.len(),
        forall|k: int| 0 <= k < cells@.len() ==> #[trigger] cells@[k]@ == delays@[k].csv_text(),
{
    let mut cells: Vec<String> = Vec::new();
    let mut i: usize = 0;
    while i < delays.len()
        invariant
            i <= delays@.len(),
            cells@.len() == i,
            forall|k: int| 0 <= k < i ==> #[trigger] cells@[k]@ == delays@[k].csv_text(),
        decreases delays.len() - i,
    {
        cells.push(delays[i].to_csv());
        i = i + 1;
    }
    cells
}

/// The delay text of every entry, each as ` <delay>,`.
pub open spec fn delays_text(d: Seq<Delay>) -> Seq<char>
    decreases d.len(),
{
    if d.len() == 0 {
        Seq::empty()
    } else {
        delays_text(d.drop_last()) + seq![' '] + d.last().display_text() + seq![',']
    }
}

/// The terminal line of a record: the address, a tab, two spaces, then
/// the delays in brackets, and a line break.
pub open spec fn record_text(ip: Seq<char>, d: Seq<Delay>) -> Seq<char> {
    ip + seq!['\t', ' ', ' ', '['] + delays_text(d) + seq![']', '\n']
}

impl PingRecord {
    /// The terminal line of this record.
    pub fn to_display_string(&self) -> (s: String)
        ensures
            s@ == record_text(self.ipaddress@, self.delay@),
    {
        let mut s = String::new();
        s.append(self.ipaddress.as_str());
        proof {
            reveal_strlit("\t  [");
        }
        s.append("\t  [");
        let ghost head = s@;
        let mut i: usize = 0;
        while i < self.delay.len()
            invariant
                i <= self.delay@.len(),
                head == self.ipaddress@ + seq!['\t', ' ', ' ', '['],
                s@ == head + delays_text(self.delay@.subrange(0, i as int)),
            decreases self.delay.len() - i,
        {
            proof {
                reveal_strlit(" ");
                reveal_strlit(",");
            }
            s.append(" ");
            let t = self.delay[i].to_display_string();
            s.append(t.as_str());
            s.append(",");
            proof {
                let pre = self.delay@.subrange(0, i as int + 1);
                assert(pre.drop_last() =~= self.delay@.subrange(0, i as int));
            }
            i = i + 1;
            assert(s@ =~= head + delays_text(self.delay@.subrange(0, i as int)));
        }
        proof {
            reveal_strlit("]\n");
        }
        s.append("]\n");
        assert(self.delay@.subrange(0, self.delay@.len() as int) =~= self.delay@);
        assert(s@ =~= record_text(self.ipaddress@, self.delay@));
        s
    }
}

/// The delay a result records.
pub open spec fn delay_of(r: PingResult) -> Delay {
    match r {
        PingResult::Idle { .. } => Delay::Idle,
        PingResult::Receive { recv_duration, .. } => Delay::DelayTime(recv_duration),
    }
}

/// The delays of the results about `a`, in order.
pub open spec fn delays_for(results: Seq<PingResult>, a: IpAddress) -> Seq<Delay>
    decreases results.len(),
{
    if results.len() == 0 {
        Seq::empty()
    } else {
        let rest = delays_for(results.drop_last(), a);
        if results.last().spec_addr() == a {
            rest.push(delay_of(results.last()))
        } else {
            rest
        }
    }
}

/// One address and its delays.
pub struct AddressDelays {
    pub addr: IpAddress,
    pub delays: Vec<Delay>,
}

/// The results grouped by address: `groups` has one entry for each address
/// that occurs in `results` and no other, no address twice, each with the
/// delays of that address in order.
pub open spec fn groups_of(groups: Seq<AddressDelays>, results: Seq<PingResult>) -> bool {
    &&& forall|i: int, j: int| 0 <= i < j < groups.len() ==> (#[trigger] groups[i]).addr != (#[trigger] groups[j]).addr
    &&& forall|i: int| 0 <= i < groups.len() ==> (#[trigger] groups[i]).delays@ == delays_for(results, groups[i].addr)
    &&& forall|i: int| 0 <= i < groups.len() ==> exists|k: int| 0 <= k < results.len() && (#[trigger] results[k]).spec_addr() == (#[trigger] groups[i]).addr
    &&& forall|k: int| 0 <= k < results.len() ==> exists|i: int| 0 <= i < groups.len() && (#[trigger] groups[i]).addr == (#[trigger] results[k]).spec_addr()
}

/// The delay a result records.
pub fn result_delay(r: &PingResult) -> (d: Delay)
    ensures
        d == delay_of(*r),
{
    match r {
        PingResult::Idle { .. } => Delay::Idle,
        PingResult::Receive { recv_duration, .. } => Delay::DelayTime(*recv_duration),
    }
}


/// The delays of the results about `a`, in order.
pub fn collect_delays(results: &Vec<PingResult>, a: IpAddress) -> (d: Vec<Delay>)
    ensures
        d@ == delays_for(results@, a),
{
    let mut d: Vec<Delay> = Vec::new();
    let mut i: usize = 0;
    while i < results.len()
        invariant
            i <= results@.len(),
            d@ == delays_for(results@.subrange(0, i as int), a),
        decreases results.len() - i,
    {
        let r = &results[i];
        proof {
            let pre = results@.subrange(0, i as int + 1);
            assert(pre.drop_last() =~= results@.subrange(0, i as int));
            assert(pre.last() == results@[i as int]);
        }
        if r.address() == a {
            d.push(result_delay(r));
        }
        i = i + 1;
    }
    assert(results@.subrange(0, results@.len() as int) =~= results@);
    d
}

/// Whether some of the first `n` results is about `a`.
pub open spec fn appears_in(results: Seq<PingResult>, n: int, a: IpAddress) -> bool {
    exists|k: int| 0 <= k < n && (#[trigger] results[k]).spec_addr() == a
}

/// Where `a` stands in `addrs`, if anywhere.
fn position_of(addrs: &Vec<IpAddress>, a: IpAddress) -> (r: Option<usize>)
    ensures
        match r {
            Some(p) => p < addrs@.len() && addrs@[p as int] == a,
            None => !addrs@.contains(a),
        },
{
    let mut j: usize = 0;
    while j < addrs.len()
        invariant
            j <= addrs@.len(),
            forall|p: int| 0 <= p < j ==> addrs@[p] != a,
        decreases addrs.len() - j,
    {
        if addrs[j] == a {
            return Some(j);
        }
        j = j + 1;
    }
    None
}

/// The distinct addresses of the results, in the order they first occur.
pub open spec fn first_occurrences(results: Seq<PingResult>) -> Seq<IpAddress>
    decreases results.len(),
{
    if results.len() == 0 {
        Seq::empty()
    } else {
        let before = first_occurrences(results.drop_last());
        let a = results.last().spec_addr();
        if before.contains(a) {
            before
        } else {
            before.push(a)
        }
    }
}

/// The distinct addresses of the results, in the order they first occur.
fn distinct_addresses(results: &Vec<PingResult>) -> (addrs: Vec<IpAddress>)
    ensures
        addrs@ == first_occurrences(results@),
        forall|p: int, q: int| 0 <= p < q < addrs@.len() ==> addrs@[p] != addrs@[q],
        forall|p: int| 0 <= p < addrs@.len() ==> appears_in(results@, results@.len() as int, #[trigger] addrs@[p]),
        forall|k: int| 0 <= k < results@.len() ==> addrs@.contains((#[trigger] results@[k]).spec_addr()),
{
    let mut addrs: Vec<IpAddress> = Vec::new();
    let mut i: usize = 0;
    while i < results.len()
        invariant
            i <= results@.len(),
            forall|p: int, q: int| 0 <= p < q < addrs@.len() ==> addrs@[p] != addrs@[q],
            forall|p: int| 0 <= p < addrs@.len() ==> appears_in(results@, i as int, #[trigger] addrs@[p]),
            forall|k: int| 0 <= k < i ==> addrs@.contains((#[trigger] results@[k]).spec_addr()),
            addrs@ == first_occurrences(results@.subrange(0, i as int)),
        decreases results.len() - i,
    {
        let a = results[i].address();
        let ghost before = addrs@;
        proof {
            let pre = results@.subrange(0, i as int + 1);
            assert(pre.drop_last() =~= results@.subrange(0, i as int));
            assert(pre.last() == results@[i as int]);
        }
        match position_of(&addrs, a) {
            Some(p) => {
                assert(addrs@.contains(a));
            },
            None => {
                addrs.push(a);
                assert(addrs@[addrs@.len() - 1] == a);
            },
        }
        proof {
            assert forall|p: int| 0 <= p < addrs@.len() implies appears_in(results@, i + 1, #[trigger] addrs@[p]) by {
                if p < before.len() {
                    assert(addrs@[p] == before[p]);
                    assert(appears_in(results@, i as int, before[p]));
                    let k = choose|k: int| 0 <= k < i && (#[trigger] results@[k]).spec_addr() == before[p];
                    assert(results@[k].spec_addr() == addrs@[p]);
                } else {
                    assert(results@[i as int].spec_addr() == addrs@[p]);
                }
            }
            assert forall|k: int| 0 <= k < i + 1 implies addrs@.contains((#[trigger] results@[k]).spec_addr()) by {
                if k < i {
                    assert(before.contains(results@[k].spec_addr()));
                    let p = choose|p: int| 0 <= p < before.len() && before[p] == results@[k].spec_addr();
                    assert(addrs@[p] == before[p]);
                }
            }
        }
        i = i + 1;
    }
    assert(results@.subrange(0, results@.len() as int) =~= results@);
    addrs
}

/// Groups results by address (see `groups_of`), addresses in the order
/// they first occur.
pub fn group_by_address(results: &Vec<PingResult>) -> (groups: Vec<AddressDelays>)
    ensures
        groups_of(groups@, results@),
        groups@.len() == first_occurrences(results@).len(),
        forall|p: int| 0 <= p < groups@.len() ==> (#[trigger] groups@[p]).addr == first_occurrences(results@)[p],
{
    let addrs = distinct_addresses(results);
    let mut groups: Vec<AddressDelays> = Vec::new();
    let mut g: usize = 0;
    while g < addrs.len()
        invariant
            g <= addrs@.len(),
            groups@.len() == g,
            forall|p: int| 0 <= p < g ==> (#[trigger] groups@[p]).addr == addrs@[p],
            forall|p: int| 0 <= p < g ==> (#[trigger] groups@[p]).delays@ == delays_for(results@, addrs@[p]),
        decreases addrs.len() - g,
    {
        let a = addrs[g];
        let d = collect_delays(results, a);
        groups.push(AddressDelays { addr: a, delays: d });
        g = g + 1;
    }
    proof {
        assert forall|p: int, q: int| 0 <= p < q < groups@.len() implies (#[trigger] groups@[p]).addr != (#[trigger] groups@[q]).addr by {
            assert(addrs@[p] != addrs@[q]);
        }
        assert forall|p: int| 0 <= p < groups@.len() implies exists|k: int| 0 <= k < results@.len() && (#[trigger] results@[k]).spec_addr() == (#[trigger] groups@[p]).addr by {
            assert(appears_in(results@, results@.len() as int, addrs@[p]));
        }
        assert forall|k: int| 0 <= k < results@.len() implies exists|p: int| 0 <= p < groups@.len() && (#[trigger] groups@[p]).addr == (#[trigger] results@[k]).spec_addr() by {
            assert(addrs@.contains(results@[k].spec_addr()));
            let p = choose|p: int| 0 <= p < addrs@.len() && addrs@[p] == results@[k].spec_addr();
            assert(groups@[p].addr == addrs@[p]);
        }
    }
    groups
}

/// The smaller of two optional values (an absent value gives way).
pub open spec fn opt_min(a: Option<nat>, b: nat) -> Option<nat> {
    match a {
        Some(x) => Some(if x <= b { x } else { b }),
        None => Some(b),
    }
}

/// The larger of two optional values (an absent value gives way).
pub open spec fn opt_max(a: Option<nat>, b: nat) -> Option<nat> {
    match a {
        Some(x) => Some(if x >= b { x } else { b }),
        None => Some(b),
    }
}

/// The counts of a sequence of delays: replies, timeouts, and the least
/// and greatest reply time in whole microseconds (absent without replies).
pub open spec fn delay_counts(d: Seq<Delay>) -> (nat, nat, Option<nat>, Option<nat>)
    decreases d.len(),
{
    if d.len() == 0 {
        (0, 0, None, None)
    } else {
        let (e, l, mn, mx) = delay_counts(d.drop_last());
        match d.last() {
            Delay::Idle => (e, l + 1, mn, mx),
            Delay::DelayTime(ns) => (e + 1, l, opt_min(mn, micros_of(ns)), opt_max(mx, micros_of(ns))),
        }
    }
}

/// The counts of a target's delays.
#[derive(Clone, Copy, Debug, PartialEq, Eq, Structural)]
pub struct DelayStats {
    pub replies: u64,
    pub timeouts: u64,
    pub min_micros: Option<u64>,
    pub max_micros: Option<u64>,
}

/// The view of an optional machine number as an optional natural number.
pub open spec fn opt_nat(o: Option<u64>) -> Option<nat> {
    match o {
        Some(x) => Some(x as nat),
        None => None,
    }
}

/// Counts a target's delays (see `delay_counts`).
pub fn delay_stats(delays: &Vec<Delay>) -> (st: DelayStats)
    ensures
        (st.replies as nat, st.timeouts as nat, opt_nat(st.min_micros), opt_nat(st.max_micros)) == delay_counts(delays@),
        st.replies + st.timeouts == delays@.len(),
{
    let mut st = DelayStats { replies: 0, timeouts: 0, min_micros: None, max_micros: None };
    let mut i: usize = 0;
    while i < delays.len()
        invariant
            i <= delays@.len(),
            st.replies + st.timeouts == i,
            (st.replies as nat, st.timeouts as nat, opt_nat(st.min_micros), opt_nat(st.max_micros)) == delay_counts(delays@.subrange(0, i as int)),
        decreases delays.len() - i,
    {
        proof {
            let pre = delays@.subrange(0, i as int + 1);
            assert(pre.drop_last() =~= delays@.subrange(0, i as int));
            assert(pre.last() == delays@[i as int]);
        }
        match delays[i] {
            Delay::Idle => {
                st.timeouts = st.timeouts + 1;
            },
            Delay::DelayTime(ns) => {
                let us = ns / 1000;
                st.replies = st.replies + 1;
                st.min_micros = match st.min_micros {
                    Some(x) => Some(if x <= us { x } else { us }),
                    None => Some(us),
                };
                st.max_micros = match st.max_micros {
                    Some(x) => Some(if x >= us { x } else { us }),
                    None => Some(us),
                };
            },
        }
        i = i + 1;
    }
    assert(delays@.subrange(0, delays@.len() as int) =~= delays@);
    st
}

/// The delays grouped under `a`, if any group has that address (the last
/// such group when several do).
pub open spec fn group_delays(groups: Seq<AddressDelays>, a: IpAddress) -> Option<Seq<Delay>>
    decreases groups.len(),
{
    if groups.len() == 0 {
        None
    } else if groups.last().addr == a {
        Some(groups.last().delays@)
    } else {
        group_delays(groups.drop_last(), a)
    }
}

/// Where the group of `a` stands, if there is one.
pub fn find_group(groups: &Vec<AddressDelays>, a: IpAddress) -> (r: Option<usize>)
    ensures
        match r {
            Some(g) => g < groups@.len() && group_delays(groups@, a) == Some(groups@[g as int].delays@),
            None => group_delays(groups@, a) is None,
        },
{
    let mut g: usize = groups.len();
    assert(groups@.subrange(0, g as int) =~= groups@);
    while g > 0
        invariant
            g <= groups@.len(),
            group_delays(groups@, a) == group_delays(groups@.subrange(0, g as int), a),
        decreases g,
    {
        let ghost pre = groups@.subrange(0, g as int);
        assert(pre.drop_last() =~= groups@.subrange(0, g - 1));
        if groups[g - 1].addr == a {
            return Some(g - 1);
        }
        g = g - 1;
    }
    None
}

/// The run's totals over the listed addresses: addresses with no reply,
/// timed-out requests, answered requests, and the greatest reply time in
/// microseconds. `None` when a listed address has no group.
pub open spec fn run_totals(groups: Seq<AddressDelays>, ips: Seq<IpAddress>) -> Option<(nat, nat, nat, Option<nat>)>
    decreases ips.len(),
{
    if ips.len() == 0 {
        Some((0, 0, 0, None))
    } else {
        match (run_totals(groups, ips.drop_last()), group_delays(groups, ips.last())) {
            (Some((lost_ips, lost, answered, mx)), Some(d)) => {
                let (e, l, _, dmx) = delay_counts(d);
                Some((
                    if e == 0 { lost_ips + 1 } else { lost_ips },
                    lost + l,
                    answered + e,
                    match dmx {
                        Some(v) => opt_max(mx, v),
                        None => mx,
                    },
                ))
            },
            _ => None,
        }
    }
}

/// The totals printed after a run.
#[derive(Clone, Copy, Debug, PartialEq, Eq, Structural)]
pub struct RunTotals {
    pub lost_ips: u64,
    pub lost_packets: u64,
    pub answered_packets: u64,
    pub max_micros: Option<u64>,
    pub address_count: u64,
}

/// Why the totals of a run cannot be made.
#[derive(Clone, Copy, Debug, PartialEq, Eq, Structural)]
pub enum TotalsError {
    /// A listed address has no result.
    MissingAddress(IpAddress),
    /// A count does not fit in 64 bits.
    CountOverflow,
}

/// Makes the run's totals over the listed addresses (see `run_totals`);
/// `address_count` is the number of groups. Refused when a listed address
/// has no group (the first such address is named) or a count exceeds 64
/// bits.
pub fn run_totals_of(groups: &Vec<AddressDelays>, ips: &Vec<IpAddress>) -> (r: Result<RunTotals, TotalsError>)
    ensures
        match r {
            Ok(t) => run_totals(groups@, ips@) == Some((t.lost_ips as nat, t.lost_packets as nat, t.answered_packets as nat, opt_nat(t.max_micros)))
                && t.address_count == groups@.len(),
            Err(TotalsError::MissingAddress(a)) => run_totals(groups@, ips@) is None && ips@.contains(a) && group_delays(groups@, a) is None,
            Err(TotalsError::CountOverflow) => run_totals(groups@, ips@) matches Some((a, b, c, _)) && (b > u64::MAX || c > u64::MAX),
        },
{
    let mut lost_ips: u128 = 0;
    let mut lost: u128 = 0;
    let mut answered: u128 = 0;
    let mut mx: Option<u64> = None;
    let mut i: usize = 0;
    while i < ips.len()
        invariant
            i <= ips@.len(),
            lost_ips <= i,
            lost + answered <= i as nat * 0x1_0000_0000_0000_0000,
            run_totals(groups@, ips@.subrange(0, i as int)) == Some((lost_ips as nat, lost as nat, answered as nat, opt_nat(mx))),
        decreases ips.len() - i,
    {
        let a = ips[i];
        proof {
            let pre = ips@.subrange(0, i as int + 1);
            assert(pre.drop_last() =~= ips@.subrange(0, i as int));
            assert(pre.last() == ips@[i as int]);
        }
        match find_group(groups, a) {
            None => {
                proof {
                    lemma_run_totals_prefix_none(groups@, ips@, i as int + 1);
                }
                return Err(TotalsError::MissingAddress(a));
            },
            Some(g) => {
                let st = delay_stats(&groups[g].delays);
                let count = groups[g].delays.len();
                if st.replies == 0 {
                    lost_ips = lost_ips + 1;
                }
                lost = lost + st.timeouts as u128;
                answered = answered + st.replies as u128;
                proof {
                    assert(st.replies + st.timeouts <= 0xffff_ffff_ffff_ffff);
                }
                if let Some(v) = st.max_micros {
                    mx = match mx {
                        Some(x) => Some(if x >= v { x } else { v }),
                        None => Some(v),
                    };
                }
            },
        }
        i = i + 1;
    }
    assert(ips@.subrange(0, ips@.len() as int) =~= ips@);
    if lost > 0xffff_ffff_ffff_ffff || answered > 0xffff_ffff_ffff_ffff {
        return Err(TotalsError::CountOverflow);
    }
    Ok(RunTotals {
        lost_ips: lost_ips as u64,
        lost_packets: lost as u64,
        answered_packets: answered as u64,
        max_micros: mx,
        address_count: groups.len() as u64,
    })
}

/// Once a prefix of the listed addresses has no totals, neither has the
/// whole list.
proof fn lemma_run_totals_prefix_none(groups: Seq<AddressDelays>, ips: Seq<IpAddress>, n: int)
    requires
        0 <= n <= ips.len(),
        run_totals(groups, ips.subrange(0, n)) is None,
    ensures
        run_totals(groups, ips) is None,
    decreases ips.len() - n,
{
    if n < ips.len() {
        let pre = ips.subrange(0, n + 1);
        assert(pre.drop_last() =~= ips.subrange(0, n));
        lemma_run_totals_prefix_none(groups, ips, n + 1);
    } else {
        assert(ips.subrange(0, n) =~= ips);
    }
}

/// Replies plus timeouts are all the delays.
proof fn lemma_delay_counts_len(d: Seq<Delay>)
    ensures
        delay_counts(d).0 + delay_counts(d).1 == d.len(),
    decreases d.len(),
{
    if d.len() > 0 {
        lemma_delay_counts_len(d.drop_last());
    }
}

/// The number of delays filed under the listed addresses.
pub open spec fn listed_delay_count(results: Seq<PingResult>, ips: Seq<IpAddress>) -> nat
    decreases ips.len(),
{
    if ips.len() == 0 {
        0
    } else {
        listed_delay_count(results, ips.drop_last()) + delays_for(results, ips.last()).len()
    }
}

/// How often `a` occurs in `ips`.
pub open spec fn occurrences(ips: Seq<IpAddress>, a: IpAddress) -> nat
    decreases ips.len(),
{
    if ips.len() == 0 {
        0
    } else {
        occurrences(ips.drop_last(), a) + if ips.last() == a { 1nat } else { 0nat }
    }
}

proof fn lemma_occurrences_distinct(ips: Seq<IpAddress>, a: IpAddress)
    requires
        forall|i: int, j: int| 0 <= i < j < ips.len() ==> ips[i] != ips[j],
    ensures
        occurrences(ips, a) == if ips.contains(a) { 1nat } else { 0nat },
    decreases ips.len(),
{
    if ips.len() > 0 {
        let init = ips.drop_last();
        lemma_occurrences_distinct(init, a);
        if ips.last() == a {
            if init.contains(a) {
                let i = choose|i: int| 0 <= i < init.len() && init[i] == a;
                assert(ips[i] == ips[ips.len() - 1]);
            }
        } else {
            if ips.contains(a) {
                let i = choose|i: int| 0 <= i < ips.len() && ips[i] == a;
                assert(init[i] == a);
            }
            if init.contains(a) {
                let i = choose|i: int| 0 <= i < init.len() && init[i] == a;
                assert(ips[i] == a);
            }
        }
    }
}

proof fn lemma_listed_push(results: Seq<PingResult>, r: PingResult, ips: Seq<IpAddress>)
    ensures
        listed_delay_count(results.push(r), ips) == listed_delay_count(results, ips) + occurrences(ips, r.spec_addr()),
    decreases ips.len(),
{
    assert(results.push(r).drop_last() =~= results);
    if ips.len() > 0 {
        lemma_listed_push(results, r, ips.drop_last());
    }
}

proof fn lemma_listed_empty(ips: Seq<IpAddress>)
    ensures
        listed_delay_count(Seq::<PingResult>::empty(), ips) == 0,
    decreases ips.len(),
{
    if ips.len() > 0 {
        lemma_listed_empty(ips.drop_last());
    }
}

/// Listing every address of the results once files every result once.
proof fn lemma_listed_all(results: Seq<PingResult>, ips: Seq<IpAddress>)
    requires
        forall|i: int, j: int| 0 <= i < j < ips.len() ==> ips[i] != ips[j],
        forall|k: int| 0 <= k < results.len() ==> ips.contains((#[trigger] results[k]).spec_addr()),
    ensures
        listed_delay_count(results, ips) == results.len(),
    decreases results.len(),
{
    if results.len() == 0 {
        assert(results =~= Seq::<PingResult>::empty());
        lemma_listed_empty(ips);
    } else {
        let init = results.drop_last();
        let r = results.last();
        assert forall|k: int| 0 <= k < init.len() implies ips.contains((#[trigger] init[k]).spec_addr()) by {
            assert(init[k] == results[k]);
        }
        lemma_listed_all(init, ips);
        assert(init.push(r) =~= results);
        lemma_listed_push(init, r, ips);
        assert(ips.contains(results[results.len() - 1].spec_addr()));
        lemma_occurrences_distinct(ips, r.spec_addr());
    }
}

/// In a grouping of the results, the group of an address that occurs is
/// found with that address's delays.
proof fn lemma_group_delays_found(groups: Seq<AddressDelays>, results: Seq<PingResult>, a: IpAddress, g: int)
    requires
        forall|i: int, j: int| 0 <= i < j < groups.len() ==> (#[trigger] groups[i]).addr != (#[trigger] groups[j]).addr,
        forall|i: int| 0 <= i < groups.len() ==> (#[trigger] groups[i]).delays@ == delays_for(results, groups[i].addr),
        0 <= g < groups.len(),
        groups[g].addr == a,
    ensures
        group_delays(groups, a) == Some(delays_for(results, a)),
    decreases groups.len(),
{
    if g < groups.len() - 1 {
        let init = groups.drop_last();
        assert(groups[groups.len() - 1].addr != groups[g].addr);
        assert forall|i: int, j: int| 0 <= i < j < init.len() implies (#[trigger] init[i]).addr != (#[trigger] init[j]).addr by {
            assert(init[i] == groups[i] && init[j] == groups[j]);
        }
        assert forall|i: int| 0 <= i < init.len() implies (#[trigger] init[i]).delays@ == delays_for(results, init[i].addr) by {
            assert(init[i] == groups[i]);
        }
        lemma_group_delays_found(init, results, a, g);
    }
}

proof fn lemma_run_totals_listed(groups: Seq<AddressDelays>, results: Seq<PingResult>, ips: Seq<IpAddress>)
    requires
        groups_of(groups, results),
        forall|i: int| 0 <= i < ips.len() ==> appears_in(results, results.len() as int, #[trigger] ips[i]),
    ensures
        run_totals(groups, ips) matches Some((_, lost, answered, _)) && lost + answered == listed_delay_count(results, ips),
    decreases ips.len(),
{
    if ips.len() > 0 {
        let init = ips.drop_last();
        assert forall|i: int| 0 <= i < init.len() implies appears_in(results, results.len() as int, #[trigger] init[i]) by {
            assert(init[i] == ips[i]);
        }
        lemma_run_totals_listed(groups, results, init);
        let a = ips.last();
        assert(appears_in(results, results.len() as int, ips[ips.len() - 1]));
        let k = choose|k: int| 0 <= k < results.len() && (#[trigger] results[k]).spec_addr() == a;
        let g = choose|g: int| 0 <= g < groups.len() && (#[trigger] groups[g]).addr == (#[trigger] results[k]).spec_addr();
        lemma_group_delays_found(groups, results, a, g);
        lemma_delay_counts_len(delays_for(results, a));
    }
}

/// The totals of a run count every result exactly once when the listed
/// addresses are the results' addresses, each listed once: timed-out plus
/// answered requests are all the results.
pub proof fn law_totals_count_every_result(groups: Seq<AddressDelays>, results: Seq<PingResult>, ips: Seq<IpAddress>)
    requires
        groups_of(groups, results),
        forall|i: int, j: int| 0 <= i < j < ips.len() ==> ips[i] != ips[j],
        forall|i: int| 0 <= i < ips.len() ==> appears_in(results, results.len() as int, #[trigger] ips[i]),
        forall|k: int| 0 <= k < results.len() ==> ips.contains((#[trigger] results[k]).spec_addr()),
    ensures
        run_totals(groups, ips) matches Some((_, lost, answered, _)) && lost + answered == results.len(),
{
    lemma_run_totals_listed(groups, results, ips);
    lemma_listed_all(results, ips);
}

/// The reply time, in whole microseconds, of a delay that is a reply.
pub open spec fn reply_micros(d: Delay) -> nat {
    match d {
        Delay::DelayTime(ns) => micros_of(ns),
        Delay::Idle => 0,
    }
}

/// The counts of a target's delays say what the delays hold: the replies
/// are the number of reply delays and the timeouts the number of timed-out
/// ones; there are no replies exactly when every
/// delay is a timeout, and no timeouts exactly when every delay is a
/// reply; the least and greatest reply times are present exactly when
/// there is a reply, are each the time of some reply, and bound every
/// reply's time from below and from above.
pub proof fn law_delay_counts(d: Seq<Delay>)
    ensures
        ({
            let (e, l, mn, mx) = delay_counts(d);
            &&& e == d.filter(|x: Delay| x is DelayTime).len()
            &&& l == d.filter(|x: Delay| x is Idle).len()
            &&& e + l == d.len()
            &&& (e == 0 <==> forall|k: int| 0 <= k < d.len() ==> #[trigger] d[k] is Idle)
            &&& (l == 0 <==> forall|k: int| 0 <= k < d.len() ==> #[trigger] d[k] is DelayTime)
            &&& (mn is None <==> e == 0)
            &&& (mx is None <==> e == 0)
            &&& forall|k: int| 0 <= k < d.len() && #[trigger] d[k] is DelayTime
                ==> (mn matches Some(m) && m <= reply_micros(d[k])) && (mx matches Some(m) && reply_micros(d[k]) <= m)
            &&& mn matches Some(m) ==> exists|k: int| 0 <= k < d.len() && #[trigger] d[k] is DelayTime && reply_micros(d[k]) == m
            &&& mx matches Some(m) ==> exists|k: int| 0 <= k < d.len() && #[trigger] d[k] is DelayTime && reply_micros(d[k]) == m
        }),
    decreases d.len(),
{
    if d.len() > 0 {
        let init = d.drop_last();
        law_delay_counts(init);
        let (e, l, mn, mx) = delay_counts(init);
        let n = d.len() - 1;
        assert(init.push(d.last()) =~= d);
        init.lemma_filter_len_push(|x: Delay| x is DelayTime, d.last());
        init.lemma_filter_len_push(|x: Delay| x is Idle, d.last());
        assert forall|k: int| 0 <= k < init.len() implies #[trigger] init[k] == d[k] by {}
        if d.last() is Idle {
            if forall|k: int| 0 <= k < init.len() ==> #[trigger] init[k] is Idle {
                assert forall|k: int| 0 <= k < d.len() implies #[trigger] d[k] is Idle by {
                    if k < n {
                        assert(init[k] is Idle);
                    }
                }
            }
            assert(!(d[n] is DelayTime));
            if mn is Some {
                let m = mn->0;
                let k = choose|k: int| 0 <= k < init.len() && #[trigger] init[k] is DelayTime && reply_micros(init[k]) == m;
                assert(d[k] == init[k]);
            }
            if mx is Some {
                let m = mx->0;
                let k = choose|k: int| 0 <= k < init.len() && #[trigger] init[k] is DelayTime && reply_micros(init[k]) == m;
                assert(d[k] == init[k]);
            }
            assert forall|k: int| 0 <= k < d.len() && #[trigger] d[k] is DelayTime
                implies (mn matches Some(m) && m <= reply_micros(d[k])) && (mx matches Some(m) && reply_micros(d[k]) <= m) by {
                assert(k < n);
                assert(init[k] is DelayTime);
            }
        } else {
            let v = reply_micros(d[n]);
            if forall|k: int| 0 <= k < init.len() ==> #[trigger] init[k] is DelayTime {
                assert forall|k: int| 0 <= k < d.len() implies #[trigger] d[k] is DelayTime by {
                    if k < n {
                        assert(init[k] is DelayTime);
                    }
                }
            }
            assert(!(d[n] is Idle));
            let (e2, l2, mn2, mx2) = delay_counts(d);
            assert(mn2 == opt_min(mn, v));
            assert(mx2 == opt_max(mx, v));
            assert forall|k: int| 0 <= k < d.len() && #[trigger] d[k] is DelayTime
                implies (mn2 matches Some(m) && m <= reply_micros(d[k])) && (mx2 matches Some(m) && reply_micros(d[k]) <= m) by {
                if k < n {
                    assert(init[k] is DelayTime);
                }
            }
            match mn {
                Some(m) => {
                    if m <= v {
                        let k = choose|k: int| 0 <= k < init.len() && #[trigger] init[k] is DelayTime && reply_micros(init[k]) == m;
                        assert(d[k] == init[k]);
                    } else {
                        assert(d[n] is DelayTime && reply_micros(d[n]) == v);
                    }
                },
                None => {
                    assert(d[n] is DelayTime && reply_micros(d[n]) == v);
                },
            }
            match mx {
                Some(m) => {
                    if m >= v {
                        let k = choose|k: int| 0 <= k < init.len() && #[trigger] init[k] is DelayTime && reply_micros(init[k]) == m;
                        assert(d[k] == init[k]);
                    } else {
                        assert(d[n] is DelayTime && reply_micros(d[n]) == v);
                    }
                },
                None => {
                    assert(d[n] is DelayTime && reply_micros(d[n]) == v);
                },
            }
        }
    }
}

/// Whether the `k`-th delay of the `i`-th listed address is a reply.
pub open spec fn listed_reply(groups: Seq<AddressDelays>, ips: Seq<IpAddress>, i: int, k: int) -> bool {
    &&& 0 <= i < ips.len()
    &&& group_delays(groups, ips[i]) is Some
    &&& 0 <= k < group_delays(groups, ips[i])->0.len()
    &&& group_delays(groups, ips[i])->0[k] is DelayTime
}

/// The time, in whole microseconds, of the `k`-th delay of the `i`-th
/// listed address.
pub open spec fn listed_micros(groups: Seq<AddressDelays>, ips: Seq<IpAddress>, i: int, k: int) -> nat {
    reply_micros(group_delays(groups, ips[i])->0[k])
}

/// Whether the `i`-th listed address has a reply.
pub open spec fn listed_answered(groups: Seq<AddressDelays>, ips: Seq<IpAddress>, i: int) -> bool {
    exists|k: int| #[trigger] listed_reply(groups, ips, i, k)
}

/// The run's totals, when every listed address has results: no more
/// addresses lost than listed, no answered packets exactly when there is
/// no greatest delay, and none lost exactly when every listed
/// address has a reply; the greatest delay is present exactly when some
/// listed address has a reply, is at least the time of every reply of
/// every listed address, and is the time of one of them.
#[verifier::spinoff_prover]
pub proof fn law_run_totals_max(groups: Seq<AddressDelays>, ips: Seq<IpAddress>)
    ensures
        run_totals(groups, ips) matches Some((lost_ips, _, answered, mx)) ==> {
            &&& lost_ips <= ips.len()
            &&& (answered == 0 <==> mx is None)
            &&& (lost_ips == 0 <==> forall|i: int| 0 <= i < ips.len() ==> #[trigger] listed_answered(groups, ips, i))
            &&& (mx is None <==> forall|i: int, k: int| !#[trigger] listed_reply(groups, ips, i, k))
            &&& forall|i: int, k: int| #[trigger] listed_reply(groups, ips, i, k)
                ==> (mx matches Some(m) && listed_micros(groups, ips, i, k) <= m)
            &&& (mx matches Some(m) ==> exists|i: int, k: int| #[trigger] listed_reply(groups, ips, i, k)
                && listed_micros(groups, ips, i, k) == m)
        },
    decreases ips.len(),
{
    if ips.len() > 0 && run_totals(groups, ips) is Some {
        let init = ips.drop_last();
        let n = ips.len() - 1;
        law_run_totals_max(groups, init);
        let (lost_ips, lost, answered, mx) = run_totals(groups, init)->0;
        let d = group_delays(groups, ips[n])->0;
        law_delay_counts(d);
        let (e, l, dmn, dmx) = delay_counts(d);
        let (lost_ips2, lost2, answered2, mx2) = run_totals(groups, ips)->0;
        assert(ips.last() == ips[n]);
        assert forall|i: int, k: int| 0 <= i < n implies
            (listed_reply(groups, ips, i, k) == listed_reply(groups, init, i, k)
            && listed_micros(groups, ips, i, k) == listed_micros(groups, init, i, k)) by {
            assert(ips[i] == init[i]);
        }
        assert forall|k: int| #[trigger] listed_reply(groups, ips, n, k) <==> 0 <= k < d.len() && d[k] is DelayTime by {}
        assert forall|i: int| 0 <= i < n implies (listed_answered(groups, ips, i) == listed_answered(groups, init, i)) by {
            if listed_answered(groups, ips, i) {
                let k = choose|k: int| #[trigger] listed_reply(groups, ips, i, k);
                assert(listed_reply(groups, init, i, k));
            }
            if listed_answered(groups, init, i) {
                let k = choose|k: int| #[trigger] listed_reply(groups, init, i, k);
                assert(listed_reply(groups, ips, i, k));
            }
        }
        if e == 0 {
            assert(!listed_answered(groups, ips, n)) by {
                if listed_answered(groups, ips, n) {
                    let k = choose|k: int| #[trigger] listed_reply(groups, ips, n, k);
                    assert(d[k] is DelayTime);
                    assert(d[k] is Idle);
                }
            }
        } else {
            let k0 = choose|k: int| 0 <= k < d.len() && #[trigger] d[k] is DelayTime && reply_micros(d[k]) == dmx->0;
            assert(listed_reply(groups, ips, n, k0));
            assert(listed_answered(groups, ips, n));
        }
        assert((lost_ips2 == 0) <==> forall|i: int| 0 <= i < ips.len() ==> #[trigger] listed_answered(groups, ips, i)) by {
            if lost_ips2 == 0 {
                assert forall|i: int| 0 <= i < ips.len() implies #[trigger] listed_answered(groups, ips, i) by {
                    if i < n {
                        assert(listed_answered(groups, init, i));
                    }
                }
            } else if forall|i: int| 0 <= i < ips.len() ==> #[trigger] listed_answered(groups, ips, i) {
                assert(listed_answered(groups, ips, n));
                assert forall|i: int| 0 <= i < init.len() implies #[trigger] listed_answered(groups, init, i) by {
                    assert(listed_answered(groups, ips, i));
                }
            }
        }
        assert forall|i: int, k: int| #[trigger] listed_reply(groups, ips, i, k)
            implies (mx2 matches Some(m) && listed_micros(groups, ips, i, k) <= m) by {
            if i < n {
                assert(listed_reply(groups, init, i, k));
            } else {
                assert(d[k] is DelayTime);
            }
        }
        if mx2 is Some {
            let m = mx2->0;
            let from_last = dmx is Some && (mx is None || mx->0 < dmx->0);
            if from_last {
                let k = choose|k: int| 0 <= k < d.len() && #[trigger] d[k] is DelayTime && reply_micros(d[k]) == dmx->0;
                assert(listed_reply(groups, ips, n, k) && listed_micros(groups, ips, n, k) == m);
            } else {
                let (i, k) = choose|i: int, k: int| #[trigger] listed_reply(groups, init, i, k) && listed_micros(groups, init, i, k) == mx->0;
                assert(listed_reply(groups, ips, i, k) && listed_micros(groups, ips, i, k) == m);
            }
        }
        if mx2 is None {
            assert forall|i: int, k: int| !#[trigger] listed_reply(groups, ips, i, k) by {
                if listed_reply(groups, ips, i, k) {
                    if i < n {
                        assert(listed_reply(groups, init, i, k));
                    } else {
                        assert(d[k] is DelayTime);
                    }
                }
            }
        } else if forall|i: int, k: int| !#[trigger] listed_reply(groups, ips, i, k) {
            assert(false) by {
                let m = mx2->0;
                if dmx is Some && (mx is None || mx->0 < dmx->0) {
                    let k = choose|k: int| 0 <= k < d.len() && #[trigger] d[k] is DelayTime && reply_micros(d[k]) == dmx->0;
                    assert(listed_reply(groups, ips, n, k));
                } else {
                    let (i, k) = choose|i: int, k: int| #[trigger] listed_reply(groups, init, i, k) && listed_micros(groups, init, i, k) == mx->0;
                    assert(listed_reply(groups, ips, i, k));
                }
            }
        }
    }
}
} // verus!
