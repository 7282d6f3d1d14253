use pingmu::addr::IpAddress;
use pingmu::packet::{read_reply_v4, read_reply_v6, ReplyReading};
use pingmu::ping::{make_received_ping, Ping, PingResult};
use pingmu::pinger::{Pinger, ReplyOutcome, RunPlan, DEFAULT_MAX_RTT_MS, DEFAULT_PACKET_SIZE};
use pingmu::targets::parse_str_cidr_or_range_to_ip_list;

fn addr_of(text: &str) -> IpAddress {
    let v = parse_str_cidr_or_range_to_ip_list(text);
    assert_eq!(v.len(), 1);
    v[0]
}

const LOCALHOST: u32 = 0x7f00_0001;

#[test]
fn test_newpinger() {
    // A new pinger keeps its settings, and a silent target's result is
    // an Idle result for its address.
    let mut test_pinger = Pinger::new(Some(3000 as u64), Some(24));
    assert_eq!(test_pinger.get_max_rtt_ms(), 3000);
    assert_eq!(test_pinger.get_size(), 24);

    test_pinger.add_ipaddr(addr_of("127.0.0.1"), 0);
    match test_pinger.idle_results().first() {
        Some(result) => match result {
            PingResult::Idle { addr } => {
                assert_eq!(*addr, IpAddress::V4(LOCALHOST));
            }
            _ => assert!(false),
        },
        None => assert!(false),
    }
}

#[test]
fn test_add_remove_addrs() {
    let mut test_pinger = Pinger::new(None, None);
    let a = addr_of("127.0.0.1");
    test_pinger.add_ipaddr(a, 0);
    assert_eq!(test_pinger.get_target_count(), 1);
    assert!(test_pinger.contains_target(IpAddress::V4(LOCALHOST)));

    test_pinger.remove_ipaddr(a);
    assert_eq!(test_pinger.get_target_count(), 0);
    assert_eq!(test_pinger.contains_target(IpAddress::V4(LOCALHOST)), false);
}

#[test]
fn test_stop() {
    let mut test_pinger = Pinger::new(None, None);
    assert_eq!(test_pinger.is_stopped(), false);
    test_pinger.stop_pinger();
    assert_eq!(test_pinger.is_stopped(), true);
}

/// An echo reply to `request`: the same bytes with type 0.
fn reply_to(request: &[u8]) -> Vec<u8> {
    let mut r = request.to_vec();
    r[0] = 0;
    r
}

#[test]
fn test_integration() {
    // One round against three targets, two of which answer.
    let mut test_pinger = Pinger::new(None, None);
    let test_addrs = vec!["127.0.0.1", "7.7.7.7", "::1"];
    for target in test_addrs.iter() {
        let a = if target.contains(':') { IpAddress::V6(1) } else { addr_of(target) };
        test_pinger.add_ipaddr(a, 0);
    }
    assert_eq!(test_pinger.ping_once(), RunPlan::Rounds(1));
    assert!(test_pinger.is_stopped());
    assert!(test_pinger.next_round(RunPlan::Rounds(1), 0));
    let timer_start: u64 = 1_000;
    let order = test_pinger.round_order();
    assert_eq!(order, vec![IpAddress::V4(0x0707_0707), IpAddress::V4(LOCALHOST), IpAddress::V6(1)]);
    let mut packets = vec![];
    for (k, a) in order.iter().enumerate() {
        assert!(test_pinger.can_send_echo(*a));
        packets.push(test_pinger.prepare_echo(*a, timer_start + k as u64));
    }
    let mut results: Vec<PingResult> = vec![];
    // 127.0.0.1 answers over IPv4.
    match read_reply_v4(&reply_to(&packets[1])) {
        ReplyReading::EchoReply { identifier, sequence_number } => {
            let r = make_received_ping(IpAddress::V4(LOCALHOST), identifier, sequence_number, timer_start, 5_000);
            match test_pinger.handle_reply(r) {
                ReplyOutcome::Matched(res) => results.push(res),
                _ => assert!(false),
            }
        }
        _ => assert!(false),
    }
    // ::1 answers over IPv6.
    match read_reply_v6(&[129, 0, 0, 0]) {
        ReplyReading::EchoReply { identifier, sequence_number } => {
            let r = make_received_ping(IpAddress::V6(1), identifier, sequence_number, timer_start, 6_000);
            match test_pinger.handle_reply(r) {
                ReplyOutcome::Matched(res) => results.push(res),
                _ => assert!(false),
            }
        }
        _ => assert!(false),
    }
    assert!(!test_pinger.round_timed_out(1_000));
    results.extend(test_pinger.idle_results());
    assert!(!test_pinger.next_round(RunPlan::Rounds(1), 1));
    assert_eq!(results.len(), test_addrs.len());
    for result in results.iter() {
        match result {
            PingResult::Idle { addr } => {
                assert_eq!(IpAddress::V4(0x0707_0707), *addr);
            }
            PingResult::Receive { addr, rtt: _, .. } => {
                if *addr == IpAddress::V6(1) || *addr == IpAddress::V4(LOCALHOST) {
                    assert!(true)
                } else {
                    assert!(false)
                }
            }
        }
    }
}

#[test]
fn test_ping() {
    let mut p = Ping::new(addr_of("127.0.0.1"), 0);
    assert_eq!(p.get_sequence_number(), 0);
    assert!(p.get_identifier() > 0);
    for _ in 0..1000 {
        assert_ne!(Ping::new(IpAddress::V4(9), 0).get_identifier(), 0);
    }

    p.increment_sequence_number();
    assert_eq!(p.get_sequence_number(), 1);
}

#[test]
fn pinger_defaults() {
    let p = Pinger::new(None, None);
    assert_eq!(p.get_max_rtt_ms(), DEFAULT_MAX_RTT_MS);
    assert_eq!(p.get_max_rtt_ms(), 2000);
    assert_eq!(p.get_size(), DEFAULT_PACKET_SIZE);
    assert_eq!(p.get_size(), 16);
    assert_eq!(p.get_target_count(), 0);
    assert!(p.round_order().is_empty());
    assert!(p.idle_results().is_empty());
}

#[test]
fn ipv6_target_identifier_is_zero() {
    let p = Ping::new(IpAddress::V6(1), 42);
    assert_eq!(p.get_identifier(), 0);
    assert_eq!(p.get_sequence_number(), 0);
    assert!(!p.seen);
    assert_eq!(p.send_time, 42);
    let q = Ping::with_identifier(IpAddress::V4(3), 77, 9);
    assert_eq!(q.identifier, 77);
    assert_eq!(q.sequence_number, 0);
}

#[test]
fn add_then_remove_restores_targets() {
    let mut p = Pinger::new(None, None);
    p.add_ipaddr(IpAddress::V4(10), 0);
    p.add_ipaddr(IpAddress::V6(10), 0);
    assert_eq!(p.get_target_count(), 2);
    p.add_ipaddr(IpAddress::V4(20), 0);
    p.remove_ipaddr(IpAddress::V4(20));
    assert_eq!(p.get_target_count(), 2);
    assert!(p.contains_target(IpAddress::V4(10)));
    assert!(p.contains_target(IpAddress::V6(10)));
    assert!(!p.contains_target(IpAddress::V4(20)));
    // Removing an absent address changes nothing.
    p.remove_ipaddr(IpAddress::V4(99));
    assert_eq!(p.get_target_count(), 2);
}

#[test]
fn adding_twice_counts_once() {
    let mut p = Pinger::new(None, None);
    p.add_ipaddr(IpAddress::V4(5), 0);
    p.add_ipaddr(IpAddress::V4(5), 7);
    assert_eq!(p.get_target_count(), 1);
    assert_eq!(p.get_target(IpAddress::V4(5)).unwrap().send_time, 7);
    assert_eq!(p.get_target(IpAddress::V4(5)).unwrap().addr, IpAddress::V4(5));
    assert!(p.get_target(IpAddress::V4(6)).is_none());
}

#[test]
fn run_pinger_plans_and_stop_flag() {
    let mut p = Pinger::new(None, None);
    assert_eq!(p.run_pinger(0), RunPlan::Continuous);
    assert!(!p.is_stopped());
    assert_eq!(p.run_pinger(1), RunPlan::Rounds(1));
    assert!(p.is_stopped());
    assert_eq!(p.run_pinger(4), RunPlan::Rounds(4));
    assert!(!p.is_stopped());
    assert_eq!(p.ping_once(), RunPlan::Rounds(1));
    assert!(p.is_stopped());
}

#[test]
fn stop_ends_continuous_rounds() {
    let mut p = Pinger::new(None, None);
    let plan = p.run_pinger(0);
    assert_eq!(plan, RunPlan::Continuous);
    assert!(p.next_round(plan, 0));
    assert!(p.next_round(plan, 1000));
    p.stop_pinger();
    assert!(!p.next_round(plan, 0));
    assert!(!p.next_round(plan, 1000));
    // A counted run is not cut short by the flag.
    assert!(p.next_round(RunPlan::Rounds(3), 2));
    assert!(!p.next_round(RunPlan::Rounds(3), 3));
}

#[test]
fn round_order_is_ascending_v4_then_v6() {
    let mut p = Pinger::new(None, None);
    for a in [IpAddress::V6(3), IpAddress::V4(9), IpAddress::V6(1), IpAddress::V4(2)] {
        p.add_ipaddr(a, 0);
    }
    assert_eq!(
        p.round_order(),
        vec![IpAddress::V4(2), IpAddress::V4(9), IpAddress::V6(1), IpAddress::V6(3)]
    );
}

#[test]
fn round_timeout_boundary() {
    let p = Pinger::new(Some(2000), None);
    assert!(!p.round_timed_out(2_000_000_000));
    assert!(p.round_timed_out(2_000_000_001));
    let q = Pinger::new(Some(0), None);
    assert!(!q.round_timed_out(0));
    assert!(q.round_timed_out(1));
}

#[test]
fn prepare_echo_advances_sequence_and_builds_packet() {
    let mut p = Pinger::new(None, Some(16));
    p.add_ipaddr(IpAddress::V4(LOCALHOST), 0);
    let id = p.get_target(IpAddress::V4(LOCALHOST)).unwrap().identifier;
    let pkt = p.prepare_echo(IpAddress::V4(LOCALHOST), 500);
    let t = p.get_target(IpAddress::V4(LOCALHOST)).unwrap();
    assert_eq!(t.sequence_number, 1);
    assert_eq!(t.send_time, 500);
    assert!(!t.seen);
    assert_eq!(pkt.len(), 8 + 16);
    assert_eq!(pkt[0], 8);
    assert_eq!(pkt[4], (id >> 8) as u8);
    assert_eq!(pkt[5], (id & 0xff) as u8);
    assert_eq!(pkt[6], 0);
    assert_eq!(pkt[7], 1);
    let pkt2 = p.prepare_echo(IpAddress::V4(LOCALHOST), 900);
    assert_eq!(pkt2[7], 2);
    assert_eq!(p.get_target(IpAddress::V4(LOCALHOST)).unwrap().sequence_number, 2);
}

#[test]
fn ipv6_echo_keeps_sequence() {
    let mut p = Pinger::new(None, None);
    p.add_ipaddr(IpAddress::V6(1), 0);
    let pkt = p.prepare_echo(IpAddress::V6(1), 10);
    assert_eq!(pkt.len(), 8 + 16);
    assert_eq!(pkt[0], 128);
    assert_eq!(p.get_target(IpAddress::V6(1)).unwrap().sequence_number, 0);
}

#[test]
fn can_send_echo_checks_size_and_target() {
    let mut p = Pinger::new(None, Some(0));
    p.add_ipaddr(IpAddress::V4(1), 0);
    p.add_ipaddr(IpAddress::V6(1), 0);
    assert!(p.can_send_echo(IpAddress::V4(1)));
    assert!(p.can_send_echo(IpAddress::V6(1)));
    assert!(!p.can_send_echo(IpAddress::V4(2)));
    assert_eq!(p.prepare_echo(IpAddress::V4(1), 0).len(), 8);
    let mut edge = Pinger::new(None, Some(131_063));
    edge.add_ipaddr(IpAddress::V4(1), 0);
    assert!(edge.can_send_echo(IpAddress::V4(1)));
    let mut big = Pinger::new(None, Some(131_064));
    big.add_ipaddr(IpAddress::V4(1), 0);
    big.add_ipaddr(IpAddress::V6(1), 0);
    assert!(!big.can_send_echo(IpAddress::V4(1)));
    assert!(!big.can_send_echo(IpAddress::V6(1)));
}

#[test]
fn reply_matching_outcomes() {
    let mut p = Pinger::new(None, None);
    p.add_ipaddr(IpAddress::V4(1), 0);
    let id = p.get_target(IpAddress::V4(1)).unwrap().identifier;
    p.prepare_echo(IpAddress::V4(1), 100);
    // A stranger's reply is dropped.
    let stranger = make_received_ping(IpAddress::V4(2), id, 1, 0, 10);
    assert_eq!(p.handle_reply(stranger), ReplyOutcome::NotTarget);
    // A stale sequence number does not match.
    let stale = make_received_ping(IpAddress::V4(1), id, 0, 0, 10);
    assert_eq!(
        p.handle_reply(stale),
        ReplyOutcome::Mismatch { expected_identifier: id, expected_sequence: 1 }
    );
    assert!(!p.get_target(IpAddress::V4(1)).unwrap().seen);
    assert_eq!(p.idle_results(), vec![PingResult::Idle { addr: IpAddress::V4(1) }]);
    // The right reply matches and the target is no longer idle.
    let good = make_received_ping(IpAddress::V4(1), id, 1, 50, 350);
    assert_eq!(
        p.handle_reply(good),
        ReplyOutcome::Matched(PingResult::Receive { addr: IpAddress::V4(1), rtt: 300, recv_duration: 250 })
    );
    assert!(p.get_target(IpAddress::V4(1)).unwrap().seen);
    assert!(p.idle_results().is_empty());
}

#[test]
fn received_ping_rtt_saturates() {
    let r = make_received_ping(IpAddress::V4(1), 3, 4, 100, 50);
    assert_eq!(r.rtt, 0);
    assert_eq!(r.recv_time, 50);
    let s = make_received_ping(IpAddress::V4(1), 3, 4, 100, 150);
    assert_eq!(s.rtt, 50);
    assert_eq!(s.identifier, 3);
    assert_eq!(s.sequence_number, 4);
}

#[test]
fn result_address() {
    assert_eq!(PingResult::Idle { addr: IpAddress::V4(7) }.address(), IpAddress::V4(7));
    assert_eq!(
        PingResult::Receive { addr: IpAddress::V6(7), rtt: 1, recv_duration: 2 }.address(),
        IpAddress::V6(7)
    );
    assert!(IpAddress::V4(1).is_ipv4());
    assert!(!IpAddress::V4(1).is_ipv6());
    assert!(IpAddress::V6(1).is_ipv6());
}
