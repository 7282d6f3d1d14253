use pingmu::addr::IpAddress;
use pingmu::fixed::ms_hundredths_of;
use pingmu::ping::PingResult;
use pingmu::save::{
    collect_delays, delay_cells, delay_stats, find_group, group_by_address, result_delay, run_totals_of, AddressDelays,
    Delay, DelayStats, PingRecord, RunTotals, TotalsError,
};

fn float_cell(micros: u64) -> String {
    format!("{:.2}", micros as f64 / 1000.0)
}

#[test]
fn delay_csv_matches_float_formatting_small() {
    for us in 0u64..200_000 {
        assert_eq!(Delay::DelayTime(us * 1000).to_csv(), float_cell(us), "micros {}", us);
    }
}

#[test]
fn delay_csv_matches_float_formatting_large() {
    let mut us: u64 = 1;
    while us < (1u64 << 54) {
        for d in [0u64, 1, 2, 3, 4, 5, 6, 7, 9, 11, 15, 995, 1005, 4995] {
            let m = us + d;
            if m < (1u64 << 54) {
                assert_eq!(Delay::DelayTime(m * 1000).to_csv(), float_cell(m), "micros {}", m);
            }
        }
        us = us * 3 + 7;
    }
    for m in [
        (1u64 << 53) - 1,
        1u64 << 53,
        (1u64 << 53) + 1,
        (1u64 << 53) + 3,
        (1u64 << 54) - 1,
        (1u64 << 54) + 2,
        (1u64 << 54) + 6,
        u64::MAX / 1000,
        18_446_744_073_709_551,
        9_999_999_999_995,
        123_456_789_012_345,
    ] {
        assert_eq!(Delay::DelayTime(m * 1000).to_csv(), float_cell(m), "micros {}", m);
    }
}

#[test]
fn delay_csv_drops_sub_microseconds() {
    assert_eq!(Delay::DelayTime(999).to_csv(), "0.00");
    assert_eq!(Delay::DelayTime(1_234_999).to_csv(), "1.23");
    assert_eq!(Delay::DelayTime(5_000).to_csv(), "0.01");
    assert_eq!(Delay::DelayTime(15_000).to_csv(), "0.01");
    assert_eq!(Delay::DelayTime(100_000_000).to_csv(), "100.00");
    assert_eq!(Delay::Idle.to_csv(), "TMOut");
}

#[test]
fn ms_hundredths_examples() {
    assert_eq!(ms_hundredths_of(0), 0);
    assert_eq!(ms_hundredths_of(1234), 123);
    assert_eq!(ms_hundredths_of(1235), 124);
    assert_eq!(ms_hundredths_of(125), 12);
}

#[test]
fn delay_display_text() {
    assert_eq!(Delay::Idle.to_display_string(), "idle");
    assert_eq!(Delay::DelayTime(200_000).to_display_string(), "0.20ms");
    assert_eq!(Delay::DelayTime(100_000_000).to_display_string(), "100.00ms");
    assert_eq!(
        Delay::DelayTime(1_500_000).to_display_string(),
        format!("{:.2}ms", 1500u64 as f64 / 1000.0)
    );
}

#[test]
fn ping_record_display() {
    let m = PingRecord {
        ipaddress: "192.168.1.1".to_string(),
        delay: vec![Delay::Idle, Delay::DelayTime(100_000_000), Delay::DelayTime(200_000_000)],
    };
    assert_eq!(m.to_display_string(), "192.168.1.1\t  [ idle, 100.00ms, 200.00ms,]\n");
    let empty = PingRecord { ipaddress: "x".to_string(), delay: vec![] };
    assert_eq!(empty.to_display_string(), "x\t  []\n");
}

fn sample_results() -> Vec<PingResult> {
    let a = IpAddress::V4(1);
    let b = IpAddress::V4(2);
    vec![
        PingResult::Idle { addr: a },
        PingResult::Receive { addr: b, rtt: 5, recv_duration: 1_000_000 },
        PingResult::Receive { addr: a, rtt: 5, recv_duration: 2_500_000 },
        PingResult::Receive { addr: b, rtt: 5, recv_duration: 3_000_000 },
        PingResult::Idle { addr: a },
    ]
}

#[test]
fn delays_by_address() {
    let r = sample_results();
    assert_eq!(result_delay(&r[0]), Delay::Idle);
    assert_eq!(result_delay(&r[1]), Delay::DelayTime(1_000_000));
    assert_eq!(
        collect_delays(&r, IpAddress::V4(1)),
        vec![Delay::Idle, Delay::DelayTime(2_500_000), Delay::Idle]
    );
    assert!(collect_delays(&r, IpAddress::V4(3)).is_empty());
}

#[test]
fn grouping_by_address() {
    let r = sample_results();
    let g = group_by_address(&r);
    assert_eq!(g.len(), 2);
    let ia = find_group(&g, IpAddress::V4(1)).unwrap();
    let ib = find_group(&g, IpAddress::V4(2)).unwrap();
    assert_eq!(g[ia].delays, vec![Delay::Idle, Delay::DelayTime(2_500_000), Delay::Idle]);
    assert_eq!(g[ib].delays, vec![Delay::DelayTime(1_000_000), Delay::DelayTime(3_000_000)]);
    assert!(find_group(&g, IpAddress::V6(1)).is_none());
    assert!(group_by_address(&vec![]).is_empty());
}

#[test]
fn stats_of_delays() {
    let d = vec![Delay::Idle, Delay::DelayTime(2_500_000), Delay::DelayTime(700_999), Delay::Idle];
    assert_eq!(
        delay_stats(&d),
        DelayStats { replies: 2, timeouts: 2, min_micros: Some(700), max_micros: Some(2500) }
    );
    assert_eq!(
        delay_stats(&vec![Delay::Idle]),
        DelayStats { replies: 0, timeouts: 1, min_micros: None, max_micros: None }
    );
}

#[test]
fn totals_count_every_result() {
    let mut r = sample_results();
    r.push(PingResult::Idle { addr: IpAddress::V4(9) });
    let g = group_by_address(&r);
    let ips = vec![IpAddress::V4(1), IpAddress::V4(2), IpAddress::V4(9)];
    let t = run_totals_of(&g, &ips).unwrap();
    assert_eq!(
        t,
        RunTotals { lost_ips: 1, lost_packets: 3, answered_packets: 3, max_micros: Some(3000), address_count: 3 }
    );
    assert_eq!(t.lost_packets + t.answered_packets, r.len() as u64);
}

#[test]
fn totals_missing_address() {
    let g = group_by_address(&sample_results());
    let ips = vec![IpAddress::V4(1), IpAddress::V4(7), IpAddress::V4(8)];
    assert_eq!(run_totals_of(&g, &ips), Err(TotalsError::MissingAddress(IpAddress::V4(7))));
    let none: Vec<AddressDelays> = vec![];
    assert_eq!(
        run_totals_of(&none, &vec![]),
        Ok(RunTotals { lost_ips: 0, lost_packets: 0, answered_packets: 0, max_micros: None, address_count: 0 })
    );
}

#[test]
fn csv_cells_of_delays() {
    let d = vec![Delay::Idle, Delay::DelayTime(200_000), Delay::DelayTime(140_000)];
    assert_eq!(delay_cells(&d), vec!["TMOut", "0.20", "0.14"]);
    assert!(delay_cells(&vec![]).is_empty());
}
