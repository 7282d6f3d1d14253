use pingmu::addr::IpAddress;
use pingmu::ipv4::{ip_range_to_list, ip_str_to_hex, ipv4_to_string, parse_ip_range};
use pingmu::targets::{
    cidr_address_list, cidr_host_list, expand_cli_target, gather_targets, parse_ipv4_addr,
    parse_str_cidr_or_range_to_ip_list, trim_text, try_target_list, Gathered, TargetListError,
};
use pingmu::text::{chars_of, split_chars_n};

fn text_of(v: &Vec<char>) -> String {
    v.iter().collect()
}

#[test]
fn test_a() {
    let a: Vec<String> = split_chars_n(&chars_of("11.2.1.1"), '.', 4).iter().map(text_of).collect();
    let ip_to_arr: [String; 4] = a.try_into().unwrap();
    println!("{:?}", ip_to_arr);
    assert_eq!(ip_to_arr, ["11", "2", "1", "1"]);
    let arr: [&str; 4] = [""; 4];
    println!("{:?}", arr);
}

#[test]
fn splitn_keeps_rest_in_last_part() {
    let parts: Vec<String> = split_chars_n(&chars_of("1.2.3.4.5"), '.', 4).iter().map(text_of).collect();
    assert_eq!(parts, vec!["1", "2", "3", "4.5"]);
    let short: Vec<String> = split_chars_n(&chars_of("1.2"), '.', 4).iter().map(text_of).collect();
    assert_eq!(short, vec!["1", "2"]);
}

#[test]
fn ip_range_short_upper_end() {
    assert_eq!(ip_range_to_list("192.168.1.1-2"), vec!["192.168.1.1", "192.168.1.2"]);
}

#[test]
fn ip_range_full_upper_end_crosses_octet() {
    assert_eq!(
        ip_range_to_list("10.0.0.254-10.0.1.1"),
        vec!["10.0.0.254", "10.0.0.255", "10.0.1.0", "10.0.1.1"]
    );
    assert_eq!(ip_range_to_list("192.168.1.1-192.168.1.2"), vec!["192.168.1.1", "192.168.1.2"]);
    assert_eq!(ip_range_to_list("1.2.3.4-5.6"), ip_range_to_list("1.2.3.4-1.2.5.6"));
    assert_eq!(ip_range_to_list("1.2.3.4-5.6").len(), 2 * 256 + 3);
}

#[test]
fn ip_range_reversed_is_empty() {
    assert!(ip_range_to_list("1.1.1.5-3").is_empty());
    assert_eq!(ip_range_to_list("1.1.1.5-5"), vec!["1.1.1.5"]);
}

#[test]
fn ip_range_bounds_reading() {
    assert_eq!(parse_ip_range("192.168.2.2-3"), Some((3232236034, 3232236035)));
    assert_eq!(parse_ip_range("1.2.3-4"), None);
    assert_eq!(parse_ip_range("1.2.3.256-4"), None);
    assert_eq!(parse_ip_range("1.2.3.4"), None);
    assert_eq!(parse_ip_range("1.2.3.4-x"), None);
}

#[test]
fn ip_range_top_of_space() {
    assert_eq!(ip_range_to_list("255.255.255.254-255"), vec!["255.255.255.254", "255.255.255.255"]);
}

#[test]
fn ip_str_to_hex_example() {
    assert_eq!(ip_str_to_hex("192.168.1.64"), "c0a80140");
    assert_eq!(ip_str_to_hex("0.0.0.0"), "00000000");
    assert_eq!(ip_str_to_hex("10.255"), "0aff");
    let h = ip_str_to_hex("10.0.0.1");
    assert_eq!(h, "0a000001");
    assert_eq!(u32::from_str_radix(&h, 16), Ok(0x0a00_0001));
    for x in [0u32, 0x7f00_0001, 0xc0a8_0140, 0xffff_ffff, 0x0102_0304] {
        let hx = ip_str_to_hex(&ipv4_to_string(x));
        assert_eq!(hx, format!("{:08x}", x));
    }
}

#[test]
fn ipv4_text_roundtrip_examples() {
    for x in [0u32, 1, 255, 256, 0x7f00_0001, 0xc0a8_0140, 0xffff_ffff] {
        let t = ipv4_to_string(x);
        assert_eq!(parse_ipv4_addr(&chars_of(&t)), Some(x));
    }
    assert_eq!(ipv4_to_string(0xc0a8_0140), "192.168.1.64");
}

#[test]
fn ipv4_address_grammar() {
    assert_eq!(parse_ipv4_addr(&chars_of("1.2.3.4")), Some(0x0102_0304));
    assert_eq!(parse_ipv4_addr(&chars_of("01.2.3.4")), None);
    assert_eq!(parse_ipv4_addr(&chars_of("1.2.3.256")), None);
    assert_eq!(parse_ipv4_addr(&chars_of("1.2.3")), None);
    assert_eq!(parse_ipv4_addr(&chars_of("1.2.3.4.5")), None);
    assert_eq!(parse_ipv4_addr(&chars_of("+1.2.3.4")), None);
    assert_eq!(parse_ipv4_addr(&chars_of("1..3.4")), None);
}

#[test]
fn trim_removes_unicode_white_space() {
    assert_eq!(trim_text("  a b \t\n"), "a b");
    assert_eq!(trim_text("\u{3000}x\u{a0}"), "x");
    assert_eq!(trim_text("   "), "");
    assert_eq!(trim_text(""), "");
}

#[test]
fn cidr_skips_network_and_broadcast() {
    let v = parse_str_cidr_or_range_to_ip_list("192.168.1.0/30");
    assert_eq!(v, vec![IpAddress::V4(0xc0a8_0101), IpAddress::V4(0xc0a8_0102)]);
    // The block of any address in it.
    let w = parse_str_cidr_or_range_to_ip_list(" 192.168.1.3/30 ");
    assert_eq!(w, v);
    let c = parse_str_cidr_or_range_to_ip_list("10.0.0.0/24");
    assert_eq!(c.len(), 254);
    assert_eq!(c[0], IpAddress::V4(0x0a00_0001));
    assert_eq!(c[253], IpAddress::V4(0x0a00_00fe));
}

#[test]
fn cidr_small_blocks_have_no_hosts() {
    assert!(parse_str_cidr_or_range_to_ip_list("192.168.1.0/31").is_empty());
    assert!(parse_str_cidr_or_range_to_ip_list("192.168.1.7/32").is_empty());
}

#[test]
fn cidr_ipv6_keeps_last_address() {
    let v = parse_str_cidr_or_range_to_ip_list("fe80::/126");
    let base: u128 = 0xfe80u128 << 112;
    assert_eq!(v, vec![IpAddress::V6(base + 1), IpAddress::V6(base + 2), IpAddress::V6(base + 3)]);
    assert!(parse_str_cidr_or_range_to_ip_list("::1/128").is_empty());
}

#[test]
fn cidr_host_list_direct() {
    assert_eq!(cidr_host_list(true, 0x0a00_0005, 29).len(), 6);
    assert_eq!(cidr_host_list(true, 0x0a00_0005, 29)[0], IpAddress::V4(0x0a00_0001));
    assert_eq!(cidr_host_list(false, 7, 127), vec![IpAddress::V6(7)]);
    assert_eq!(cidr_address_list(true, 0x0a00_0005, 30), vec![
        IpAddress::V4(0x0a00_0004),
        IpAddress::V4(0x0a00_0005),
        IpAddress::V4(0x0a00_0006),
        IpAddress::V4(0x0a00_0007),
    ]);
}

#[test]
fn target_list_range_and_address() {
    assert_eq!(
        parse_str_cidr_or_range_to_ip_list("192.168.1.1-2"),
        vec![IpAddress::V4(0xc0a8_0101), IpAddress::V4(0xc0a8_0102)]
    );
    assert_eq!(
        parse_str_cidr_or_range_to_ip_list("\t8.8.8.8\n"),
        vec![IpAddress::V4(0x0808_0808)]
    );
    assert!(parse_str_cidr_or_range_to_ip_list("hostname").is_empty());
}

#[test]
fn target_list_errors() {
    assert!(matches!(try_target_list("1.2.3.x-5"), Err(TargetListError::Range)));
    assert!(matches!(try_target_list("1.2.3.4/33"), Err(TargetListError::Network(_))));
    assert!(matches!(try_target_list("1.2.3.256"), Err(TargetListError::Address)));
    assert!(matches!(try_target_list("::ffff:1.2.3.4"), Err(TargetListError::Address)));
    assert_eq!(try_target_list(" 10.0.0.1 ").unwrap(), vec![IpAddress::V4(0x0a00_0001)]);
    assert!(try_target_list("::1").unwrap().is_empty());
}

#[test]
fn cli_target_lists_every_block_address() {
    let v = expand_cli_target("192.168.1.0/30").unwrap();
    assert_eq!(v.len(), 4);
    assert_eq!(v[0], IpAddress::V4(0xc0a8_0100));
    assert_eq!(v[3], IpAddress::V4(0xc0a8_0103));
    assert_eq!(expand_cli_target("10.0.0.1-3").unwrap().len(), 3);
    assert_eq!(expand_cli_target(" 127.0.0.1 ").unwrap(), vec![IpAddress::V4(0x7f00_0001)]);
    assert!(matches!(expand_cli_target("localhost"), Err(TargetListError::Unrecognized)));
    assert!(matches!(expand_cli_target("1.2.3"), Err(TargetListError::Address)));
    assert!(matches!(expand_cli_target("a/b"), Err(TargetListError::Network(_))));
}

#[test]
fn short_range_end_lists_as_full_end() {
    assert_eq!(ip_range_to_list("192.168.1.1-2"), ip_range_to_list("192.168.1.1-192.168.1.2"));
    assert_eq!(ip_range_to_list("10.0.0.250-1.3"), ip_range_to_list("10.0.0.250-10.0.1.3"));
    assert_eq!(ip_range_to_list("10.0.0.250-0.1.3"), ip_range_to_list("10.0.0.250-10.0.1.3"));
}

fn texts(v: &[&str]) -> Vec<String> {
    v.iter().map(|s| s.to_string()).collect()
}

#[test]
fn gathering_targets() {
    match gather_targets(&texts(&["10.0.0.1-2", " 192.168.1.0/30 ", "8.8.8.8"]), false) {
        Gathered::Targets(v) => assert_eq!(
            v,
            vec![
                IpAddress::V4(0x0a00_0001),
                IpAddress::V4(0x0a00_0002),
                IpAddress::V4(0xc0a8_0101),
                IpAddress::V4(0xc0a8_0102),
                IpAddress::V4(0x0808_0808),
            ]
        ),
        _ => assert!(false),
    }
    assert!(matches!(gather_targets(&texts(&["5.5.5.5-5.5.5.1", "abc"]), false), Gathered::NoTarget));
    assert!(matches!(gather_targets(&texts(&[]), false), Gathered::NoTarget));
    assert!(matches!(
        gather_targets(&texts(&["1.1.1.1", "1.2.3.256", "x/y"]), false),
        Gathered::Refused { index: 1, error: TargetListError::Address }
    ));
    assert!(matches!(
        gather_targets(&texts(&["1.1.1.1", "abc"]), true),
        Gathered::Refused { index: 1, error: TargetListError::Unrecognized }
    ));
    match gather_targets(&texts(&["10.0.0.0/31"]), true) {
        Gathered::Targets(v) => assert_eq!(v, vec![IpAddress::V4(0x0a00_0000), IpAddress::V4(0x0a00_0001)]),
        _ => assert!(false),
    }
}
