use pingmu::packet::{
    build_echo_request, build_echo_request_v6, echo_request_frame_bytes, echo_request_v6_frame_bytes,
    echo_request_with_checksum, put_checksum, read_reply_v4, read_reply_v6, ReplyReading,
};

/// The one's complement of the one's complement sum of the 16-bit words.
fn ones_complement_checksum(b: &[u8]) -> u16 {
    let mut sum: u32 = 0;
    let mut i = 0;
    while i + 1 < b.len() {
        sum += ((b[i] as u32) << 8) | b[i + 1] as u32;
        i += 2;
    }
    if i < b.len() {
        sum += (b[i] as u32) << 8;
    }
    while sum >> 16 != 0 {
        sum = (sum & 0xffff) + (sum >> 16);
    }
    !(sum as u16)
}

#[test]
fn echo_request_bytes() {
    let p = build_echo_request(8, 0x1234, 1);
    assert_eq!(
        p,
        vec![8, 0, 0xe5, 0xca, 0x12, 0x34, 0x00, 0x01, 0, 0, 0, 0, 0, 0, 0, 0]
    );
    let q = build_echo_request(64, 0xbeef, 0xfffe);
    assert_eq!(q.len(), 8 + 64);
    let mut zeroed = q.clone();
    zeroed[2] = 0;
    zeroed[3] = 0;
    let c = ones_complement_checksum(&zeroed);
    assert_eq!(q[2], (c >> 8) as u8);
    assert_eq!(q[3], (c & 0xff) as u8);
    // A packet with its checksum sums to all ones.
    assert_eq!(ones_complement_checksum(&q), 0);
}

#[test]
fn echo_request_odd_size() {
    let p = build_echo_request(1, 1, 2);
    assert_eq!(p.len(), 9);
    assert_eq!(build_echo_request(0, 1, 2).len(), 8);
    assert_eq!(ones_complement_checksum(&p), 0);
}

#[test]
fn echo_request_v6_bytes() {
    let p = build_echo_request_v6(8);
    assert_eq!(p.len(), 16);
    assert_eq!(build_echo_request_v6(0).len(), 8);
    assert_eq!(p[0], 128);
    assert_eq!(p[1], 0);
    assert_eq!((p[2], p[3]), (0x7f, 0xff));
    assert!(p[4..].iter().all(|b| *b == 0));
}

#[test]
fn frames_and_checksum_field() {
    let f = echo_request_frame_bytes(0, 0x0102, 0x0304);
    assert_eq!(f, vec![8, 0, 0, 0, 1, 2, 3, 4]);
    assert_eq!(echo_request_frame_bytes(2, 0x0102, 0x0304), vec![8, 0, 0, 0, 1, 2, 3, 4, 0, 0]);
    let g = echo_request_v6_frame_bytes(0);
    assert_eq!(g, vec![128, 0, 0, 0, 0, 0, 0, 0]);
    let mut h = g.clone();
    put_checksum(&mut h, 0xabcd);
    assert_eq!(h, vec![128, 0, 0xab, 0xcd, 0, 0, 0, 0]);
    assert_eq!(echo_request_with_checksum(0, 0x0102, 0x0304, 0x1111), vec![8, 0, 0x11, 0x11, 1, 2, 3, 4]);
}

#[test]
fn reading_ipv4_replies() {
    assert_eq!(
        read_reply_v4(&[0, 0, 0x55, 0x55, 0x12, 0x34, 0x00, 0x07]),
        ReplyReading::EchoReply { identifier: 0x1234, sequence_number: 7 }
    );
    assert_eq!(read_reply_v4(&[3, 1, 0, 0, 0, 0, 0, 0, 9]), ReplyReading::OtherType(3));
    assert_eq!(read_reply_v4(&[0, 0, 0, 0, 0, 0, 0]), ReplyReading::Short);
}

#[test]
fn reading_ipv6_replies() {
    assert_eq!(read_reply_v6(&[129, 0, 1, 2]), ReplyReading::EchoReply { identifier: 0, sequence_number: 0 });
    assert_eq!(read_reply_v6(&[128, 0]), ReplyReading::OtherType(128));
    assert_eq!(read_reply_v6(&[]), ReplyReading::Short);
}
