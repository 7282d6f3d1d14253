//! ICMP echo packets: the echo request sent to each IPv4 or IPv6 target,
//! and the reading of echo replies.
//!
//! An ICMP echo message is laid out as: type (1 byte), code (1 byte),
//! checksum (2 bytes, big-endian), identifier (2 bytes), sequence number
//! (2 bytes), then the payload. Requests here carry a zero payload of the
//! configured size after the eight header bytes.

use vstd::prelude::*;
use vstd::arithmetic::div_mod::{lemma_fundamental_div_mod, lemma_mod_multiples_vanish};

verus! {

/// ICMP type of an IPv4 echo request.
pub const ICMP_ECHO_REQUEST: u8 = 8;

/// ICMP type of an IPv4 echo reply.
pub const ICMP_ECHO_REPLY: u8 = 0;

/// ICMPv6 type of an echo request.
pub const ICMPV6_ECHO_REQUEST: u8 = 128;

/// ICMPv6 type of an echo reply.
pub const ICMPV6_ECHO_REPLY: u8 = 129;

/// The header of an echo message: type, code, checksum, identifier and
/// sequence number.
pub const ECHO_HEADER_LEN: usize = 8;

/// Largest packet whose checksum is computed here (the sum of its 16-bit
/// words then fits in 32 bits).
pub const MAX_CHECKSUM_LEN: usize = 131071;

/// The `i`-th 16-bit big-endian word of `data`.
pub open spec fn word_at(data: Seq<u8>, i: int) -> nat {
    data[2 * i] as nat * 256 + data[2 * i + 1] as nat
}

/// The sum of the first `n` whole 16-bit words of `data`, word `skip` left
/// out.
pub open spec fn words_sum(data: Seq<u8>, skip: int, n: nat) -> nat
    decreases n,
{
    if n == 0 {
        0
    } else {
        words_sum(data, skip, (n - 1) as nat) + if n - 1 == skip { 0 } else { word_at(data, n - 1) }
    }
}

/// The sum of the 16-bit big-endian words of `data` (a last odd byte
/// counting as a high byte), word `skip` left out.
pub open spec fn be_word_sum(data: Seq<u8>, skip: int) -> nat {
    words_sum(data, skip, data.len() / 2) + if data.len() % 2 == 1 && data.len() / 2 != skip {
        data[data.len() - 1] as nat * 256
    } else {
        0
    }
}

/// A sum folded to 16 bits by adding its carries back in.
pub open spec fn fold16(s: nat) -> nat
    decreases s,
{
    if s < 65536 {
        s
    } else {
        fold16(s / 65536 + s % 65536)
    }
}

/// The Internet checksum that `pnet::util::checksum(data, skipword)`
/// computes: the one's complement of the folded sum of the 16-bit
/// big-endian words of `data`, with word `skipword` (the checksum field)
/// taken as zero; 0 for no data.
pub open spec fn internet_checksum(data: Seq<u8>, skipword: usize) -> u16 {
    if data.len() == 0 {
        0
    } else {
        (65535 - fold16(be_word_sum(data, skipword as int))) as u16
    }
}

/// Calls `pnet::util::checksum`. Claimed: the result is
/// `internet_checksum(data, skipword)`. Below 131072 bytes its 32-bit word
/// sum cannot overflow.
#[verifier::external_body]
fn pnet_checksum(data: &[u8], skipword: usize) -> (c: u16)
    requires
        data@.len() <= MAX_CHECKSUM_LEN,
    ensures
        c == internet_checksum(data@, skipword),
{
    pnet::util::checksum(data, skipword)
}

/// The high byte of a 16-bit value.
pub open spec fn hi(v: u16) -> u8 {
    (v / 256) as u8
}

/// The low byte of a 16-bit value.
pub open spec fn lo(v: u16) -> u8 {
    (v % 256) as u8
}

/// An IPv4 echo request with `payload` payload bytes before its checksum
/// is filled in: type 8, code 0, checksum 0, the identifier and sequence
/// number, zeros.
pub open spec fn echo_request_frame(payload: nat, identifier: u16, sequence: u16) -> Seq<u8> {
    Seq::new(
        payload + 8,
        |i: int|
            if i == 0 {
                ICMP_ECHO_REQUEST
            } else if i == 4 {
                hi(identifier)
            } else if i == 5 {
                lo(identifier)
            } else if i == 6 {
                hi(sequence)
            } else if i == 7 {
                lo(sequence)
            } else {
                0u8
            },
    )
}

/// An ICMPv6 echo request with `payload` payload bytes before its checksum
/// is filled in: type 128, then zeros (identifier and sequence number 0).
pub open spec fn echo_request_v6_frame(payload: nat) -> Seq<u8> {
    Seq::new(payload + 8, |i: int| if i == 0 { ICMPV6_ECHO_REQUEST } else { 0u8 })
}

/// A frame with the checksum `c` written big-endian at bytes 2 and 3.
pub open spec fn with_checksum(frame: Seq<u8>, c: u16) -> Seq<u8> {
    frame.update(2, hi(c)).update(3, lo(c))
}

/// The IPv4 echo request: its frame with the checksum of the frame.
pub open spec fn echo_request_packet(payload: nat, identifier: u16, sequence: u16) -> Seq<u8> {
    let frame = echo_request_frame(payload, identifier, sequence);
    with_checksum(frame, internet_checksum(frame, 1))
}

/// The ICMPv6 echo request: its frame with the checksum of the frame.
pub open spec fn echo_request_v6_packet(payload: nat) -> Seq<u8> {
    let frame = echo_request_v6_frame(payload);
    with_checksum(frame, internet_checksum(frame, 1))
}

/// Builds the frame of an IPv4 echo request with `payload` payload bytes
/// (checksum field zero).
pub fn echo_request_frame_bytes(payload: usize, identifier: u16, sequence: u16) -> (frame: Vec<u8>)
    requires
        payload + ECHO_HEADER_LEN <= MAX_CHECKSUM_LEN,
    ensures
        frame@ == echo_request_frame(payload as nat, identifier, sequence),
{
    let size = payload + ECHO_HEADER_LEN;
    let mut frame: Vec<u8> = Vec::new();
    let mut i: usize = 0;
    while i < size
        invariant
            i <= size,
            size == payload + 8,
            frame@ == echo_request_frame(payload as nat, identifier, sequence).subrange(0, i as int),
        decreases size - i,
    {
        let b: u8 = if i == 0 {
            ICMP_ECHO_REQUEST
        } else if i == 4 {
            (identifier / 256) as u8
        } else if i == 5 {
            (identifier % 256) as u8
        } else if i == 6 {
            (sequence / 256) as u8
        } else if i == 7 {
            (sequence % 256) as u8
        } else {
            0
        };
        frame.push(b);
        i = i + 1;
        assert(frame@ =~= echo_request_frame(payload as nat, identifier, sequence).subrange(0, i as int));
    }
    assert(frame@ =~= echo_request_frame(payload as nat, identifier, sequence));
    frame
}

/// Builds the frame of an ICMPv6 echo request with `payload` payload bytes
/// (checksum field zero).
pub fn echo_request_v6_frame_bytes(payload: usize) -> (frame: Vec<u8>)
    requires
        payload + ECHO_HEADER_LEN <= MAX_CHECKSUM_LEN,
    ensures
        frame@ == echo_request_v6_frame(payload as nat),
{
    let size = payload + ECHO_HEADER_LEN;
    let mut frame: Vec<u8> = Vec::new();
    let mut i: usize = 0;
    while i < size
        invariant
            i <= size,
            size == payload + 8,
            frame@ == echo_request_v6_frame(payload as nat).subrange(0, i as int),
        decreases size - i,
    {
        let b: u8 = if i == 0 { ICMPV6_ECHO_REQUEST } else { 0 };
        frame.push(b);
        i = i + 1;
        assert(frame@ =~= echo_request_v6_frame(payload as nat).subrange(0, i as int));
    }
    assert(frame@ =~= echo_request_v6_frame(payload as nat));
    frame
}

/// Writes the checksum `c` into a frame of at least four bytes.
pub fn put_checksum(frame: &mut Vec<u8>, c: u16)
    requires
        old(frame)@.len() >= 4,
    ensures
        final(frame)@ == with_checksum(old(frame)@, c),
{
    frame.set(2, (c / 256) as u8);
    frame.set(3, (c % 256) as u8);
}

/// The IPv4 echo request for the given checksum of its frame.
pub fn echo_request_with_checksum(payload: usize, identifier: u16, sequence: u16, checksum: u16) -> (packet: Vec<u8>)
    requires
        payload + ECHO_HEADER_LEN <= MAX_CHECKSUM_LEN,
    ensures
        packet@ == with_checksum(echo_request_frame(payload as nat, identifier, sequence), checksum),
{
    let mut packet = echo_request_frame_bytes(payload, identifier, sequence);
    put_checksum(&mut packet, checksum);
    packet
}

/// Builds the IPv4 echo request with `payload` payload bytes for an
/// identifier and a sequence number, checksum included.
pub fn build_echo_request(payload: usize, identifier: u16, sequence: u16) -> (packet: Vec<u8>)
    requires
        payload + ECHO_HEADER_LEN <= MAX_CHECKSUM_LEN,
    ensures
        packet@ == echo_request_packet(payload as nat, identifier, sequence),
{
    let frame = echo_request_frame_bytes(payload, identifier, sequence);
    let c = pnet_checksum(frame.as_slice(), 1);
    echo_request_with_checksum(payload, identifier, sequence, c)
}

/// The ICMPv6 echo request for the given checksum of its frame.
pub fn echo_request_v6_with_checksum(payload: usize, checksum: u16) -> (packet: Vec<u8>)
    requires
        payload + ECHO_HEADER_LEN <= MAX_CHECKSUM_LEN,
    ensures
        packet@ == with_checksum(echo_request_v6_frame(payload as nat), checksum),
{
    let mut packet = echo_request_v6_frame_bytes(payload);
    put_checksum(&mut packet, checksum);
    packet
}

/// Builds the ICMPv6 echo request with `payload` payload bytes, checksum
/// included.
pub fn build_echo_request_v6(payload: usize) -> (packet: Vec<u8>)
    requires
        payload + ECHO_HEADER_LEN <= MAX_CHECKSUM_LEN,
    ensures
        packet@ == echo_request_v6_packet(payload as nat),
{
    let frame = echo_request_v6_frame_bytes(payload);
    let c = pnet_checksum(frame.as_slice(), 1);
    echo_request_v6_with_checksum(payload, c)
}

/// What an incoming ICMP message is, for the pinger.
#[derive(Clone, Copy, Debug, PartialEq, Eq, Structural)]
pub enum ReplyReading {
    /// Too short to be an echo message; ignored.
    Short,
    /// An ICMP message of another type.
    OtherType(u8),
    /// An echo reply with its identifier and sequence number.
    EchoReply { identifier: u16, sequence_number: u16 },
}

/// The 16-bit big-endian value at bytes `i` and `i + 1`.
pub open spec fn be16(b: Seq<u8>, i: int) -> u16 {
    (b[i] as nat * 256 + b[i + 1] as nat) as u16
}

/// How an incoming IPv4 ICMP message reads: shorter than eight bytes it is
/// ignored; otherwise type 0 is an echo reply carrying the identifier
/// (bytes 4-5) and sequence number (bytes 6-7); any other type is reported
/// as such.
pub open spec fn reply_reading_v4(b: Seq<u8>) -> ReplyReading {
    if b.len() < 8 {
        ReplyReading::Short
    } else if b[0] != ICMP_ECHO_REPLY {
        ReplyReading::OtherType(b[0])
    } else {
        ReplyReading::EchoReply { identifier: be16(b, 4), sequence_number: be16(b, 6) }
    }
}

/// How an incoming ICMPv6 message reads: type 129 is an echo reply, which
/// carries no identifier or sequence number here (both read as zero); any
/// other type is reported as such; an empty message is ignored.
pub open spec fn reply_reading_v6(b: Seq<u8>) -> ReplyReading {
    if b.len() == 0 {
        ReplyReading::Short
    } else if b[0] != ICMPV6_ECHO_REPLY {
        ReplyReading::OtherType(b[0])
    } else {
        ReplyReading::EchoReply { identifier: 0, sequence_number: 0 }
    }
}

/// Reads an incoming IPv4 ICMP message.
pub fn read_reply_v4(bytes: &[u8]) -> (r: ReplyReading)
    ensures
        r == reply_reading_v4(bytes@),
{
    if bytes.len() < 8 {
        ReplyReading::Short
    } else if bytes[0] != ICMP_ECHO_REPLY {
        ReplyReading::OtherType(bytes[0])
    } else {
        let identifier = (bytes[4] as u16) * 256 + bytes[5] as u16;
        let sequence_number = (bytes[6] as u16) * 256 + bytes[7] as u16;
        ReplyReading::EchoReply { identifier, sequence_number }
    }
}

/// Reads an incoming ICMPv6 message.
pub fn read_reply_v6(bytes: &[u8]) -> (r: ReplyReading)
    ensures
        r == reply_reading_v6(bytes@),
{
    if bytes.len() == 0 {
        ReplyReading::Short
    } else if bytes[0] != ICMPV6_ECHO_REPLY {
        ReplyReading::OtherType(bytes[0])
    } else {
        ReplyReading::EchoReply { identifier: 0, sequence_number: 0 }
    }
}


/// Folding keeps a sum's remainder modulo 65535 and gives a value below
/// 65536, positive for a positive sum.
#[verifier::spinoff_prover]
pub proof fn lemma_fold16(s: nat)
    ensures
        fold16(s) % 65535 == s % 65535,
        fold16(s) < 65536,
        s > 0 ==> fold16(s) > 0,
        s == 0 ==> fold16(s) == 0,
    decreases s,
{
    if s >= 65536 {
        let q = s / 65536;
        let r = s % 65536;
        lemma_fundamental_div_mod(s as int, 65536);
        assert(q >= 1);
        assert(s == (q + r) + 65535 * q);
        lemma_mod_multiples_vanish(q as int, (q + r) as int, 65535);
        lemma_fold16(q + r);
    }
}

/// Words of two sequences that agree outside word `k`, summed over the
/// first `n` words with word `k` of the first left out and with no word
/// of the second left out.
proof fn lemma_words_sum_update(f: Seq<u8>, p: Seq<u8>, k: int, n: nat)
    requires
        f.len() == p.len(),
        2 * n <= f.len(),
        0 <= k,
        forall|j: int| 0 <= j < f.len() && j != 2 * k && j != 2 * k + 1 ==> f[j] == p[j],
    ensures
        words_sum(p, -1, n) == words_sum(f, k, n) + if k < n { word_at(p, k) } else { 0 },
    decreases n,
{
    if n > 0 {
        lemma_words_sum_update(f, p, k, (n - 1) as nat);
        if n - 1 != k {
            let i = n - 1;
            assert(f[2 * i] == p[2 * i]);
            assert(f[2 * i + 1] == p[2 * i + 1]);
        }
    }
}

/// A frame whose checksum field is filled with its checksum sums, in one's
/// complement, to all ones: a receiver's check of the packet passes.
#[verifier::spinoff_prover]
pub proof fn law_checksum_valid(frame: Seq<u8>)
    requires
        frame.len() >= 4,
    ensures
        fold16(be_word_sum(with_checksum(frame, internet_checksum(frame, 1)), -1)) == 65535,
{
    let c = internet_checksum(frame, 1);
    let p = with_checksum(frame, c);
    let s = be_word_sum(frame, 1);
    lemma_fold16(s);
    assert(c == 65535 - fold16(s));
    lemma_words_sum_update(frame, p, 1, frame.len() / 2);
    assert(word_at(p, 1) == c) by {
        assert(p[2] == hi(c) && p[3] == lo(c));
    }
    if frame.len() % 2 == 1 {
        assert(p[p.len() - 1] == frame[frame.len() - 1]);
    }
    let t = be_word_sum(p, -1);
    assert(t == s + c);
    lemma_fold16(t);
    if s == 0 {
        assert(t == 65535);
    } else {
        assert(t % 65535 == 0) by {
            lemma_fundamental_div_mod(s as int, 65535);
            lemma_fundamental_div_mod(fold16(s) as int, 65535);
            assert(t == (65535 - fold16(s)) + s);
            assert(t == 65535 * (1 + s / 65535 - fold16(s) / 65535));
            vstd::arithmetic::div_mod::lemma_mod_multiples_basic((1 + s / 65535 - fold16(s) / 65535) as int, 65535);
        }
        assert(fold16(t) == 65535);
    }
}

/// The IPv4 echo request sent to a target carries a valid checksum.
pub proof fn law_echo_request_checksum_valid(payload: nat, identifier: u16, sequence: u16)
    ensures
        fold16(be_word_sum(echo_request_packet(payload, identifier, sequence), -1)) == 65535,
{
    law_checksum_valid(echo_request_frame(payload, identifier, sequence));
}
} // verus!
