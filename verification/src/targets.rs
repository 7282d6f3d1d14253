//! Target lists from user input: a CIDR block (network and broadcast
//! addresses left out for IPv4), a dotted IPv4 range, or one IPv4 address.

use vstd::prelude::*;
use crate::addr::IpAddress;
use crate::ipv4::{
    ip_range_bounds, ipv4_text, law_full_range_bounds, law_short_range_end, lemma_dec_text, lemma_ipv4_text_split,
    lemma_octets, lemma_first_index_concat, lemma_tail_ends, lemma_tail_no_dash, octet, parse_ip_range, spliced, tail_text,
};
use crate::text::dec_text;
use crate::text::{
    all_dec_digits, chars_of, dec_value, first_index, find_char, is_dec_digit,
    lemma_first_index_bounds, split_all, split_chars_all, parse_unsigned, parse_unsigned_chars,
};

verus! {

/// Declares `ipnetwork::IpNetworkError`, the error of parsing a network.
#[verifier::external_type_specification]
#[verifier::external_body]
pub struct ExIpNetworkError(ipnetwork::IpNetworkError);

/// What `<ipnetwork::IpNetwork as FromStr>::from_str` makes of a text: the
/// family (`true` for IPv4), the address as a number and the prefix length;
/// `None` when it refuses the text.
pub uninterp spec fn ipnetwork_parse(text: Seq<char>) -> Option<(bool, u128, u8)>;

/// Calls `<ipnetwork::IpNetwork as FromStr>::from_str`. Claimed: the
/// outcome is `ipnetwork_parse` of the text (a function of the text alone);
/// an IPv4 network has a 32-bit address and a prefix of at most 32, an
/// IPv6 network a prefix of at most 128 (`Ipv4Network::new` and
/// `Ipv6Network::new` refuse longer prefixes).
#[verifier::external_body]
fn parse_ip_network(s: &str) -> (r: Result<(bool, u128, u8), ipnetwork::IpNetworkError>)
    ensures
        match r {
            Ok(v) => ipnetwork_parse(s@) == Some(v),
            Err(_) => ipnetwork_parse(s@) is None,
        },
        r matches Ok((v4, addr, prefix)) ==> (v4 ==> addr < 0x1_0000_0000 && prefix <= 32) && (!v4 ==> prefix <= 128),
{
    match s.parse::<ipnetwork::IpNetwork>() {
        Ok(ipnetwork::IpNetwork::V4(n)) => Ok((true, u32::from(n.ip()) as u128, n.prefix())),
        Ok(ipnetwork::IpNetwork::V6(n)) => Ok((false, u128::from(n.ip()), n.prefix())),
        Err(e) => Err(e),
    }
}

/// Why a target text was refused.
#[derive(Debug)]
pub enum TargetListError {
    /// A dotted range whose bounds do not read (see `ip_range_bounds`).
    Range,
    /// A CIDR block that `ipnetwork` refused.
    Network(ipnetwork::IpNetworkError),
    /// A text with a dot that is not an IPv4 address.
    Address,
    /// A text that is none of a range, a block or an address.
    Unrecognized,
}

/// `2^k`.
pub open spec fn pow2(k: nat) -> nat
    decreases k,
{
    if k == 0 {
        1
    } else {
        2 * pow2((k - 1) as nat)
    }
}

/// The first and last address that `ipnetwork` iterates over for a
/// network: from the network address (the address with its host bits
/// cleared) up to the broadcast address, except that an IPv4 `/0` block
/// stops one short of `255.255.255.255` (its size is capped at
/// `u32::MAX`).
pub open spec fn network_span(v4: bool, addr: nat, prefix: nat) -> (nat, nat) {
    let host_bits = if v4 { (32 - prefix) as nat } else { (128 - prefix) as nat };
    let block = pow2(host_bits);
    let start = (addr / block) * block;
    if v4 && prefix == 0 {
        (start, (start + 4294967295 - 1) as nat)
    } else {
        (start, (start + block - 1) as nat)
    }
}

/// The `n` addresses from `first` on, in the given family.
pub open spec fn run_from(v4: bool, first: nat, n: nat) -> Seq<IpAddress> {
    Seq::new(n, |i: int| if v4 { IpAddress::V4((first + i) as u32) } else { IpAddress::V6((first + i) as u128) })
}

/// The addresses from `first` to `last` inclusive, in the given family.
pub open spec fn address_run(v4: bool, first: nat, last: nat) -> Seq<IpAddress> {
    run_from(v4, first, if first <= last { (last - first + 1) as nat } else { 0 })
}

/// The host addresses of a CIDR block as listed for pinging: every address
/// of the block after the first (the network address); for IPv4 blocks of
/// more than one address, the last (the broadcast address) is left out too.
pub open spec fn cidr_hosts(v4: bool, addr: nat, prefix: nat) -> Seq<IpAddress> {
    let (start, end) = network_span(v4, addr, prefix);
    if v4 && prefix < 32 {
        address_run(v4, start + 1, (end - 1) as nat)
    } else {
        address_run(v4, start + 1, end)
    }
}

/// Unicode `White_Space` characters, as `char::is_whitespace` tests them.
pub open spec fn is_white_space(c: char) -> bool {
    ('\u{9}' <= c && c <= '\u{d}') || c == ' ' || c == '\u{85}' || c == '\u{a0}' || c == '\u{1680}'
        || ('\u{2000}' <= c && c <= '\u{200a}') || c == '\u{2028}' || c == '\u{2029}' || c == '\u{202f}'
        || c == '\u{205f}' || c == '\u{3000}'
}

/// The number of leading white-space characters of `s`.
pub open spec fn lead_ws(s: Seq<char>) -> nat
    decreases s.len(),
{
    if s.len() > 0 && is_white_space(s[0]) {
        1 + lead_ws(s.drop_first())
    } else {
        0
    }
}

/// The number of trailing white-space characters of `s`.
pub open spec fn trail_ws(s: Seq<char>) -> nat
    decreases s.len(),
{
    if s.len() > 0 && is_white_space(s.last()) {
        1 + trail_ws(s.drop_last())
    } else {
        0
    }
}

/// `s` without leading and trailing white space (as `str::trim`).
pub open spec fn trimmed(s: Seq<char>) -> Seq<char> {
    let a = lead_ws(s);
    if a >= s.len() {
        Seq::empty()
    } else {
        let t = s.subrange(a as int, s.len() as int);
        t.subrange(0, t.len() - trail_ws(t))
    }
}

/// One octet of IPv4 address text as the standard library reads it: one to
/// three decimal digits, no leading zero unless the octet is `0`, value at
/// most 255.
pub open spec fn ipv4_octet_text(p: Seq<char>) -> bool {
    &&& 1 <= p.len() <= 3
    &&& all_dec_digits(p)
    &&& !(p.len() > 1 && p[0] == '0')
    &&& dec_value(p) <= 255
}

/// IPv4 address text as the standard library reads it (`Ipv4Addr`): four
/// octets joined by dots, nothing else.
pub open spec fn ipv4_addr_text(s: Seq<char>) -> Option<u32> {
    let parts = split_all(s, '.');
    if parts.len() == 4 && ipv4_octet_text(parts[0]) && ipv4_octet_text(parts[1]) && ipv4_octet_text(parts[2])
        && ipv4_octet_text(parts[3]) {
        Some(
            (dec_value(parts[0]) * 16777216 + dec_value(parts[1]) * 65536 + dec_value(parts[2]) * 256 + dec_value(parts[3])) as u32,
        )
    } else {
        None
    }
}

/// Whether `s` contains `c`.
pub open spec fn has_char(s: Seq<char>, c: char) -> bool {
    first_index(s, c) is Some
}

/// The targets a text stands for, or why it is refused. The text is first
/// trimmed; then a text with `-` is a dotted range, one with `/` a CIDR
/// block (see `cidr_hosts`), one with `.` a single IPv4 address; any other
/// text stands for no target.
pub open spec fn target_list(input: Seq<char>) -> Option<Seq<IpAddress>> {
    let s = trimmed(input);
    if has_char(s, '-') {
        match ip_range_bounds(s) {
            Some((lo, hi)) => Some(address_run(true, lo as nat, hi as nat)),
            None => None,
        }
    } else if has_char(s, '/') {
        match ipnetwork_parse(s) {
            Some((v4, addr, prefix)) => Some(cidr_hosts(v4, addr as nat, prefix as nat)),
            None => None,
        }
    } else if has_char(s, '.') {
        match ipv4_addr_text(s) {
            Some(x) => Some(seq![IpAddress::V4(x)]),
            None => None,
        }
    } else {
        Some(Seq::empty())
    }
}


/// Whether `c` is a Unicode `White_Space` character.
pub fn is_white_space_char(c: char) -> (b: bool)
    ensures
        b == is_white_space(c),
{
    ('\u{9}' <= c && c <= '\u{d}') || c == ' ' || c == '\u{85}' || c == '\u{a0}' || c == '\u{1680}'
        || ('\u{2000}' <= c && c <= '\u{200a}') || c == '\u{2028}' || c == '\u{2029}' || c == '\u{202f}'
        || c == '\u{205f}' || c == '\u{3000}'
}

/// `lead_ws` counts exactly the white-space prefix.
pub proof fn lemma_lead_ws(s: Seq<char>, k: nat)
    requires
        k <= s.len(),
        forall|j: int| 0 <= j < k ==> is_white_space(#[trigger] s[j]),
        k == s.len() || !is_white_space(s[k as int]),
    ensures
        lead_ws(s) == k,
    decreases s.len(),
{
    if k > 0 {
        let t = s.drop_first();
        assert forall|j: int| 0 <= j < k - 1 implies is_white_space(#[trigger] t[j]) by {
            assert(t[j] == s[j + 1]);
        }
        if k < s.len() {
            assert(t[k - 1] == s[k as int]);
        }
        lemma_lead_ws(t, (k - 1) as nat);
    }
}

/// `trail_ws` counts exactly the white-space suffix.
pub proof fn lemma_trail_ws(s: Seq<char>, k: nat)
    requires
        k <= s.len(),
        forall|j: int| s.len() - k <= j < s.len() ==> is_white_space(#[trigger] s[j]),
        k == s.len() || !is_white_space(s[s.len() - 1 - k]),
    ensures
        trail_ws(s) == k,
    decreases s.len(),
{
    if k > 0 {
        let t = s.drop_last();
        assert forall|j: int| t.len() - (k - 1) <= j < t.len() implies is_white_space(#[trigger] t[j]) by {
            assert(t[j] == s[j]);
        }
        if k < s.len() {
            assert(t[t.len() - 1 - (k - 1)] == s[s.len() - 1 - k]);
        }
        assert(is_white_space(s[s.len() - 1]));
        lemma_trail_ws(t, (k - 1) as nat);
    }
}

/// `s` without leading and trailing white space.
pub fn trim_text(s: &str) -> (r: &str)
    ensures
        r@ == trimmed(s@),
{
    let chars = chars_of(s);
    let n = chars.len();
    let mut a: usize = 0;
    while a < n && is_white_space_char(chars[a])
        invariant
            a <= n,
            n == s@.len(),
            chars@ == s@,
            forall|j: int| 0 <= j < a ==> is_white_space(#[trigger] s@[j]),
        decreases n - a,
    {
        a = a + 1;
    }
    proof {
        lemma_lead_ws(s@, a as nat);
    }
    if a >= n {
        let r = s.substring_char(n, n);
        assert(r@ =~= trimmed(s@));
        return r;
    }
    let mut b: usize = 0;
    while b < n - a && is_white_space_char(chars[n - 1 - b])
        invariant
            a < n,
            b <= n - a,
            n == s@.len(),
            chars@ == s@,
            forall|j: int| n - b <= j < n ==> is_white_space(#[trigger] s@[j]),
        decreases n - a - b,
    {
        b = b + 1;
    }
    proof {
        let t = s@.subrange(a as int, n as int);
        assert forall|j: int| t.len() - b <= j < t.len() implies is_white_space(#[trigger] t[j]) by {
            assert(t[j] == s@[a + j]);
        }
        if b < t.len() {
            assert(t[t.len() - 1 - b] == s@[n - 1 - b]);
        }
        lemma_trail_ws(t, b as nat);
    }
    let r = s.substring_char(a, n - b);
    assert(r@ =~= trimmed(s@));
    r
}

/// Reads IPv4 address text as the standard library does (see
/// `ipv4_addr_text`).
pub fn parse_ipv4_addr(s: &Vec<char>) -> (r: Option<u32>)
    ensures
        r == ipv4_addr_text(s@),
{
    let parts = split_chars_all(s, '.');
    if parts.len() != 4 {
        return None;
    }
    let ghost ps = split_all(s@, '.');
    let mut vals: Vec<u32> = Vec::new();
    let mut i: usize = 0;
    while i < 4
        invariant
            i <= 4,
            parts@.len() == 4,
            ps.len() == 4,
            ps == split_all(s@, '.'),
            forall|k: int| 0 <= k < 4 ==> #[trigger] parts@[k]@ == ps[k],
            vals@.len() == i,
            forall|k: int| 0 <= k < i ==> ipv4_octet_text(#[trigger] ps[k]) && vals@[k] == dec_value(ps[k]),
        decreases 4 - i,
    {
        let p = &parts[i];
        let len = p.len();
        assert(p@ == ps[i as int]);
        if len < 1 || len > 3 {
            assert(!ipv4_octet_text(ps[i as int]));
            return None;
        }
        let mut j: usize = 0;
        while j < len
            invariant
                j <= len,
                len == p@.len(),
                i < 4,
                ps.len() == 4,
                ps == split_all(s@, '.'),
                p@ == ps[i as int],
                forall|k: int| 0 <= k < j ==> is_dec_digit(#[trigger] p@[k]),
            decreases len - j,
        {
            if !('0' <= p[j] && p[j] <= '9') {
                proof {
                    assert(!is_dec_digit(p@[j as int]));
                    assert(!all_dec_digits(ps[i as int]));
                }
                return None;
            }
            j = j + 1;
        }
        if len > 1 && p[0] == '0' {
            assert(!ipv4_octet_text(ps[i as int]));
            return None;
        }
        let v = parse_unsigned_chars(p, 255);
        proof {
            assert(all_dec_digits(p@));
            if p@[0] == '+' {
                assert(!is_dec_digit(p@[0]));
            }
            assert(crate::text::unsigned_digits(p@) == p@);
        }
        match v {
            None => {
                assert(!ipv4_octet_text(ps[i as int]));
                return None;
            },
            Some(v) => {
                vals.push(v);
            },
        }
        i = i + 1;
    }
    Some(vals[0] * 16777216 + vals[1] * 65536 + vals[2] * 256 + vals[3])
}

proof fn lemma_pow2_add(a: nat, b: nat)
    ensures
        pow2(a + b) == pow2(a) * pow2(b),
    decreases a,
{
    if a > 0 {
        let a1 = (a - 1) as nat;
        lemma_pow2_add(a1, b);
        assert(a + b == (a1 + b) + 1);
        assert(pow2(a + b) == 2 * pow2(a1 + b));
        assert(pow2(a) == 2 * pow2(a1));
        let x = pow2(a1);
        let y = pow2(b);
        assert(2 * (x * y) == (2 * x) * y) by (nonlinear_arith);
    } else {
        assert(pow2(a) == 1);
        assert(a + b == b);
    }
}

proof fn lemma_pow2_pos(a: nat)
    ensures
        pow2(a) >= 1,
    decreases a,
{
    if a > 0 {
        lemma_pow2_pos((a - 1) as nat);
    }
}

proof fn lemma_pow2_32()
    ensures
        pow2(32) == 0x1_0000_0000,
{
    reveal_with_fuel(pow2, 33);
}

proof fn lemma_pow2_128()
    ensures
        pow2(128) == 0x1_0000_0000_0000_0000_0000_0000_0000_0000,
{
    lemma_pow2_32();
    lemma_pow2_add(32, 32);
    assert(pow2(64) == 0x1_0000_0000_0000_0000) by (nonlinear_arith)
        requires
            pow2(64) == pow2(32) * pow2(32),
            pow2(32) == 0x1_0000_0000,
    ;
    lemma_pow2_add(64, 64);
    assert(pow2(128) == 0x1_0000_0000_0000_0000_0000_0000_0000_0000) by (nonlinear_arith)
        requires
            pow2(128) == pow2(64) * pow2(64),
            pow2(64) == 0x1_0000_0000_0000_0000,
    ;
}

/// The block containing `addr` ends within the address space.
proof fn lemma_block_fits(addr: nat, total: nat, hb: nat)
    requires
        hb <= total,
        addr < pow2(total),
    ensures
        (addr / pow2(hb)) * pow2(hb) <= addr,
        (addr / pow2(hb)) * pow2(hb) + pow2(hb) <= pow2(total),
{
    let b = pow2(hb);
    let m = pow2((total - hb) as nat);
    lemma_pow2_add(hb, (total - hb) as nat);
    lemma_pow2_pos(hb);
    let q = addr / b;
    assert(q * b <= addr) by (nonlinear_arith)
        requires
            b >= 1,
            q == addr / b,
    ;
    assert(q < m) by (nonlinear_arith)
        requires
            q * b <= addr,
            addr < m * b,
            b >= 1,
    ;
    assert(q * b + b <= m * b) by (nonlinear_arith)
        requires
            q < m,
            b >= 1,
    ;
    assert(pow2(total) == b * m);
    assert(b * m == m * b) by (nonlinear_arith);
}

/// `2^k` for `k < 128`.
fn pow2_u128(k: u32) -> (p: u128)
    requires
        k < 128,
    ensures
        p == pow2(k as nat),
{
    let mut p: u128 = 1;
    let mut i: u32 = 0;
    while i < k
        invariant
            i <= k < 128,
            p == pow2(i as nat),
        decreases k - i,
    {
        proof {
            lemma_pow2_add(i as nat, (127 - i) as nat);
            lemma_pow2_pos((127 - i) as nat);
            lemma_pow2_128();
            assert(pow2((i + 1) as nat) == 2 * pow2(i as nat));
            lemma_pow2_add((i + 1) as nat, (127 - i) as nat);
            lemma_pow2_pos((126 - i) as nat);
            assert(pow2(128) == pow2((i + 1) as nat) * pow2((127 - i) as nat));
            assert(pow2((i + 1) as nat) <= pow2(128) / 2) by (nonlinear_arith)
                requires
                    pow2(128) == pow2((i + 1) as nat) * pow2((127 - i) as nat),
                    pow2((127 - i) as nat) >= 2 || i + 1 == 128,
                    i + 1 < 128,
            {
            }
        }
        p = p * 2;
        i = i + 1;
    }
    p
}

/// Appends the addresses from `first` to `last` inclusive.
fn push_run(out: &mut Vec<IpAddress>, v4: bool, first: u128, last: u128)
    requires
        v4 ==> last < 0x1_0000_0000,
    ensures
        final(out)@ == old(out)@ + address_run(v4, first as nat, last as nat),
{
    let ghost start = out@;
    if first > last {
        assert(address_run(v4, first as nat, last as nat) =~= Seq::<IpAddress>::empty());
        assert(out@ =~= start + address_run(v4, first as nat, last as nat));
        return;
    }
    let mut cur: u128 = first;
    assert(out@ =~= start + run_from(v4, first as nat, 0));
    loop
        invariant_except_break
            first <= cur <= last,
            v4 ==> last < 0x1_0000_0000,
            out@ == start + run_from(v4, first as nat, (cur - first) as nat),
        ensures
            out@ == start + address_run(v4, first as nat, last as nat),
        decreases last - cur,
    {
        let a = if v4 {
            IpAddress::V4(cur as u32)
        } else {
            IpAddress::V6(cur)
        };
        out.push(a);
        proof {
            assert(out@ =~= start + run_from(v4, first as nat, (cur + 1 - first) as nat));
        }
        if cur == last {
            break;
        }
        cur = cur + 1;
    }
}

/// The first and last address of the block of `addr` (see
/// `network_span`).
#[verifier::spinoff_prover]
fn block_span(v4: bool, addr: u128, prefix: u8) -> (r: (u128, u128))
    requires
        v4 ==> addr < 0x1_0000_0000 && prefix <= 32,
        !v4 ==> prefix <= 128,
    ensures
        network_span(v4, addr as nat, prefix as nat) == (r.0 as nat, r.1 as nat),
        r.0 <= r.1,
        v4 ==> r.1 < 0x1_0000_0000,
{
    let r: (u128, u128) = if !v4 && prefix == 0 {
        proof {
            lemma_pow2_128();
            assert(addr as nat / pow2(128) == 0);
            assert(((128 - prefix as nat) as nat) == 128);
            assert((addr as nat / pow2(128)) * pow2(128) == 0);
        }
        (0, 0xffff_ffff_ffff_ffff_ffff_ffff_ffff_ffff)
    } else if v4 && prefix == 0 {
        proof {
            lemma_pow2_32();
            assert(addr as nat / pow2(32) == 0);
            assert(((32 - prefix as nat) as nat) == 32);
            assert((addr as nat / pow2(32)) * pow2(32) == 0);
        }
        (0, 0xffff_fffe)
    } else {
        let host_bits: u32 = if v4 { 32 - prefix as u32 } else { 128 - prefix as u32 };
        let block = pow2_u128(host_bits);
        proof {
            lemma_pow2_pos(host_bits as nat);
            if v4 {
                lemma_pow2_32();
                lemma_block_fits(addr as nat, 32, host_bits as nat);
            } else {
                lemma_pow2_128();
                lemma_block_fits(addr as nat, 128, host_bits as nat);
            }
        }
        let start = (addr / block) * block;
        assert(network_span(v4, addr as nat, prefix as nat) == (start as nat, (start + (block - 1)) as nat)) by {
            assert(block as nat == pow2(host_bits as nat));
        }
        (start, start + (block - 1))
    };
    r
}

/// The host addresses of a CIDR block (see `cidr_hosts`).
#[verifier::spinoff_prover]
pub fn cidr_host_list(v4: bool, addr: u128, prefix: u8) -> (hosts: Vec<IpAddress>)
    requires
        v4 ==> addr < 0x1_0000_0000 && prefix <= 32,
        !v4 ==> prefix <= 128,
    ensures
        hosts@ == cidr_hosts(v4, addr as nat, prefix as nat),
{
    let mut hosts: Vec<IpAddress> = Vec::new();
    let (start, end) = block_span(v4, addr, prefix);
    if start == end {
        assert(cidr_hosts(v4, addr as nat, prefix as nat) =~= Seq::<IpAddress>::empty());
        return hosts;
    }
    if v4 && prefix < 32 {
        push_run(&mut hosts, v4, start + 1, end - 1);
    } else {
        push_run(&mut hosts, v4, start + 1, end);
    }
    assert(hosts@ =~= cidr_hosts(v4, addr as nat, prefix as nat));
    hosts
}

/// Lists the targets a text stands for (see `target_list`): the
/// addresses of a dotted range, the hosts of a CIDR block, or one IPv4
/// address, after trimming white space. A text with none of `-`, `/`, `.`
/// stands for no target. The text must read as one of those forms (see
/// `try_target_list` for texts that may not).
pub fn parse_str_cidr_or_range_to_ip_list(ip_input: &str) -> (ips: Vec<IpAddress>)
    requires
        target_list(ip_input@) is Some,
    ensures
        ips@ == target_list(ip_input@)->0,
{
    let ip_string = trim_text(ip_input);
    let chars = chars_of(ip_string);
    let mut ips: Vec<IpAddress> = Vec::new();
    if find_char(&chars, '-').is_some() {
        if let Some((lo, hi)) = parse_ip_range(ip_string) {
            push_run(&mut ips, true, lo as u128, hi as u128);
            assert(ips@ =~= address_run(true, lo as nat, hi as nat));
        }
        ips
    } else if find_char(&chars, '/').is_some() {
        match parse_ip_network(ip_string) {
            Ok((v4, addr, prefix)) => cidr_host_list(v4, addr, prefix),
            Err(_) => ips,
        }
    } else if find_char(&chars, '.').is_some() {
        if let Some(x) = parse_ipv4_addr(&chars) {
            ips.push(IpAddress::V4(x));
        }
        ips
    } else {
        ips
    }
}

/// Whether a refusal fits the text: a range that does not read is refused
/// as a range, a block as a network, an address as an address, and a text
/// of none of the three forms as unrecognized.
pub open spec fn refusal_fits(e: TargetListError, t: Seq<char>) -> bool {
    let s = trimmed(t);
    match e {
        TargetListError::Range => has_char(s, '-'),
        TargetListError::Network(_) => !has_char(s, '-') && has_char(s, '/'),
        TargetListError::Address => !has_char(s, '-') && !has_char(s, '/') && has_char(s, '.'),
        TargetListError::Unrecognized => !has_char(s, '-') && !has_char(s, '/') && !has_char(s, '.'),
    }
}

/// Lists the targets a text stands for (see `target_list`), or says why
/// the text is refused: a range, block or address that does not read is
/// refused with the form that failed.
pub fn try_target_list(ip_input: &str) -> (r: Result<Vec<IpAddress>, TargetListError>)
    ensures
        r is Ok <==> target_list(ip_input@) is Some,
        r matches Ok(v) ==> v@ == target_list(ip_input@)->0,
        r matches Err(e) ==> refusal_fits(e, ip_input@) && !(e is Unrecognized),
{
    let ip_string = trim_text(ip_input);
    let chars = chars_of(ip_string);
    if find_char(&chars, '-').is_some() {
        if parse_ip_range(ip_string).is_none() {
            return Err(TargetListError::Range);
        }
    } else if find_char(&chars, '/').is_some() {
        if let Err(e) = parse_ip_network(ip_string) {
            return Err(TargetListError::Network(e));
        }
    } else if find_char(&chars, '.').is_some() {
        if parse_ipv4_addr(&chars).is_none() {
            return Err(TargetListError::Address);
        }
    }
    Ok(parse_str_cidr_or_range_to_ip_list(ip_input))
}

/// Every address of a CIDR block, as `ipnetwork` iterates over them.
pub open spec fn cidr_all(v4: bool, addr: nat, prefix: nat) -> Seq<IpAddress> {
    let (start, end) = network_span(v4, addr, prefix);
    address_run(v4, start, end)
}

/// The targets one positional command-line argument stands for: after
/// trimming, a text with `-` is a dotted range, one with `/` every address
/// of a CIDR block, one with `.` a single IPv4 address; any other text is
/// refused.
pub open spec fn cli_target_list(input: Seq<char>) -> Option<Seq<IpAddress>> {
    let s = trimmed(input);
    if has_char(s, '-') {
        match ip_range_bounds(s) {
            Some((lo, hi)) => Some(address_run(true, lo as nat, hi as nat)),
            None => None,
        }
    } else if has_char(s, '/') {
        match ipnetwork_parse(s) {
            Some((v4, addr, prefix)) => Some(cidr_all(v4, addr as nat, prefix as nat)),
            None => None,
        }
    } else if has_char(s, '.') {
        match ipv4_addr_text(s) {
            Some(x) => Some(seq![IpAddress::V4(x)]),
            None => None,
        }
    } else {
        None
    }
}

/// Every address of a CIDR block (see `cidr_all`).
#[verifier::spinoff_prover]
pub fn cidr_address_list(v4: bool, addr: u128, prefix: u8) -> (all: Vec<IpAddress>)
    requires
        v4 ==> addr < 0x1_0000_0000 && prefix <= 32,
        !v4 ==> prefix <= 128,
    ensures
        all@ == cidr_all(v4, addr as nat, prefix as nat),
{
    let mut all: Vec<IpAddress> = Vec::new();
    let (start, end) = block_span(v4, addr, prefix);
    push_run(&mut all, v4, start, end);
    assert(all@ =~= cidr_all(v4, addr as nat, prefix as nat));
    all
}

/// Lists the targets of one positional command-line argument (see
/// `cli_target_list`); a text of none of the three forms is refused as
/// unrecognized. A text that does not read is answered with an error
/// rather than by stopping the program; a caller that wants the program to
/// stop there does so on that error.
pub fn expand_cli_target(arg: &str) -> (r: Result<Vec<IpAddress>, TargetListError>)
    ensures
        r is Ok <==> cli_target_list(arg@) is Some,
        r matches Ok(v) ==> v@ == cli_target_list(arg@)->0,
        r matches Err(TargetListError::Range) ==> has_char(trimmed(arg@), '-'),
        r matches Err(TargetListError::Network(_)) ==> !has_char(trimmed(arg@), '-') && has_char(trimmed(arg@), '/'),
        r matches Err(TargetListError::Address) ==> !has_char(trimmed(arg@), '-') && !has_char(trimmed(arg@), '/') && has_char(trimmed(arg@), '.'),
        r matches Err(TargetListError::Unrecognized) ==> !has_char(trimmed(arg@), '-') && !has_char(trimmed(arg@), '/') && !has_char(trimmed(arg@), '.'),
        r matches Err(e) ==> refusal_fits(e, arg@),
{
    let ip_string = trim_text(arg);
    let chars = chars_of(ip_string);
    if find_char(&chars, '-').is_some() {
        match parse_ip_range(ip_string) {
            Some((lo, hi)) => {
                let mut ips: Vec<IpAddress> = Vec::new();
                push_run(&mut ips, true, lo as u128, hi as u128);
                assert(ips@ =~= address_run(true, lo as nat, hi as nat));
                Ok(ips)
            },
            None => Err(TargetListError::Range),
        }
    } else if find_char(&chars, '/').is_some() {
        match parse_ip_network(ip_string) {
            Ok((v4, addr, prefix)) => Ok(cidr_address_list(v4, addr, prefix)),
            Err(e) => Err(TargetListError::Network(e)),
        }
    } else if find_char(&chars, '.').is_some() {
        match parse_ipv4_addr(&chars) {
            Some(x) => {
                let mut ips: Vec<IpAddress> = Vec::new();
                ips.push(IpAddress::V4(x));
                Ok(ips)
            },
            None => Err(TargetListError::Address),
        }
    } else {
        Err(TargetListError::Unrecognized)
    }
}

/// The hosts of an IPv4 block `/p` with `1 <= p <= 30` are its `2^(32-p) - 2`
/// addresses strictly between the network address and the broadcast
/// address, in order; the block holds the given address. A `/31` or `/32`
/// block has no hosts.
pub proof fn law_cidr_hosts_v4(addr: u32, prefix: nat)
    requires
        1 <= prefix <= 32,
    ensures
        ({
            let (start, end) = network_span(true, addr as nat, prefix);
            let hosts = cidr_hosts(true, addr as nat, prefix);
            &&& start <= addr <= end
            &&& end - start + 1 == pow2((32 - prefix) as nat)
            &&& prefix <= 30 ==> hosts.len() == pow2((32 - prefix) as nat) - 2
            &&& prefix > 30 ==> hosts.len() == 0
            &&& forall|i: int| 0 <= i < hosts.len() ==> #[trigger] hosts[i] == IpAddress::V4((start + 1 + i) as u32) && start < start + 1 + i < end
        }),
{
    let hb = (32 - prefix) as nat;
    lemma_pow2_32();
    lemma_block_fits(addr as nat, 32, hb);
    lemma_pow2_pos(hb);
    let b = pow2(hb);
    let q = (addr as nat) / b;
    assert((addr as nat) < q * b + b) by (nonlinear_arith)
        requires
            b >= 1,
            q == (addr as nat) / b,
    ;
    if prefix <= 30 {
        lemma_pow2_add(2, (hb - 2) as nat);
        lemma_pow2_pos((hb - 2) as nat);
        reveal_with_fuel(pow2, 3);
        assert(b >= 4);
    } else if prefix == 31 {
        reveal_with_fuel(pow2, 2);
        assert(b == 2);
    } else {
        assert(b == 1);
    }
}

/// The targets of a text, read as a `-`/`/`/`.` list entry or, with
/// `positional`, as a positional command-line argument.
pub open spec fn targets_of(t: Seq<char>, positional: bool) -> Option<Seq<IpAddress>> {
    if positional {
        cli_target_list(t)
    } else {
        target_list(t)
    }
}

/// The targets of all texts in order, or `None` when one is refused.
pub open spec fn gathered(texts: Seq<Seq<char>>, positional: bool) -> Option<Seq<IpAddress>>
    decreases texts.len(),
{
    if texts.len() == 0 {
        Some(Seq::empty())
    } else {
        match (gathered(texts.drop_last(), positional), targets_of(texts.last(), positional)) {
            (Some(a), Some(b)) => Some(a + b),
            _ => None,
        }
    }
}

/// What the target texts of a run come to.
#[derive(Debug)]
pub enum Gathered {
    /// The text at `index` is refused (the first refused one).
    Refused { index: usize, error: TargetListError },
    /// Every text reads, but together they name no address: there is
    /// nothing to ping.
    NoTarget,
    /// The addresses to ping, in order.
    Targets(Vec<IpAddress>),
}

/// Once a prefix of the texts is refused, so are all of them.
proof fn lemma_gathered_prefix_none(texts: Seq<Seq<char>>, positional: bool, n: int)
    requires
        0 <= n <= texts.len(),
        gathered(texts.subrange(0, n), positional) is None,
    ensures
        gathered(texts, positional) is None,
    decreases texts.len() - n,
{
    if n < texts.len() {
        let pre = texts.subrange(0, n + 1);
        assert(pre.drop_last() =~= texts.subrange(0, n));
        lemma_gathered_prefix_none(texts, positional, n + 1);
    } else {
        assert(texts.subrange(0, n) =~= texts);
    }
}

/// Reads the target texts of a run in order (each as `try_target_list`
/// reads it, or as `expand_cli_target` does with `positional`): the first
/// refused text stops the reading; texts that all read but name no
/// address leave nothing to ping.
#[verifier::spinoff_prover]
pub fn gather_targets(texts: &Vec<String>, positional: bool) -> (g: Gathered)
    ensures
        match g {
            Gathered::Refused { index, error } => {
                &&& index < texts@.len()
                &&& targets_of(texts@[index as int]@, positional) is None
                &&& refusal_fits(error, texts@[index as int]@)
                &&& forall|j: int| 0 <= j < index ==> targets_of(#[trigger] texts@[j]@, positional) is Some
                &&& gathered(crate::cli::arg_texts(texts@), positional) is None
            },
            Gathered::NoTarget => gathered(crate::cli::arg_texts(texts@), positional) == Some(Seq::<IpAddress>::empty()),
            Gathered::Targets(v) => gathered(crate::cli::arg_texts(texts@), positional) == Some(v@) && v@.len() > 0,
        },
{
    let ghost a = crate::cli::arg_texts(texts@);
    let mut all: Vec<IpAddress> = Vec::new();
    let mut i: usize = 0;
    while i < texts.len()
        invariant
            i <= texts@.len(),
            a == crate::cli::arg_texts(texts@),
            gathered(a.subrange(0, i as int), positional) == Some(all@),
            forall|j: int| 0 <= j < i ==> targets_of(#[trigger] texts@[j]@, positional) is Some,
        decreases texts.len() - i,
    {
        let ghost pre = a.subrange(0, i as int + 1);
        proof {
            assert(pre.drop_last() =~= a.subrange(0, i as int));
            assert(pre.last() == texts@[i as int]@);
        }
        let t = texts[i].as_str();
        let r = if positional {
            expand_cli_target(t)
        } else {
            try_target_list(t)
        };
        match r {
            Ok(mut v) => {
                all.append(&mut v);
            },
            Err(error) => {
                proof {
                    lemma_gathered_prefix_none(a, positional, i as int + 1);
                }
                return Gathered::Refused { index: i, error };
            },
        }
        i = i + 1;
    }
    proof {
        assert(a.subrange(0, a.len() as int) =~= a);
    }
    if all.len() == 0 {
        assert(all@ =~= Seq::<IpAddress>::empty());
        Gathered::NoTarget
    } else {
        Gathered::Targets(all)
    }
}

/// A text that starts and ends with a decimal digit is its own trimmed
/// text.
proof fn lemma_trimmed_digits(s: Seq<char>)
    requires
        s.len() >= 1,
        is_dec_digit(s[0]),
        is_dec_digit(s[s.len() - 1]),
    ensures
        trimmed(s) == s,
{
    lemma_lead_ws(s, 0);
    let t = s.subrange(0, s.len() as int);
    assert(t =~= s);
    lemma_trail_ws(t, 0);
    assert(t.subrange(0, t.len() as int) =~= s);
}

/// The first and last characters of an address's dotted-quad text are
/// decimal digits.
proof fn lemma_ipv4_text_ends(x: u32)
    ensures
        ipv4_text(x).len() >= 7,
        is_dec_digit(ipv4_text(x)[0]),
        is_dec_digit(ipv4_text(x)[ipv4_text(x).len() - 1]),
{
    lemma_octets(x);
    lemma_dec_text(octet(x, 0));
    lemma_dec_text(octet(x, 1));
    lemma_dec_text(octet(x, 2));
    lemma_dec_text(octet(x, 3));
    let d0 = dec_text(octet(x, 0));
    let d3 = dec_text(octet(x, 3));
    assert(ipv4_text(x)[0] == d0[0]);
    assert(ipv4_text(x)[ipv4_text(x).len() - 1] == d3[d3.len() - 1]);
}

/// A dotted range written with two full addresses `x-y` lists every
/// address from `x` to `y` in ascending order: `y - x + 1` addresses when
/// `x <= y`, none when `y < x`. A short upper end (its last one to three
/// octets) lists the same addresses as the full upper address it stands
/// for.
#[verifier::spinoff_prover]
pub proof fn law_range_lists_every_address(x: u32, y: u32, k: nat)
    requires
        1 <= k <= 3,
    ensures
        target_list(ipv4_text(x) + seq!['-'] + ipv4_text(y)) matches Some(v) && {
            &&& v.len() == if x <= y { y - x + 1 } else { 0 }
            &&& forall|j: int| 0 <= j < v.len() ==> v[j] == IpAddress::V4((x + j) as u32)
        },
        target_list(ipv4_text(x) + seq!['-'] + tail_text(y, k))
            == target_list(ipv4_text(x) + seq!['-'] + ipv4_text(spliced(x, y, k))),
{
    let s = ipv4_text(x) + seq!['-'] + ipv4_text(y);
    lemma_ipv4_text_ends(x);
    lemma_ipv4_text_ends(y);
    lemma_ipv4_text_split(x);
    assert(s[0] == ipv4_text(x)[0]);
    assert(s[s.len() - 1] == ipv4_text(y)[ipv4_text(y).len() - 1]);
    lemma_trimmed_digits(s);
    lemma_first_index_concat(ipv4_text(x), '-', ipv4_text(y));
    law_full_range_bounds(x, y);
    let z = spliced(x, y, k);
    let f = ipv4_text(x) + seq!['-'] + ipv4_text(z);
    lemma_ipv4_text_ends(z);
    assert(f[0] == ipv4_text(x)[0]);
    assert(f[f.len() - 1] == ipv4_text(z)[ipv4_text(z).len() - 1]);
    lemma_trimmed_digits(f);
    lemma_first_index_concat(ipv4_text(x), '-', ipv4_text(z));
    let t = tail_text(y, k);
    let g = ipv4_text(x) + seq!['-'] + t;
    lemma_tail_ends(y, k);
    assert(g[0] == ipv4_text(x)[0]);
    assert(g[g.len() - 1] == t[t.len() - 1]);
    lemma_trimmed_digits(g);
    lemma_tail_no_dash(y, k);
    lemma_first_index_concat(ipv4_text(x), '-', t);
    law_short_range_end(x, y, k);
}
} // verus!
