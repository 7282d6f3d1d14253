//! Dotted-quad IPv4 text: formatting, dotted ranges such as
//! `10.0.0.1-10.0.0.9` or `10.0.0.1-9`, and the hexadecimal rendering of
//! an address.

use vstd::prelude::*;
use crate::text::{
    all_dec_digits, chars_of, dec_text, dec_digit_value, dec_value, digit_char, digit_str,
    find_char, first_index, is_dec_digit, lemma_dec_value_push, lemma_first_index_unique,
    lemma_first_index_bounds, parse_unsigned, parse_unsigned_chars, push_dec, split_all,
    split_chars_all, split_chars_n, split_n, sub_chars,
};

verus! {

/// The `i`-th octet (0 = most significant) of an IPv4 address.
pub open spec fn octet(x: u32, i: int) -> nat {
    if i == 0 {
        (x as nat / 16777216) as nat
    } else if i == 1 {
        ((x as nat / 65536) % 256) as nat
    } else if i == 2 {
        ((x as nat / 256) % 256) as nat
    } else {
        (x as nat % 256) as nat
    }
}

/// The address whose octets are `a.b.c.d`.
pub open spec fn octets_value(a: nat, b: nat, c: nat, d: nat) -> nat {
    a * 16777216 + b * 65536 + c * 256 + d
}

/// The usual text of an IPv4 address: four decimal octets joined by dots.
pub open spec fn ipv4_text(x: u32) -> Seq<char> {
    dec_text(octet(x, 0)) + seq!['.'] + dec_text(octet(x, 1)) + seq!['.'] + dec_text(octet(x, 2))
        + seq!['.'] + dec_text(octet(x, 3))
}

/// Appends the dotted-quad text of `x` to `out`.
pub fn push_ipv4_text(out: &mut String, x: u32)
    ensures
        final(out)@ == old(out)@ + ipv4_text(x),
{
    let ghost start = out@;
    push_dec(out, (x / 16777216) as u64);
    out.append(dot_str());
    push_dec(out, ((x / 65536) % 256) as u64);
    out.append(dot_str());
    push_dec(out, ((x / 256) % 256) as u64);
    out.append(dot_str());
    push_dec(out, (x % 256) as u64);
    assert(out@ =~= start + ipv4_text(x));
}

/// The text `"."`.
pub fn dot_str() -> (s: &'static str)
    ensures
        s@ == seq!['.'],
{
    proof {
        reveal_strlit(".");
    }
    "."
}

/// The dotted-quad text of `x`.
pub fn ipv4_to_string(x: u32) -> (s: String)
    ensures
        s@ == ipv4_text(x),
{
    let mut s = String::new();
    push_ipv4_text(&mut s, x);
    assert(s@ =~= ipv4_text(x));
    s
}

/// Octets of a four-part text, each read as a decimal number no greater
/// than 255.
pub open spec fn parse_octets(p: Seq<Seq<char>>) -> Option<u32> {
    if p.len() != 4 {
        None
    } else {
        match (parse_unsigned(p[0], 255), parse_unsigned(p[1], 255), parse_unsigned(p[2], 255), parse_unsigned(p[3], 255)) {
            (Some(a), Some(b), Some(c), Some(d)) => Some(octets_value(a, b, c, d) as u32),
            _ => None,
        }
    }
}

/// The four parts of a range's upper end: a short upper end such as `9`
/// or `3.9` takes its leading parts from the lower end.
pub open spec fn fill_upper(lower: Seq<Seq<char>>, upper: Seq<Seq<char>>) -> Seq<Seq<char>> {
    Seq::new(4, |j: int| if j < 4 - upper.len() { lower[j] } else { upper[j - (4 - upper.len())] })
}

/// The bounds of a dotted range `A-B`: the text before the first `-` is a
/// four-part address `A`; the text after it is one to four dot-separated
/// parts that replace the trailing parts of `A`. `None` when there is no
/// `-`, when `A` has fewer than four parts, or when a part is not a
/// decimal number no greater than 255.
pub open spec fn ip_range_bounds(s: Seq<char>) -> Option<(u32, u32)> {
    match first_index(s, '-') {
        None => None,
        Some(i) => {
            let lower = split_n(s.subrange(0, i), '.', 4);
            let upper = split_n(s.subrange(i + 1, s.len() as int), '.', 4);
            if lower.len() != 4 {
                None
            } else {
                match (parse_octets(lower), parse_octets(fill_upper(lower, upper))) {
                    (Some(a), Some(b)) => Some((a, b)),
                    _ => None,
                }
            }
        },
    }
}

/// The number of addresses from `lo` to `hi` inclusive.
pub open spec fn range_len(lo: u32, hi: u32) -> nat {
    if lo <= hi {
        (hi - lo + 1) as nat
    } else {
        0
    }
}

/// A `split_n` into at most `n` parts has between one and `n` parts.
pub proof fn lemma_split_n_len(s: Seq<char>, sep: char, n: nat)
    requires
        n >= 1,
    ensures
        1 <= split_n(s, sep, n).len() <= n,
    decreases n,
{
    if n > 1 {
        lemma_first_index_bounds(s, sep);
        match first_index(s, sep) {
            None => {},
            Some(i) => {
                lemma_split_n_len(s.subrange(i + 1, s.len() as int), sep, (n - 1) as nat);
            },
        }
    }
}

/// Reads four octet texts as an address.
fn parse_octet_parts(p: &Vec<Vec<char>>) -> (r: Option<u32>)
    requires
        p@.len() == 4,
    ensures
        r == parse_octets(p@.map_values(|v: Vec<char>| v@)),
{
    let ghost q = p@.map_values(|v: Vec<char>| v@);
    let a = parse_unsigned_chars(&p[0], 255);
    let b = parse_unsigned_chars(&p[1], 255);
    let c = parse_unsigned_chars(&p[2], 255);
    let d = parse_unsigned_chars(&p[3], 255);
    assert(q[0] == p@[0]@ && q[1] == p@[1]@ && q[2] == p@[2]@ && q[3] == p@[3]@);
    match (a, b, c, d) {
        (Some(a), Some(b), Some(c), Some(d)) => {
            let v = a * 16777216 + b * 65536 + c * 256 + d;
            Some(v)
        },
        _ => None,
    }
}

/// Parses the bounds of a dotted range (see [`ip_range_bounds`]).
pub fn parse_ip_range(ip_range: &str) -> (r: Option<(u32, u32)>)
    ensures
        r == ip_range_bounds(ip_range@),
{
    let s = chars_of(ip_range);
    let dash = find_char(&s, '-');
    match dash {
        None => None,
        Some(i) => {
            proof {
                lemma_first_index_bounds(s@, '-');
            }
            let lower_text = sub_chars(&s, 0, i);
            let upper_text = sub_chars(&s, i + 1, s.len());
            let lower = split_chars_n(&lower_text, '.', 4);
            let upper = split_chars_n(&upper_text, '.', 4);
            let ghost lower_s = split_n(s@.subrange(0, i as int), '.', 4);
            let ghost upper_s = split_n(s@.subrange(i + 1, s@.len() as int), '.', 4);
            proof {
                lemma_split_n_len(s@.subrange(i + 1, s@.len() as int), '.', 4);
                assert(lower@.map_values(|v: Vec<char>| v@) =~= lower_s);
            }
            if lower.len() != 4 {
                return None;
            }
            let lo = parse_octet_parts(&lower);
            let cut: usize = 4 - upper.len();
            let mut filled: Vec<Vec<char>> = Vec::new();
            let mut j: usize = 0;
            while j < 4
                invariant
                    j <= 4,
                    cut == 4 - upper@.len(),
                    lower@.len() == 4,
                    1 <= upper@.len() <= 4,
                    filled@.len() == j,
                    forall|k: int| 0 <= k < j ==> #[trigger] filled@[k]@ == fill_upper(lower_s, upper_s)[k],
                    forall|k: int| 0 <= k < 4 ==> #[trigger] lower@[k]@ == lower_s[k],
                    forall|k: int| 0 <= k < upper@.len() ==> #[trigger] upper@[k]@ == upper_s[k],
                    upper@.len() == upper_s.len(),
                decreases 4 - j,
            {
                let piece = if j < cut {
                    sub_chars(&lower[j], 0, lower[j].len())
                } else {
                    sub_chars(&upper[j - cut], 0, upper[j - cut].len())
                };
                proof {
                    assert(lower@[j as int]@.subrange(0, lower@[j as int]@.len() as int) =~= lower@[j as int]@);
                    if j >= cut {
                        let u = upper@[j - cut]@;
                        assert(u.subrange(0, u.len() as int) =~= u);
                    }
                }
                filled.push(piece);
                j = j + 1;
            }
            let hi = parse_octet_parts(&filled);
            proof {
                assert(filled@.map_values(|v: Vec<char>| v@) =~= fill_upper(lower_s, upper_s));
            }
            match (lo, hi) {
                (Some(a), Some(b)) => Some((a, b)),
                _ => None,
            }
        },
    }
}

/// Lists every address of a dotted range, in ascending order, as text.
/// The range is given as in [`ip_range_bounds`]; an upper end below the
/// lower end gives no addresses.
pub fn ip_range_to_list(ip_range: &str) -> (ips: Vec<String>)
    requires
        ip_range_bounds(ip_range@) is Some,
    ensures
        ({
            let (lo, hi) = ip_range_bounds(ip_range@)->0;
            &&& ips@.len() == range_len(lo, hi)
            &&& forall|k: int| 0 <= k < ips@.len() ==> #[trigger] ips@[k]@ == ipv4_text((lo + k) as u32)
        }),
{
    let bounds = parse_ip_range(ip_range);
    let (lo, hi) = match bounds {
        Some(b) => b,
        None => { return Vec::new(); },
    };
    let mut ips: Vec<String> = Vec::new();
    let mut cur: u64 = lo as u64;
    while cur <= hi as u64
        invariant
            lo <= cur <= hi as u64 + 1 || (cur == lo && lo > hi),
            cur >= lo,
            ips@.len() == cur - lo,
            forall|k: int| 0 <= k < ips@.len() ==> #[trigger] ips@[k]@ == ipv4_text((lo + k) as u32),
        decreases hi as u64 + 1 - cur,
    {
        let text = ipv4_to_string(cur as u32);
        ips.push(text);
        cur = cur + 1;
    }
    ips
}

/// The two lower-case hexadecimal digits of a byte.
pub open spec fn hex2(v: nat) -> Seq<char> {
    seq![digit_char(v / 16), digit_char(v % 16)]
}

/// The hexadecimal rendering of dot-separated decimal bytes, two digits
/// per byte, in order.
pub open spec fn hex_join(parts: Seq<Seq<char>>) -> Seq<char>
    decreases parts.len(),
{
    if parts.len() == 0 {
        Seq::empty()
    } else {
        hex_join(parts.drop_last()) + hex2(parse_unsigned(parts.last(), 255)->0)
    }
}

/// Whether every dot-separated part of `s` is a decimal number no greater
/// than 255.
pub open spec fn all_parts_are_bytes(s: Seq<char>) -> bool {
    forall|i: int| 0 <= i < split_all(s, '.').len() ==> parse_unsigned(#[trigger] split_all(s, '.')[i], 255) is Some
}

/// Renders dotted decimal bytes as hexadecimal, e.g. `192.168.1.64` as
/// `c0a80140`. Every dot-separated part must be a byte.
pub fn ip_str_to_hex(s: &str) -> (hex: String)
    requires
        all_parts_are_bytes(s@),
    ensures
        hex@ == hex_join(split_all(s@, '.')),
{
    let chars = chars_of(s);
    let parts = split_chars_all(&chars, '.');
    let ghost ps = split_all(s@, '.');
    let mut out = String::new();
    let mut i: usize = 0;
    while i < parts.len()
        invariant
            i <= parts@.len(),
            parts@.len() == ps.len(),
            forall|k: int| 0 <= k < parts@.len() ==> #[trigger] parts@[k]@ == ps[k],
            forall|k: int| 0 <= k < ps.len() ==> parse_unsigned(#[trigger] ps[k], 255) is Some,
            out@ == hex_join(ps.subrange(0, i as int)),
        decreases parts.len() - i,
    {
        let v = parse_unsigned_chars(&parts[i], 255);
        let b = match v {
            Some(b) => b,
            None => {
                assert(parse_unsigned(ps[i as int], 255) is Some);
                0
            },
        };
        out.append(digit_str((b / 16) as u8));
        out.append(digit_str((b % 16) as u8));
        proof {
            let pre = ps.subrange(0, i as int + 1);
            assert(pre.drop_last() =~= ps.subrange(0, i as int));
            assert(pre.last() == ps[i as int]);
        }
        i = i + 1;
    }
    assert(ps.subrange(0, ps.len() as int) =~= ps);
    out
}


/// Facts about the decimal text of a number: it is made of digits, has no
/// leading zero, reads back as the number, and has one to three characters
/// below 1000.
pub proof fn lemma_dec_text(n: nat)
    ensures
        dec_text(n).len() >= 1,
        all_dec_digits(dec_text(n)),
        dec_value(dec_text(n)) == n,
        n >= 10 ==> dec_text(n)[0] != '0',
        n < 10 ==> dec_text(n).len() == 1,
        10 <= n < 100 ==> dec_text(n).len() == 2,
        100 <= n < 1000 ==> dec_text(n).len() == 3,
        n < 10 ==> dec_text(n)[0] == digit_char(n),
    decreases n,
{
    if n >= 10 {
        lemma_dec_text(n / 10);
        let t = dec_text(n / 10);
        let c = digit_char(n % 10);
        lemma_digit_char(n % 10);
        assert(dec_text(n) == t.push(c));
        lemma_dec_value_push(t, c);
        assert(dec_value(t.push(c)) == (n / 10) * 10 + n % 10);
        assert forall|i: int| 0 <= i < t.push(c).len() implies is_dec_digit(#[trigger] t.push(c)[i]) by {
            if i < t.len() {
                assert(t.push(c)[i] == t[i]);
            }
        }
        assert(t.push(c)[0] == t[0]);
        if n / 10 < 10 {
            lemma_digit_char(n / 10);
        }
    } else {
        lemma_digit_char(n);
        assert(seq![digit_char(n)].drop_last() =~= Seq::<char>::empty());
        assert(dec_value(Seq::<char>::empty()) == 0);
        assert(dec_value(seq![digit_char(n)]) == dec_value(seq![digit_char(n)].drop_last()) * 10 + dec_digit_value(digit_char(n)));
    }
}

/// A digit's character is a decimal digit of that value, not a dot or a
/// dash or a plus sign.
pub proof fn lemma_digit_char(d: nat)
    requires
        d < 10,
    ensures
        is_dec_digit(digit_char(d)),
        dec_digit_value(digit_char(d)) == d,
        d > 0 ==> digit_char(d) != '0',
{
}

/// Text made of digits holds no dot, dash or plus sign.
pub proof fn lemma_digits_no_sep(s: Seq<char>, c: char)
    requires
        all_dec_digits(s),
        !is_dec_digit(c),
    ensures
        first_index(s, c) is None,
{
    lemma_first_index_bounds(s, c);
    if first_index(s, c) is Some {
        let i = first_index(s, c)->0;
        assert(is_dec_digit(s[i]));
    }
}

/// The first `c` of `a + [c] + b`, when `a` holds none, is right after `a`.
pub proof fn lemma_first_index_concat(a: Seq<char>, c: char, b: Seq<char>)
    requires
        first_index(a, c) is None,
    ensures
        first_index(a + seq![c] + b, c) == Some(a.len() as int),
{
    let s = a + seq![c] + b;
    lemma_first_index_bounds(a, c);
    assert(s[a.len() as int] == c);
    assert forall|j: int| 0 <= j < a.len() implies s[j] != c by {
        assert(s[j] == a[j]);
    }
    lemma_first_index_unique(s, c, a.len() as int);
}

/// Splitting `a + [sep] + b` at every `sep`, when `a` holds none.
pub proof fn lemma_split_all_concat(a: Seq<char>, sep: char, b: Seq<char>)
    requires
        first_index(a, sep) is None,
    ensures
        split_all(a + seq![sep] + b, sep) == seq![a] + split_all(b, sep),
{
    let s = a + seq![sep] + b;
    lemma_first_index_concat(a, sep, b);
    assert(s.subrange(0, a.len() as int) =~= a);
    assert(s.subrange(a.len() as int + 1, s.len() as int) =~= b);
}

/// Splitting a text with no `sep`.
pub proof fn lemma_split_all_none(a: Seq<char>, sep: char)
    requires
        first_index(a, sep) is None,
    ensures
        split_all(a, sep) == seq![a],
{
}

/// Splitting `a + [sep] + b` into at most `n` pieces, when `a` holds no
/// `sep`.
pub proof fn lemma_split_n_concat(a: Seq<char>, sep: char, b: Seq<char>, n: nat)
    requires
        first_index(a, sep) is None,
        n >= 2,
    ensures
        split_n(a + seq![sep] + b, sep, n) == seq![a] + split_n(b, sep, (n - 1) as nat),
{
    let s = a + seq![sep] + b;
    lemma_first_index_concat(a, sep, b);
    assert(s.subrange(0, a.len() as int) =~= a);
    assert(s.subrange(a.len() as int + 1, s.len() as int) =~= b);
}

/// The decimal text of an octet reads as that octet, both as an address
/// octet and as a number no greater than 255.
pub proof fn lemma_octet_text(n: nat)
    requires
        n <= 255,
    ensures
        crate::targets::ipv4_octet_text(dec_text(n)),
        parse_unsigned(dec_text(n), 255) == Some(n),
        first_index(dec_text(n), '.') is None,
        first_index(dec_text(n), '-') is None,
{
    lemma_dec_text(n);
    let t = dec_text(n);
    assert(t[0] != '+') by {
        assert(is_dec_digit(t[0]));
    }
    assert(crate::text::unsigned_digits(t) == t);
    lemma_digits_no_sep(t, '.');
    lemma_digits_no_sep(t, '-');
}

/// An address is the sum of its octets' weighted values, each below 256.
pub proof fn lemma_octets(x: u32)
    ensures
        octet(x, 0) <= 255,
        octet(x, 1) <= 255,
        octet(x, 2) <= 255,
        octet(x, 3) <= 255,
        octets_value(octet(x, 0), octet(x, 1), octet(x, 2), octet(x, 3)) == x,
{
    let v = x as nat;
    assert(v / 16777216 <= 255);
    assert(v == (v / 16777216) * 16777216 + ((v / 65536) % 256) * 65536 + ((v / 256) % 256) * 256 + v % 256) by (nonlinear_arith)
        requires
            v < 0x1_0000_0000,
    {
        vstd::arithmetic::div_mod::lemma_fundamental_div_mod(v as int, 256);
        vstd::arithmetic::div_mod::lemma_fundamental_div_mod((v / 256) as int, 256);
        vstd::arithmetic::div_mod::lemma_fundamental_div_mod((v / 65536) as int, 256);
        vstd::arithmetic::div_mod::lemma_div_denominator(v as int, 256, 256);
        vstd::arithmetic::div_mod::lemma_div_denominator(v as int, 65536, 256);
    }
}

/// The four octet texts of an address's dotted-quad text.
pub open spec fn octet_texts(x: u32) -> Seq<Seq<char>> {
    seq![dec_text(octet(x, 0)), dec_text(octet(x, 1)), dec_text(octet(x, 2)), dec_text(octet(x, 3))]
}

/// Four dot-free texts joined by dots split back into the four texts.
pub proof fn lemma_split_four(d0: Seq<char>, d1: Seq<char>, d2: Seq<char>, d3: Seq<char>)
    requires
        first_index(d0, '.') is None,
        first_index(d1, '.') is None,
        first_index(d2, '.') is None,
        first_index(d3, '.') is None,
    ensures
        split_all(d0 + seq!['.'] + d1 + seq!['.'] + d2 + seq!['.'] + d3, '.') == seq![d0, d1, d2, d3],
        split_n(d0 + seq!['.'] + d1 + seq!['.'] + d2 + seq!['.'] + d3, '.', 4) == seq![d0, d1, d2, d3],
{
    let r2 = d2 + seq!['.'] + d3;
    let r1 = d1 + seq!['.'] + r2;
    assert(d0 + seq!['.'] + d1 + seq!['.'] + d2 + seq!['.'] + d3 =~= d0 + seq!['.'] + r1);
    lemma_split_all_concat(d0, '.', r1);
    lemma_split_all_concat(d1, '.', r2);
    lemma_split_all_concat(d2, '.', d3);
    lemma_split_all_none(d3, '.');
    assert(seq![d0] + (seq![d1] + (seq![d2] + seq![d3])) =~= seq![d0, d1, d2, d3]);
    lemma_split_n_concat(d0, '.', r1, 4);
    lemma_split_n_concat(d1, '.', r2, 3);
    lemma_split_n_concat(d2, '.', d3, 2);
    assert(split_n(d3, '.', 1) == seq![d3]);
}

/// The text `.` holds no `-`.
proof fn lemma_dot_no_dash()
    ensures
        first_index(seq!['.'], '-') is None,
{
    let dot = seq!['.'];
    assert(dot.drop_first() =~= Seq::<char>::empty());
    assert(first_index(Seq::<char>::empty(), '-') is None);
}

/// Four dash-free texts joined by dots hold no `-`.
proof fn lemma_four_no_dash(d0: Seq<char>, d1: Seq<char>, d2: Seq<char>, d3: Seq<char>)
    requires
        first_index(d0, '-') is None,
        first_index(d1, '-') is None,
        first_index(d2, '-') is None,
        first_index(d3, '-') is None,
    ensures
        first_index(d0 + seq!['.'] + d1 + seq!['.'] + d2 + seq!['.'] + d3, '-') is None,
{
    let dot = seq!['.'];
    lemma_dot_no_dash();
    lemma_no_dash_concat(d0, dot);
    lemma_no_dash_concat(d0 + dot, d1);
    lemma_no_dash_concat(d0 + dot + d1, dot);
    lemma_no_dash_concat(d0 + dot + d1 + dot, d2);
    lemma_no_dash_concat(d0 + dot + d1 + dot + d2, dot);
    lemma_no_dash_concat(d0 + dot + d1 + dot + d2 + dot, d3);
}

/// The dotted-quad text splits at its dots into its four octet texts and
/// holds no `-`.
pub proof fn lemma_ipv4_text_split(x: u32)
    ensures
        split_all(ipv4_text(x), '.') == octet_texts(x),
        split_n(ipv4_text(x), '.', 4) == octet_texts(x),
        first_index(ipv4_text(x), '-') is None,
{
    lemma_octets(x);
    lemma_octet_text(octet(x, 0));
    lemma_octet_text(octet(x, 1));
    lemma_octet_text(octet(x, 2));
    lemma_octet_text(octet(x, 3));
    lemma_split_four(dec_text(octet(x, 0)), dec_text(octet(x, 1)), dec_text(octet(x, 2)), dec_text(octet(x, 3)));
    lemma_four_no_dash(dec_text(octet(x, 0)), dec_text(octet(x, 1)), dec_text(octet(x, 2)), dec_text(octet(x, 3)));
}

/// A concatenation of two texts without `-` has no `-`.
proof fn lemma_no_dash_concat(a: Seq<char>, b: Seq<char>)
    requires
        first_index(a, '-') is None,
        first_index(b, '-') is None,
    ensures
        first_index(a + b, '-') is None,
{
    lemma_first_index_bounds(a, '-');
    lemma_first_index_bounds(b, '-');
    lemma_first_index_bounds(a + b, '-');
    if first_index(a + b, '-') is Some {
        let i = first_index(a + b, '-')->0;
        if i < a.len() {
            assert((a + b)[i] == a[i]);
        } else {
            assert((a + b)[i] == b[i - a.len()]);
        }
    }
}

/// The dotted-quad text of an address reads back as that address, as the
/// standard library reads IPv4 text.
#[verifier::spinoff_prover]
pub proof fn law_ipv4_text_roundtrip(x: u32)
    ensures
        crate::targets::ipv4_addr_text(ipv4_text(x)) == Some(x),
{
    lemma_ipv4_text_split(x);
    lemma_octets(x);
    lemma_dec_text(octet(x, 0));
    lemma_dec_text(octet(x, 1));
    lemma_dec_text(octet(x, 2));
    lemma_dec_text(octet(x, 3));
    lemma_octet_text(octet(x, 0));
    lemma_octet_text(octet(x, 1));
    lemma_octet_text(octet(x, 2));
    lemma_octet_text(octet(x, 3));
}

/// The hexadecimal rendering of an address's dotted-quad text is the two
/// hexadecimal digits of each octet in turn (`192.168.1.64` gives
/// `c0a80140`).
#[verifier::spinoff_prover]
pub proof fn law_ip_str_to_hex_of_address(x: u32)
    ensures
        all_parts_are_bytes(ipv4_text(x)),
        hex_join(split_all(ipv4_text(x), '.')) == hex2(octet(x, 0)) + hex2(octet(x, 1)) + hex2(octet(x, 2)) + hex2(octet(x, 3)),
{
    lemma_ipv4_text_split(x);
    lemma_octets(x);
    lemma_octet_text(octet(x, 0));
    lemma_octet_text(octet(x, 1));
    lemma_octet_text(octet(x, 2));
    lemma_octet_text(octet(x, 3));
    let p = octet_texts(x);
    assert(p.drop_last().drop_last().drop_last().drop_last() =~= Seq::<Seq<char>>::empty());
    assert(p.drop_last().drop_last().drop_last() =~= seq![p[0]]);
    assert(p.drop_last().drop_last() =~= seq![p[0], p[1]]);
    assert(p.drop_last() =~= seq![p[0], p[1], p[2]]);
    assert(hex_join(seq![p[0]]) =~= hex2(octet(x, 0))) by {
        assert(seq![p[0]].drop_last() =~= Seq::<Seq<char>>::empty());
        assert(hex_join(Seq::<Seq<char>>::empty()) == Seq::<char>::empty());
    }
    assert(hex_join(seq![p[0], p[1]]) =~= hex2(octet(x, 0)) + hex2(octet(x, 1))) by {
        assert(seq![p[0], p[1]].drop_last() =~= seq![p[0]]);
    }
    assert(hex_join(seq![p[0], p[1], p[2]]) =~= hex2(octet(x, 0)) + hex2(octet(x, 1)) + hex2(octet(x, 2))) by {
        assert(seq![p[0], p[1], p[2]].drop_last() =~= seq![p[0], p[1]]);
    }
}

/// A range written with two full addresses, `A-B`, has bounds `A` and `B`.
#[verifier::spinoff_prover]
pub proof fn law_full_range_bounds(x: u32, y: u32)
    ensures
        ip_range_bounds(ipv4_text(x) + seq!['-'] + ipv4_text(y)) == Some((x, y)),
{
    let s = ipv4_text(x) + seq!['-'] + ipv4_text(y);
    lemma_ipv4_text_split(x);
    lemma_ipv4_text_split(y);
    lemma_first_index_concat(ipv4_text(x), '-', ipv4_text(y));
    assert(s.subrange(0, ipv4_text(x).len() as int) =~= ipv4_text(x));
    assert(s.subrange(ipv4_text(x).len() as int + 1, s.len() as int) =~= ipv4_text(y));
    lemma_octets(x);
    lemma_octets(y);
    lemma_octet_text(octet(x, 0));
    lemma_octet_text(octet(x, 1));
    lemma_octet_text(octet(x, 2));
    lemma_octet_text(octet(x, 3));
    lemma_octet_text(octet(y, 0));
    lemma_octet_text(octet(y, 1));
    lemma_octet_text(octet(y, 2));
    lemma_octet_text(octet(y, 3));
    assert(fill_upper(octet_texts(x), octet_texts(y)) =~= octet_texts(y));
}

/// A range written with a full lower address and one upper octet, `A-d`,
/// runs from `A` to `A` with its last octet replaced by `d`
/// (`192.168.1.1-2` covers `192.168.1.1` and `192.168.1.2`).
#[verifier::spinoff_prover]
pub proof fn law_short_range_bounds(x: u32, d: nat)
    requires
        d <= 255,
    ensures
        ip_range_bounds(ipv4_text(x) + seq!['-'] + dec_text(d)) == Some((x, (x - octet(x, 3) + d) as u32)),
{
    let s = ipv4_text(x) + seq!['-'] + dec_text(d);
    lemma_ipv4_text_split(x);
    lemma_first_index_concat(ipv4_text(x), '-', dec_text(d));
    assert(s.subrange(0, ipv4_text(x).len() as int) =~= ipv4_text(x));
    assert(s.subrange(ipv4_text(x).len() as int + 1, s.len() as int) =~= dec_text(d));
    lemma_octets(x);
    lemma_octet_text(octet(x, 0));
    lemma_octet_text(octet(x, 1));
    lemma_octet_text(octet(x, 2));
    lemma_octet_text(octet(x, 3));
    lemma_octet_text(d);
    assert(split_n(dec_text(d), '.', 4) == seq![dec_text(d)]);
    let filled = fill_upper(octet_texts(x), seq![dec_text(d)]);
    assert(filled =~= seq![dec_text(octet(x, 0)), dec_text(octet(x, 1)), dec_text(octet(x, 2)), dec_text(d)]);
}

/// The value of lower-case hexadecimal text.
pub open spec fn hex_value(s: Seq<char>) -> nat
    decreases s.len(),
{
    if s.len() == 0 {
        0
    } else {
        hex_value(s.drop_last()) * 16 + hex_digit_value(s.last())
    }
}

/// The value of a lower-case hexadecimal digit.
pub open spec fn hex_digit_value(c: char) -> nat {
    if '0' <= c && c <= '9' {
        (c as nat - '0' as nat) as nat
    } else {
        (c as nat - 'a' as nat + 10) as nat
    }
}

/// The eight hexadecimal digits of a 32-bit value, most significant first.
pub open spec fn hex8(x: u32) -> Seq<char> {
    seq![
        digit_char((x / 0x1000_0000) as nat),
        digit_char(((x / 0x100_0000) % 16) as nat),
        digit_char(((x / 0x10_0000) % 16) as nat),
        digit_char(((x / 0x1_0000) % 16) as nat),
        digit_char(((x / 0x1000) % 16) as nat),
        digit_char(((x / 0x100) % 16) as nat),
        digit_char(((x / 0x10) % 16) as nat),
        digit_char((x % 16) as nat),
    ]
}

/// A digit's character reads back as the digit in hexadecimal.
proof fn lemma_hex_digit(d: nat)
    requires
        d < 16,
    ensures
        hex_digit_value(digit_char(d)) == d,
{
}

/// The hexadecimal rendering of an address's dotted-quad text is the
/// address's 32-bit value in eight lower-case hexadecimal digits
/// (`10.0.0.1` gives `0a000001`), and reads back as that value.
#[verifier::spinoff_prover]
pub proof fn law_ip_str_to_hex_value(x: u32)
    ensures
        hex_join(split_all(ipv4_text(x), '.')) == hex8(x),
        hex_value(hex8(x)) == x,
{
    law_ip_str_to_hex_of_address(x);
    let v = x;
    assert((v / 0x100_0000) / 16 == v / 0x1000_0000) by (bit_vector);
    assert(((v / 0x1_0000) % 256) / 16 == (v / 0x10_0000) % 16) by (bit_vector);
    assert(((v / 0x1_0000) % 256) % 16 == (v / 0x1_0000) % 16) by (bit_vector);
    assert(((v / 0x100) % 256) / 16 == (v / 0x1000) % 16) by (bit_vector);
    assert(((v / 0x100) % 256) % 16 == (v / 0x100) % 16) by (bit_vector);
    assert((v % 256) / 16 == (v / 0x10) % 16) by (bit_vector);
    assert((v % 256) % 16 == v % 16) by (bit_vector);
    assert(v / 0x100_0000 < 256) by (bit_vector);
    assert(octet(x, 0) == (v / 0x100_0000) as nat);
    assert(octet(x, 1) == ((v / 0x1_0000) % 256) as nat);
    assert(octet(x, 2) == ((v / 0x100) % 256) as nat);
    assert(octet(x, 3) == (v % 256) as nat);
    assert(hex2(octet(x, 0)) + hex2(octet(x, 1)) + hex2(octet(x, 2)) + hex2(octet(x, 3)) =~= hex8(x));
    let h = hex8(x);
    assert(v / 0x1000_0000 < 16) by (bit_vector);
    lemma_hex_digit((v / 0x1000_0000) as nat);
    lemma_hex_digit(((v / 0x100_0000) % 16) as nat);
    lemma_hex_digit(((v / 0x10_0000) % 16) as nat);
    lemma_hex_digit(((v / 0x1_0000) % 16) as nat);
    lemma_hex_digit(((v / 0x1000) % 16) as nat);
    lemma_hex_digit(((v / 0x100) % 16) as nat);
    lemma_hex_digit(((v / 0x10) % 16) as nat);
    lemma_hex_digit((v % 16) as nat);
    assert(h.drop_last().drop_last().drop_last().drop_last().drop_last().drop_last().drop_last().drop_last() =~= Seq::<char>::empty());
    reveal_with_fuel(hex_value, 9);
    assert(h.drop_last().drop_last().drop_last().drop_last().drop_last().drop_last().drop_last() =~= seq![h[0]]);
    assert(h.drop_last().drop_last().drop_last().drop_last().drop_last().drop_last() =~= seq![h[0], h[1]]);
    assert(h.drop_last().drop_last().drop_last().drop_last().drop_last() =~= seq![h[0], h[1], h[2]]);
    assert(h.drop_last().drop_last().drop_last().drop_last() =~= seq![h[0], h[1], h[2], h[3]]);
    assert(h.drop_last().drop_last().drop_last() =~= seq![h[0], h[1], h[2], h[3], h[4]]);
    assert(h.drop_last().drop_last() =~= seq![h[0], h[1], h[2], h[3], h[4], h[5]]);
    assert(h.drop_last() =~= seq![h[0], h[1], h[2], h[3], h[4], h[5], h[6]]);
    assert(v == (((((((v / 0x1000_0000) * 16 + (v / 0x100_0000) % 16) * 16 + (v / 0x10_0000) % 16) * 16
        + (v / 0x1_0000) % 16) * 16 + (v / 0x1000) % 16) * 16 + (v / 0x100) % 16) * 16 + (v / 0x10) % 16) * 16 + v % 16) by (bit_vector);
}

/// The last `k` octets (1 to 3) of `y` joined by dots: a short upper end
/// of a range.
pub open spec fn tail_text(y: u32, k: nat) -> Seq<char> {
    if k <= 1 {
        dec_text(octet(y, 3))
    } else if k == 2 {
        dec_text(octet(y, 2)) + seq!['.'] + dec_text(octet(y, 3))
    } else {
        dec_text(octet(y, 1)) + seq!['.'] + dec_text(octet(y, 2)) + seq!['.'] + dec_text(octet(y, 3))
    }
}

/// The address with the leading `4 - k` octets of `x` and the last `k`
/// octets of `y`.
pub open spec fn spliced(x: u32, y: u32, k: nat) -> u32 {
    octets_value(
        if k < 4 { octet(x, 0) } else { octet(y, 0) },
        if k < 3 { octet(x, 1) } else { octet(y, 1) },
        if k < 2 { octet(x, 2) } else { octet(y, 2) },
        octet(y, 3),
    ) as u32
}

/// The octet texts of `tail_text(y, k)`.
pub open spec fn tail_parts(y: u32, k: nat) -> Seq<Seq<char>> {
    if k <= 1 {
        seq![dec_text(octet(y, 3))]
    } else if k == 2 {
        seq![dec_text(octet(y, 2)), dec_text(octet(y, 3))]
    } else {
        seq![dec_text(octet(y, 1)), dec_text(octet(y, 2)), dec_text(octet(y, 3))]
    }
}

/// A short upper end holds no `-` and splits into its octet texts.
#[verifier::spinoff_prover]
proof fn lemma_tail_split(y: u32, k: nat)
    requires
        1 <= k <= 3,
    ensures
        first_index(tail_text(y, k), '-') is None,
        split_n(tail_text(y, k), '.', 4) == tail_parts(y, k),
{
    let d1 = dec_text(octet(y, 1));
    let d2 = dec_text(octet(y, 2));
    let d3 = dec_text(octet(y, 3));
    let dot = seq!['.'];
    lemma_octets(y);
    lemma_octet_text(octet(y, 1));
    lemma_octet_text(octet(y, 2));
    lemma_octet_text(octet(y, 3));
    lemma_dot_no_dash();
    if k == 1 {
        assert(split_n(d3, '.', 4) == seq![d3]);
    } else if k == 2 {
        lemma_no_dash_concat(d2, dot);
        lemma_no_dash_concat(d2 + dot, d3);
        lemma_split_n_concat(d2, '.', d3, 4);
        assert(split_n(d3, '.', 3) == seq![d3]);
        assert(seq![d2] + seq![d3] =~= tail_parts(y, k));
    } else {
        lemma_no_dash_concat(d1, dot);
        lemma_no_dash_concat(d1 + dot, d2);
        lemma_no_dash_concat(d1 + dot + d2, dot);
        lemma_no_dash_concat(d1 + dot + d2 + dot, d3);
        assert(tail_text(y, k) =~= d1 + dot + (d2 + dot + d3));
        lemma_split_n_concat(d1, '.', d2 + dot + d3, 4);
        lemma_split_n_concat(d2, '.', d3, 3);
        assert(split_n(d3, '.', 2) == seq![d3]);
        assert(seq![d1] + (seq![d2] + seq![d3]) =~= tail_parts(y, k));
    }
}

/// The filled upper end of a short range reads as the spliced address.
#[verifier::spinoff_prover]
proof fn lemma_filled_tail(x: u32, y: u32, k: nat)
    requires
        1 <= k <= 3,
    ensures
        parse_octets(fill_upper(octet_texts(x), tail_parts(y, k))) == Some(spliced(x, y, k)),
{
    lemma_octets(x);
    lemma_octets(y);
    lemma_octet_text(octet(x, 0));
    lemma_octet_text(octet(x, 1));
    lemma_octet_text(octet(x, 2));
    lemma_octet_text(octet(y, 1));
    lemma_octet_text(octet(y, 2));
    lemma_octet_text(octet(y, 3));
    let a = octet(x, 0);
    let b = if k < 3 { octet(x, 1) } else { octet(y, 1) };
    let c = if k < 2 { octet(x, 2) } else { octet(y, 2) };
    let d = octet(y, 3);
    assert(fill_upper(octet_texts(x), tail_parts(y, k)) =~= seq![dec_text(a), dec_text(b), dec_text(c), dec_text(d)]);
}

/// A range with a short upper end takes the missing leading octets from
/// its lower end, so it has the same bounds, and lists the same
/// addresses, as the range written with the full upper address
/// (`192.168.1.1-2` as `192.168.1.1-192.168.1.2`).
#[verifier::spinoff_prover]
pub proof fn law_short_range_end(x: u32, y: u32, k: nat)
    requires
        1 <= k <= 3,
    ensures
        ip_range_bounds(ipv4_text(x) + seq!['-'] + tail_text(y, k)) == Some((x, spliced(x, y, k))),
        ip_range_bounds(ipv4_text(x) + seq!['-'] + tail_text(y, k))
            == ip_range_bounds(ipv4_text(x) + seq!['-'] + ipv4_text(spliced(x, y, k))),
{
    let t = tail_text(y, k);
    let s = ipv4_text(x) + seq!['-'] + t;
    lemma_tail_split(y, k);
    lemma_ipv4_text_split(x);
    lemma_first_index_concat(ipv4_text(x), '-', t);
    assert(s.subrange(0, ipv4_text(x).len() as int) =~= ipv4_text(x));
    assert(s.subrange(ipv4_text(x).len() as int + 1, s.len() as int) =~= t);
    lemma_filled_tail(x, y, k);
    assert(parse_octets(octet_texts(x)) == Some(x)) by {
        lemma_octets(x);
        lemma_octet_text(octet(x, 0));
        lemma_octet_text(octet(x, 1));
        lemma_octet_text(octet(x, 2));
        lemma_octet_text(octet(x, 3));
    }
    law_full_range_bounds(x, spliced(x, y, k));
}

/// A short upper end starts and ends with a decimal digit.
pub proof fn lemma_tail_ends(y: u32, k: nat)
    requires
        1 <= k <= 3,
    ensures
        tail_text(y, k).len() >= 1,
        is_dec_digit(tail_text(y, k)[0]),
        is_dec_digit(tail_text(y, k)[tail_text(y, k).len() - 1]),
{
    lemma_octets(y);
    lemma_dec_text(octet(y, 1));
    lemma_dec_text(octet(y, 2));
    lemma_dec_text(octet(y, 3));
    let t = tail_text(y, k);
    let d1 = dec_text(octet(y, 1));
    let d2 = dec_text(octet(y, 2));
    let d3 = dec_text(octet(y, 3));
    assert(t[t.len() - 1] == d3[d3.len() - 1]);
    if k == 1 {
        assert(t[0] == d3[0]);
    } else if k == 2 {
        assert(t[0] == d2[0]);
    } else {
        assert(t[0] == d1[0]);
    }
}

/// A short upper end holds no `-`.
pub proof fn lemma_tail_no_dash(y: u32, k: nat)
    requires
        1 <= k <= 3,
    ensures
        first_index(tail_text(y, k), '-') is None,
{
    lemma_tail_split(y, k);
}
} // verus!
