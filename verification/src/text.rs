//! Character-level helpers: splitting, decimal and hexadecimal digits,
//! and the decimal parser used for address octets and counts.

use vstd::prelude::*;

verus! {

/// The character for a digit value below sixteen (lower-case hexadecimal).
pub open spec fn digit_char(d: nat) -> char {
    if d == 0 { '0' }
    else if d == 1 { '1' }
    else if d == 2 { '2' }
    else if d == 3 { '3' }
    else if d == 4 { '4' }
    else if d == 5 { '5' }
    else if d == 6 { '6' }
    else if d == 7 { '7' }
    else if d == 8 { '8' }
    else if d == 9 { '9' }
    else if d == 10 { 'a' }
    else if d == 11 { 'b' }
    else if d == 12 { 'c' }
    else if d == 13 { 'd' }
    else if d == 14 { 'e' }
    else { 'f' }
}

/// Whether a character is an ASCII decimal digit.
pub open spec fn is_dec_digit(c: char) -> bool {
    '0' <= c && c <= '9'
}

/// The value of an ASCII decimal digit.
pub open spec fn dec_digit_value(c: char) -> nat {
    (c as int - '0' as int) as nat
}

/// Decimal text of a natural number, without leading zeros.
pub open spec fn dec_text(n: nat) -> Seq<char>
    decreases n,
{
    if n < 10 {
        seq![digit_char(n)]
    } else {
        dec_text(n / 10).push(digit_char(n % 10))
    }
}

/// Whether every character of `s` is a decimal digit.
pub open spec fn all_dec_digits(s: Seq<char>) -> bool {
    forall|i: int| 0 <= i < s.len() ==> is_dec_digit(#[trigger] s[i])
}

/// The value of a string of decimal digits (most significant first).
pub open spec fn dec_value(s: Seq<char>) -> nat
    decreases s.len(),
{
    if s.len() == 0 {
        0
    } else {
        dec_value(s.drop_last()) * 10 + dec_digit_value(s.last())
    }
}

/// The digits of an unsigned decimal literal: an optional leading `+`
/// followed by the digits themselves.
pub open spec fn unsigned_digits(s: Seq<char>) -> Seq<char> {
    if s.len() > 0 && s[0] == '+' {
        s.drop_first()
    } else {
        s
    }
}

/// What parsing `s` as an unsigned integer no greater than `max` gives:
/// an optional `+`, then one or more decimal digits whose value is at
/// most `max`. Anything else (empty text, other characters, a value too
/// large) is refused.
pub open spec fn parse_unsigned(s: Seq<char>, max: nat) -> Option<nat> {
    let d = unsigned_digits(s);
    if d.len() > 0 && all_dec_digits(d) && dec_value(d) <= max {
        Some(dec_value(d))
    } else {
        None
    }
}

/// Index of the first occurrence of `c` in `s`, if any.
pub open spec fn first_index(s: Seq<char>, c: char) -> Option<int>
    decreases s.len(),
{
    if s.len() == 0 {
        None
    } else if s[0] == c {
        Some(0)
    } else {
        match first_index(s.drop_first(), c) {
            Some(i) => Some(i + 1),
            None => None,
        }
    }
}

/// Splits `s` at each `sep` into at most `n` pieces (`n >= 1`); the last
/// piece keeps any remaining separators.
pub open spec fn split_n(s: Seq<char>, sep: char, n: nat) -> Seq<Seq<char>>
    decreases n,
{
    if n <= 1 {
        seq![s]
    } else {
        match first_index(s, sep) {
            None => seq![s],
            Some(i) => seq![s.subrange(0, i)] + split_n(s.subrange(i + 1, s.len() as int), sep, (n - 1) as nat),
        }
    }
}

/// Splits `s` at every `sep`.
pub open spec fn split_all(s: Seq<char>, sep: char) -> Seq<Seq<char>>
    decreases s.len(),
{
    match first_index(s, sep) {
        None => seq![s],
        Some(i) => {
            if 0 <= i < s.len() {
                seq![s.subrange(0, i)] + split_all(s.subrange(i + 1, s.len() as int), sep)
            } else {
                seq![s]
            }
        },
    }
}

pub proof fn lemma_first_index_bounds(s: Seq<char>, c: char)
    ensures
        match first_index(s, c) {
            Some(i) => 0 <= i < s.len() && s[i] == c && forall|j: int| 0 <= j < i ==> s[j] != c,
            None => forall|j: int| 0 <= j < s.len() ==> s[j] != c,
        },
    decreases s.len(),
{
    if s.len() > 0 && s[0] != c {
        lemma_first_index_bounds(s.drop_first(), c);
        match first_index(s.drop_first(), c) {
            Some(i) => {
                assert forall|j: int| 0 <= j < i + 1 implies s[j] != c by {
                    if j > 0 {
                        assert(s[j] == s.drop_first()[j - 1]);
                    }
                }
            },
            None => {
                assert forall|j: int| 0 <= j < s.len() implies s[j] != c by {
                    if j > 0 {
                        assert(s[j] == s.drop_first()[j - 1]);
                    }
                }
            },
        }
    }
}

/// Copies the characters of a string slice into a vector.
pub fn chars_of(s: &str) -> (v: Vec<char>)
    ensures
        v@ == s@,
{
    let n = s.unicode_len();
    let mut v: Vec<char> = Vec::new();
    let mut i: usize = 0;
    while i < n
        invariant
            n == s@.len(),
            i <= n,
            v@ == s@.subrange(0, i as int),
        decreases n - i,
    {
        let c = s.get_char(i);
        v.push(c);
        i = i + 1;
        assert(v@ =~= s@.subrange(0, i as int));
    }
    assert(v@ =~= s@);
    v
}

/// Index of the first `c` in `s`.
pub fn find_char(s: &Vec<char>, c: char) -> (r: Option<usize>)
    ensures
        match r {
            Some(i) => first_index(s@, c) == Some(i as int),
            None => first_index(s@, c) is None,
        },
{
    let mut i: usize = 0;
    while i < s.len()
        invariant
            i <= s.len(),
            forall|j: int| 0 <= j < i ==> s@[j] != c,
        decreases s.len() - i,
    {
        if s[i] == c {
            proof {
                lemma_first_index_unique(s@, c, i as int);
            }
            return Some(i);
        }
        i = i + 1;
    }
    proof {
        lemma_first_index_bounds(s@, c);
        if first_index(s@, c) is Some {
            let k = first_index(s@, c)->0;
            assert(s@[k] == c);
        }
    }
    None
}

/// The first occurrence is the only index with `c` and no earlier `c`.
pub proof fn lemma_first_index_unique(s: Seq<char>, c: char, i: int)
    requires
        0 <= i < s.len(),
        s[i] == c,
        forall|j: int| 0 <= j < i ==> s[j] != c,
    ensures
        first_index(s, c) == Some(i),
{
    lemma_first_index_bounds(s, c);
    match first_index(s, c) {
        Some(k) => {
            if k < i {
                assert(s[k] != c);
            } else if k > i {
                assert(s[i] != c);
            }
        },
        None => {
            assert(s[i] != c);
        },
    }
}

/// The sub-vector `s[from..to]`.
pub fn sub_chars(s: &Vec<char>, from: usize, to: usize) -> (r: Vec<char>)
    requires
        from <= to <= s.len(),
    ensures
        r@ == s@.subrange(from as int, to as int),
{
    let mut r: Vec<char> = Vec::new();
    let mut i: usize = from;
    while i < to
        invariant
            from <= i <= to <= s.len(),
            r@ == s@.subrange(from as int, i as int),
        decreases to - i,
    {
        r.push(s[i]);
        i = i + 1;
        assert(r@ =~= s@.subrange(from as int, i as int));
    }
    r
}

/// Splits `s` at each `sep` into at most `n` pieces, the last keeping the
/// rest of the text.
pub fn split_chars_n(s: &Vec<char>, sep: char, n: usize) -> (parts: Vec<Vec<char>>)
    requires
        n >= 1,
    ensures
        parts@.len() == split_n(s@, sep, n as nat).len(),
        forall|i: int| 0 <= i < parts@.len() ==> #[trigger] parts@[i]@ == split_n(s@, sep, n as nat)[i],
    decreases n,
{
    if n == 1 {
        let mut parts: Vec<Vec<char>> = Vec::new();
        parts.push(sub_chars(s, 0, s.len()));
        assert(s@.subrange(0, s@.len() as int) =~= s@);
        return parts;
    }
    match find_char(s, sep) {
        None => {
            let mut parts: Vec<Vec<char>> = Vec::new();
            parts.push(sub_chars(s, 0, s.len()));
            assert(s@.subrange(0, s@.len() as int) =~= s@);
            parts
        },
        Some(i) => {
            proof {
                lemma_first_index_bounds(s@, sep);
            }
            let head = sub_chars(s, 0, i);
            let len_s = s.len();
            assert(i < len_s);
            let rest = sub_chars(s, i + 1, len_s);
            let tail = split_chars_n(&rest, sep, n - 1);
            let mut parts: Vec<Vec<char>> = Vec::new();
            parts.push(head);
            let mut k: usize = 0;
            while k < tail.len()
                invariant
                    parts@.len() == k + 1,
                    k <= tail@.len(),
                    parts@[0]@ == s@.subrange(0, i as int),
                    forall|j: int| 1 <= j < k + 1 ==> #[trigger] parts@[j]@ == tail@[j - 1]@,
                decreases tail.len() - k,
            {
                let piece = sub_chars(&tail[k], 0, tail[k].len());
                assert(tail@[k as int]@.subrange(0, tail@[k as int]@.len() as int) =~= tail@[k as int]@);
                parts.push(piece);
                k = k + 1;
            }
            proof {
                let whole = split_n(s@, sep, n as nat);
                let rest_split = split_n(s@.subrange(i + 1, s@.len() as int), sep, (n - 1) as nat);
                assert(whole == seq![s@.subrange(0, i as int)] + rest_split);
                assert forall|j: int| 0 <= j < parts@.len() implies #[trigger] parts@[j]@ == whole[j] by {
                    if j > 0 {
                        assert(whole[j] == rest_split[j - 1]);
                    }
                }
            }
            parts
        },
    }
}

/// Splits `s` at every `sep`.
pub fn split_chars_all(s: &Vec<char>, sep: char) -> (parts: Vec<Vec<char>>)
    ensures
        parts@.len() == split_all(s@, sep).len(),
        forall|i: int| 0 <= i < parts@.len() ==> #[trigger] parts@[i]@ == split_all(s@, sep)[i],
    decreases s@.len(),
{
    match find_char(s, sep) {
        None => {
            let mut parts: Vec<Vec<char>> = Vec::new();
            parts.push(sub_chars(s, 0, s.len()));
            assert(s@.subrange(0, s@.len() as int) =~= s@);
            parts
        },
        Some(i) => {
            proof {
                lemma_first_index_bounds(s@, sep);
            }
            let head = sub_chars(s, 0, i);
            let len_s = s.len();
            assert(i < len_s);
            let rest = sub_chars(s, i + 1, len_s);
            let tail = split_chars_all(&rest, sep);
            let mut parts: Vec<Vec<char>> = Vec::new();
            parts.push(head);
            let mut k: usize = 0;
            while k < tail.len()
                invariant
                    parts@.len() == k + 1,
                    k <= tail@.len(),
                    parts@[0]@ == s@.subrange(0, i as int),
                    forall|j: int| 1 <= j < k + 1 ==> #[trigger] parts@[j]@ == tail@[j - 1]@,
                decreases tail.len() - k,
            {
                let piece = sub_chars(&tail[k], 0, tail[k].len());
                assert(tail@[k as int]@.subrange(0, tail@[k as int]@.len() as int) =~= tail@[k as int]@);
                parts.push(piece);
                k = k + 1;
            }
            proof {
                let whole = split_all(s@, sep);
                let rest_split = split_all(s@.subrange(i + 1, s@.len() as int), sep);
                assert(whole == seq![s@.subrange(0, i as int)] + rest_split);
                assert forall|j: int| 0 <= j < parts@.len() implies #[trigger] parts@[j]@ == whole[j] by {
                    if j > 0 {
                        assert(whole[j] == rest_split[j - 1]);
                    }
                }
            }
            parts
        },
    }
}


/// The one-character text of a digit value below sixteen.
pub fn digit_str(d: u8) -> (s: &'static str)
    requires
        d < 16,
    ensures
        s@ == seq![digit_char(d as nat)],
{
    match d {
        0 => {
            proof {
                reveal_strlit("0");
            }
            "0"
        },
        1 => {
            proof {
                reveal_strlit("1");
            }
            "1"
        },
        2 => {
            proof {
                reveal_strlit("2");
            }
            "2"
        },
        3 => {
            proof {
                reveal_strlit("3");
            }
            "3"
        },
        4 => {
            proof {
                reveal_strlit("4");
            }
            "4"
        },
        5 => {
            proof {
                reveal_strlit("5");
            }
            "5"
        },
        6 => {
            proof {
                reveal_strlit("6");
            }
            "6"
        },
        7 => {
            proof {
                reveal_strlit("7");
            }
            "7"
        },
        8 => {
            proof {
                reveal_strlit("8");
            }
            "8"
        },
        9 => {
            proof {
                reveal_strlit("9");
            }
            "9"
        },
        10 => {
            proof {
                reveal_strlit("a");
            }
            "a"
        },
        11 => {
            proof {
                reveal_strlit("b");
            }
            "b"
        },
        12 => {
            proof {
                reveal_strlit("c");
            }
            "c"
        },
        13 => {
            proof {
                reveal_strlit("d");
            }
            "d"
        },
        14 => {
            proof {
                reveal_strlit("e");
            }
            "e"
        },
        15 => {
            proof {
                reveal_strlit("f");
            }
            "f"
        },
        _ => {
            proof {
                reveal_strlit("f");
            }
            "f"
        },
    }
}

/// Appends the decimal text of `n` to `out`.
pub fn push_dec(out: &mut String, n: u64)
    ensures
        final(out)@ == old(out)@ + dec_text(n as nat),
    decreases n,
{
    if n >= 10 {
        push_dec(out, n / 10);
    }
    let d = (n % 10) as u8;
    out.append(digit_str(d));
    proof {
        if n >= 10 {
            assert(dec_text(n as nat) == dec_text((n / 10) as nat).push(digit_char((n % 10) as nat)));
        }
    }
}

/// `dec_value` of a text extended by one digit.
pub proof fn lemma_dec_value_push(p: Seq<char>, c: char)
    ensures
        dec_value(p.push(c)) == dec_value(p) * 10 + dec_digit_value(c),
{
    assert(p.push(c).drop_last() =~= p);
}

/// Parses `s` as an unsigned decimal number of at most `max`.
pub fn parse_unsigned_chars(s: &Vec<char>, max: u32) -> (r: Option<u32>)
    ensures
        match r {
            Some(v) => parse_unsigned(s@, max as nat) == Some(v as nat),
            None => parse_unsigned(s@, max as nat) is None,
        },
{
    let start: usize = if s.len() > 0 && s[0] == '+' { 1 } else { 0 };
    let ghost d = unsigned_digits(s@);
    assert(d =~= s@.subrange(start as int, s@.len() as int));
    if start == s.len() {
        return None;
    }
    let mut acc: u64 = 0;
    let mut big = false;
    let mut i: usize = start;
    while i < s.len()
        invariant
            start <= i <= s.len(),
            d == s@.subrange(start as int, s@.len() as int),
            d == unsigned_digits(s@),
            all_dec_digits(s@.subrange(start as int, i as int)),
            !big ==> acc == dec_value(s@.subrange(start as int, i as int)) && acc <= max,
            big ==> dec_value(s@.subrange(start as int, i as int)) > max,
        decreases s.len() - i,
    {
        let c = s[i];
        if !('0' <= c && c <= '9') {
            proof {
                assert(d[i - start] == c);
                assert(!is_dec_digit(d[i - start]));
                assert(!all_dec_digits(d));
            }
            return None;
        }
        let ghost prev = s@.subrange(start as int, i as int);
        proof {
            assert(s@.subrange(start as int, i + 1) =~= prev.push(c));
            lemma_dec_value_push(prev, c);
        }
        if !big {
            let v = (c as u32 - '0' as u32) as u64;
            acc = acc * 10 + v;
            if acc > max as u64 {
                big = true;
            }
        }
        i = i + 1;
        proof {
            let cur = s@.subrange(start as int, i as int);
            assert forall|j: int| 0 <= j < cur.len() implies is_dec_digit(#[trigger] cur[j]) by {
                if j < prev.len() {
                    assert(cur[j] == prev[j]);
                }
            }
        }
    }
    assert(s@.subrange(start as int, s@.len() as int) =~= d);
    if big {
        None
    } else {
        Some(acc as u32)
    }
}


/// Whether `pat` occurs in `s` starting at index `i`.
pub open spec fn match_at(s: Seq<char>, pat: Seq<char>, i: int) -> bool {
    0 <= i && i + pat.len() <= s.len() && s.subrange(i, i + pat.len()) == pat
}

/// Whether `pat` occurs in `s`.
pub open spec fn contains_seq(s: Seq<char>, pat: Seq<char>) -> bool {
    exists|i: int| match_at(s, pat, i)
}

/// Whether `s` starts with `pat`.
pub open spec fn starts_with_seq(s: Seq<char>, pat: Seq<char>) -> bool {
    match_at(s, pat, 0)
}

/// Whether `s` ends with `pat`.
pub open spec fn ends_with_seq(s: Seq<char>, pat: Seq<char>) -> bool {
    pat.len() <= s.len() && match_at(s, pat, s.len() - pat.len())
}

/// The last index at most `i` where `pat` occurs in `s`.
pub open spec fn last_match_from(s: Seq<char>, pat: Seq<char>, i: int) -> Option<int>
    decreases i + 1,
{
    if i < 0 {
        None
    } else if match_at(s, pat, i) {
        Some(i)
    } else {
        last_match_from(s, pat, i - 1)
    }
}

/// The start of the last occurrence of `pat` in `s`.
pub open spec fn last_match(s: Seq<char>, pat: Seq<char>) -> Option<int> {
    last_match_from(s, pat, s.len() - pat.len())
}

/// Whether `pat` occurs in `s` at `i`.
pub fn matches_at(s: &Vec<char>, pat: &Vec<char>, i: usize) -> (b: bool)
    ensures
        b == match_at(s@, pat@, i as int),
{
    if i > s.len() || pat.len() > s.len() - i {
        return false;
    }
    let n = s.len();
    let mut k: usize = 0;
    while k < pat.len()
        invariant
            k <= pat@.len(),
            n == s@.len(),
            i <= s@.len(),
            i + pat@.len() <= s@.len(),
            forall|j: int| 0 <= j < k ==> s@[i + j] == pat@[j],
        decreases pat.len() - k,
    {
        if s[i + k] != pat[k] {
            assert(s@.subrange(i as int, i + pat@.len())[k as int] != pat@[k as int]);
            return false;
        }
        k = k + 1;
    }
    assert(s@.subrange(i as int, i + pat@.len()) =~= pat@);
    true
}

/// Whether `pat` occurs in `s`.
pub fn contains_chars(s: &Vec<char>, pat: &Vec<char>) -> (b: bool)
    ensures
        b == contains_seq(s@, pat@),
{
    let mut i: usize = 0;
    while i < s.len()
        invariant
            i <= s@.len(),
            forall|j: int| 0 <= j < i ==> !match_at(s@, pat@, j),
        decreases s.len() - i,
    {
        if matches_at(s, pat, i) {
            return true;
        }
        i = i + 1;
    }
    if matches_at(s, pat, i) {
        return true;
    }
    assert forall|j: int| !match_at(s@, pat@, j) by {
        if 0 <= j <= i {
        }
    }
    false
}

/// The start of the last occurrence of `pat` in `s`.
pub fn last_match_index(s: &Vec<char>, pat: &Vec<char>) -> (r: Option<usize>)
    ensures
        match r {
            Some(i) => last_match(s@, pat@) == Some(i as int),
            None => last_match(s@, pat@) is None,
        },
{
    if pat.len() > s.len() {
        assert(last_match(s@, pat@) is None);
        return None;
    }
    let mut i: usize = s.len() - pat.len();
    loop
        invariant
            i <= s@.len() - pat@.len(),
            pat@.len() <= s@.len(),
            last_match(s@, pat@) == last_match_from(s@, pat@, i as int),
        decreases i,
    {
        if matches_at(s, pat, i) {
            return Some(i);
        }
        if i == 0 {
            assert(last_match_from(s@, pat@, -1) is None);
            return None;
        }
        i = i - 1;
    }
}


/// What `last_match_from` finds is a match, at or before `j`.
pub proof fn lemma_last_match_from(s: Seq<char>, pat: Seq<char>, j: int)
    ensures
        match last_match_from(s, pat, j) {
            Some(i) => match_at(s, pat, i) && i <= j,
            None => forall|k: int| 0 <= k <= j ==> !match_at(s, pat, k),
        },
    decreases j + 1,
{
    if j >= 0 && !match_at(s, pat, j) {
        lemma_last_match_from(s, pat, j - 1);
    }
}
} // verus!
