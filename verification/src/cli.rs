//! The command line's decisions: the log level, the output file name, and
//! when the collection of results ends.

use vstd::prelude::*;
use crate::targets::{trim_text, trimmed};
use crate::text::{
    is_dec_digit, unsigned_digits, chars_of, contains_chars, contains_seq, ends_with_seq, last_match, last_match_index,
    lemma_last_match_from, match_at, matches_at, parse_unsigned, parse_unsigned_chars, starts_with_seq,
};

verus! {

/// The log level chosen on the command line.
#[derive(Clone, Copy, Debug, PartialEq, Eq, Structural)]
pub enum CliLevelFilter {
    /// A level lower than all log levels.
    Off,
    /// The `Error` log level.
    Error,
    /// The `Warn` log level.
    Warn,
    /// The `Info` log level.
    Info,
    /// The `Debug` log level.
    Debug,
    /// The `Trace` log level.
    Trace,
}

impl CliLevelFilter {
    /// Whether per-target lines are printed: every level but `Off`.
    pub fn enables_output(&self) -> (b: bool)
        ensures
            b == !(*self is Off),
    {
        match self {
            CliLevelFilter::Off => false,
            _ => true,
        }
    }

    /// The console log pattern of the level.
    pub fn log_pattern(&self) -> (p: &'static str)
        ensures
            *self is Debug ==> p@ == "[{d(%H:%M:%S)}][{l}] - {m}{n}"@,
            (*self is Error || *self is Warn || *self is Trace) ==> p@ == "[{d}]{l} - {m}{n}"@,
            *self is Info ==> p@ == "{m}{n}"@,
            *self is Off ==> p@ == ""@,
    {
        match self {
            CliLevelFilter::Debug => "[{d(%H:%M:%S)}][{l}] - {m}{n}",
            CliLevelFilter::Error => "[{d}]{l} - {m}{n}",
            CliLevelFilter::Info => "{m}{n}",
            CliLevelFilter::Trace => "[{d}]{l} - {m}{n}",
            CliLevelFilter::Warn => "[{d}]{l} - {m}{n}",
            CliLevelFilter::Off => "",
        }
    }
}

/// The text `.csv`.
pub open spec fn csv_suffix() -> Seq<char> {
    seq!['.', 'c', 's', 'v']
}

/// The CSV file name for an output path (trimmed): an existing file or a
/// name ending in `.csv` gets `stamp` inserted before its last `.csv` (or
/// appended when it has none) and `.csv` after; any other name gets `.csv`
/// appended.
pub open spec fn output_path_text(path: Seq<char>, is_existing_file: bool, stamp: Seq<char>) -> Seq<char> {
    let p = trimmed(path);
    if is_existing_file || ends_with_seq(p, csv_suffix()) {
        let stem = match last_match(p, csv_suffix()) {
            Some(i) => p.subrange(0, i),
            None => p,
        };
        stem + stamp + csv_suffix()
    } else {
        p + csv_suffix()
    }
}

/// The CSV file name for an output path, with the given time stamp (see
/// `output_path_text`).
pub fn output_path(path: &str, is_existing_file: bool, stamp: &str) -> (out: String)
    ensures
        out@ == output_path_text(path@, is_existing_file, stamp@),
{
    proof {
        reveal_strlit(".csv");
    }
    let p = trim_text(path);
    let pc = chars_of(p);
    let suffix = chars_of(".csv");
    let n = pc.len();
    let ends = n >= 4 && pc[n - 4] == '.' && pc[n - 3] == 'c' && pc[n - 2] == 's' && pc[n - 1] == 'v';
    proof {
        if ends {
            assert(pc@.subrange(n - 4, n as int) =~= csv_suffix());
        }
        if n >= 4 && ends_with_seq(pc@, csv_suffix()) {
            assert(pc@.subrange(n - 4, n as int)[0] == '.');
            assert(pc@.subrange(n - 4, n as int)[1] == 'c');
            assert(pc@.subrange(n - 4, n as int)[2] == 's');
            assert(pc@.subrange(n - 4, n as int)[3] == 'v');
        }
    }
    assert(ends == ends_with_seq(pc@, csv_suffix()));
    assert(suffix@ == csv_suffix());
    let mut out = String::new();
    if is_existing_file || ends {
        match last_match_index(&pc, &suffix) {
            Some(i) => {
                proof {
                    lemma_last_match_from(pc@, suffix@, pc@.len() - suffix@.len());
                }
                out.append(p.substring_char(0, i));
            },
            None => {
                out.append(p);
            },
        }
        out.append(stamp);
        out.append(".csv");
    } else {
        out.append(p);
        out.append(".csv");
    }
    assert(out@ =~= output_path_text(path@, is_existing_file, stamp@));
    out
}

/// A time stamp as `%Y%m%d_%H%M%S` writes one: at least fifteen
/// characters (a year of four digits or more, then month, day, `_`, hour,
/// minute, second) and no `.`.
pub open spec fn stamp_shape(stamp: Seq<char>) -> bool {
    &&& stamp.len() >= 15
    &&& forall|k: int| 0 <= k < stamp.len() ==> stamp[k] != '.'
}

/// Calls `chrono::Utc::now().format("%Y%m%d_%H%M%S")`. Claimed: the text
/// has the shape of that format (`stamp_shape`); which time it shows is
/// left open, as it is the current time.
#[verifier::external_body]
fn utc_time_stamp() -> (s: String)
    ensures
        stamp_shape(s@),
{
    chrono::Utc::now().format("%Y%m%d_%H%M%S").to_string()
}

/// A stamped name never equals the trimmed path it was made from.
proof fn lemma_stamped_name_differs(path: Seq<char>, stamp: Seq<char>)
    requires
        stamp.len() >= 1,
    ensures
        output_path_text(path, true, stamp) != trimmed(path),
{
    let p = trimmed(path);
    let out = output_path_text(path, true, stamp);
    match last_match(p, csv_suffix()) {
        Some(i) => {
            lemma_last_match_from(p, csv_suffix(), p.len() - 4);
            if out == p {
                let j = p.len() - 4;
                assert(out.subrange(j, j + 4) =~= csv_suffix());
                assert(match_at(p, csv_suffix(), j));
                assert(last_match(p, csv_suffix()) == Some(j));
                assert(false);
            }
        },
        None => {
            assert(out.len() > p.len());
        },
    }
}

/// The CSV file name for an output path, stamped with the current UTC time
/// (`%Y%m%d_%H%M%S`) where `output_path_text` inserts a stamp. The name of
/// an existing file is never given back: the result differs from it.
pub fn check_file(path: &str, is_existing_file: bool) -> (out: String)
    ensures
        exists|stamp: Seq<char>| stamp_shape(stamp) && out@ == output_path_text(path@, is_existing_file, stamp),
        is_existing_file ==> out@ != trimmed(path@),
{
    let stamp = utc_time_stamp();
    let out = output_path(path, is_existing_file, stamp.as_str());
    proof {
        if is_existing_file {
            lemma_stamped_name_differs(path@, stamp@);
        }
    }
    out
}

/// Counts results as they arrive and says when to look for an interrupt
/// and when the run is over: after every `target_ips` results the
/// interrupt is polled; with a positive number of rounds the run ends with
/// the result that brings the count of `target_ips * ping_times` down to
/// its last one.
pub struct ResultCounter {
    target_ips: u64,
    ping_times: u32,
    count: u64,
    epoch_reset_count: u64,
}

impl ResultCounter {
    /// Results still expected before the run ends (counting the last one).
    pub closed spec fn remaining(self) -> u64 {
        self.count
    }

    /// Results since the interrupt was last polled.
    pub closed spec fn since_poll(self) -> u64 {
        self.epoch_reset_count
    }

    /// Targets per round.
    pub closed spec fn targets_per_round(self) -> u64 {
        self.target_ips
    }

    /// Rounds asked for (0: continuous).
    pub closed spec fn rounds(self) -> u32 {
        self.ping_times
    }

    /// The counter is consistent: fewer results since the last poll than
    /// targets per round.
    pub closed spec fn wf(self) -> bool {
        self.target_ips > 0 ==> self.epoch_reset_count < self.target_ips
    }

    /// A counter for `target_ips` targets and `ping_times` rounds (0 for
    /// continuous pinging).
    pub fn new(target_ips: u32, ping_times: u32) -> (c: ResultCounter)
        ensures
            c.wf(),
            c.remaining() == target_ips as nat * ping_times as nat,
            c.since_poll() == 0,
            c.targets_per_round() == target_ips,
            c.rounds() == ping_times,
    {
        let t = target_ips as u64;
        let p = ping_times as u64;
        assert(t * p <= 0xffff_fffe_0000_0001) by (nonlinear_arith)
            requires
                t <= 0xffff_ffff,
                p <= 0xffff_ffff,
        ;
        ResultCounter { target_ips: t, ping_times, count: t * p, epoch_reset_count: 0 }
    }

    /// Counts one result; says whether the interrupt is to be polled now
    /// (after each full round's worth of results).
    pub fn note_result(&mut self) -> (poll: bool)
        requires
            old(self).wf(),
            old(self).targets_per_round() > 0,
        ensures
            final(self).wf(),
            poll == (old(self).since_poll() + 1 == old(self).targets_per_round()),
            final(self).since_poll() == if poll { 0 } else { old(self).since_poll() + 1 },
            final(self).remaining() == old(self).remaining(),
            final(self).targets_per_round() == old(self).targets_per_round(),
            final(self).rounds() == old(self).rounds(),
    {
        self.epoch_reset_count = self.epoch_reset_count + 1;
        if self.epoch_reset_count == self.target_ips {
            self.epoch_reset_count = 0;
            true
        } else {
            false
        }
    }

    /// After a result was counted (and no interrupt ended the run): says
    /// whether the run is over. Continuous runs never end here; otherwise
    /// the run ends when this was the last expected result, and the count
    /// goes down by one before that.
    pub fn advance(&mut self) -> (done: bool)
        requires
            old(self).rounds() == 0 || old(self).remaining() >= 1,
        ensures
            (final(self).remaining(), done) == advance_step(old(self).rounds(), old(self).remaining()),
            final(self).since_poll() == old(self).since_poll(),
            final(self).targets_per_round() == old(self).targets_per_round(),
            final(self).rounds() == old(self).rounds(),
            old(self).wf() ==> final(self).wf(),
    {
        if self.ping_times == 0 {
            false
        } else if self.count == 1 {
            true
        } else {
            self.count = self.count - 1;
            false
        }
    }
}


/// Why a positional command line was refused.
#[derive(Clone, Copy, Debug, PartialEq, Eq, Structural)]
pub enum CliArgsError {
    /// The count of pings is not a number.
    BadCount,
    /// An argument that is read is missing.
    MissingArgument,
}

/// A positional command line as read: the count of pings, the timeout in
/// milliseconds, the interval in microseconds, where the input file and the
/// output file were named (argument indices), whether per-target lines are
/// printed, and where the target arguments start.
#[derive(Clone, Copy, Debug, PartialEq, Eq, Structural)]
pub struct CliPlan {
    pub times: u32,
    pub timeout: u32,
    pub interval: u64,
    pub input_file: Option<usize>,
    pub output_file: Option<usize>,
    pub is_log: bool,
    pub first_target: usize,
}

/// What a positional command line asks for.
#[derive(Clone, Copy, Debug, PartialEq, Eq, Structural)]
pub enum CliDetection {
    /// No arguments, or `-h`: show the help and stop.
    Help,
    /// The command line cannot be read.
    Invalid(CliArgsError),
    /// Run as planned.
    Run(CliPlan),
}

/// Default timeout of the positional command line, in milliseconds.
pub const DEFAULT_TIMEOUT_MS: u32 = 2000;

/// Default interval of the positional command line, in microseconds.
pub const DEFAULT_INTERVAL_US: u64 = 100;

/// How a positional command line reads: `prog COUNT [TIMEOUT] [INTERVAL]
/// [INPUT] [OUTPUT.csv] [nolog] TARGET...`. `COUNT` is required; a
/// following number is the timeout (else 2000), a further number the
/// interval (else 100); the next argument is an input file when it
/// contains `.text` or starts with `input`; the next one an output file
/// when it ends with `.csv`; the next one turns output off when it contains
/// `nolog`; the rest are targets. Each of the optional slots up to the
/// output file must exist to be looked at.
pub open spec fn cli_detection(a: Seq<Seq<char>>) -> CliDetection {
    if a.len() <= 1 || a[1] == seq!['-', 'h'] {
        CliDetection::Help
    } else {
        match parse_unsigned(a[1], 0xffff_ffff) {
            None => CliDetection::Invalid(CliArgsError::BadCount),
            Some(times) => {
                if a.len() <= 2 {
                    CliDetection::Invalid(CliArgsError::MissingArgument)
                } else {
                    let (timeout, s1) = match parse_unsigned(a[2], 0xffff_ffff) {
                        Some(t) => (t, 3int),
                        None => (DEFAULT_TIMEOUT_MS as nat, 2int),
                    };
                    if a.len() <= s1 {
                        CliDetection::Invalid(CliArgsError::MissingArgument)
                    } else {
                        let (interval, s2) = match parse_unsigned(a[s1], 0xffff_ffff) {
                            Some(t) => (t, s1 + 1),
                            None => (DEFAULT_INTERVAL_US as nat, s1),
                        };
                        if a.len() <= s2 {
                            CliDetection::Invalid(CliArgsError::MissingArgument)
                        } else {
                            let has_input = contains_seq(a[s2], seq!['.', 't', 'e', 'x', 't'])
                                || starts_with_seq(a[s2], seq!['i', 'n', 'p', 'u', 't']);
                            let s3 = if has_input { s2 + 1 } else { s2 };
                            if a.len() <= s3 {
                                CliDetection::Invalid(CliArgsError::MissingArgument)
                            } else {
                                let has_output = ends_with_seq(a[s3], csv_suffix());
                                let s4 = if has_output { s3 + 1 } else { s3 };
                                let nolog = s4 < a.len() && contains_seq(a[s4], seq!['n', 'o', 'l', 'o', 'g']);
                                let s5 = if nolog { s4 + 1 } else { s4 };
                                CliDetection::Run(CliPlan {
                                    times: times as u32,
                                    timeout: timeout as u32,
                                    interval: interval as u64,
                                    input_file: if has_input { Some(s2 as usize) } else { None },
                                    output_file: if has_output { Some(s3 as usize) } else { None },
                                    is_log: !nolog,
                                    first_target: s5 as usize,
                                })
                            }
                        }
                    }
                }
            },
        }
    }
}

/// The characters of every argument.
pub open spec fn arg_texts(args: Seq<String>) -> Seq<Seq<char>> {
    args.map_values(|s: String| s@)
}

/// Reads a positional command line (see `cli_detection`). A count that is
/// not a number and a missing argument are answered with `Invalid` rather
/// than by stopping the program; a caller that wants the program to stop
/// there does so on that answer.
pub fn detect_cli_input(args: &Vec<String>) -> (d: CliDetection)
    ensures
        d == cli_detection(arg_texts(args@)),
{
    let ghost a = arg_texts(args@);
    proof {
        reveal_strlit("-h");
        reveal_strlit(".text");
        reveal_strlit("input");
        reveal_strlit(".csv");
        reveal_strlit("nolog");
    }
    let n = args.len();
    if n <= 1 {
        return CliDetection::Help;
    }
    let a1 = chars_of(args[1].as_str());
    assert(a1@ == a[1]);
    if a1.len() == 2 && a1[0] == '-' && a1[1] == 'h' {
        assert(a1@ =~= seq!['-', 'h']);
        return CliDetection::Help;
    }
    assert(a[1] != seq!['-', 'h']) by {
        if a[1] == seq!['-', 'h'] {
            assert(a1@[0] == '-' && a1@[1] == 'h');
        }
    }
    let times = match parse_unsigned_chars(&a1, 0xffff_ffff) {
        Some(t) => t,
        None => {
            return CliDetection::Invalid(CliArgsError::BadCount);
        },
    };
    if n <= 2 {
        return CliDetection::Invalid(CliArgsError::MissingArgument);
    }
    let a2 = chars_of(args[2].as_str());
    assert(a2@ == a[2]);
    let (timeout, s1): (u32, usize) = match parse_unsigned_chars(&a2, 0xffff_ffff) {
        Some(t) => (t, 3),
        None => (DEFAULT_TIMEOUT_MS, 2),
    };
    if n <= s1 {
        return CliDetection::Invalid(CliArgsError::MissingArgument);
    }
    let b1 = chars_of(args[s1].as_str());
    assert(b1@ == a[s1 as int]);
    let (interval, s2): (u64, usize) = match parse_unsigned_chars(&b1, 0xffff_ffff) {
        Some(t) => (t as u64, s1 + 1),
        None => (DEFAULT_INTERVAL_US, s1),
    };
    if n <= s2 {
        return CliDetection::Invalid(CliArgsError::MissingArgument);
    }
    let b2 = chars_of(args[s2].as_str());
    assert(b2@ == a[s2 as int]);
    let text_pat = chars_of(".text");
    let input_pat = chars_of("input");
    assert(text_pat@ =~= seq!['.', 't', 'e', 'x', 't']);
    assert(input_pat@ =~= seq!['i', 'n', 'p', 'u', 't']);
    let has_input = contains_chars(&b2, &text_pat) || matches_at(&b2, &input_pat, 0);
    let s3: usize = if has_input { s2 + 1 } else { s2 };
    if n <= s3 {
        return CliDetection::Invalid(CliArgsError::MissingArgument);
    }
    let b3 = chars_of(args[s3].as_str());
    assert(b3@ == a[s3 as int]);
    let csv_pat = chars_of(".csv");
    assert(csv_pat@ =~= csv_suffix());
    let has_output = b3.len() >= 4 && matches_at(&b3, &csv_pat, b3.len() - 4);
    let s4: usize = if has_output { s3 + 1 } else { s3 };
    let mut nolog = false;
    if s4 < n {
        let b4 = chars_of(args[s4].as_str());
        assert(b4@ == a[s4 as int]);
        let nolog_pat = chars_of("nolog");
        assert(nolog_pat@ =~= seq!['n', 'o', 'l', 'o', 'g']);
        nolog = contains_chars(&b4, &nolog_pat);
    }
    let s5: usize = if nolog { s4 + 1 } else { s4 };
    CliDetection::Run(CliPlan {
        times,
        timeout,
        interval,
        input_file: if has_input { Some(s2) } else { None },
        output_file: if has_output { Some(s3) } else { None },
        is_log: !nolog,
        first_target: s5,
    })
}

/// One step of the result counter after a result: with rounds asked for,
/// the last expected result ends the run and earlier ones count down; a
/// continuous run never ends here.
pub open spec fn advance_step(rounds: u32, remaining: u64) -> (u64, bool) {
    if rounds != 0 && remaining == 1 {
        (remaining, true)
    } else if rounds != 0 && remaining > 1 {
        ((remaining - 1) as u64, false)
    } else {
        (remaining, false)
    }
}

/// The counter after `k` results, and whether the `k`-th ended the run.
pub open spec fn advance_n(rounds: u32, remaining: u64, k: nat) -> (u64, bool)
    decreases k,
{
    if k == 0 {
        (remaining, false)
    } else {
        advance_step(rounds, advance_n(rounds, remaining, (k - 1) as nat).0)
    }
}

proof fn lemma_advance_n(rounds: u32, n: u64, k: nat)
    requires
        rounds > 0,
        n >= 1,
        k < n,
    ensures
        advance_n(rounds, n, k).0 == n - k,
        k > 0 ==> !advance_n(rounds, n, k).1,
    decreases k,
{
    if k > 0 {
        lemma_advance_n(rounds, n, (k - 1) as nat);
    }
}

/// With rounds asked for and `n` results expected, the run ends with the
/// `n`-th result and with no earlier one.
pub proof fn law_run_ends_with_last_result(rounds: u32, n: u64, k: nat)
    requires
        rounds > 0,
        n >= 1,
        1 <= k <= n,
    ensures
        advance_n(rounds, n, k).1 == (k == n),
{
    if k < n {
        lemma_advance_n(rounds, n, k);
    } else {
        lemma_advance_n(rounds, n, (k - 1) as nat);
    }
}

/// The text `nolog`.
pub open spec fn nolog_text() -> Seq<char> {
    seq!['n', 'o', 'l', 'o', 'g']
}

/// What the text `nolog` is and is not, as an argument: no number, no
/// input file, no output file, and it contains `nolog`.
proof fn lemma_nolog_text_reads()
    ensures
        forall|max: nat| parse_unsigned(nolog_text(), max) is None,
        !contains_seq(nolog_text(), seq!['.', 't', 'e', 'x', 't']),
        !starts_with_seq(nolog_text(), seq!['i', 'n', 'p', 'u', 't']),
        !ends_with_seq(nolog_text(), csv_suffix()),
        contains_seq(nolog_text(), nolog_text()),
{
    let t = nolog_text();
    assert(unsigned_digits(t) == t);
    assert(!is_dec_digit(t[0]));
    assert forall|i: int| !match_at(t, seq!['.', 't', 'e', 'x', 't'], i) by {
        if match_at(t, seq!['.', 't', 'e', 'x', 't'], i) {
            assert(i == 0);
            assert(t.subrange(0, 5)[0] == '.');
        }
    }
    assert(!match_at(t, seq!['i', 'n', 'p', 'u', 't'], 0)) by {
        if match_at(t, seq!['i', 'n', 'p', 'u', 't'], 0) {
            assert(t.subrange(0, 5)[0] == 'i');
        }
    }
    assert(!match_at(t, csv_suffix(), 1)) by {
        if match_at(t, csv_suffix(), 1) {
            assert(t.subrange(1, 5)[0] == '.');
        }
    }
    assert(t.subrange(0, 5) =~= t);
    assert(match_at(t, t, 0));
}

/// Turning logging off on the positional command line: a plan with
/// logging off has an argument containing `nolog` just before its
/// targets; and inserting the argument `nolog` where a plan with logging
/// on starts its targets turns logging off and moves the targets one on,
/// the rest of the plan unchanged, whether or not an output file or an
/// input file was named.
#[verifier::spinoff_prover]
pub proof fn law_nolog_turns_logging_off(a: Seq<Seq<char>>)
    requires
        a.len() < usize::MAX,
    ensures
        cli_detection(a) matches CliDetection::Run(plan) ==> {
            &&& (!plan.is_log ==> plan.first_target >= 1 && contains_seq(a[plan.first_target - 1], nolog_text()))
            &&& (plan.is_log ==> cli_detection(a.insert(plan.first_target as int, nolog_text()))
                == CliDetection::Run(CliPlan { is_log: false, first_target: (plan.first_target + 1) as usize, ..plan }))
        },
{
    if cli_detection(a) is Run {
        let plan = cli_detection(a)->Run_0;
        lemma_nolog_text_reads();
        let max: nat = 0xffff_ffff;
        let text_pat = seq!['.', 't', 'e', 'x', 't'];
        let input_pat = seq!['i', 'n', 'p', 'u', 't'];
        let s1: int = if parse_unsigned(a[2], max) is Some { 3 } else { 2 };
        let s2: int = if parse_unsigned(a[s1], max) is Some { s1 + 1 } else { s1 };
        let has_input = contains_seq(a[s2], text_pat) || starts_with_seq(a[s2], input_pat);
        let s3: int = if has_input { s2 + 1 } else { s2 };
        let has_output = ends_with_seq(a[s3], csv_suffix());
        let s4: int = if has_output { s3 + 1 } else { s3 };
        let nolog = s4 < a.len() && contains_seq(a[s4], nolog_text());
        assert(plan.is_log == !nolog);
        assert(plan.first_target == if nolog { s4 + 1 } else { s4 });
        if plan.is_log {
            let f = plan.first_target as int;
            assert(f == s4);
            let b = a.insert(f, nolog_text());
            assert(b.len() == a.len() + 1);
            assert forall|i: int| 0 <= i < f implies b[i] == a[i] by {}
            assert(b[f] == nolog_text());
            assert(b[1] == a[1]);
            assert(parse_unsigned(b[2], max) == parse_unsigned(a[2], max)) by {
                if f > 2 {
                    assert(b[2] == a[2]);
                }
            }
            assert(parse_unsigned(b[s1], max) == parse_unsigned(a[s1], max)) by {
                if s1 < f {
                    assert(b[s1] == a[s1]);
                }
            }
            assert((contains_seq(b[s2], text_pat) || starts_with_seq(b[s2], input_pat)) == has_input) by {
                if s2 < f {
                    assert(b[s2] == a[s2]);
                }
            }
            assert(ends_with_seq(b[s3], csv_suffix()) == has_output) by {
                if s3 < f {
                    assert(b[s3] == a[s3]);
                }
            }
            assert(contains_seq(b[s4], nolog_text()));
        }
    }
}
} // verus!
