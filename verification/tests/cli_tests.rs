use pingmu::cli::{
    check_file, detect_cli_input, output_path, CliArgsError, CliDetection, CliLevelFilter, CliPlan, ResultCounter,
};
use pingmu::text::{chars_of, last_match_index, sub_chars};

fn arg_list(v: &[&str]) -> Vec<String> {
    v.iter().map(|s| s.to_string()).collect()
}

#[test]
fn test_str() {
    let a111 = "fsfsf.csvsa.csv";
    let chars = chars_of(a111);
    let pat = chars_of(".csv");
    let cut = last_match_index(&chars, &pat);
    assert_eq!(cut, Some(11));
    if let Some(i) = cut {
        let r1: (String, String) = (
            sub_chars(&chars, 0, i).iter().collect(),
            sub_chars(&chars, i + 4, chars.len()).iter().collect(),
        );
        println!("---{:}  {:}", r1.0, r1.1);
        assert_eq!(r1, ("fsfsf.csvsa".to_string(), "".to_string()));
    }
    let a = a111.split(".csv").collect::<Vec<&str>>();
    println!("{:?}", a);
    assert_eq!(output_path(a111, false, "X"), "fsfsf.csvsaX.csv");
}

#[test]
fn output_path_cases() {
    assert_eq!(output_path("out", false, "S"), "out.csv");
    assert_eq!(output_path("  out.csv \n", false, "S"), "outS.csv");
    assert_eq!(output_path("data", true, "S"), "dataS.csv");
    assert_eq!(output_path("a.csv.txt", true, "S"), "aS.csv");
    assert_eq!(output_path(".csv", false, "_1"), "_1.csv");
}

#[test]
fn check_file_stamps_current_time() {
    let out = check_file("report.csv", false);
    assert!(out.starts_with("report"));
    assert!(out.ends_with(".csv"));
    // %Y%m%d_%H%M%S is fifteen characters.
    assert_eq!(out.len(), "report".len() + 15 + 4);
    assert_eq!(out.as_bytes()["report".len() + 8], b'_');
    assert_eq!(check_file("plain", false), "plain.csv");
    // The name of an existing file is never given back.
    let again = check_file(" x.csv ", true);
    assert_ne!(again, "x.csv");
    assert!(again.starts_with("x") && again.ends_with(".csv"));
    assert_eq!(again.len(), 1 + 15 + 4);
}

#[test]
fn level_filter_patterns() {
    assert_eq!(CliLevelFilter::Debug.log_pattern(), "[{d(%H:%M:%S)}][{l}] - {m}{n}");
    assert_eq!(CliLevelFilter::Error.log_pattern(), "[{d}]{l} - {m}{n}");
    assert_eq!(CliLevelFilter::Warn.log_pattern(), "[{d}]{l} - {m}{n}");
    assert_eq!(CliLevelFilter::Trace.log_pattern(), "[{d}]{l} - {m}{n}");
    assert_eq!(CliLevelFilter::Info.log_pattern(), "{m}{n}");
    assert_eq!(CliLevelFilter::Off.log_pattern(), "");
    assert!(!CliLevelFilter::Off.enables_output());
    assert!(CliLevelFilter::Info.enables_output());
    assert!(CliLevelFilter::Trace.enables_output());
}

#[test]
fn result_counter_polls_each_round() {
    let mut c = ResultCounter::new(2, 3);
    let polls: Vec<bool> = (0..4).map(|_| c.note_result()).collect();
    assert_eq!(polls, vec![false, true, false, true]);
}

#[test]
fn result_counter_ends_with_last_result() {
    let mut c = ResultCounter::new(2, 3);
    let mut ends = vec![];
    for _ in 0..6 {
        c.note_result();
        ends.push(c.advance());
    }
    assert_eq!(ends, vec![false, false, false, false, false, true]);
    let mut one = ResultCounter::new(1, 1);
    one.note_result();
    assert!(one.advance());
}

#[test]
fn result_counter_continuous_never_ends() {
    let mut c = ResultCounter::new(3, 0);
    for _ in 0..50 {
        c.note_result();
        assert!(!c.advance());
    }
}

#[test]
fn detect_help() {
    assert_eq!(detect_cli_input(&arg_list(&["pingmu"])), CliDetection::Help);
    assert_eq!(detect_cli_input(&arg_list(&["pingmu", "-h", "1"])), CliDetection::Help);
    assert_eq!(detect_cli_input(&vec![]), CliDetection::Help);
}

#[test]
fn detect_errors() {
    assert_eq!(
        detect_cli_input(&arg_list(&["pingmu", "four", "1.1.1.1"])),
        CliDetection::Invalid(CliArgsError::BadCount)
    );
    assert_eq!(
        detect_cli_input(&arg_list(&["pingmu", "4"])),
        CliDetection::Invalid(CliArgsError::MissingArgument)
    );
    assert_eq!(
        detect_cli_input(&arg_list(&["pingmu", "4", "2000"])),
        CliDetection::Invalid(CliArgsError::MissingArgument)
    );
    assert_eq!(
        detect_cli_input(&arg_list(&["pingmu", "4", "2000", "100", "input.text"])),
        CliDetection::Invalid(CliArgsError::MissingArgument)
    );
}

#[test]
fn detect_full_command_line() {
    let args = arg_list(&[
        "pingmu", "4", "2000", "100", "input.text", "out.csv", "nolog", "192.168.1.1/30", "10.0.0.1-10.0.0.5",
    ]);
    assert_eq!(
        detect_cli_input(&args),
        CliDetection::Run(CliPlan {
            times: 4,
            timeout: 2000,
            interval: 100,
            input_file: Some(4),
            output_file: Some(5),
            is_log: false,
            first_target: 7,
        })
    );
}

#[test]
fn detect_defaults() {
    let args = arg_list(&["pingmu", "4", "192.168.1.1/24", "192.168.1.2/31"]);
    assert_eq!(
        detect_cli_input(&args),
        CliDetection::Run(CliPlan {
            times: 4,
            timeout: 2000,
            interval: 100,
            input_file: None,
            output_file: None,
            is_log: true,
            first_target: 2,
        })
    );
    let args2 = arg_list(&["pingmu", "2", "500", "out.csv"]);
    assert_eq!(
        detect_cli_input(&args2),
        CliDetection::Run(CliPlan {
            times: 2,
            timeout: 500,
            interval: 100,
            input_file: None,
            output_file: Some(3),
            is_log: true,
            first_target: 4,
        })
    );
}
