use solana_shred_tx_benchmark::clock::NANOS_PER_SECOND;
use solana_shred_tx_benchmark::config::{is_decided, parse_args, Config, HELP};
use solana_shred_tx_benchmark::names::{sanitize_source_name, source_labels};
use solana_shred_tx_benchmark::numeral::{parse_u64, to_decimal};

fn strings(arguments: &[&str]) -> Vec<String> {
    arguments.iter().map(|argument| (*argument).to_owned()).collect()
}

fn complete(more: &[&str]) -> Vec<String> {
    let mut arguments = strings(&[
        "--source-1-url",
        "http://one",
        "--source-1-name",
        "one",
        "--source-2-url",
        "http://two",
        "--source-2-name",
        "two",
    ]);
    arguments.extend(strings(more));
    arguments
}

fn accepted(arguments: &Vec<String>) -> Config {
    parse_args(arguments).unwrap().unwrap()
}

fn refused(arguments: &[&str]) -> String {
    parse_args(&strings(arguments)).unwrap_err().message().to_owned()
}

#[test]
fn parses_required_options_and_default_duration() {
    let arguments = [
        "--source-1-url",
        "http://one",
        "--source-1-name",
        "one",
        "--source-2-url",
        "http://two",
        "--source-2-name",
        "two",
    ];
    let config = parse_args(&arguments.into_iter().map(str::to_owned).collect::<Vec<_>>())
        .unwrap()
        .unwrap();

    assert_eq!(config.duration, 60 * NANOS_PER_SECOND);
    assert_eq!(config.names, ["one", "two"]);
    assert_eq!(config.urls, ["http://one", "http://two"]);
}

#[test]
fn help_is_given_where_an_option_is_expected() {
    assert!(parse_args(&strings(&["--help"])).unwrap().is_none());
    assert!(parse_args(&strings(&["-h", "--nonsense"])).unwrap().is_none());
    assert!(parse_args(&complete(&["--help"])).unwrap().is_none());
    assert_eq!(
        refused(&["--duration", "--help"]),
        "--duration must be a positive integer"
    );
}

#[test]
fn malformed_arguments_are_refused() {
    assert_eq!(
        refused(&["--fast", "--help"]),
        format!("unknown option: --fast\n\n{HELP}")
    );
    assert_eq!(refused(&["--source-1-url"]), "missing value for --source-1-url");
    assert_eq!(
        refused(&["--duration", "5", "--duration"]),
        "missing value for --duration"
    );
}

#[test]
fn what_stands_after_the_deciding_argument_is_not_read() {
    let after_an_option = [&["--duration", "5", "-h"][..], &["--duration", "5", "x"]];
    for decided in [&["--help"][..], &["--fast"]].into_iter().chain(after_an_option) {
        assert!(is_decided(&strings(decided)));
        let mut longer = strings(decided);
        longer.extend(complete(&["--slow"]));
        assert!(is_decided(&longer));
        let outcomes = [parse_args(&strings(decided)), parse_args(&longer)];
        assert_eq!(format!("{:?}", outcomes[0]), format!("{:?}", outcomes[1]));
    }
    for undecided in [&[][..], &["--duration"], &["--duration", "--help"], &["--duration", "x"]] {
        assert!(!is_decided(&strings(undecided)));
    }
    assert!(!is_decided(&complete(&[])));
}

#[test]
fn the_duration_is_checked_before_the_required_options() {
    for numeral in ["", "+", "-1", "1.5", " 1", "1_000", "18446744073709551616", "\u{0661}"] {
        assert_eq!(
            refused(&["--duration", numeral]),
            "--duration must be a positive integer"
        );
    }
    for numeral in ["0", "+0", "000"] {
        assert_eq!(
            refused(&["--duration", numeral]),
            "--duration must be greater than zero"
        );
    }
}

#[test]
fn required_options_are_asked_for_one_by_one() {
    assert_eq!(refused(&[]), "missing required option: --source-1-url");
    assert_eq!(
        refused(&["--source-1-url", ""]),
        "missing required option: --source-1-url"
    );
    assert_eq!(
        refused(&["--source-1-url", "a", "--source-1-name", "n"]),
        "missing required option: --source-2-url"
    );
    assert_eq!(
        refused(&["--source-1-url", "a", "--source-2-url", "b", "--source-2-name", "n"]),
        "missing required option: --source-1-name"
    );
    assert_eq!(
        refused(&["--source-1-url", "a", "--source-2-url", "b", "--source-1-name", "n"]),
        "missing required option: --source-2-name"
    );
}

#[test]
fn the_last_value_of_an_option_counts() {
    let config = accepted(&complete(&[
        "--duration",
        "0",
        "--source-1-name",
        "--help",
        "--duration",
        "+007",
    ]));
    assert_eq!(config.duration, 7 * NANOS_PER_SECOND);
    assert_eq!(config.names, ["--help", "two"]);
}

#[test]
fn the_longest_duration_is_accepted() {
    let config = accepted(&complete(&["--duration", "18446744073709551615"]));
    assert_eq!(config.duration, u128::from(u64::MAX) * 1_000_000_000);
}

#[test]
fn configured_names_are_sanitized() {
    let config = accepted(&complete(&["--source-2-name", "a\tb\u{e9}"]));
    assert_eq!(config.names, ["one", "a?b?"]);
}

#[test]
fn the_help_text_names_every_option() {
    assert!(HELP.starts_with("Compare transaction arrival times from two Jito ShredStream proxies.\n\nUsage:\n  solana-shred-tx-benchmark \\\n"));
    assert!(HELP.ends_with("  -h, --help            Show this help\n"));
    for option in [
        "--source-1-url",
        "--source-1-name",
        "--source-2-url",
        "--source-2-name",
        "--duration",
    ] {
        assert!(HELP.contains(option));
    }
}

#[test]
fn names_are_cut_after_thirty_two_characters() {
    let fits = "abcdefghijklmnopqrstuvwxyz 01234";
    assert_eq!(fits.chars().count(), 32);
    assert_eq!(sanitize_source_name(fits), fits);
    assert_eq!(
        sanitize_source_name("abcdefghijklmnopqrstuvwxyz 012345"),
        "abcdefghijklmnopqrstuvwxyz 01..."
    );
    assert_eq!(sanitize_source_name(&"\u{1f600}".repeat(33)), format!("{}...", "?".repeat(29)));
    assert_eq!(sanitize_source_name(""), "");
}

#[test]
fn sanitizing_twice_changes_nothing() {
    for name in ["plain", "one\n\x1b[31m\u{0301}", "source-two-name-that-is-far-too-long-for-a-terminal"] {
        let once = sanitize_source_name(name);
        assert!(once.len() <= 32);
        assert_eq!(sanitize_source_name(&once), once);
    }
}

#[test]
fn labels_carry_the_number_of_the_source() {
    let names = ["a\u{7f}".to_owned(), "~ ".to_owned()];
    assert_eq!(source_labels(&names), ["S1 (a?)", "S2 (~ )"]);
}

#[test]
fn numerals_are_read_back() {
    for number in [0, 9, 10, 60, 3_456, u64::MAX - 1, u64::MAX] {
        assert_eq!(to_decimal(number), number.to_string());
        assert_eq!(parse_u64(&to_decimal(number)), Some(number));
    }
    assert_eq!(parse_u64("18446744073709551616"), None);
    assert_eq!(parse_u64("99999999999999999999"), None);
    assert_eq!(parse_u64("00000000000000000000000012"), Some(12));
    assert_eq!(parse_u64("++1"), None);
}
