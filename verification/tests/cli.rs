use bitter_dotcom_generator::cli;
use bitter_dotcom_generator::text;

#[test]
fn scan_defaults_to_seven_letters() {
    assert_eq!(cli::DEFAULT_LEN, 7);
}

#[test]
fn cli_rejects_dangerous_values() {
    assert!(cli::parse_scan_len("2").is_err());
    assert!(cli::parse_positive_usize("0").is_err());
    assert!(cli::parse_positive_u32("0").is_err());
    assert!(cli::parse_syllables("0").is_err());
}

#[test]
fn numbers_as_std_reads_them() {
    for s in [
        "0", "7", "+7", "007", "42", "", "+", "-1", "-0", " 1", "1 ", "1_000", "1.0", "x", "++1",
        "18446744073709551615", "18446744073709551616", "99999999999999999999999", "4294967295",
        "4294967296", "00000000000000000000000000001",
    ] {
        assert_eq!(cli::parse_number(s, u64::MAX), s.parse::<u64>().ok());
        assert_eq!(cli::parse_number(s, u32::MAX as u64), s.parse::<u32>().ok().map(u64::from));
        assert_eq!(cli::parse_positive_usize(s).ok(), s.parse::<usize>().ok().filter(|n| *n > 0));
    }
}

#[test]
fn messages() {
    assert_eq!(cli::parse_positive_usize("x\"").unwrap_err(), "\"x\\\"\" is not an integer");
    assert_eq!(cli::parse_positive_u32("4294967296").unwrap_err(), "\"4294967296\" is not an integer");
    assert_eq!(cli::parse_positive_usize("0").unwrap_err(), "the value must be greater than zero");
    assert_eq!(cli::parse_positive_u32("0").unwrap_err(), "the value must be greater than zero");
    assert_eq!(cli::parse_scan_len("8").unwrap_err(), "length must be 6 or 7");
    assert_eq!(
        cli::parse_syllables("5").unwrap_err(),
        "the syllable count must be between 1 and 4"
    );
    assert_eq!(cli::not_an_integer("\"y\""), "\"y\" is not an integer");
}

#[test]
fn accepted_values() {
    assert_eq!(cli::parse_scan_len("6"), Ok(6));
    assert_eq!(cli::parse_scan_len("+7"), Ok(7));
    assert_eq!(cli::parse_syllables("1"), Ok(1));
    assert_eq!(cli::parse_syllables("4"), Ok(4));
    assert_eq!(cli::parse_positive_u32("20"), Ok(20));
}

#[test]
fn syllable_ranges() {
    assert!(cli::check_syllable_range(2, 2).is_ok());
    assert_eq!(
        cli::check_syllable_range(3, 2),
        Err("min-syl must be less than or equal to max-syl")
    );
}

#[test]
fn written_numbers_are_read_back() {
    for n in [0usize, 7, 10, 4096, usize::MAX] {
        assert_eq!(cli::parse_number(&text::decimal(n), u64::MAX), Some(n as u64));
    }
}
