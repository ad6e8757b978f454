use vttnorm::parse::is_digit;
use vttnorm::parse::parse_cue_timings;
use vttnorm::parse::parse_header_value;
use vttnorm::parse::parse_timing;
use vttnorm::parse::parse_timing_hms;
use vttnorm::parse::parse_timing_milliseconds;

#[test]
fn is_digit_returns_false_for_non_digit() {
    // arrange
    let character = 'a';

    // act
    let result = is_digit(character);

    // assert
    assert!(!result);
}

#[test]
fn is_digit_returns_true_for_digit() {
    // arrange
    let character = '8';

    // act
    let result = is_digit(character);

    // assert
    assert!(result);
}

#[test]
fn parse_timing_hms_parses_valid_timestamp() {
    // arrange
    let timestamp = "01:34:21.0000";

    // act
    let result = parse_timing_hms(timestamp);

    // assert
    assert_eq!(
        result,
        Some((
            String::from(".0000"),
            vec![String::from("01"), String::from("34"), String::from("21")]
        ))
    );
}

#[test]
fn parse_timing_hms_rejects_short_group() {
    assert_eq!(parse_timing_hms("1:34"), None);
    assert_eq!(parse_timing_hms(""), None);
    // a three-digit run contributes only its first two digits to a group
    assert_eq!(
        parse_timing_hms("012:34"),
        Some((String::from("2:34"), vec![String::from("01")]))
    );
}

#[test]
fn parse_timing_milliseconds_takes_exactly_three_digits() {
    assert_eq!(
        parse_timing_milliseconds("3201 rest"),
        Some((String::from("1 rest"), String::from("320")))
    );
    assert_eq!(parse_timing_milliseconds("32x"), None);
}

#[test]
fn parse_timing_accepts_both_timestamp_forms() {
    assert_eq!(
        parse_timing("01:34.320 tail"),
        Some((String::from(" tail"), String::from("01:34.320")))
    );
    assert_eq!(
        parse_timing("00:00:05.920"),
        Some((String::from(""), String::from("00:00:05.920")))
    );
    // extra trailing digits after the milliseconds are left unconsumed
    assert_eq!(
        parse_timing("01:34:21.0000"),
        Some((String::from("0"), String::from("01:34:21.000")))
    );
}

#[test]
fn parse_timing_rejects_malformed_timestamps() {
    assert_eq!(parse_timing("1:34.320"), None);
    assert_eq!(parse_timing("01:34,320"), None);
    assert_eq!(parse_timing("01:34.32"), None);
    assert_eq!(parse_timing("01:3a.320"), None);
    assert_eq!(parse_timing("0a:34.320"), None);
    assert_eq!(parse_timing("hello"), None);
    // four colon-separated groups are not a timestamp
    assert_eq!(parse_timing("01:02:03:04.567"), None);
}

#[test]
fn parse_cue_timings_recovers_exact_span() {
    let line = "00:00:00.320 --> 00:00:05.920";
    assert_eq!(parse_cue_timings(line), Some(String::from(line)));

    // trailing cue settings are ignored but not included
    assert_eq!(
        parse_cue_timings("00:11.000 --> 00:13.000 align:start"),
        Some(String::from("00:11.000 --> 00:13.000"))
    );

    // the matched span is start.len() + 5 + end.len()
    let mixed = parse_cue_timings("01:02.003 --> 00:01:02.003").unwrap();
    assert_eq!(mixed.len(), 9 + 5 + 12);
}

#[test]
fn parse_cue_timings_rejects_non_timing_lines() {
    assert_eq!(parse_cue_timings("00:00:00.320 -> 00:00:05.920"), None);
    assert_eq!(parse_cue_timings("00:00:00.320 --> "), None);
    assert_eq!(parse_cue_timings("00:00:00.320"), None);
    assert_eq!(parse_cue_timings("Kind: captions"), None);
    assert_eq!(parse_cue_timings(""), None);
}

#[test]
fn test_parse_header_value() {
    let line = "Kind: captions";
    assert_eq!(parse_header_value(line), Some(String::from("Kind")));

    let line = "Language: en-GB";
    assert_eq!(parse_header_value(line), Some(String::from("Language")));
}

#[test]
fn parse_header_value_rejects_malformed_headers() {
    assert_eq!(parse_header_value("Kind:captions"), None);
    assert_eq!(parse_header_value("Kind captions"), None);
    assert_eq!(parse_header_value(": captions"), None);
    assert_eq!(parse_header_value(""), None);
    assert_eq!(parse_header_value("00:00:00.320 --> 00:00:05.920"), None);
}
