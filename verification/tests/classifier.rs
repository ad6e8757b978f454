use vttnorm::classify::assemble_tokens;

fn lines_of(input: &[&str]) -> Vec<String> {
    input.iter().map(|s| s.to_string()).collect()
}

#[test]
fn missing_headers_are_injected_before_first_cue() {
    let lines = lines_of(&[
        "00:00:00.320 --> 00:00:05.920",
        "Sample cue text.",
        "",
    ]);
    let tokens = assemble_tokens(&lines);
    assert_eq!(
        tokens,
        vec![
            "Kind: captions",
            "Language: en-GB",
            "",
            "00:00:00.320 --> 00:00:05.920",
            "Sample cue text.",
            ""
        ]
    );
}

#[test]
fn declared_headers_are_not_duplicated() {
    let lines = lines_of(&[
        "Kind: narration",
        "Language: fr-FR",
        "",
        "00:00:00.320 --> 00:00:05.920",
        "Sample cue text.",
        "",
    ]);
    let tokens = assemble_tokens(&lines);
    assert_eq!(
        tokens,
        vec!["00:00:00.320 --> 00:00:05.920", "Sample cue text.", ""]
    );
    assert!(!tokens.iter().any(|t| t == "Kind: captions"));
    assert!(!tokens.iter().any(|t| t == "Language: en-GB"));
}

#[test]
fn only_missing_header_is_injected() {
    let lines = lines_of(&[
        "Kind: narration",
        "00:00:00.320 --> 00:00:05.920",
        "Sample cue text.",
        "",
    ]);
    let tokens = assemble_tokens(&lines);
    assert_eq!(
        tokens,
        vec![
            "Language: en-GB",
            "",
            "00:00:00.320 --> 00:00:05.920",
            "Sample cue text.",
            ""
        ]
    );
}

#[test]
fn preamble_text_is_passed_through_before_headers() {
    let lines = lines_of(&[
        "WEBVTT",
        "",
        "00:00:00.320 --> 00:00:05.920",
        "Sample cue text.",
        "",
    ]);
    let tokens = assemble_tokens(&lines);
    assert_eq!(
        tokens,
        vec![
            "WEBVTT",
            "Kind: captions",
            "Language: en-GB",
            "",
            "00:00:00.320 --> 00:00:05.920",
            "Sample cue text.",
            ""
        ]
    );
}

#[test]
fn every_cue_block_is_closed_by_exactly_one_blank() {
    let lines = lines_of(&[
        "Kind: captions",
        "Language: en-GB",
        "",
        "00:00:00.320 --> 00:00:05.920",
        "First cue.",
        "",
        "",
        "00:00:06.000 --> 00:00:08.000",
        "Second cue.",
    ]);
    let tokens = assemble_tokens(&lines);
    assert_eq!(
        tokens,
        vec![
            "00:00:00.320 --> 00:00:05.920",
            "First cue.",
            "",
            "00:00:06.000 --> 00:00:08.000",
            "Second cue.",
            ""
        ]
    );
}

#[test]
fn cue_open_at_end_of_input_is_closed() {
    let lines = lines_of(&["00:00.000 --> 00:05.000", "Tail cue."]);
    let tokens = assemble_tokens(&lines);
    assert_eq!(
        tokens,
        vec![
            "Kind: captions",
            "Language: en-GB",
            "",
            "00:00.000 --> 00:05.000",
            "Tail cue.",
            ""
        ]
    );
}

#[test]
fn payload_lines_are_rewrapped() {
    let lines = lines_of(&[
        "Kind: captions",
        "Language: en-GB",
        "",
        "00:00:00.320 --> 00:00:05.920",
        "So, these are the people who actually work at the organization. You've got a name for each of them.",
        "",
    ]);
    let tokens = assemble_tokens(&lines);
    assert_eq!(
        tokens,
        vec![
            "00:00:00.320 --> 00:00:05.920",
            "So, these are the people who actually work",
            "at the organization. You've got a name for",
            "each of them.",
            ""
        ]
    );
}

#[test]
fn cue_timing_trailing_settings_are_dropped() {
    let lines = lines_of(&["00:11.000 --> 00:13.000 align:start", "Cue.", ""]);
    let tokens = assemble_tokens(&lines);
    assert_eq!(
        tokens,
        vec![
            "Kind: captions",
            "Language: en-GB",
            "",
            "00:11.000 --> 00:13.000",
            "Cue.",
            ""
        ]
    );
}

#[test]
fn pass_through_stops_once_a_header_is_seen() {
    let lines = lines_of(&[
        "intro text",
        "Kind: narration",
        "more text",
        "00:00:00.320 --> 00:00:05.920",
        "Cue.",
        "",
    ]);
    let tokens = assemble_tokens(&lines);
    assert_eq!(
        tokens,
        vec![
            "intro text",
            "Language: en-GB",
            "",
            "00:00:00.320 --> 00:00:05.920",
            "Cue.",
            ""
        ]
    );
}

#[test]
fn empty_input_yields_no_tokens() {
    let lines: Vec<String> = Vec::new();
    let tokens = assemble_tokens(&lines);
    assert!(tokens.is_empty());
}
