use vttnorm::wrap::parse_cue_payload_text;

#[test]
fn test_parse_cue_payload_text_sticks_to_max_width_where_possible() {
    // arrange
    let line = "So, these are the people who actually work at the organization. You've got a name for each of them.";

    // act
    let result = parse_cue_payload_text(line);

    // assert
    assert_eq!(
        result,
        vec![
            "So, these are the people who actually work",
            "at the organization. You've got a name for",
            "each of them."
        ]
    );
    assert_eq!(result.len(), 3);
    assert!(result.iter().all(|val| val.len() <= 42));
}

#[test]
fn test_parse_cue_payload_text_stretches_max_width_where_needed() {
    // arrange
    let line = "So, these are the people who actually work at the organization. For each of them, we have a name, as well as a job role and email.";

    // act
    let result = parse_cue_payload_text(line);

    // assert
    assert_eq!(
        result,
        vec![
            "So, these are the people who actually work at",
            "the organization. For each of them, we have a",
            "name, as well as a job role and email."
        ]
    );
    assert_eq!(result.len(), 3);
    assert!(result.iter().all(|val| val.len() <= 45));
}

#[test]
fn short_line_is_returned_verbatim() {
    let result = parse_cue_payload_text("Sample cue text.");
    assert_eq!(result, vec!["Sample cue text."]);
}

#[test]
fn input_is_trimmed_before_wrapping() {
    let result = parse_cue_payload_text("  Sample cue text. \t");
    assert_eq!(result, vec!["Sample cue text."]);
}

#[test]
fn blank_input_yields_no_lines() {
    assert_eq!(parse_cue_payload_text(""), Vec::<String>::new());
    assert_eq!(parse_cue_payload_text("   \t "), Vec::<String>::new());
}

#[test]
fn no_wrapped_line_is_empty() {
    let line = "word ".repeat(40);
    let result = parse_cue_payload_text(&line);
    assert!(!result.is_empty());
    assert!(result.iter().all(|val| !val.is_empty()));
}

#[test]
fn overlong_word_stays_on_one_line() {
    let word = "a".repeat(50);
    let line = format!("{} tail", word);
    let result = parse_cue_payload_text(&line);
    assert_eq!(result, vec![word.as_str(), "tail"]);
}

#[test]
fn rewrapping_the_rejoined_output_is_stable() {
    let line = "So, these are the people who actually work at the organization. You've got a name for each of them.";
    let once = parse_cue_payload_text(line);
    let rejoined = once.join(" ");
    let twice = parse_cue_payload_text(&rejoined);
    assert_eq!(once, twice);
    assert_eq!(rejoined, line);
}
