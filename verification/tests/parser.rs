use exam_extract::error::OutputError;
use exam_extract::parse::parse_lines;
use exam_extract::parse::parse_lines_from;
use exam_extract::parse::parse_questions;
use exam_extract::parse::validate_questions;
use exam_extract::question::Question;

fn lines(raw: &[&str]) -> Vec<String> {
    raw.iter().map(|s| s.to_string()).collect()
}

fn choice(q: &Question, label: char) -> Option<&str> {
    q.choices.get(label).map(|s| s.as_str())
}

#[test]
fn one_question_with_three_choices() {
    let qs = parse_lines(&lines(&["1. What is 2+2?", "A. 3", "B. 4", "C. 5"]));
    assert_eq!(qs.len(), 1);
    let q = &qs[0];
    assert_eq!(q.number, "1");
    // A question-start marker opens a fresh question with empty text;
    // the marker line's own remainder is not accumulated.
    assert_eq!(q.text, "");
    assert_eq!(choice(q, 'A'), Some("3"));
    assert_eq!(choice(q, 'B'), Some("4"));
    assert_eq!(choice(q, 'C'), Some("5"));
    assert_eq!(choice(q, 'D'), None);
    assert!(q.correct_answer.is_none());
}

#[test]
fn two_questions_and_intro_discarded() {
    let qs = parse_lines(&lines(&["Intro line", "1. Q one", "more text", "A. x", "2. Q two", "B. y"]));
    assert_eq!(qs.len(), 2);
    assert_eq!(qs[0].number, "1");
    assert_eq!(qs[0].text, "more text");
    assert_eq!(choice(&qs[0], 'A'), Some("x"));
    assert_eq!(choice(&qs[0], 'B'), None);
    assert_eq!(qs[1].number, "2");
    assert_eq!(qs[1].text, "");
    assert_eq!(choice(&qs[1], 'B'), Some("y"));
    assert_eq!(choice(&qs[1], 'A'), None);
}

#[test]
fn br_tag_normalized_before_classification() {
    let qs = parse_questions("1. Text with<br>break\nA. choice");
    assert_eq!(qs.len(), 1);
    assert_eq!(qs[0].number, "1");
    assert_eq!(qs[0].text, "");
    assert_eq!(choice(&qs[0], 'A'), Some("choice"));
}

#[test]
fn br_tag_replaced_in_continuation_text() {
    let qs = parse_questions("1. Q\nText with<br>break\nA. choice");
    assert_eq!(qs.len(), 1);
    assert_eq!(qs[0].text, "Text with break");
    assert_eq!(choice(&qs[0], 'A'), Some("choice"));
}

#[test]
fn empty_input_gives_no_questions() {
    let qs = parse_lines(&Vec::new());
    assert!(qs.is_empty());
    let qs = parse_questions("");
    assert!(qs.is_empty());
}

#[test]
fn orphan_choice_before_first_question_discarded() {
    let qs = parse_lines(&lines(&["A. orphan choice", "1. Real question"]));
    assert_eq!(qs.len(), 1);
    assert_eq!(qs[0].number, "1");
    assert_eq!(qs[0].text, "");
    assert_eq!(qs[0].choices.len(), 0);
}

#[test]
fn repeated_label_overwrites() {
    let qs = parse_lines(&lines(&["1. Q", "A. first", "A. second"]));
    assert_eq!(qs.len(), 1);
    assert_eq!(choice(&qs[0], 'A'), Some("second"));
    assert_eq!(qs[0].choices.len(), 1);
}

#[test]
fn question_without_choices_still_emitted() {
    let qs = parse_lines(&lines(&["1. Lonely", "just text"]));
    assert_eq!(qs.len(), 1);
    assert_eq!(qs[0].text, "just text");
    assert_eq!(qs[0].choices.len(), 0);
}

#[test]
fn choice_with_no_text_gets_empty_value() {
    let qs = parse_lines(&lines(&["1. Q", "A."]));
    assert_eq!(qs.len(), 1);
    assert_eq!(choice(&qs[0], 'A'), Some(""));
}

#[test]
fn continuation_lines_concatenated_without_separator() {
    let qs = parse_lines(&lines(&["1. Q", "first", "second"]));
    assert_eq!(qs[0].text, "firstsecond");
}

#[test]
fn blank_lines_skipped() {
    let qs = parse_lines(&lines(&["", "1. Q", "   ", "body", ""]));
    assert_eq!(qs.len(), 1);
    assert_eq!(qs[0].text, "body");
}

#[test]
fn multidigit_marker_and_numbering_in_document_order() {
    let raw: Vec<String> = (0..12).map(|_| "10. next".to_string()).collect();
    let qs = parse_lines(&raw);
    assert_eq!(qs.len(), 12);
    for (i, q) in qs.iter().enumerate() {
        assert_eq!(q.number, (i + 1).to_string());
    }
    assert_eq!(qs[11].number, "12");
}

#[test]
fn explicit_starting_number() {
    let qs = parse_lines_from(&lines(&["1. a", "2. b"]), 9);
    assert_eq!(qs.len(), 2);
    assert_eq!(qs[0].number, "9");
    assert_eq!(qs[1].number, "10");
}

#[test]
fn digit_period_is_marker_even_with_more_digits() {
    let qs = parse_lines(&lines(&["12.5 is a number", "1. Q", "3.x"]));
    // "12.5 is a number" is a marker line (digits then a period); so is
    // "3.x". Each marker finalizes the question before it.
    assert_eq!(qs.len(), 3);
    assert_eq!(qs[0].number, "1");
    assert_eq!(qs[1].number, "2");
    assert_eq!(qs[2].number, "3");
}

#[test]
fn letter_period_needs_open_question() {
    let qs = parse_lines(&lines(&["E. not a label", "1. Q", "E. also not a label"]));
    assert_eq!(qs.len(), 1);
    // "E." is not a choice label, so inside a question it is text.
    assert_eq!(qs[0].text, "E. also not a label");
    assert_eq!(qs[0].choices.len(), 0);
}

#[test]
fn page_parse_restarts_numbering() {
    let page1 = parse_questions("1. a\nA. x");
    let page2 = parse_questions("2. b\nB. y");
    assert_eq!(page1[0].number, "1");
    // Each invocation numbers from 1 again, whatever the marker says.
    assert_eq!(page2[0].number, "1");
}

#[test]
fn validation_always_passes() {
    let qs = parse_lines(&lines(&["1. Q", "A. x"]));
    assert!(validate_questions(&qs).is_ok());
    assert!(validate_questions(&[]).is_ok());
}

#[test]
fn output_error_carries_message() {
    let e = OutputError::from("Failed to get parent directory");
    assert_eq!(e.message().as_str(), "Failed to get parent directory");
}
