use exam_extract::text::clean_text;

#[test]
fn br_tag_becomes_space() {
    assert_eq!(clean_text("Text with<br>break"), "Text with break");
}

#[test]
fn br_tag_with_slash() {
    assert_eq!(clean_text("a<br/>b"), "a b");
}

#[test]
fn br_tag_with_space_and_slash() {
    assert_eq!(clean_text("a<br \t />b"), "a b");
}

#[test]
fn surrounding_whitespace_trimmed() {
    assert_eq!(clean_text("   x  "), "x");
}

#[test]
fn empty_line_stays_empty() {
    assert_eq!(clean_text(""), "");
}

#[test]
fn whitespace_only_line_becomes_empty() {
    assert_eq!(clean_text(" \t \u{a0} "), "");
}

#[test]
fn plain_line_unchanged() {
    assert_eq!(clean_text("A. choice"), "A. choice");
}

#[test]
fn trailing_tag_trimmed_away() {
    assert_eq!(clean_text("end<br>"), "end");
}

#[test]
fn cleaning_twice_is_stable() {
    let once = clean_text("  1. Text with<br>break ");
    assert_eq!(clean_text(&once), once);
}

#[test]
fn incomplete_tag_kept() {
    assert_eq!(clean_text("a<br b"), "a<br b");
    assert_eq!(clean_text("<b r>"), "<b r>");
}

#[test]
fn replacing_a_tag_can_splice_a_new_one() {
    // The second replacement pass would erase the spliced tag, so
    // cleaning is not stable on this line.
    let once = clean_text("<br<br> >");
    assert_eq!(once, "<br  >");
    assert_eq!(clean_text(&once), "");
}
