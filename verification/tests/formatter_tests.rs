use pixel_text::formatter::format_text;

#[test]
fn wraps_words_at_column_width() {
    let (count, out) = format_text(b"HELLO WORLD", 5);
    assert_eq!(count, 2);
    assert_eq!(out, b"HELLO\nWORLD".to_vec());
}

#[test]
fn splits_oversized_words() {
    let (count, out) = format_text(b"ABCDEFGH", 3);
    assert_eq!(count, 4);
    assert_eq!(out, b"AB\nCD\nEF\nGH".to_vec());
}

#[test]
fn empty_input_is_one_empty_line() {
    let (count, out) = format_text(b"", 80);
    assert_eq!(count, 1);
    assert!(out.is_empty());
}

#[test]
fn word_exactly_filling_a_line_does_not_wrap() {
    let (count, out) = format_text(b"ABC", 3);
    assert_eq!(count, 1);
    assert_eq!(out, b"ABC".to_vec());
}

#[test]
fn uppercases_letters() {
    let (count, out) = format_text(b"hi there", 80);
    assert_eq!(count, 1);
    assert_eq!(out, b"HI THERE".to_vec());
}

#[test]
fn trims_trailing_whitespace() {
    let (count, out) = format_text(b"HI \n", 80);
    assert_eq!(count, 1);
    assert_eq!(out, b"HI".to_vec());
}

#[test]
fn newlines_pass_through() {
    let (count, out) = format_text(b"A\nB\nC", 10);
    assert_eq!(count, 3);
    assert_eq!(out, b"A\nB\nC".to_vec());
}

#[test]
fn overflowing_spaces_are_dropped() {
    let (count, out) = format_text(b"AB   CD", 2);
    assert_eq!(count, 2);
    assert_eq!(out, b"AB\nCD".to_vec());
}

#[test]
fn formatting_is_idempotent_on_its_output() {
    let (count, out) = format_text(b"the quick brown fox jumps over the lazy dog", 7);
    let (count2, out2) = format_text(&out, 7);
    assert_eq!(count, count2);
    assert_eq!(out, out2);
}

#[test]
fn every_line_fits_the_width() {
    let (_, out) = format_text(b"lorem ipsum dolor sit amet consectetur adipiscing elit", 6);
    for line in out.split(|&b| b == b'\n') {
        assert!(line.len() <= 6);
    }
}

#[test]
fn line_count_matches_segments() {
    let (count, out) = format_text(b"one two three four five six seven", 5);
    assert_eq!(count, out.split(|&b| b == b'\n').count());
}

#[test]
fn no_trailing_blank_line() {
    let (_, out) = format_text(b"A  \n  \n", 4);
    assert!(!out.ends_with(b"\n"));
    assert!(!out.ends_with(b" "));
}

#[test]
fn only_trimmed_newlines_lower_the_count() {
    // the trailing run holds a space and a newline: one segment boundary
    // disappears, so the count drops by exactly one
    let (count, out) = format_text(b"A\nB \n", 80);
    assert_eq!(out, b"A\nB".to_vec());
    assert_eq!(count, 2);
}

#[test]
fn single_slot_line_wraps_early() {
    // at column 2 of width 3 only one slot is left: instead of placing a
    // lone character, the whole word moves to the next line
    let (count, out) = format_text(b"A BCD", 3);
    assert_eq!(out, b"A \nBCD".to_vec());
    assert_eq!(count, 2);
}
