use strip_ansi::ansi::find_csi_sequence;
use strip_ansi::ansi::is_final_byte;
use strip_ansi::ansi::is_intermediate_byte;
use strip_ansi::ansi::is_parameter_byte;
use strip_ansi::ansi::strip_ansi;
use strip_ansi::ansi::ScanOutcome;

#[test]
fn test_text_with_ansi() {
    let s = "Hello, \x1b[1mworld\x1b[0m!";
    let expected = "Hello, world!";
    assert_eq!(strip_ansi(s), expected);
}

#[test]
fn test_text_without_ansi() {
    let s = "Hello, world!";
    let expected = "Hello, world!";
    assert_eq!(strip_ansi(s), expected);
}

#[test]
fn test_invalid_ansi() {
    let s = "Hello, \x1b[\nmworld!";
    let expected = "Hello, \x1b[\nmworld!";
    assert_eq!(strip_ansi(s), expected);
}

#[test]
fn test_missing_final_byte() {
    let s = "Hello, \x1b[123";
    let expected = "Hello, \x1b[123";
    assert_eq!(strip_ansi(s), expected);
}

#[test]
fn test_minimum_csi() {
    let s = "Hello\x1b[m";
    let expected = "Hello";
    assert_eq!(strip_ansi(s), expected);
}

#[test]
fn test_empty_input() {
    assert_eq!(strip_ansi(""), "");
}

#[test]
fn test_two_sequences_leftmost() {
    // Both sequences go, the text before, between and after stays in order.
    let s = "a\x1b[1;31mred\x1b[0mz";
    assert_eq!(strip_ansi(s), "aredz");
}

#[test]
fn test_intermediate_bytes() {
    // Parameter byte `2`, intermediate byte ` `, final byte `q`.
    let s = "cursor\x1b[2 qshape";
    assert_eq!(strip_ansi(s), "cursorshape");
}

#[test]
fn test_parameter_after_intermediate_is_malformed() {
    // Once the intermediate run has started, `2` cannot re-enter the
    // parameter run; it is then tested as the final byte, fails, and the
    // whole sequence is left in place.
    let s = "x\x1b[1 2m";
    assert_eq!(strip_ansi(s), "x\x1b[1 2m");
}

#[test]
fn test_lone_escape_is_kept() {
    let s = "a\x1bb";
    assert_eq!(strip_ansi(s), "a\x1bb");
}

#[test]
fn test_introducer_at_end_is_kept() {
    let s = "tail\x1b[";
    assert_eq!(strip_ansi(s), "tail\x1b[");
}

#[test]
fn test_second_introducer_does_not_restart() {
    // The scan that began at the first introducer runs into the second one,
    // which is no final byte: the whole buffer is malformed and kept.
    let s = "\x1b[1\x1b[2m";
    assert_eq!(strip_ansi(s), "\x1b[1\x1b[2m");
}

#[test]
fn test_multibyte_text_around_sequences() {
    let s = "h\u{e9}llo\x1b[31mw\u{f6}rld\x1b[0m\u{2192}";
    assert_eq!(strip_ansi(s), "h\u{e9}llow\u{f6}rld\u{2192}");
}

#[test]
fn test_idempotent_on_ordinary_text() {
    for s in ["Hello, \x1b[1mworld\x1b[0m!", "plain", "bad\x1b[12", "\x1b[m\x1b[m"] {
        let once = strip_ansi(s);
        let twice = strip_ansi(&once);
        assert_eq!(twice, once);
    }
}

#[test]
fn test_adjacent_escapes_can_splice_a_new_sequence() {
    // Removing the sequence that starts at the second `ESC` glues the first
    // `ESC` onto the `[` that followed the removed span: one pass leaves a
    // well-formed sequence behind, so a second pass removes more.
    let s = "A\x1b\x1b[m[m";
    let once = strip_ansi(s);
    assert_eq!(once, "A\x1b[m");
    assert_eq!(strip_ansi(&once), "A");
}

#[test]
fn test_length_never_increases() {
    for s in ["", "abc", "\x1b[31mred\x1b[0m", "bad\x1b[", "A\x1b\x1b[m[m"] {
        assert!(strip_ansi(s).len() <= s.len());
    }
}

#[test]
fn test_find_csi_sequence_found_span() {
    let v: Vec<u8> = b"ab\x1b[12mcd".to_vec();
    assert_eq!(find_csi_sequence(&v), ScanOutcome::Found { start: 2, end: 6 });
}

#[test]
fn test_find_csi_sequence_minimal_span() {
    let v: Vec<u8> = b"\x1b[m".to_vec();
    assert_eq!(find_csi_sequence(&v), ScanOutcome::Found { start: 0, end: 2 });
}

#[test]
fn test_find_csi_sequence_leftmost_wins() {
    let v: Vec<u8> = b"-\x1b[m-\x1b[m".to_vec();
    assert_eq!(find_csi_sequence(&v), ScanOutcome::Found { start: 1, end: 3 });
}

#[test]
fn test_find_csi_sequence_malformed() {
    let v: Vec<u8> = b"ab\x1b[12".to_vec();
    assert_eq!(find_csi_sequence(&v), ScanOutcome::Malformed);
}

#[test]
fn test_find_csi_sequence_not_found() {
    let v: Vec<u8> = b"plain text".to_vec();
    assert_eq!(find_csi_sequence(&v), ScanOutcome::NotFound);
    let empty: Vec<u8> = Vec::new();
    assert_eq!(find_csi_sequence(&empty), ScanOutcome::NotFound);
}

#[test]
fn test_byte_classes() {
    assert!(is_parameter_byte(&0x30) && is_parameter_byte(&0x3f));
    assert!(!is_parameter_byte(&0x2f) && !is_parameter_byte(&0x40));
    assert!(is_intermediate_byte(&0x20) && is_intermediate_byte(&0x2f));
    assert!(!is_intermediate_byte(&0x1f) && !is_intermediate_byte(&0x30));
    assert!(is_final_byte(&0x40) && is_final_byte(&0x7e));
    assert!(!is_final_byte(&0x3f) && !is_final_byte(&0x7f));
}
