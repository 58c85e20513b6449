use bizi::sanitize::{
    clean_log_line, sanitize_terminal_log_line, strip_ansi_escape_sequences, strip_escape_bytes,
};

#[test]
fn carriage_returns_keep_the_last_segment() {
    assert_eq!(clean_log_line(b"a\rb\rc\n"), Some("c".to_string()));
    assert_eq!(sanitize_terminal_log_line("10%\r50%\r100%"), "100%");
}

#[test]
fn line_endings_are_trimmed_once() {
    assert_eq!(clean_log_line(b"hello\n"), Some("hello".to_string()));
    assert_eq!(clean_log_line(b"hello\r\n"), Some("hello".to_string()));
    assert_eq!(clean_log_line(b"hello"), Some("hello".to_string()));
    // only one line feed and one carriage return go; what is left of a
    // second pair is cleaned away with the control bytes
    assert_eq!(clean_log_line(b"hello\n\n"), Some("hello".to_string()));
}

#[test]
fn an_empty_line_is_kept() {
    assert_eq!(clean_log_line(b"\n"), Some(String::new()));
    assert_eq!(clean_log_line(b""), Some(String::new()));
}

#[test]
fn a_line_of_which_nothing_is_left_is_dropped() {
    assert_eq!(clean_log_line(b"\x1b[2K\n"), None);
    assert_eq!(clean_log_line(b"\x07\n"), None);
    assert_eq!(clean_log_line(b"abc\r\x1b[0m\n"), None);
}

#[test]
fn control_sequences_are_stripped() {
    assert_eq!(strip_ansi_escape_sequences("\x1b[31mred\x1b[0m"), "red");
    assert_eq!(strip_ansi_escape_sequences("a\x1b[1;32;40mb"), "ab");
    // a sequence that never ends swallows the rest
    assert_eq!(strip_ansi_escape_sequences("a\x1b[12;34"), "a");
}

#[test]
fn operating_system_commands_are_stripped() {
    assert_eq!(strip_ansi_escape_sequences("a\x1b]0;title\x07b"), "ab");
    assert_eq!(strip_ansi_escape_sequences("a\x1b]8;;http://x\x1b\\b"), "ab");
    assert_eq!(strip_ansi_escape_sequences("a\x1b]unterminated"), "a");
}

#[test]
fn device_control_strings_are_stripped() {
    assert_eq!(strip_ansi_escape_sequences("a\x1bPpayload\x1b\\b"), "ab");
    assert_eq!(strip_ansi_escape_sequences("a\x1bXpayload\x1b\\b"), "ab");
    assert_eq!(strip_ansi_escape_sequences("a\x1b^payload\x1b\\b"), "ab");
    assert_eq!(strip_ansi_escape_sequences("a\x1b_payload\x1b\\b"), "ab");
    // BEL does not end these
    assert_eq!(strip_ansi_escape_sequences("a\x1bPpay\x07load\x1b\\b"), "ab");
}

#[test]
fn other_escapes_lose_two_bytes() {
    assert_eq!(strip_ansi_escape_sequences("a\x1bcb"), "ab");
    assert_eq!(strip_ansi_escape_sequences("a\x1b"), "a");
    assert_eq!(strip_ansi_escape_sequences("\x1b\x1b[x"), "[x");
}

#[test]
fn control_bytes_go_and_tab_stays() {
    assert_eq!(strip_ansi_escape_sequences("a\x00b\x08c\x7fd\te"), "abcd\te");
    assert_eq!(strip_escape_bytes(&[0x01, 0x41, 0x09, 0x1f, 0x42, 0x7f]), vec![0x41, 0x09, 0x42]);
}

#[test]
fn text_beyond_ascii_is_kept() {
    assert_eq!(strip_ansi_escape_sequences("gr\u{fc}\u{df}e \u{2713}"), "gr\u{fc}\u{df}e \u{2713}");
    assert_eq!(strip_ansi_escape_sequences("\x1b[1m\u{65e5}\u{672c}\x1b[0m"), "\u{65e5}\u{672c}");
}

#[test]
fn an_escape_that_cuts_a_character_leaves_a_replacement() {
    // ESC takes the first byte of the two-byte character with it
    assert_eq!(strip_ansi_escape_sequences("a\x1b\u{e9}b"), "a\u{fffd}b");
}

#[test]
fn invalid_bytes_are_decoded_lossily() {
    assert_eq!(clean_log_line(&[0x61, 0xff, 0x62, 0x0a]), Some("a\u{fffd}b".to_string()));
}

#[test]
fn sanitizing_twice_changes_nothing() {
    let inputs = [
        "x\ry\x1b]0;title\x07z\x01\t",
        "\x1b[31mred\x1b[0m",
        "a\x1b\u{e9}b",
        "plain",
        "",
        "\r\r",
        "\x1b",
    ];
    for input in inputs {
        let once = sanitize_terminal_log_line(input);
        assert_eq!(sanitize_terminal_log_line(&once), once);
        assert!(once.chars().all(|c| c == '\t' || !c.is_ascii_control()));
    }
    assert_eq!(sanitize_terminal_log_line("x\ry\x1b]0;title\x07z\x01\t"), "yz\t");
}
