use concat::text_detect::{bytes_are_probably_text, is_probably_text, SAMPLE_WINDOW};

#[test]
fn a_nul_byte_anywhere_makes_a_buffer_binary() {
    assert!(!bytes_are_probably_text(b"\0abc"));
    assert!(!bytes_are_probably_text(b"abc\0"));
    assert!(!bytes_are_probably_text(b"ab\0cd"));
    assert!(!bytes_are_probably_text(b"\0"));
}

#[test]
fn the_empty_buffer_is_binary() {
    assert!(!bytes_are_probably_text(b""));
    assert!(!is_probably_text(b""));
}

#[test]
fn printable_ascii_is_text() {
    assert!(bytes_are_probably_text(b"hello, world"));
    assert!(bytes_are_probably_text(b" "));
    assert!(is_probably_text(b"fn main() {}\n"));
}

#[test]
fn bytes_that_are_no_utf8_still_count_as_text() {
    assert!(bytes_are_probably_text(&[0xff, 0xfe, 0x80, 0x01]));
}

#[test]
fn only_the_window_is_sampled() {
    assert_eq!(SAMPLE_WINDOW, 8192);
    let mut bytes = vec![b'a'; SAMPLE_WINDOW];
    bytes.push(0);
    assert!(is_probably_text(&bytes));
    assert!(!bytes_are_probably_text(&bytes));
    bytes[SAMPLE_WINDOW - 1] = 0;
    assert!(!is_probably_text(&bytes));
}
