use rsh::bytes::as_str;
use rsh::io::{
    fmt_i64, fmt_u64, is_capturing, parse_i64, pipe_capture_end, pipe_capture_start, write_byte,
    write_bytes, write_str, StdoutWriter, PIPE_BUF_SIZE,
};
use rsh::sys::{
    pipe_stdin_clear, pipe_stdin_has_data, pipe_stdin_set, read_pipe_byte, PipeStdin,
    SAVED_STDIN_FD, SAVED_STDOUT_FD,
};

fn u64_text(n: u64) -> Vec<u8> {
    let mut buf = [0u8; 20];
    fmt_u64(n, &mut buf).to_vec()
}

fn i64_text(n: i64) -> Vec<u8> {
    let mut buf = [0u8; 21];
    fmt_i64(n, &mut buf).to_vec()
}

#[test]
fn unsigned_numbers_in_decimal() {
    assert_eq!(u64_text(0), b"0");
    assert_eq!(u64_text(7), b"7");
    assert_eq!(u64_text(10), b"10");
    assert_eq!(u64_text(4096), b"4096");
    assert_eq!(u64_text(u64::MAX), b"18446744073709551615");
}

#[test]
fn digits_stand_at_the_end_of_the_buffer() {
    let mut buf = [b'x'; 20];
    fmt_u64(42, &mut buf);
    assert_eq!(&buf, b"xxxxxxxxxxxxxxxxxx42");
    let mut zero = [b'x'; 20];
    fmt_u64(0, &mut zero);
    assert_eq!(&zero, b"0xxxxxxxxxxxxxxxxxxx");
}

#[test]
fn signed_numbers_in_decimal() {
    assert_eq!(i64_text(0), b"0");
    assert_eq!(i64_text(127), b"127");
    assert_eq!(i64_text(-38), b"-38");
    assert_eq!(i64_text(i64::MAX), b"9223372036854775807");
    assert_eq!(i64_text(i64::MIN), b"-9223372036854775808");
}

#[test]
fn signed_digits_stand_at_the_start_of_the_buffer() {
    let mut buf = [b'x'; 21];
    fmt_i64(-42, &mut buf);
    assert_eq!(&buf, b"-42xxxxxxxxxxxxxxxxxx");
}

#[test]
fn integers_are_parsed() {
    assert_eq!(parse_i64(b"0"), Some(0));
    assert_eq!(parse_i64(b"007"), Some(7));
    assert_eq!(parse_i64(b"42"), Some(42));
    assert_eq!(parse_i64(b"-42"), Some(-42));
    assert_eq!(parse_i64(b"-0"), Some(0));
    assert_eq!(parse_i64(b"9223372036854775807"), Some(i64::MAX));
    assert_eq!(parse_i64(b"-9223372036854775807"), Some(-i64::MAX));
}

#[test]
fn what_is_no_integer_is_not_parsed() {
    assert_eq!(parse_i64(b""), None);
    assert_eq!(parse_i64(b"-"), None);
    assert_eq!(parse_i64(b"+1"), None);
    assert_eq!(parse_i64(b"--1"), None);
    assert_eq!(parse_i64(b"1a"), None);
    assert_eq!(parse_i64(b" 1"), None);
    assert_eq!(parse_i64(b"9223372036854775808"), None);
    assert_eq!(parse_i64(b"-9223372036854775808"), None);
    assert_eq!(parse_i64(b"99999999999999999999999"), None);
}

#[test]
fn formatted_numbers_parse_back() {
    for n in [0, 1, -1, 9, 10, -10, 127, i64::MAX, i64::MIN + 1] {
        assert_eq!(parse_i64(&i64_text(n)), Some(n));
    }
    assert_eq!(parse_i64(&i64_text(i64::MIN)), None);
}

#[test]
fn output_goes_to_stdout() {
    let mut w = StdoutWriter::new();
    assert!(!is_capturing(&w));
    write_bytes(&mut w, b"ab");
    write_byte(&mut w, b'c');
    write_str(&mut w, "d\u{2014}");
    assert_eq!(w.take_sent(), "abcd\u{2014}".as_bytes());
    assert_eq!(w.take_sent(), b"");
}

#[test]
fn captured_output_does_not_go_to_stdout() {
    let mut w = StdoutWriter::new();
    write_str(&mut w, "before ");
    pipe_capture_start(&mut w);
    assert!(is_capturing(&w));
    write_str(&mut w, "one ");
    write_str(&mut w, "two");
    assert_eq!(pipe_capture_end(&mut w), b"one two");
    assert!(!is_capturing(&w));
    write_str(&mut w, "after");
    assert_eq!(w.take_sent(), b"before after");
    assert_eq!(pipe_capture_end(&mut w), b"one two");
}

#[test]
fn a_new_capture_starts_empty() {
    let mut w = StdoutWriter::new();
    pipe_capture_start(&mut w);
    write_str(&mut w, "one");
    pipe_capture_start(&mut w);
    write_str(&mut w, "two");
    assert_eq!(pipe_capture_end(&mut w), b"two");
}

#[test]
fn a_full_capture_buffer_discards_the_rest() {
    let mut w = StdoutWriter::new();
    pipe_capture_start(&mut w);
    write_bytes(&mut w, &vec![b'a'; PIPE_BUF_SIZE - 1]);
    write_str(&mut w, "bc");
    write_str(&mut w, "d");
    let got = pipe_capture_end(&mut w).to_vec();
    assert_eq!(got.len(), 4096);
    assert_eq!(&got[4094..], b"ab");
    assert_eq!(w.take_sent(), b"");
}

#[test]
fn pipe_stdin_is_read_in_order() {
    let mut p = PipeStdin::new();
    assert!(!pipe_stdin_has_data(&p));
    assert_eq!(read_pipe_byte(&mut p), None);
    pipe_stdin_set(&mut p, b"hi");
    assert!(pipe_stdin_has_data(&p));
    assert_eq!(read_pipe_byte(&mut p), Some(b'h'));
    assert_eq!(read_pipe_byte(&mut p), Some(b'i'));
    assert!(!pipe_stdin_has_data(&p));
    assert_eq!(read_pipe_byte(&mut p), None);
}

#[test]
fn pipe_stdin_can_be_replaced_and_cleared() {
    let mut p = PipeStdin::new();
    pipe_stdin_set(&mut p, b"abc");
    assert_eq!(read_pipe_byte(&mut p), Some(b'a'));
    pipe_stdin_set(&mut p, b"xy");
    assert_eq!(read_pipe_byte(&mut p), Some(b'x'));
    pipe_stdin_clear(&mut p);
    assert!(!pipe_stdin_has_data(&p));
    assert_eq!(read_pipe_byte(&mut p), None);
}

#[test]
fn pipe_stdin_drops_what_exceeds_it() {
    let mut p = PipeStdin::new();
    pipe_stdin_set(&mut p, &vec![b'z'; PIPE_BUF_SIZE + 5]);
    let mut n = 0;
    while let Some(b) = read_pipe_byte(&mut p) {
        assert_eq!(b, b'z');
        n += 1;
    }
    assert_eq!(n, 4096);
}

#[test]
fn descriptors_for_saved_streams() {
    assert_eq!(SAVED_STDIN_FD, 100);
    assert_eq!(SAVED_STDOUT_FD, 101);
}

#[test]
fn text_that_is_utf8_is_shown_as_it_is() {
    assert_eq!(as_str(b"plain"), "plain");
    assert_eq!(as_str("caf\u{e9}".as_bytes()), "caf\u{e9}");
    assert_eq!(as_str(b""), "");
}

#[test]
fn text_that_is_not_utf8_is_replaced() {
    assert_eq!(as_str(&[0xff, 0xfe]), "<non-utf8>");
    assert_eq!(as_str(&[b'a', 0xc3]), "<non-utf8>");
    assert_eq!(as_str(&[0xed, 0xa0, 0x80]), "<non-utf8>");
}

#[test]
fn different_numbers_are_formatted_differently() {
    let numbers = [i64::MIN, -100, -10, -1, 0, 1, 10, 100, i64::MAX];
    for a in numbers {
        for b in numbers {
            assert_eq!(a == b, i64_text(a) == i64_text(b));
        }
    }
}
