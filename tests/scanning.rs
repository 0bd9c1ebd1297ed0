use ansi_strip::filter::process_line;
use ansi_strip::outcome::Termination;
use ansi_strip::scanner::{index_of, skip_all_escape_code, skip_escape_code, skip_token};
use ansi_strip::stream::process_stream;

fn filter_one(line: &[u8]) -> Vec<u8> {
    let mut out = Vec::new();
    process_line(&mut out, line);
    out
}

/// Splits a line into (escape run, literal token) pairs the way the filter
/// walks it.
fn walk(line: &[u8]) -> Vec<(Vec<u8>, Vec<u8>)> {
    let mut parts = Vec::new();
    let mut i = 0;
    while i < line.len() {
        let e = skip_all_escape_code(&line[i..]);
        let t = skip_token(&line[i + e..]);
        parts.push((line[i..i + e].to_vec(), line[i + e..i + e + t].to_vec()));
        i += e + t;
    }
    parts
}

#[test]
fn full_sequence_removal() {
    assert_eq!(filter_one(b"\x1b[31mHELLO\x1b[0m\n"), b"HELLO\n".to_vec());
}

#[test]
fn consecutive_sequences_collapse() {
    assert_eq!(filter_one(b"\x1b[1m\x1b[31mX\n"), b"X\n".to_vec());
    assert_eq!(skip_all_escape_code(b"\x1b[1m\x1b[31mX\n"), 9);
}

#[test]
fn unterminated_sequence_passes_through() {
    assert_eq!(filter_one(b"\x1b[31"), b"\x1b[31".to_vec());
    assert_eq!(skip_all_escape_code(b"\x1b[31"), 0);
    assert_eq!(skip_token(b"\x1b[31"), 4);
}

#[test]
fn unterminated_sequence_after_text() {
    assert_eq!(filter_one(b"ab\x1b[1mcd\x1b[2\n"), b"abcd\x1b[2\n".to_vec());
}

#[test]
fn clean_line_is_unchanged() {
    let line = b"plain text, [brackets] and mmm\n";
    assert_eq!(filter_one(line), line.to_vec());
}

#[test]
fn empty_line_gives_nothing() {
    assert_eq!(filter_one(b""), Vec::<u8>::new());
}

#[test]
fn process_line_appends() {
    let mut out = b"ab".to_vec();
    process_line(&mut out, b"\x1b[0mc");
    assert_eq!(out, b"abc".to_vec());
}

#[test]
fn partition_gives_back_the_line() {
    let line: &[u8] = b"\x1b[1m\x1b[4mtitle\x1b[0m: \x1b[3 body\x1b[32mok\x1b[0m\n";
    let parts = walk(line);
    let mut joined = Vec::new();
    let mut literals = Vec::new();
    for (e, t) in &parts {
        joined.extend_from_slice(e);
        joined.extend_from_slice(t);
        literals.extend_from_slice(t);
    }
    assert_eq!(joined, line.to_vec());
    assert_eq!(literals, filter_one(line));
    assert_eq!(literals, b"title: ok\n".to_vec());
}

#[test]
fn span_reaches_first_m_after_marker() {
    // the span runs to the first `m`, over a second marker
    assert_eq!(skip_escape_code(b"\x1b[31\x1b[0mX"), Some(8));
    assert_eq!(filter_one(b"\x1b[31\x1b[0mX"), b"X".to_vec());
}

#[test]
fn skip_escape_code_cases() {
    assert_eq!(skip_escape_code(b"\x1b[m"), Some(3));
    assert_eq!(skip_escape_code(b"\x1b[0mrest"), Some(4));
    assert_eq!(skip_escape_code(b"\x1b["), None);
    assert_eq!(skip_escape_code(b"\x1b"), None);
    assert_eq!(skip_escape_code(b"m\x1b[0m"), None);
    assert_eq!(skip_escape_code(b""), None);
}

#[test]
fn skip_all_escape_code_cases() {
    assert_eq!(skip_all_escape_code(b""), 0);
    assert_eq!(skip_all_escape_code(b"x\x1b[0m"), 0);
    assert_eq!(skip_all_escape_code(b"\x1b[0m\x1b[1m"), 8);
    assert_eq!(skip_all_escape_code(b"\x1b[0m\x1b[1"), 4);
}

#[test]
fn skip_token_cases() {
    assert_eq!(skip_token(b""), 0);
    assert_eq!(skip_token(b"a"), 1);
    assert_eq!(skip_token(b"\x1b"), 1);
    assert_eq!(skip_token(b"ab\x1b"), 3);
    assert_eq!(skip_token(b"ab\x1b[0m"), 2);
    assert_eq!(skip_token(b"abc\n"), 4);
    assert_eq!(skip_token(b"\x1b[\x1b[0m"), 2);
}

#[test]
fn index_of_cases() {
    assert_eq!(index_of(b"", b'm'), None);
    assert_eq!(index_of(b"abc", b'm'), None);
    assert_eq!(index_of(b"31m0m", b'm'), Some(2));
    assert_eq!(index_of(b"m", b'm'), Some(0));
}

#[test]
fn lines_are_filtered_independently() {
    let input = b"\x1b[31mred\x1b[0m\n\x1b[1mbold\n\x1b[32mgreen\x1b[0m\n";
    let out = process_stream(input);
    assert_eq!(out, b"red\nbold\ngreen\n".to_vec());
    assert_eq!(out.iter().filter(|&&c| c == b'\n').count(), 3);
}

#[test]
fn no_state_crosses_lines() {
    // an unterminated marker on one line does not swallow the next line's `m`
    let input = b"a\x1b[1\nmore\x1b[0m\n";
    assert_eq!(process_stream(input), b"a\x1b[1\nmore\n".to_vec());
    // read as one line, the span would run on to the `m` of `more`
    assert_eq!(filter_one(input), b"aore\n".to_vec());
}

#[test]
fn last_line_without_terminator() {
    assert_eq!(process_stream(b"x\n\x1b[2my"), b"x\ny".to_vec());
}

#[test]
fn empty_input_gives_empty_output() {
    assert_eq!(process_stream(b""), Vec::<u8>::new());
    assert_eq!(Termination::EndOfInput.exit_status(), 0);
}

#[test]
fn termination_outcomes() {
    assert_eq!(Termination::of_io_error(true), Termination::OutputClosed);
    assert_eq!(Termination::of_io_error(false), Termination::IoFailure);
    assert_eq!(Termination::OutputClosed.exit_status(), 0);
    assert_eq!(Termination::IoFailure.exit_status(), -1);
    assert!(Termination::IoFailure.is_failure());
    assert!(!Termination::OutputClosed.is_failure());
    assert!(!Termination::EndOfInput.is_failure());
}
