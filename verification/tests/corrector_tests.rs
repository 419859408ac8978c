use json_corrector::{run, CorrectError, Corrector, ScanState};

/// Run the whole input through a streaming corrector in chunks of `size`
/// bytes, returning the concatenated output and the final count.
fn run_chunked(input: &[u8], size: usize) -> (Vec<u8>, u64) {
    assert!(size > 0);
    let mut corr = Corrector::new();
    let mut out: Vec<u8> = Vec::new();
    let mut i: usize = 0;
    while i < input.len() {
        let end: usize = if i + size < input.len() { i + size } else { input.len() };
        let chunk: Vec<u8> = input[i..end].to_vec();
        let written = corr.feed(&chunk).expect("chunk should decode");
        out.extend_from_slice(&written);
        i = end;
    }
    let count: u64 = corr.finish().expect("stream should end on a character boundary");
    (out, count)
}

fn run_whole(input: &[u8]) -> (Vec<u8>, u64) {
    let bytes: Vec<u8> = input.to_vec();
    let (out, count) = run(&bytes).expect("input should decode");
    (out, count)
}

#[test]
fn single_line_no_problems() {
    let (out, count) = run_whole(b"{\"a\": 1}");
    assert_eq!(out, b"{\"a\": 1}".to_vec());
    assert_eq!(count, 0);
}

#[test]
fn single_line_one_problem() {
    let (out, count) = run_whole(b"{\"a\"; 1}");
    assert_eq!(out, b"{\"a\": 1}".to_vec());
    assert_eq!(count, 1);
}

#[test]
fn single_line_with_2_problems() {
    let (out, count) = run_whole(b"{\"a\";1,\"b\";2}");
    assert_eq!(out, b"{\"a\":1,\"b\":2}".to_vec());
    assert_eq!(count, 2);
}

#[test]
fn multiple_lines_no_problems() {
    let input = b"{\n  \"a\": 1,\n  \"b\": 2,\n  \"c\": 3\n}\n";
    let (out, count) = run_whole(input);
    assert_eq!(out, input.to_vec());
    assert_eq!(count, 0);
}

#[test]
fn multiple_lines_with_3_problems() {
    let input = b"{\n  \"a\";1,\n  \"b\";2,\n  \"c\";3\n}\n";
    let expected = b"{\n  \"a\":1,\n  \"b\":2,\n  \"c\":3\n}\n";
    let (out, count) = run_whole(input);
    assert_eq!(out, expected.to_vec());
    assert_eq!(count, 3);
}

#[test]
fn semicolon_inside_string_untouched() {
    let input = b"{\"note\": \"a;b\"}";
    let (out, count) = run_whole(input);
    assert_eq!(out, input.to_vec());
    assert_eq!(count, 0);
}

#[test]
fn escaped_quote_does_not_close_string() {
    // The `\"` does not close the string, so the `;` after it is content.
    let input = b"{\"k\": \"a\\\";b\"}";
    let (out, count) = run_whole(input);
    assert_eq!(out, input.to_vec());
    assert_eq!(count, 0);
}

#[test]
fn whitespace_between_quote_and_semicolon() {
    let (out, count) = run_whole(b"{\"a\" \t\n; 1}");
    assert_eq!(out, b"{\"a\" \t\n: 1}".to_vec());
    assert_eq!(count, 1);
}

#[test]
fn semicolon_not_after_string_untouched() {
    let input = b"{1; 2}";
    let (out, count) = run_whole(input);
    assert_eq!(out, input.to_vec());
    assert_eq!(count, 0);
}

#[test]
fn empty_input() {
    let (out, count) = run_whole(b"");
    assert_eq!(out, Vec::<u8>::new());
    assert_eq!(count, 0);
}

#[test]
fn split_between_quote_and_semicolon() {
    // The refill boundary lands exactly between the closing quote and the
    // semicolon; the carried state must still license the correction.
    let mut corr = Corrector::new();
    let mut out: Vec<u8> = Vec::new();
    out.extend_from_slice(&corr.feed(&b"{\"a\"".to_vec()).unwrap());
    out.extend_from_slice(&corr.feed(&b"; 1}".to_vec()).unwrap());
    let count: u64 = corr.finish().unwrap();
    assert_eq!(out, b"{\"a\": 1}".to_vec());
    assert_eq!(count, 1);
    let (whole, whole_count) = run_whole(b"{\"a\"; 1}");
    assert_eq!(out, whole);
    assert_eq!(count, whole_count);
}

#[test]
fn buffer_size_invariance() {
    let input: &[u8] = "{\n \"a\";1,\n \"caf\u{e9}\"; \"x;y\",\n \"b\" ;2\n}\n".as_bytes();
    let (expected, expected_count) = run_whole(input);
    assert_eq!(expected_count, 3);
    let mut size: usize = 1;
    while size <= input.len() {
        let (out, count) = run_chunked(input, size);
        assert_eq!(out, expected);
        assert_eq!(count, expected_count);
        size += 1;
    }
}

#[test]
fn multibyte_character_split_across_refills() {
    // "é" is two bytes; a one-byte buffer splits every multi-byte character.
    let input = "{\"caf\u{e9}\"; \"\u{4e2d}\u{6587};\"}".as_bytes();
    let (expected, expected_count) = run_whole(input);
    assert_eq!(expected_count, 1);
    let (out, count) = run_chunked(input, 1);
    assert_eq!(out, expected);
    assert_eq!(count, expected_count);
    assert_eq!(out, "{\"caf\u{e9}\": \"\u{4e2d}\u{6587};\"}".as_bytes().to_vec());
}

#[test]
fn output_length_in_characters_equals_input_length() {
    let inputs: [&str; 4] = [
        "{\"a\"; 1}",
        "{\"note\": \"a;b\"}",
        "{\"caf\u{e9}\";\u{a0}2}",
        "x;;;\"y\";",
    ];
    for input in inputs.iter() {
        let (out, _) = run_whole(input.as_bytes());
        let text = String::from_utf8(out).unwrap();
        assert_eq!(text.chars().count(), input.chars().count());
    }
}

#[test]
fn rescan_of_fixed_point_changes_nothing() {
    // A corrected document with no remaining quote-semicolon pattern is a
    // fixed point: a second pass changes nothing and counts nothing.
    let (once, count_once) = run_whole(b"{\"a\"; 1}");
    assert_eq!(count_once, 1);
    let (twice, count_twice) = run(&once).unwrap();
    assert_eq!(twice, once);
    assert_eq!(count_twice, 0);
}

#[test]
fn invalid_utf8_is_a_decode_error() {
    let bytes: Vec<u8> = vec![0x7b, 0xff, 0x7d];
    assert!(matches!(run(&bytes), Err(CorrectError::Decode)));
    // An overlong encoding of '/' is rejected too.
    let overlong: Vec<u8> = vec![0xc0, 0xaf];
    assert!(matches!(run(&overlong), Err(CorrectError::Decode)));
}

#[test]
fn feed_reports_decode_error_and_keeps_state() {
    let mut corr = Corrector::new();
    corr.feed(&b"{\"a\"".to_vec()).unwrap();
    let before: u64 = corr.corrections();
    assert!(matches!(corr.feed(&vec![0xffu8]), Err(CorrectError::Decode)));
    assert_eq!(corr.corrections(), before);
}

#[test]
fn truncated_character_at_end_of_stream() {
    let mut corr = Corrector::new();
    // The first byte of a two-byte character arrives, the second never does.
    corr.feed(&vec![0x41u8, 0xc3u8]).unwrap();
    assert_eq!(corr.pending_len(), 1);
    assert!(matches!(corr.finish(), Err(CorrectError::Decode)));
}

#[test]
fn scanner_steps_track_string_state() {
    let mut st = ScanState::new();
    assert!(!st.in_string);
    assert_eq!(st.step('"'), '"');
    assert!(st.in_string);
    assert_eq!(st.step(';'), ';');
    assert_eq!(st.step('"'), '"');
    assert!(!st.in_string);
    assert_eq!(st.step(' '), ' ');
    assert_eq!(st.step(';'), ':');
    assert_eq!(st.corrections(), 1);
    assert_eq!(st.last_significant, ':');
}

#[test]
fn scanner_chunk_matches_character_steps() {
    let chars: Vec<char> = "{\"a\"; 1}".chars().collect();
    let mut st = ScanState::new();
    let out = st.process_chunk(&chars);
    let corrected: String = out.into_iter().collect();
    assert_eq!(corrected, "{\"a\": 1}");
    assert_eq!(st.corrections(), 1);
}

#[test]
fn rescan_of_any_output_changes_nothing() {
    // The output keeps a quote-semicolon pattern inside the first string
    // literal, yet a second pass still changes nothing: the scanner never
    // mistakes a substituted colon — or string content — for structure.
    let input = b"{\"k\": \"q\\\";x\", \"a\"; 1}";
    let (once, count_once) = run_whole(input);
    assert_eq!(count_once, 1);
    assert_eq!(once, b"{\"k\": \"q\\\";x\", \"a\": 1}".to_vec());
    let (twice, count_twice) = run(&once).unwrap();
    assert_eq!(twice, once);
    assert_eq!(count_twice, 0);
}
