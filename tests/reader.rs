use protocol_input::input::{Effect, Input};
use protocol_input::number::parse_i32;
use protocol_input::text::{is_whitespace, tokenize};

const CLOSED: &str = "Input connection from server closed. Exiting...";

fn loaded(line: &str) -> Input {
    let mut input = Input::new();
    assert_eq!(input.read_and_parse_line(Some(line.to_string())), Ok(()));
    input
}

fn shutdown() -> Vec<Effect> {
    vec![Effect::Log(CLOSED.to_string()), Effect::Flush, Effect::Exit(0)]
}

#[test]
fn tokenize_irregular_whitespace() {
    assert_eq!(tokenize("  3   42\t7  "), vec!["3", "42", "7"]);
}

#[test]
fn tokenize_blank_and_empty_lines() {
    assert!(tokenize("").is_empty());
    assert!(tokenize(" \t \n").is_empty());
}

#[test]
fn tokenize_keeps_line_terminator_out() {
    assert_eq!(tokenize("a bc\r\n"), vec!["a", "bc"]);
}

#[test]
fn tokenize_unicode_whitespace() {
    assert_eq!(tokenize("a\u{3000}b\u{a0}c\u{2028}d"), vec!["a", "b", "c", "d"]);
    // A zero-width space is not whitespace.
    assert_eq!(tokenize("a\u{200b}b"), vec!["a\u{200b}b"]);
}

#[test]
fn tokenize_matches_split_whitespace() {
    let lines = ["", "x", "  lead", "trail  ", "a\tb\n", " 1  -2\t+3 \u{85}y ", "\u{2000}\u{200a}z"];
    for line in lines {
        let expected: Vec<String> = line.split_whitespace().map(|t| t.to_string()).collect();
        assert_eq!(tokenize(line), expected);
    }
}

#[test]
fn whitespace_classification_matches_std() {
    for u in 0u32..0x3100 {
        if let Some(c) = char::from_u32(u) {
            assert_eq!(is_whitespace(c), c.is_whitespace(), "code point {:x}", u);
        }
    }
}

#[test]
fn rejoined_tokens_split_the_same() {
    let line = "\t 10  x\t\t-4  yz \n";
    let tokens = tokenize(line);
    let joined = tokens.join(" ");
    assert_eq!(joined, "10 x -4 yz");
    assert_eq!(tokenize(&joined), tokens);
}

#[test]
fn parse_i32_accepts_signed_decimals() {
    assert_eq!(parse_i32("0"), Some(0));
    assert_eq!(parse_i32("42"), Some(42));
    assert_eq!(parse_i32("-3"), Some(-3));
    assert_eq!(parse_i32("+7"), Some(7));
    assert_eq!(parse_i32("007"), Some(7));
    assert_eq!(parse_i32("-0"), Some(0));
}

#[test]
fn parse_i32_range_edges() {
    assert_eq!(parse_i32("2147483647"), Some(i32::MAX));
    assert_eq!(parse_i32("-2147483648"), Some(i32::MIN));
    assert_eq!(parse_i32("2147483648"), None);
    assert_eq!(parse_i32("-2147483649"), None);
    assert_eq!(parse_i32("99999999999999999999"), None);
    assert_eq!(parse_i32("000000000000000000012"), Some(12));
}

#[test]
fn parse_i32_rejects_malformed_text() {
    for s in ["", "-", "+", "abc", "1a", "a1", "--1", "+-1", "1-", " 1", "1 ", "1.0", "\u{663}"] {
        assert_eq!(parse_i32(s), None, "{:?}", s);
        assert!(s.parse::<i32>().is_err());
    }
}

#[test]
fn parse_i32_agrees_with_std() {
    for s in ["12", "-12", "+0", "2147483647", "-2147483648", "2147483648", "x", "", "+", "0012"] {
        assert_eq!(parse_i32(s), s.parse::<i32>().ok(), "{:?}", s);
    }
}

#[test]
fn new_reader_is_empty() {
    let input = Input::new();
    assert_eq!(input.current_token(), 0);
    assert!(input.tokens().is_empty());
}

#[test]
fn three_integers_in_order() {
    let mut input = loaded("5 -3 100\n");
    assert_eq!(input.next_i32(), Ok(5));
    assert_eq!(input.next_i32(), Ok(-3));
    assert_eq!(input.next_i32(), Ok(100));
    assert_eq!(input.current_token(), 3);
}

#[test]
fn integers_with_irregular_spacing() {
    let values = [1, -22, 333, 0, 2147483647];
    let mut input = loaded("\t1   -22\t\t333 +0  2147483647 \n");
    assert_eq!(input.tokens().len(), values.len());
    for (k, v) in values.iter().enumerate() {
        assert_eq!(input.next_i32(), Ok(*v));
        assert_eq!(input.current_token(), k + 1);
    }
}

#[test]
fn new_line_resets_cursor_after_exhaustion() {
    let mut input = loaded("1 2\n");
    assert_eq!(input.next_i32(), Ok(1));
    assert_eq!(input.next_i32(), Ok(2));
    assert_eq!(input.current_token(), 2);
    assert_eq!(input.read_and_parse_line(Some("8\n".to_string())), Ok(()));
    assert_eq!(input.current_token(), 0);
    assert_eq!(input.tokens(), &vec!["8".to_string()]);
    assert_eq!(input.next_i32(), Ok(8));
}

#[test]
fn new_line_resets_cursor_midway() {
    let mut input = loaded("1 2 3\n");
    assert_eq!(input.next_i32(), Ok(1));
    assert_eq!(input.read_and_parse_line(Some("4 5\n".to_string())), Ok(()));
    assert_eq!(input.current_token(), 0);
    assert_eq!(input.next_i32(), Ok(4));
}

#[test]
fn blank_line_loads_no_tokens() {
    let input = loaded("   \n");
    assert!(input.tokens().is_empty());
    assert_eq!(input.current_token(), 0);
}

#[test]
fn bad_integer_gives_one_fatal_report() {
    let mut input = loaded("abc 4\n");
    assert_eq!(
        input.next_i32(),
        Err(vec![Effect::Panic("Can't parse 'abc' as i32.".to_string())])
    );
    assert_eq!(input.current_token(), 1);
    assert_eq!(input.next_i32(), Ok(4));
}

#[test]
fn out_of_range_integer_is_fatal() {
    let mut input = loaded("3000000000\n");
    assert_eq!(
        input.next_i32(),
        Err(vec![Effect::Panic("Can't parse '3000000000' as i32.".to_string())])
    );
}

#[test]
fn closed_stream_on_read_failure() {
    let input = Input::new();
    assert_eq!(input.read_and_return_line(None), Err(shutdown()));
}

#[test]
fn end_of_stream_on_empty_read() {
    let input = Input::new();
    assert_eq!(input.read_and_return_line(Some(String::new())), Err(shutdown()));
}

#[test]
fn raw_line_is_returned_unchanged() {
    let input = Input::new();
    assert_eq!(
        input.read_and_return_line(Some(" 1 2 \n".to_string())),
        Ok(" 1 2 \n".to_string())
    );
}

#[test]
fn closed_stream_leaves_state_alone() {
    let mut input = loaded("7 8\n");
    assert_eq!(input.next_i32(), Ok(7));
    assert_eq!(input.read_and_parse_line(None), Err(shutdown()));
    assert_eq!(input.current_token(), 1);
    assert_eq!(input.tokens().len(), 2);
}
