use script_lexer::unescape::{
    unescape_char, unescape_literal, unescape_str, DecodedChar, EscapeError, UnescapeMode,
};

fn chars(s: &str) -> Vec<char> {
    s.chars().collect()
}

fn decode_str(s: &str) -> Vec<DecodedChar> {
    unescape_str(&chars(s), UnescapeMode::Str)
}

#[test]
fn modes() {
    assert!(UnescapeMode::Char.in_single_quotes());
    assert!(!UnescapeMode::Str.in_single_quotes());
    assert!(UnescapeMode::Str.in_double_quotes());
    assert!(!UnescapeMode::Char.in_double_quotes());
}

#[test]
fn escape_in_string_decodes_per_range() {
    // the two characters backslash, n form one escape amid literal text
    let out = decode_str("ab\\nc");
    assert_eq!(out.len(), 4);
    assert_eq!(out[0], DecodedChar { start: 0, end: 1, res: Ok('a') });
    assert_eq!(out[1], DecodedChar { start: 1, end: 2, res: Ok('b') });
    assert_eq!(out[2], DecodedChar { start: 2, end: 4, res: Ok('\n') });
    assert_eq!(out[3], DecodedChar { start: 4, end: 5, res: Ok('c') });
}

#[test]
fn plain_text_decodes_to_itself() {
    let text = "ordinary text!";
    let out = decode_str(text);
    let cs = chars(text);
    assert_eq!(out.len(), cs.len());
    for (i, d) in out.iter().enumerate() {
        assert_eq!(*d, DecodedChar { start: i, end: i + 1, res: Ok(cs[i]) });
    }
}

#[test]
fn whole_escape_grammar() {
    let table = [
        ("\\\"", '"'),
        ("\\n", '\n'),
        ("\\r", '\r'),
        ("\\t", '\t'),
        ("\\\\", '\\'),
        ("\\'", '\''),
        ("\\0", '\0'),
    ];
    for (src, want) in table.iter() {
        assert_eq!(unescape_char(&chars(src)), Ok(*want));
    }
    assert_eq!(unescape_char(&chars("x")), Ok('x'));
}

#[test]
fn char_mode_errors() {
    assert_eq!(unescape_char(&chars("")), Err(EscapeError::ZeroChars));
    assert_eq!(unescape_char(&chars("ab")), Err(EscapeError::MoreThanOneChar));
    assert_eq!(unescape_char(&chars("\\")), Err(EscapeError::LoneSlash));
    assert_eq!(unescape_char(&chars("\\q")), Err(EscapeError::InvalidEscape));
    assert_eq!(unescape_char(&chars("\r")), Err(EscapeError::BareCarriageReturn));
    assert_eq!(unescape_char(&chars("'")), Err(EscapeError::EscapeOnlyChar));
    assert_eq!(unescape_char(&chars("\t")), Err(EscapeError::EscapeOnlyChar));
}

#[test]
fn string_mode_errors_are_per_range() {
    // one bad escape does not stop the rest of the decode
    let out = decode_str("a\\qb");
    assert_eq!(out.len(), 3);
    assert_eq!(out[0], DecodedChar { start: 0, end: 1, res: Ok('a') });
    assert_eq!(out[1], DecodedChar { start: 1, end: 3, res: Err(EscapeError::InvalidEscape) });
    assert_eq!(out[2], DecodedChar { start: 3, end: 4, res: Ok('b') });

    let out = decode_str("\r");
    assert_eq!(out, vec![DecodedChar { start: 0, end: 1, res: Err(EscapeError::BareCarriageReturn) }]);

    // an unescaped quote of the current delimiter must be escaped
    let out = decode_str("\"");
    assert_eq!(out, vec![DecodedChar { start: 0, end: 1, res: Err(EscapeError::EscapeOnlyChar) }]);

    // a raw single quote is fine in string mode
    let out = decode_str("'");
    assert_eq!(out, vec![DecodedChar { start: 0, end: 1, res: Ok('\'') }]);

    // a lone trailing backslash
    let out = decode_str("a\\");
    assert_eq!(out[1], DecodedChar { start: 1, end: 2, res: Err(EscapeError::LoneSlash) });
}

#[test]
fn raw_tab_and_newline_must_be_escaped() {
    // a literal tab or newline must be written as an escape
    let out = decode_str("a\tb\nc");
    assert_eq!(out.len(), 5);
    assert_eq!(out[1], DecodedChar { start: 1, end: 2, res: Err(EscapeError::EscapeOnlyChar) });
    assert_eq!(out[3], DecodedChar { start: 3, end: 4, res: Err(EscapeError::EscapeOnlyChar) });
    assert_eq!(out[4], DecodedChar { start: 4, end: 5, res: Ok('c') });
}

#[test]
fn line_continuation_swallows_blanks() {
    // backslash-newline and the following ASCII blanks vanish silently
    let out = decode_str("a\\\n \t\r\n  b");
    assert_eq!(out.len(), 2);
    assert_eq!(out[0], DecodedChar { start: 0, end: 1, res: Ok('a') });
    assert_eq!(out[1], DecodedChar { start: 9, end: 10, res: Ok('b') });
}

#[test]
fn unescape_literal_covers_both_modes() {
    let out = unescape_literal(&chars("\\n"), UnescapeMode::Char);
    assert_eq!(out, vec![DecodedChar { start: 0, end: 2, res: Ok('\n') }]);

    // the trailing check consumes one more character on overlong input
    let out = unescape_literal(&chars("ab"), UnescapeMode::Char);
    assert_eq!(
        out,
        vec![DecodedChar { start: 0, end: 2, res: Err(EscapeError::MoreThanOneChar) }]
    );

    let out = unescape_literal(&chars(""), UnescapeMode::Char);
    assert_eq!(out, vec![DecodedChar { start: 0, end: 0, res: Err(EscapeError::ZeroChars) }]);

    let out = unescape_literal(&chars("hi"), UnescapeMode::Str);
    assert_eq!(out.len(), 2);
    assert_eq!(out[0], DecodedChar { start: 0, end: 1, res: Ok('h') });
    assert_eq!(out[1], DecodedChar { start: 1, end: 2, res: Ok('i') });
}
