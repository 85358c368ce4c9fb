use script_lexer::lexer::{
    first_token, is_ident, is_ident_continue, is_ident_start, is_whitespace, tokenize, Base,
    Cursor, LiteralKind, TokenKind,
};

fn chars(s: &str) -> Vec<char> {
    s.chars().collect()
}

#[test]
fn cursor_walks_and_counts() {
    let text = chars("ab");
    let mut c = Cursor::new(&text);
    assert_eq!(c.first(), 'a');
    assert_eq!(c.second(), 'b');
    assert_eq!(c.nth_char(2), '\0');
    assert!(!c.is_eof());
    assert_eq!(c.len_consumed(), 0);
    assert_eq!(c.bump(), Some('a'));
    assert_eq!(c.bump(), Some('b'));
    assert_eq!(c.bump(), None);
    assert!(c.is_eof());
    assert_eq!(c.len_consumed(), 2);
    assert_eq!(c.first(), '\0');
}

#[test]
fn char_classes() {
    assert!(is_whitespace(' '));
    assert!(is_whitespace('\t'));
    assert!(is_whitespace('\u{2028}'));
    assert!(!is_whitespace('a'));
    assert!(is_ident_start('_'));
    assert!(is_ident_start('z'));
    assert!(!is_ident_start('1'));
    assert!(is_ident_continue('1'));
    assert!(!is_ident_continue('-'));
    assert!(is_ident(&chars("abc_1")));
    assert!(!is_ident(&chars("1abc")));
    assert!(!is_ident(&chars("")));
}

#[test]
fn two_equals_scan_separately() {
    let text = chars("==");
    let toks = tokenize(&text);
    assert_eq!(toks.len(), 2);
    assert_eq!(toks[0].kind, TokenKind::Eq);
    assert_eq!(toks[0].len, 1);
    assert_eq!(toks[1].kind, TokenKind::Eq);
    assert_eq!(toks[1].len, 1);
}

#[test]
fn hex_prefix_without_digits_is_flagged() {
    let text = chars("0x");
    let t = first_token(&text);
    assert_eq!(t.len, 2);
    assert_eq!(
        t.kind,
        TokenKind::Literal {
            kind: LiteralKind::Int { base: Base::Hexadecimal, empty_int: true },
            suffix_start: 2
        }
    );
}

#[test]
fn nested_block_comment_spans_all() {
    let text = chars("/* /* nested */ outer */");
    let t = first_token(&text);
    assert_eq!(t.kind, TokenKind::BlockComment { terminated: true });
    assert_eq!(t.len, text.len());
}

#[test]
fn unterminated_block_comment_is_flagged() {
    let text = chars("/* /* nested */ still open");
    let t = first_token(&text);
    assert_eq!(t.kind, TokenKind::BlockComment { terminated: false });
    assert_eq!(t.len, text.len());
}

#[test]
fn line_comment_stops_at_newline() {
    let text = chars("// hi\nx");
    let toks = tokenize(&text);
    assert_eq!(toks[0].kind, TokenKind::LineComment);
    assert_eq!(toks[0].len, 5);
    assert_eq!(toks[1].kind, TokenKind::Whitespace);
    assert_eq!(toks[2].kind, TokenKind::Ident);
}

#[test]
fn lengths_cover_the_input() {
    let samples = [
        "",
        "==",
        "<<=",
        "let x = 0x1f; // done",
        "/* a /* b */ c",
        "'q' \"str\" 1.5 1..10 0b__ ~?:",
        "ident_1 2u32 @ # `",
    ];
    for s in samples.iter() {
        let text = chars(s);
        let toks = tokenize(&text);
        let total: usize = toks.iter().map(|t| t.len).sum();
        assert_eq!(total, text.len());
        for t in toks.iter() {
            assert!(t.len >= 1);
        }
    }
}

#[test]
fn slices_reassemble_the_input() {
    let text = chars("let x = \"a b\"; /* c */ 0x1f g");
    let toks = tokenize(&text);
    let mut rebuilt: Vec<char> = Vec::new();
    let mut offset = 0;
    for t in toks.iter() {
        rebuilt.extend_from_slice(&text[offset..offset + t.len]);
        offset += t.len;
    }
    assert_eq!(rebuilt, text);
}

#[test]
fn decimal_and_float_shapes() {
    let t = first_token(&chars("123_4x"));
    assert_eq!(
        t.kind,
        TokenKind::Literal {
            kind: LiteralKind::Int { base: Base::Decimal, empty_int: false },
            suffix_start: 5
        }
    );
    assert_eq!(t.len, 6);

    let t = first_token(&chars("1.5"));
    assert_eq!(
        t.kind,
        TokenKind::Literal {
            kind: LiteralKind::Float { base: Base::Decimal },
            suffix_start: 3
        }
    );
    assert_eq!(t.len, 3);

    let t = first_token(&chars("1."));
    assert_eq!(
        t.kind,
        TokenKind::Literal {
            kind: LiteralKind::Float { base: Base::Decimal },
            suffix_start: 2
        }
    );

    // range syntax: the dot is not a float marker before another dot
    let toks = tokenize(&chars("1..10"));
    assert_eq!(toks.len(), 4);
    assert_eq!(
        toks[0].kind,
        TokenKind::Literal {
            kind: LiteralKind::Int { base: Base::Decimal, empty_int: false },
            suffix_start: 1
        }
    );
    assert_eq!(toks[1].kind, TokenKind::Dot);
    assert_eq!(toks[2].kind, TokenKind::Dot);

    // field syntax: the dot is not a float marker before an identifier
    let toks = tokenize(&chars("1.field"));
    assert_eq!(toks[0].len, 1);
    assert_eq!(toks[1].kind, TokenKind::Dot);
    assert_eq!(toks[2].kind, TokenKind::Ident);
}

#[test]
fn based_literals() {
    let t = first_token(&chars("0b1010"));
    assert_eq!(
        t.kind,
        TokenKind::Literal {
            kind: LiteralKind::Int { base: Base::Binary, empty_int: false },
            suffix_start: 6
        }
    );

    let t = first_token(&chars("0o77"));
    assert_eq!(
        t.kind,
        TokenKind::Literal {
            kind: LiteralKind::Int { base: Base::Octal, empty_int: false },
            suffix_start: 4
        }
    );

    let t = first_token(&chars("0xFf_u8"));
    assert_eq!(
        t.kind,
        TokenKind::Literal {
            kind: LiteralKind::Int { base: Base::Hexadecimal, empty_int: false },
            suffix_start: 5
        }
    );
    assert_eq!(t.len, 7);

    // a prefix with only separators stays empty
    let t = first_token(&chars("0b__"));
    assert_eq!(
        t.kind,
        TokenKind::Literal {
            kind: LiteralKind::Int { base: Base::Binary, empty_int: true },
            suffix_start: 4
        }
    );

    // a decimal digit outside the base's class ends the literal
    let toks = tokenize(&chars("0b2"));
    assert_eq!(toks.len(), 2);
    assert_eq!(
        toks[0].kind,
        TokenKind::Literal {
            kind: LiteralKind::Int { base: Base::Binary, empty_int: true },
            suffix_start: 2
        }
    );
    assert_eq!(toks[0].len, 2);
    assert_eq!(
        toks[1].kind,
        TokenKind::Literal {
            kind: LiteralKind::Int { base: Base::Decimal, empty_int: false },
            suffix_start: 1
        }
    );

    let toks = tokenize(&chars("0o8"));
    assert_eq!(toks.len(), 2);
    assert_eq!(
        toks[0].kind,
        TokenKind::Literal {
            kind: LiteralKind::Int { base: Base::Octal, empty_int: true },
            suffix_start: 2
        }
    );
    assert_eq!(
        toks[1].kind,
        TokenKind::Literal {
            kind: LiteralKind::Int { base: Base::Decimal, empty_int: false },
            suffix_start: 1
        }
    );

    // separators count toward the run but not toward having a digit
    let t = first_token(&chars("0b0_1z"));
    assert_eq!(
        t.kind,
        TokenKind::Literal {
            kind: LiteralKind::Int { base: Base::Binary, empty_int: false },
            suffix_start: 5
        }
    );
    assert_eq!(t.len, 6);

    // a bare zero
    let t = first_token(&chars("0"));
    assert_eq!(
        t.kind,
        TokenKind::Literal {
            kind: LiteralKind::Int { base: Base::Decimal, empty_int: false },
            suffix_start: 1
        }
    );
}

#[test]
fn char_literals() {
    let t = first_token(&chars("'x'"));
    assert_eq!(
        t.kind,
        TokenKind::Literal {
            kind: LiteralKind::Char { terminated: true },
            suffix_start: 3
        }
    );
    assert_eq!(t.len, 3);

    let t = first_token(&chars("'\\n'"));
    assert_eq!(
        t.kind,
        TokenKind::Literal {
            kind: LiteralKind::Char { terminated: true },
            suffix_start: 4
        }
    );

    // a bare slash ends the scan without termination
    let t = first_token(&chars("'a/"));
    assert_eq!(
        t.kind,
        TokenKind::Literal {
            kind: LiteralKind::Char { terminated: false },
            suffix_start: 2
        }
    );
    assert_eq!(t.len, 2);

    let t = first_token(&chars("'q"));
    assert_eq!(
        t.kind,
        TokenKind::Literal {
            kind: LiteralKind::Char { terminated: false },
            suffix_start: 2
        }
    );
}

#[test]
fn string_literals() {
    let t = first_token(&chars("\"ab\\\"c\"d"));
    assert_eq!(
        t.kind,
        TokenKind::Literal {
            kind: LiteralKind::Str { terminated: true },
            suffix_start: 7
        }
    );
    assert_eq!(t.len, 8);

    let t = first_token(&chars("\"open"));
    assert_eq!(
        t.kind,
        TokenKind::Literal {
            kind: LiteralKind::Str { terminated: false },
            suffix_start: 5
        }
    );
}

#[test]
fn single_symbols_and_unknown() {
    let text = chars(";,.(){}[]~?:=!<>-&|+*/^%@");
    let toks = tokenize(&text);
    let kinds: Vec<TokenKind> = toks.iter().map(|t| t.kind).collect();
    assert_eq!(
        kinds,
        vec![
            TokenKind::Semi,
            TokenKind::Comma,
            TokenKind::Dot,
            TokenKind::OpenParen,
            TokenKind::CloseParen,
            TokenKind::OpenBrace,
            TokenKind::CloseBrace,
            TokenKind::OpenBracket,
            TokenKind::CloseBracket,
            TokenKind::Tilde,
            TokenKind::Question,
            TokenKind::Colon,
            TokenKind::Eq,
            TokenKind::Bang,
            TokenKind::Lt,
            TokenKind::Gt,
            TokenKind::Minus,
            TokenKind::And,
            TokenKind::Or,
            TokenKind::Plus,
            TokenKind::Star,
            TokenKind::Slash,
            TokenKind::Caret,
            TokenKind::Percent,
            TokenKind::Unknown,
        ]
    );
}

#[test]
fn whitespace_runs_greedily() {
    let t = first_token(&chars(" \t\r\n\u{000B}\u{000C}x"));
    assert_eq!(t.kind, TokenKind::Whitespace);
    assert_eq!(t.len, 6);
}

#[test]
fn multibyte_characters_in_bodies() {
    // non-ASCII characters are tolerated inside comments and strings
    let text = chars("/* ein Gruß */");
    let t = first_token(&text);
    assert_eq!(t.kind, TokenKind::BlockComment { terminated: true });
    assert_eq!(t.len, text.len());

    let text = chars("\"héllo\"");
    let t = first_token(&text);
    assert_eq!(
        t.kind,
        TokenKind::Literal {
            kind: LiteralKind::Str { terminated: true },
            suffix_start: 7
        }
    );
}
