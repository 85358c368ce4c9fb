use script_lexer::ast::{
    keyword_of, BinOpToken, DelimToken, Lit, ReservedIdent, Token, TokenKind,
};
use script_lexer::glue::glue_tokens;

fn chars(s: &str) -> Vec<char> {
    s.chars().collect()
}

fn kinds(s: &str) -> Vec<TokenKind> {
    glue_tokens(&chars(s)).into_iter().map(|t| t.kind).collect()
}

#[test]
fn two_equals_glue_to_eqeq() {
    assert_eq!(kinds("=="), vec![TokenKind::EqEq]);
}

#[test]
fn shl_assign_builds_left_to_right() {
    // `<` and `<` glue to `<<`, which then glues with `=` to `<<=`
    assert_eq!(kinds("<<="), vec![TokenKind::BinOpEq(BinOpToken::Shl)]);
    assert_eq!(kinds("<<"), vec![TokenKind::BinOp(BinOpToken::Shl)]);
    assert_eq!(kinds(">>="), vec![TokenKind::BinOpEq(BinOpToken::Shr)]);
}

#[test]
fn keyword_is_resolved() {
    assert_eq!(kinds("let"), vec![TokenKind::ReservedIdent(ReservedIdent::Let)]);
    assert_eq!(kinds("letx"), vec![TokenKind::Ident]);
    assert_eq!(kinds("Let"), vec![TokenKind::Ident]);
}

#[test]
fn keyword_table_is_exact() {
    let table = [
        ("true", ReservedIdent::True),
        ("false", ReservedIdent::False),
        ("let", ReservedIdent::Let),
        ("if", ReservedIdent::If),
        ("else", ReservedIdent::Else),
        ("while", ReservedIdent::While),
        ("loop", ReservedIdent::Loop),
        ("for", ReservedIdent::For),
        ("break", ReservedIdent::Break),
        ("continue", ReservedIdent::Continue),
        ("function", ReservedIdent::Function),
        ("return", ReservedIdent::Return),
        ("await", ReservedIdent::Await),
        ("yield", ReservedIdent::Yield),
    ];
    for (w, k) in table.iter() {
        assert_eq!(keyword_of(&chars(w)), Some(*k));
    }
    assert_eq!(keyword_of(&chars("lets")), None);
    assert_eq!(keyword_of(&chars("")), None);
    assert_eq!(keyword_of(&chars("LET")), None);
}

#[test]
fn gap_prevents_gluing() {
    assert_eq!(kinds("= ="), vec![TokenKind::Eq, TokenKind::Eq]);
    // a comment between the two also breaks adjacency
    assert_eq!(kinds("=/* */="), vec![TokenKind::Eq, TokenKind::Eq]);
    // an unrecognized character is filtered but still breaks adjacency
    assert_eq!(kinds("=@="), vec![TokenKind::Eq, TokenKind::Eq]);
}

#[test]
fn arrows_and_structural_pairs() {
    assert_eq!(kinds("->"), vec![TokenKind::RArrow]);
    assert_eq!(kinds("<-"), vec![TokenKind::LArrow]);
    assert_eq!(kinds("=>"), vec![TokenKind::FatArrow]);
    assert_eq!(kinds(".."), vec![TokenKind::DotDot]);
    assert_eq!(kinds("::"), vec![TokenKind::ModSep]);
    assert_eq!(kinds("!="), vec![TokenKind::Ne]);
    assert_eq!(kinds("<="), vec![TokenKind::Le]);
    assert_eq!(kinds(">="), vec![TokenKind::Ge]);
    assert_eq!(kinds("&&"), vec![TokenKind::AndAnd]);
    assert_eq!(kinds("||"), vec![TokenKind::OrOr]);
    assert_eq!(kinds("+="), vec![TokenKind::BinOpEq(BinOpToken::Plus)]);
    assert_eq!(kinds("-="), vec![TokenKind::BinOpEq(BinOpToken::Minus)]);
    assert_eq!(kinds("&|"), vec![
        TokenKind::BinOp(BinOpToken::And),
        TokenKind::BinOp(BinOpToken::Or),
    ]);
}

#[test]
fn greedy_one_step_never_reexamines_emitted() {
    // `=` and `=` glue; the following `=` starts fresh
    assert_eq!(kinds("==="), vec![TokenKind::EqEq, TokenKind::Eq]);
    // `.` `.` glue to `..`; `..` is no glue target for another `.`
    assert_eq!(kinds("..."), vec![TokenKind::DotDot, TokenKind::Dot]);
}

#[test]
fn statement_is_glued_and_filtered() {
    assert_eq!(
        kinds("let x = 10;"),
        vec![
            TokenKind::ReservedIdent(ReservedIdent::Let),
            TokenKind::Ident,
            TokenKind::Eq,
            TokenKind::Literal(Lit {}),
            TokenKind::Semi,
        ]
    );
    assert_eq!(
        kinds("f(a[0]) { }"),
        vec![
            TokenKind::Ident,
            TokenKind::OpenDelim(DelimToken::Paren),
            TokenKind::Ident,
            TokenKind::OpenDelim(DelimToken::Bracket),
            TokenKind::Literal(Lit {}),
            TokenKind::CloseDelim(DelimToken::Bracket),
            TokenKind::CloseDelim(DelimToken::Paren),
            TokenKind::OpenDelim(DelimToken::Brace),
            TokenKind::CloseDelim(DelimToken::Brace),
        ]
    );
}

#[test]
fn glue_depends_on_kinds_alone() {
    let a = Token::new(TokenKind::Lt);
    let b = Token::new(TokenKind::Eq);
    let g1 = a.glue(&b);
    let g2 = Token::new(TokenKind::Lt).glue(&Token::new(TokenKind::Eq));
    assert_eq!(g1, g2);
    assert_eq!(g1.map(|t| t.kind), Some(TokenKind::Le));
    assert!(a.glue(&Token::new(TokenKind::Semi)).is_none());
}

#[test]
fn glue_table_pairs() {
    let glued = |a: TokenKind, b: TokenKind| Token::new(a).glue(&Token::new(b)).map(|t| t.kind);
    assert_eq!(glued(TokenKind::Eq, TokenKind::Eq), Some(TokenKind::EqEq));
    assert_eq!(glued(TokenKind::Eq, TokenKind::Gt), Some(TokenKind::FatArrow));
    assert_eq!(glued(TokenKind::Lt, TokenKind::Lt), Some(TokenKind::BinOp(BinOpToken::Shl)));
    assert_eq!(glued(TokenKind::Lt, TokenKind::Le), Some(TokenKind::BinOpEq(BinOpToken::Shl)));
    assert_eq!(
        glued(TokenKind::Lt, TokenKind::BinOp(BinOpToken::Minus)),
        Some(TokenKind::LArrow)
    );
    assert_eq!(glued(TokenKind::Gt, TokenKind::Gt), Some(TokenKind::BinOp(BinOpToken::Shr)));
    assert_eq!(glued(TokenKind::Gt, TokenKind::Ge), Some(TokenKind::BinOpEq(BinOpToken::Shr)));
    assert_eq!(glued(TokenKind::Not, TokenKind::Eq), Some(TokenKind::Ne));
    assert_eq!(
        glued(TokenKind::BinOp(BinOpToken::And), TokenKind::BinOp(BinOpToken::And)),
        Some(TokenKind::AndAnd)
    );
    assert_eq!(
        glued(TokenKind::BinOp(BinOpToken::Or), TokenKind::BinOp(BinOpToken::Or)),
        Some(TokenKind::OrOr)
    );
    assert_eq!(
        glued(TokenKind::BinOp(BinOpToken::And), TokenKind::BinOp(BinOpToken::Or)),
        None
    );
    assert_eq!(
        glued(TokenKind::BinOp(BinOpToken::Minus), TokenKind::Gt),
        Some(TokenKind::RArrow)
    );
    assert_eq!(glued(TokenKind::BinOp(BinOpToken::Plus), TokenKind::Gt), None);
    assert_eq!(glued(TokenKind::Semi, TokenKind::Semi), None);
}

#[test]
fn similar_tokens_table() {
    assert_eq!(
        TokenKind::Comma.similar_tokens(),
        Some(vec![TokenKind::Dot, TokenKind::Lt, TokenKind::Semi])
    );
    assert_eq!(
        TokenKind::Semi.similar_tokens(),
        Some(vec![TokenKind::Colon, TokenKind::Comma])
    );
    assert_eq!(TokenKind::Eq.similar_tokens(), None);
    assert_eq!(TokenKind::Ident.similar_tokens(), None);
}

#[test]
fn token_predicates() {
    let t = |k: TokenKind| Token::new(k);
    assert!(t(TokenKind::Ident).can_begin_expr());
    assert!(t(TokenKind::ReservedIdent(ReservedIdent::If)).can_begin_expr());
    assert!(t(TokenKind::ReservedIdent(ReservedIdent::Loop)).can_begin_expr());
    assert!(t(TokenKind::OpenDelim(DelimToken::Brace)).can_begin_expr());
    assert!(t(TokenKind::Literal(Lit {})).can_begin_expr());
    assert!(t(TokenKind::Not).can_begin_expr());
    assert!(t(TokenKind::BinOp(BinOpToken::Minus)).can_begin_expr());
    assert!(!t(TokenKind::Semi).can_begin_expr());
    assert!(!t(TokenKind::BinOp(BinOpToken::Plus)).can_begin_expr());

    assert!(t(TokenKind::Ident).can_begin_type());
    assert!(t(TokenKind::OpenDelim(DelimToken::Paren)).can_begin_type());
    assert!(t(TokenKind::OpenDelim(DelimToken::Bracket)).can_begin_type());
    assert!(!t(TokenKind::OpenDelim(DelimToken::Brace)).can_begin_type());

    assert!(t(TokenKind::Literal(Lit {})).is_lit());
    assert!(!t(TokenKind::Ident).is_lit());

    assert!(t(TokenKind::Literal(Lit {})).can_begin_literal_maybe_minus());
    assert!(t(TokenKind::BinOp(BinOpToken::Minus)).can_begin_literal_maybe_minus());
    assert!(t(TokenKind::ReservedIdent(ReservedIdent::True)).can_begin_literal_maybe_minus());
    assert!(!t(TokenKind::Not).can_begin_literal_maybe_minus());

    assert!(t(TokenKind::Ident).is_ident());
    assert!(t(TokenKind::ReservedIdent(ReservedIdent::Yield)).is_ident());
    assert!(!t(TokenKind::Literal(Lit {})).is_ident());

    assert!(t(TokenKind::ReservedIdent(ReservedIdent::Await)).is_reserved_ident());
    assert!(!t(TokenKind::Ident).is_reserved_ident());

    assert!(t(TokenKind::ReservedIdent(ReservedIdent::True)).is_bool_lit());
    assert!(t(TokenKind::ReservedIdent(ReservedIdent::False)).is_bool_lit());
    assert!(!t(TokenKind::ReservedIdent(ReservedIdent::Let)).is_bool_lit());
}
