//! The token gluer: drives the raw scanner over a whole input, drops
//! whitespace, comments and unrecognized characters, resolves
//! identifiers against the keyword table, and merges source-adjacent
//! pairs through the one-step gluing table.

use vstd::prelude::*;
use crate::ast;
use crate::lexer;
use crate::lexer::{lemma_scan_token_bounds, scan_token};

verus! {

/// The final kind a primitive token maps to before gluing, given the
/// source text it spans: `None` for the kinds the gluer filters out
/// (whitespace, comments, unrecognized characters).
pub open spec fn spec_final_kind(k: lexer::TokenKind, text: Seq<char>) -> Option<ast::TokenKind> {
    match k {
        lexer::TokenKind::LineComment => None,
        lexer::TokenKind::BlockComment { .. } => None,
        lexer::TokenKind::Whitespace => None,
        lexer::TokenKind::Unknown => None,
        lexer::TokenKind::Ident => Some(
            match ast::spec_keyword(text) {
                Some(kw) => ast::TokenKind::ReservedIdent(kw),
                None => ast::TokenKind::Ident,
            },
        ),
        lexer::TokenKind::Literal { .. } => Some(ast::TokenKind::Literal(ast::Lit {  })),
        lexer::TokenKind::Semi => Some(ast::TokenKind::Semi),
        lexer::TokenKind::Comma => Some(ast::TokenKind::Comma),
        lexer::TokenKind::Dot => Some(ast::TokenKind::Dot),
        lexer::TokenKind::OpenParen => Some(ast::TokenKind::OpenDelim(ast::DelimToken::Paren)),
        lexer::TokenKind::CloseParen => Some(ast::TokenKind::CloseDelim(ast::DelimToken::Paren)),
        lexer::TokenKind::OpenBrace => Some(ast::TokenKind::OpenDelim(ast::DelimToken::Brace)),
        lexer::TokenKind::CloseBrace => Some(ast::TokenKind::CloseDelim(ast::DelimToken::Brace)),
        lexer::TokenKind::OpenBracket => Some(ast::TokenKind::OpenDelim(ast::DelimToken::Bracket)),
        lexer::TokenKind::CloseBracket => Some(
            ast::TokenKind::CloseDelim(ast::DelimToken::Bracket),
        ),
        lexer::TokenKind::Tilde => Some(ast::TokenKind::Tilde),
        lexer::TokenKind::Question => Some(ast::TokenKind::Question),
        lexer::TokenKind::Colon => Some(ast::TokenKind::Colon),
        lexer::TokenKind::Eq => Some(ast::TokenKind::Eq),
        lexer::TokenKind::Bang => Some(ast::TokenKind::Not),
        lexer::TokenKind::Lt => Some(ast::TokenKind::Lt),
        lexer::TokenKind::Gt => Some(ast::TokenKind::Gt),
        lexer::TokenKind::Minus => Some(ast::TokenKind::BinOp(ast::BinOpToken::Minus)),
        lexer::TokenKind::And => Some(ast::TokenKind::BinOp(ast::BinOpToken::And)),
        lexer::TokenKind::Or => Some(ast::TokenKind::BinOp(ast::BinOpToken::Or)),
        lexer::TokenKind::Plus => Some(ast::TokenKind::BinOp(ast::BinOpToken::Plus)),
        lexer::TokenKind::Star => Some(ast::TokenKind::BinOp(ast::BinOpToken::Star)),
        lexer::TokenKind::Slash => Some(ast::TokenKind::BinOp(ast::BinOpToken::Slash)),
        lexer::TokenKind::Caret => Some(ast::TokenKind::BinOp(ast::BinOpToken::Caret)),
        lexer::TokenKind::Percent => Some(ast::TokenKind::BinOp(ast::BinOpToken::Percent)),
    }
}

/// Maps one primitive token to its final kind, resolving identifiers
/// against the keyword table; `None` for the filtered kinds.
pub fn raw_to_final(k: lexer::TokenKind, text: &[char]) -> (r: Option<ast::TokenKind>)
    ensures
        r == spec_final_kind(k, text@),
{
    match k {
        lexer::TokenKind::LineComment => None,
        lexer::TokenKind::BlockComment { .. } => None,
        lexer::TokenKind::Whitespace => None,
        lexer::TokenKind::Unknown => None,
        lexer::TokenKind::Ident => Some(
            match ast::keyword_of(text) {
                Some(kw) => ast::TokenKind::ReservedIdent(kw),
                None => ast::TokenKind::Ident,
            },
        ),
        lexer::TokenKind::Literal { .. } => Some(ast::TokenKind::Literal(ast::Lit {  })),
        lexer::TokenKind::Semi => Some(ast::TokenKind::Semi),
        lexer::TokenKind::Comma => Some(ast::TokenKind::Comma),
        lexer::TokenKind::Dot => Some(ast::TokenKind::Dot),
        lexer::TokenKind::OpenParen => Some(ast::TokenKind::OpenDelim(ast::DelimToken::Paren)),
        lexer::TokenKind::CloseParen => Some(ast::TokenKind::CloseDelim(ast::DelimToken::Paren)),
        lexer::TokenKind::OpenBrace => Some(ast::TokenKind::OpenDelim(ast::DelimToken::Brace)),
        lexer::TokenKind::CloseBrace => Some(ast::TokenKind::CloseDelim(ast::DelimToken::Brace)),
        lexer::TokenKind::OpenBracket => Some(ast::TokenKind::OpenDelim(ast::DelimToken::Bracket)),
        lexer::TokenKind::CloseBracket => Some(
            ast::TokenKind::CloseDelim(ast::DelimToken::Bracket),
        ),
        lexer::TokenKind::Tilde => Some(ast::TokenKind::Tilde),
        lexer::TokenKind::Question => Some(ast::TokenKind::Question),
        lexer::TokenKind::Colon => Some(ast::TokenKind::Colon),
        lexer::TokenKind::Eq => Some(ast::TokenKind::Eq),
        lexer::TokenKind::Bang => Some(ast::TokenKind::Not),
        lexer::TokenKind::Lt => Some(ast::TokenKind::Lt),
        lexer::TokenKind::Gt => Some(ast::TokenKind::Gt),
        lexer::TokenKind::Minus => Some(ast::TokenKind::BinOp(ast::BinOpToken::Minus)),
        lexer::TokenKind::And => Some(ast::TokenKind::BinOp(ast::BinOpToken::And)),
        lexer::TokenKind::Or => Some(ast::TokenKind::BinOp(ast::BinOpToken::Or)),
        lexer::TokenKind::Plus => Some(ast::TokenKind::BinOp(ast::BinOpToken::Plus)),
        lexer::TokenKind::Star => Some(ast::TokenKind::BinOp(ast::BinOpToken::Star)),
        lexer::TokenKind::Slash => Some(ast::TokenKind::BinOp(ast::BinOpToken::Slash)),
        lexer::TokenKind::Caret => Some(ast::TokenKind::BinOp(ast::BinOpToken::Caret)),
        lexer::TokenKind::Percent => Some(ast::TokenKind::BinOp(ast::BinOpToken::Percent)),
    }
}

/// The final kinds produced from the text `s`, with `pending` the one
/// token held back for a possible glue and `adj` whether the next
/// mapped token touches it in the source. Gluing is greedy, one step
/// at a time, left operand possibly itself glued; an emitted token is
/// never re-examined.
pub open spec fn glue_run(s: Seq<char>, pending: Option<ast::TokenKind>, adj: bool) -> Seq<
    ast::TokenKind,
>
    decreases s.len(),
{
    if s.len() == 0 {
        match pending {
            None => Seq::empty(),
            Some(p) => seq![p],
        }
    } else {
        proof {
            lemma_scan_token_bounds(s);
        }
        let t = scan_token(s);
        let fk = spec_final_kind(t.0, s.take(t.1));
        let rest = s.skip(t.1);
        match fk {
            None => glue_run(rest, pending, false),
            Some(nk) => match pending {
                None => glue_run(rest, Some(nk), true),
                Some(p) => if adj && ast::spec_glue(p, nk) is Some {
                    glue_run(rest, ast::spec_glue(p, nk), true)
                } else {
                    seq![p] + glue_run(rest, Some(nk), true)
                },
            },
        }
    }
}

/// The final token kinds of the whole text: scanned, filtered,
/// keyword-resolved and glued.
pub open spec fn spec_glued_tokens(s: Seq<char>) -> Seq<ast::TokenKind> {
    glue_run(s, None, true)
}

/// Scans the whole input and glues it into its final token sequence.
pub fn glue_tokens(input: &[char]) -> (out: Vec<ast::Token>)
    ensures
        out@.len() == spec_glued_tokens(input@).len(),
        forall|i: int| 0 <= i < out@.len() ==> out@[i].kind == spec_glued_tokens(input@)[i],
{
    let mut cursor = lexer::Cursor::new(input);
    let mut out: Vec<ast::Token> = Vec::new();
    let mut pending: Option<ast::TokenKind> = None;
    let mut adj: bool = true;
    let ghost mut emitted = Seq::<ast::TokenKind>::empty();
    proof {
        assert(cursor.remaining() =~= input@);
        assert(emitted + glue_run(input@, pending, adj) =~= spec_glued_tokens(input@));
    }
    loop
        invariant
            cursor.wf(),
            cursor.input() == input@,
            out@.len() == emitted.len(),
            forall|i: int| 0 <= i < out@.len() ==> out@[i].kind == emitted[i],
            spec_glued_tokens(input@) == emitted + glue_run(cursor.remaining(), pending, adj),
        ensures
            cursor.remaining().len() == 0,
            out@.len() == emitted.len(),
            forall|i: int| 0 <= i < out@.len() ==> out@[i].kind == emitted[i],
            spec_glued_tokens(input@) == emitted + glue_run(cursor.remaining(), pending, adj),
        decreases cursor.remaining().len(),
    {
        if cursor.is_eof() {
            break ;
        }
        let ghost rem = cursor.remaining();
        let ghost pending0 = pending;
        let ghost adj0 = adj;
        let ghost emitted0 = emitted;
        let start = cursor.len_consumed();
        let t = cursor.advance_token();
        let end = cursor.len_consumed();
        proof {
            lemma_scan_token_bounds(rem);
            assert(cursor.remaining() =~= rem.skip(scan_token(rem).1));
            assert(input@.subrange(start as int, end as int) =~= rem.take(scan_token(rem).1));
        }
        let text = vstd::slice::slice_subrange(input, start, end);
        let fk = raw_to_final(t.kind, text);
        match fk {
            None => {
                adj = false;
                proof {
                    assert(glue_run(rem, pending0, adj0) == glue_run(
                        cursor.remaining(),
                        pending,
                        false,
                    ));
                }
            },
            Some(nk) => {
                let mut flushed: Option<ast::TokenKind> = None;
                match pending {
                    None => {
                        pending = Some(nk);
                        adj = true;
                    },
                    Some(p) => {
                        if adj {
                            match ast::glue_kind(p, nk) {
                                Some(g) => {
                                    pending = Some(g);
                                    adj = true;
                                },
                                None => {
                                    flushed = Some(p);
                                    pending = Some(nk);
                                    adj = true;
                                },
                            }
                        } else {
                            flushed = Some(p);
                            pending = Some(nk);
                            adj = true;
                        }
                    },
                }
                match flushed {
                    None => {
                        proof {
                            assert(glue_run(rem, pending0, adj0) == glue_run(
                                cursor.remaining(),
                                pending,
                                true,
                            ));
                        }
                    },
                    Some(p) => {
                        out.push(ast::Token::new(p));
                        proof {
                            emitted = emitted.push(p);
                            assert(glue_run(rem, pending0, adj0) == seq![p] + glue_run(
                                cursor.remaining(),
                                pending,
                                true,
                            ));
                            assert(emitted =~= emitted0 + seq![p]);
                            assert(emitted0 + (seq![p] + glue_run(cursor.remaining(), pending, true))
                                =~= (emitted0 + seq![p]) + glue_run(
                                cursor.remaining(),
                                pending,
                                true,
                            ));
                        }
                    },
                }
            },
        }
    }
    match pending {
        None => {
            proof {
                assert(emitted + glue_run(cursor.remaining(), pending, adj) =~= emitted);
            }
        },
        Some(p) => {
            out.push(ast::Token::new(p));
            proof {
                let ghost emitted0 = emitted;
                emitted = emitted.push(p);
                assert(glue_run(cursor.remaining(), Some(p), adj) =~= seq![p]);
                assert(emitted =~= emitted0 + seq![p]);
            }
        },
    }
    out
}

} // verus!
