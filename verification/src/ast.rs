//! Final tokens: compound operators, structural symbols, reserved
//! identifiers, and the pairwise gluing rule that builds them.

use vstd::prelude::*;

verus! {

/// The two comment shapes the raw scanner recognizes.
#[derive(Debug, Copy, Clone, Ord, PartialOrd, Eq, PartialEq)]
pub enum CommentKind {
    /// `// ...`
    Line,
    /// `/* ... */`
    Block,
}

/// Binary operator tokens, plain or inside a compound assignment.
#[derive(Debug, Copy, Clone, Ord, PartialOrd, Eq, PartialEq)]
pub enum BinOpToken {
    /// `+`
    Plus,
    /// `-`
    Minus,
    /// `*`
    Star,
    /// `/`
    Slash,
    /// `%`
    Percent,
    /// `^`
    Caret,
    /// `&`
    And,
    /// `|`
    Or,
    /// `<<`
    Shl,
    /// `>>`
    Shr,
}

/// Delimiter families for open/close tokens.
#[derive(Debug, Copy, Clone, Ord, PartialOrd, Eq, PartialEq)]
pub enum DelimToken {
    /// `(` or `)`
    Paren,
    /// `[` or `]`
    Bracket,
    /// `{` or `}`
    Brace,
    /// Empty delimiter
    NoDelim,
}

/// Placeholder for a literal value; the downstream layer owns the
/// actual payload.
#[derive(Debug, Copy, Clone, Ord, PartialOrd, Eq, PartialEq)]
pub struct Lit {}

/// Placeholder for an interned identifier handle; the downstream layer
/// owns the actual payload.
#[derive(Debug, Copy, Clone, Ord, PartialOrd, Eq, PartialEq)]
pub struct Ident {}

/// The reserved keywords of the language.
#[derive(Debug, Copy, Clone, Ord, PartialOrd, Eq, PartialEq)]
pub enum ReservedIdent {
    /// `true`
    True,
    /// `false`
    False,
    /// `let`
    Let,
    /// `if`
    If,
    /// `else`
    Else,
    /// `while`
    While,
    /// `loop`
    Loop,
    /// `for`
    For,
    /// `break`
    Break,
    /// `continue`
    Continue,
    /// `function`
    Function,
    /// `return`
    Return,
    /// `await`
    Await,
    /// `yield`
    Yield,
}

/// The final token kinds handed to the parser.
#[derive(Debug, Copy, Clone, Ord, PartialOrd, Eq, PartialEq)]
pub enum TokenKind {
    /// `=`
    Eq,
    /// `<`
    Lt,
    /// `<=`
    Le,
    /// `==`
    EqEq,
    /// `!=`
    Ne,
    /// `>=`
    Ge,
    /// `>`
    Gt,
    /// `&&`
    AndAnd,
    /// `||`
    OrOr,
    /// `!`
    Not,
    /// `~`
    Tilde,
    /// `A op B`
    BinOp(BinOpToken),
    /// `A op= B`
    BinOpEq(BinOpToken),
    /// `.`
    Dot,
    /// `..`
    DotDot,
    /// `,`
    Comma,
    /// `;`
    Semi,
    /// `:`
    Colon,
    /// `::`
    ModSep,
    /// `->`
    RArrow,
    /// `<-`
    LArrow,
    /// `=>`
    FatArrow,
    /// `?`
    Question,
    /// An opening delimiter
    OpenDelim(DelimToken),
    /// A closing delimiter
    CloseDelim(DelimToken),
    /// A literal
    Literal(Lit),
    /// Any valid identifier except reserved ones
    Ident,
    /// A reserved identifier
    ReservedIdent(ReservedIdent),
    /// End of input
    Eof,
}

/// The keyword named by `t`, when `t` spells a reserved identifier
/// exactly; membership is exact character-for-character match.
pub open spec fn spec_keyword(t: Seq<char>) -> Option<ReservedIdent> {
    if t.len() == 2 && t[0] == 'i' && t[1] == 'f' {
        Some(ReservedIdent::If)
    } else if t.len() == 3 && t[0] == 'l' && t[1] == 'e' && t[2] == 't' {
        Some(ReservedIdent::Let)
    } else if t.len() == 3 && t[0] == 'f' && t[1] == 'o' && t[2] == 'r' {
        Some(ReservedIdent::For)
    } else if t.len() == 4 && t[0] == 't' && t[1] == 'r' && t[2] == 'u' && t[3] == 'e' {
        Some(ReservedIdent::True)
    } else if t.len() == 4 && t[0] == 'e' && t[1] == 'l' && t[2] == 's' && t[3] == 'e' {
        Some(ReservedIdent::Else)
    } else if t.len() == 4 && t[0] == 'l' && t[1] == 'o' && t[2] == 'o' && t[3] == 'p' {
        Some(ReservedIdent::Loop)
    } else if t.len() == 5 && t[0] == 'f' && t[1] == 'a' && t[2] == 'l' && t[3] == 's' && t[4]
        == 'e' {
        Some(ReservedIdent::False)
    } else if t.len() == 5 && t[0] == 'w' && t[1] == 'h' && t[2] == 'i' && t[3] == 'l' && t[4]
        == 'e' {
        Some(ReservedIdent::While)
    } else if t.len() == 5 && t[0] == 'b' && t[1] == 'r' && t[2] == 'e' && t[3] == 'a' && t[4]
        == 'k' {
        Some(ReservedIdent::Break)
    } else if t.len() == 5 && t[0] == 'a' && t[1] == 'w' && t[2] == 'a' && t[3] == 'i' && t[4]
        == 't' {
        Some(ReservedIdent::Await)
    } else if t.len() == 5 && t[0] == 'y' && t[1] == 'i' && t[2] == 'e' && t[3] == 'l' && t[4]
        == 'd' {
        Some(ReservedIdent::Yield)
    } else if t.len() == 6 && t[0] == 'r' && t[1] == 'e' && t[2] == 't' && t[3] == 'u' && t[4]
        == 'r' && t[5] == 'n' {
        Some(ReservedIdent::Return)
    } else if t.len() == 8 && t[0] == 'c' && t[1] == 'o' && t[2] == 'n' && t[3] == 't' && t[4]
        == 'i' && t[5] == 'n' && t[6] == 'u' && t[7] == 'e' {
        Some(ReservedIdent::Continue)
    } else if t.len() == 8 && t[0] == 'f' && t[1] == 'u' && t[2] == 'n' && t[3] == 'c' && t[4]
        == 't' && t[5] == 'i' && t[6] == 'o' && t[7] == 'n' {
        Some(ReservedIdent::Function)
    } else {
        None
    }
}

/// Resolves an identifier's text to its reserved keyword, if it is one.
pub fn keyword_of(text: &[char]) -> (r: Option<ReservedIdent>)
    ensures
        r == spec_keyword(text@),
{
    if text.len() == 2 && text[0] == 'i' && text[1] == 'f' {
        Some(ReservedIdent::If)
    } else if text.len() == 3 && text[0] == 'l' && text[1] == 'e' && text[2] == 't' {
        Some(ReservedIdent::Let)
    } else if text.len() == 3 && text[0] == 'f' && text[1] == 'o' && text[2] == 'r' {
        Some(ReservedIdent::For)
    } else if text.len() == 4 && text[0] == 't' && text[1] == 'r' && text[2] == 'u' && text[3]
        == 'e' {
        Some(ReservedIdent::True)
    } else if text.len() == 4 && text[0] == 'e' && text[1] == 'l' && text[2] == 's' && text[3]
        == 'e' {
        Some(ReservedIdent::Else)
    } else if text.len() == 4 && text[0] == 'l' && text[1] == 'o' && text[2] == 'o' && text[3]
        == 'p' {
        Some(ReservedIdent::Loop)
    } else if text.len() == 5 && text[0] == 'f' && text[1] == 'a' && text[2] == 'l' && text[3]
        == 's' && text[4] == 'e' {
        Some(ReservedIdent::False)
    } else if text.len() == 5 && text[0] == 'w' && text[1] == 'h' && text[2] == 'i' && text[3]
        == 'l' && text[4] == 'e' {
        Some(ReservedIdent::While)
    } else if text.len() == 5 && text[0] == 'b' && text[1] == 'r' && text[2] == 'e' && text[3]
        == 'a' && text[4] == 'k' {
        Some(ReservedIdent::Break)
    } else if text.len() == 5 && text[0] == 'a' && text[1] == 'w' && text[2] == 'a' && text[3]
        == 'i' && text[4] == 't' {
        Some(ReservedIdent::Await)
    } else if text.len() == 5 && text[0] == 'y' && text[1] == 'i' && text[2] == 'e' && text[3]
        == 'l' && text[4] == 'd' {
        Some(ReservedIdent::Yield)
    } else if text.len() == 6 && text[0] == 'r' && text[1] == 'e' && text[2] == 't' && text[3]
        == 'u' && text[4] == 'r' && text[5] == 'n' {
        Some(ReservedIdent::Return)
    } else if text.len() == 8 && text[0] == 'c' && text[1] == 'o' && text[2] == 'n' && text[3]
        == 't' && text[4] == 'i' && text[5] == 'n' && text[6] == 'u' && text[7] == 'e' {
        Some(ReservedIdent::Continue)
    } else if text.len() == 8 && text[0] == 'f' && text[1] == 'u' && text[2] == 'n' && text[3]
        == 'c' && text[4] == 't' && text[5] == 'i' && text[6] == 'o' && text[7] == 'n' {
        Some(ReservedIdent::Function)
    } else {
        None
    }
}

/// The one-step gluing table: the compound kind built from two source
/// adjacent kinds, or `None` when the pair does not glue. The result
/// depends on the two kinds alone.
pub open spec fn spec_glue(a: TokenKind, b: TokenKind) -> Option<TokenKind> {
    match a {
        TokenKind::Eq => match b {
            TokenKind::Eq => Some(TokenKind::EqEq),
            TokenKind::Gt => Some(TokenKind::FatArrow),
            _ => None,
        },
        TokenKind::Lt => match b {
            TokenKind::Eq => Some(TokenKind::Le),
            TokenKind::Lt => Some(TokenKind::BinOp(BinOpToken::Shl)),
            TokenKind::Le => Some(TokenKind::BinOpEq(BinOpToken::Shl)),
            TokenKind::BinOp(BinOpToken::Minus) => Some(TokenKind::LArrow),
            _ => None,
        },
        TokenKind::Gt => match b {
            TokenKind::Eq => Some(TokenKind::Ge),
            TokenKind::Gt => Some(TokenKind::BinOp(BinOpToken::Shr)),
            TokenKind::Ge => Some(TokenKind::BinOpEq(BinOpToken::Shr)),
            _ => None,
        },
        TokenKind::Not => match b {
            TokenKind::Eq => Some(TokenKind::Ne),
            _ => None,
        },
        TokenKind::BinOp(op) => match b {
            TokenKind::Eq => Some(TokenKind::BinOpEq(op)),
            TokenKind::BinOp(BinOpToken::And) => if op == BinOpToken::And {
                Some(TokenKind::AndAnd)
            } else {
                None
            },
            TokenKind::BinOp(BinOpToken::Or) => if op == BinOpToken::Or {
                Some(TokenKind::OrOr)
            } else {
                None
            },
            TokenKind::Gt => if op == BinOpToken::Minus {
                Some(TokenKind::RArrow)
            } else {
                None
            },
            _ => None,
        },
        TokenKind::Dot => match b {
            TokenKind::Dot => Some(TokenKind::DotDot),
            _ => None,
        },
        TokenKind::Colon => match b {
            TokenKind::Colon => Some(TokenKind::ModSep),
            _ => None,
        },
        _ => None,
    }
}

/// The kind-level gluing step.
pub fn glue_kind(a: TokenKind, b: TokenKind) -> (r: Option<TokenKind>)
    ensures
        r == spec_glue(a, b),
{
    match a {
        TokenKind::Eq => match b {
            TokenKind::Eq => Some(TokenKind::EqEq),
            TokenKind::Gt => Some(TokenKind::FatArrow),
            _ => None,
        },
        TokenKind::Lt => match b {
            TokenKind::Eq => Some(TokenKind::Le),
            TokenKind::Lt => Some(TokenKind::BinOp(BinOpToken::Shl)),
            TokenKind::Le => Some(TokenKind::BinOpEq(BinOpToken::Shl)),
            TokenKind::BinOp(BinOpToken::Minus) => Some(TokenKind::LArrow),
            _ => None,
        },
        TokenKind::Gt => match b {
            TokenKind::Eq => Some(TokenKind::Ge),
            TokenKind::Gt => Some(TokenKind::BinOp(BinOpToken::Shr)),
            TokenKind::Ge => Some(TokenKind::BinOpEq(BinOpToken::Shr)),
            _ => None,
        },
        TokenKind::Not => match b {
            TokenKind::Eq => Some(TokenKind::Ne),
            _ => None,
        },
        TokenKind::BinOp(op) => match b {
            TokenKind::Eq => Some(TokenKind::BinOpEq(op)),
            TokenKind::BinOp(BinOpToken::And) => match op {
                BinOpToken::And => Some(TokenKind::AndAnd),
                _ => None,
            },
            TokenKind::BinOp(BinOpToken::Or) => match op {
                BinOpToken::Or => Some(TokenKind::OrOr),
                _ => None,
            },
            TokenKind::Gt => match op {
                BinOpToken::Minus => Some(TokenKind::RArrow),
                _ => None,
            },
            _ => None,
        },
        TokenKind::Dot => match b {
            TokenKind::Dot => Some(TokenKind::DotDot),
            _ => None,
        },
        TokenKind::Colon => match b {
            TokenKind::Colon => Some(TokenKind::ModSep),
            _ => None,
        },
        _ => None,
    }
}

impl TokenKind {
    /// The ordered list of kinds a parser may suggest in place of this
    /// one in a "did you mean" diagnostic; `None` outside the small
    /// typo-prone subset.
    pub fn similar_tokens(&self) -> (r: Option<Vec<TokenKind>>)
        ensures
            match *self {
                TokenKind::Comma => r matches Some(v) && v@ == seq![
                    TokenKind::Dot,
                    TokenKind::Lt,
                    TokenKind::Semi,
                ],
                TokenKind::Semi => r matches Some(v) && v@ == seq![
                    TokenKind::Colon,
                    TokenKind::Comma,
                ],
                _ => r is None,
            },
    {
        match *self {
            TokenKind::Comma => {
                let mut v: Vec<TokenKind> = Vec::new();
                v.push(TokenKind::Dot);
                v.push(TokenKind::Lt);
                v.push(TokenKind::Semi);
                proof {
                    assert(v@ =~= seq![TokenKind::Dot, TokenKind::Lt, TokenKind::Semi]);
                }
                Some(v)
            },
            TokenKind::Semi => {
                let mut v: Vec<TokenKind> = Vec::new();
                v.push(TokenKind::Colon);
                v.push(TokenKind::Comma);
                proof {
                    assert(v@ =~= seq![TokenKind::Colon, TokenKind::Comma]);
                }
                Some(v)
            },
            _ => None,
        }
    }
}

/// A final token: the kind is all it carries.
#[derive(Debug, Clone, PartialOrd, Eq, PartialEq)]
pub struct Token {
    pub kind: TokenKind,
}

/// Whether a token of kind `k` can begin an expression.
pub open spec fn spec_can_begin_expr(k: TokenKind) -> bool {
    match k {
        TokenKind::Ident => true,
        TokenKind::ReservedIdent(ReservedIdent::If) => true,
        TokenKind::ReservedIdent(ReservedIdent::Loop) => true,
        TokenKind::OpenDelim(_) => true,
        TokenKind::Literal(_) => true,
        TokenKind::Not => true,
        TokenKind::BinOp(BinOpToken::Minus) => true,
        _ => false,
    }
}

/// Whether a token of kind `k` can begin a type.
pub open spec fn spec_can_begin_type(k: TokenKind) -> bool {
    match k {
        TokenKind::Ident => true,
        TokenKind::OpenDelim(DelimToken::Paren) => true,
        TokenKind::OpenDelim(DelimToken::Bracket) => true,
        _ => false,
    }
}

/// Whether a token of kind `k` is a literal.
pub open spec fn spec_is_lit(k: TokenKind) -> bool {
    match k {
        TokenKind::Literal(_) => true,
        _ => false,
    }
}

/// Whether a token of kind `k` can begin a literal, allowing a leading
/// minus and the boolean keywords.
pub open spec fn spec_can_begin_literal_maybe_minus(k: TokenKind) -> bool {
    match k {
        TokenKind::Literal(_) => true,
        TokenKind::BinOp(BinOpToken::Minus) => true,
        TokenKind::ReservedIdent(ReservedIdent::False) => true,
        TokenKind::ReservedIdent(ReservedIdent::True) => true,
        _ => false,
    }
}

/// Whether a token of kind `k` is an identifier, reserved or not.
pub open spec fn spec_is_ident_kind(k: TokenKind) -> bool {
    match k {
        TokenKind::Ident => true,
        TokenKind::ReservedIdent(_) => true,
        _ => false,
    }
}

/// Whether a token of kind `k` is a reserved identifier.
pub open spec fn spec_is_reserved_ident(k: TokenKind) -> bool {
    match k {
        TokenKind::ReservedIdent(_) => true,
        _ => false,
    }
}

/// Whether a token of kind `k` is one of the boolean keywords.
pub open spec fn spec_is_bool_lit(k: TokenKind) -> bool {
    match k {
        TokenKind::ReservedIdent(ReservedIdent::False) => true,
        TokenKind::ReservedIdent(ReservedIdent::True) => true,
        _ => false,
    }
}

impl Token {
    /// A token of the given kind.
    pub fn new(kind: TokenKind) -> (t: Token)
        ensures
            t.kind == kind,
    {
        Token { kind }
    }

    /// Whether this token can begin an expression.
    pub fn can_begin_expr(&self) -> (r: bool)
        ensures
            r == spec_can_begin_expr(self.kind),
    {
        match self.kind {
            TokenKind::Ident
            | TokenKind::ReservedIdent(ReservedIdent::If)
            | TokenKind::ReservedIdent(ReservedIdent::Loop)
            | TokenKind::OpenDelim(..)
            | TokenKind::Literal(..)
            | TokenKind::Not
            | TokenKind::BinOp(BinOpToken::Minus) => true,
            _ => false,
        }
    }

    /// Whether this token can begin a type.
    pub fn can_begin_type(&self) -> (r: bool)
        ensures
            r == spec_can_begin_type(self.kind),
    {
        match self.kind {
            TokenKind::Ident
            | TokenKind::OpenDelim(DelimToken::Paren)
            | TokenKind::OpenDelim(DelimToken::Bracket) => true,
            _ => false,
        }
    }

    /// Whether this token is a literal.
    pub fn is_lit(&self) -> (r: bool)
        ensures
            r == spec_is_lit(self.kind),
    {
        match self.kind {
            TokenKind::Literal(..) => true,
            _ => false,
        }
    }

    /// Whether this token can begin a literal, allowing a leading
    /// minus and the boolean keywords.
    pub fn can_begin_literal_maybe_minus(&self) -> (r: bool)
        ensures
            r == spec_can_begin_literal_maybe_minus(self.kind),
    {
        match self.kind {
            TokenKind::Literal(..)
            | TokenKind::BinOp(BinOpToken::Minus)
            | TokenKind::ReservedIdent(ReservedIdent::False)
            | TokenKind::ReservedIdent(ReservedIdent::True) => true,
            _ => false,
        }
    }

    /// Whether this token is an identifier, reserved or not.
    pub fn is_ident(&self) -> (r: bool)
        ensures
            r == spec_is_ident_kind(self.kind),
    {
        match self.kind {
            TokenKind::Ident | TokenKind::ReservedIdent(..) => true,
            _ => false,
        }
    }

    /// Whether this token is a reserved identifier.
    pub fn is_reserved_ident(&self) -> (r: bool)
        ensures
            r == spec_is_reserved_ident(self.kind),
    {
        match self.kind {
            TokenKind::ReservedIdent(..) => true,
            _ => false,
        }
    }

    /// Whether this token is one of the boolean keywords.
    pub fn is_bool_lit(&self) -> (r: bool)
        ensures
            r == spec_is_bool_lit(self.kind),
    {
        match self.kind {
            TokenKind::ReservedIdent(ReservedIdent::False)
            | TokenKind::ReservedIdent(ReservedIdent::True) => true,
            _ => false,
        }
    }

    /// Glues this token with the one immediately following it, when
    /// the pair forms a compound token.
    pub fn glue(&self, joint: &Token) -> (r: Option<Token>)
        ensures
            match r {
                Some(t) => spec_glue(self.kind, joint.kind) == Some(t.kind),
                None => spec_glue(self.kind, joint.kind) is None,
            },
    {
        match glue_kind(self.kind, joint.kind) {
            Some(k) => Some(Token::new(k)),
            None => None,
        }
    }
}

/// Gluing is a function of the two kinds alone: tokens with equal
/// kinds glue to equal results, whatever else is around them.
pub proof fn lemma_glue_depends_only_on_kinds(a1: Token, b1: Token, a2: Token, b2: Token)
    requires
        a1.kind == a2.kind,
        b1.kind == b2.kind,
    ensures
        spec_glue(a1.kind, b1.kind) == spec_glue(a2.kind, b2.kind),
{
}

} // verus!
