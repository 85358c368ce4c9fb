//! The raw scanner: a cursor over the input characters and the
//! classification of each scan step into one primitive token.

use vstd::prelude::*;

verus! {

/// Sentinel character returned by lookahead past the end of input.
pub const EOF_CHAR: char = '\0';

/// The character at position `i` of `s`, or the sentinel past the end.
pub open spec fn char_at(s: Seq<char>, i: int) -> char {
    if 0 <= i < s.len() {
        s[i]
    } else {
        EOF_CHAR
    }
}

/// The whitespace class: blanks, tabs, line breaks, and the Unicode
/// separators and direction marks that the scanner skips.
pub open spec fn spec_is_whitespace(c: char) -> bool {
    ||| c == ' '
    ||| c == '\t'
    ||| c == '\n'
    ||| c == '\r'
    ||| c == '\u{000B}'
    ||| c == '\u{000C}'
    ||| c == '\u{0085}'
    ||| c == '\u{200E}'
    ||| c == '\u{200F}'
    ||| c == '\u{2028}'
    ||| c == '\u{2029}'
}

/// Reports whether `c` belongs to the whitespace class.
pub fn is_whitespace(c: char) -> (r: bool)
    ensures
        r == spec_is_whitespace(c),
{
    match c {
        ' ' | '\t' | '\n' | '\r' | '\u{000B}' | '\u{000C}' | '\u{0085}' | '\u{200E}' | '\u{200F}'
            | '\u{2028}' | '\u{2029}' => true,
        _ => false,
    }
}

/// The characters that may begin an identifier: ASCII letters and `_`.
pub open spec fn spec_is_ident_start(c: char) -> bool {
    ('a' <= c && c <= 'z') || ('A' <= c && c <= 'Z') || c == '_'
}

/// Reports whether `c` may begin an identifier.
pub fn is_ident_start(c: char) -> (r: bool)
    ensures
        r == spec_is_ident_start(c),
{
    ('a' <= c && c <= 'z') || ('A' <= c && c <= 'Z') || c == '_'
}

/// The characters that may continue an identifier: ASCII letters,
/// digits and `_`.
pub open spec fn spec_is_ident_continue(c: char) -> bool {
    ('a' <= c && c <= 'z') || ('A' <= c && c <= 'Z') || ('0' <= c && c <= '9') || c == '_'
}

/// Reports whether `c` may continue an identifier.
pub fn is_ident_continue(c: char) -> (r: bool)
    ensures
        r == spec_is_ident_continue(c),
{
    ('a' <= c && c <= 'z') || ('A' <= c && c <= 'Z') || ('0' <= c && c <= '9') || c == '_'
}

/// An ASCII decimal digit.
pub open spec fn spec_is_digit(c: char) -> bool {
    '0' <= c && c <= '9'
}

/// Identifier shape over a whole text: an identifier-start character
/// followed only by identifier-continue characters.
pub open spec fn spec_is_ident(t: Seq<char>) -> bool {
    t.len() > 0 && spec_is_ident_start(t[0]) && forall|i: int|
        1 <= i < t.len() ==> spec_is_ident_continue(#[trigger] t[i])
}

/// Reports whether the whole text has identifier shape.
pub fn is_ident(s: &[char]) -> (r: bool)
    ensures
        r == spec_is_ident(s@),
{
    if s.len() == 0 {
        return false;
    }
    if !is_ident_start(s[0]) {
        return false;
    }
    let mut i: usize = 1;
    while i < s.len()
        invariant
            1 <= i <= s@.len(),
            spec_is_ident_start(s@[0]),
            forall|j: int| 1 <= j < i ==> spec_is_ident_continue(#[trigger] s@[j]),
        decreases s@.len() - i,
    {
        if !is_ident_continue(s[i]) {
            return false;
        }
        i = i + 1;
    }
    true
}

/// Radix of a numeric literal.
#[derive(Debug, Copy, Clone, Ord, PartialOrd, Eq, PartialEq)]
pub enum Base {
    /// `0b` prefix
    Binary,
    /// `0o` prefix
    Octal,
    /// `0x` prefix
    Hexadecimal,
    /// no prefix
    Decimal,
}

/// Shape of a literal token.
#[derive(Debug, Copy, Clone, Ord, PartialOrd, Eq, PartialEq)]
pub enum LiteralKind {
    /// An integer literal; `empty_int` marks a base prefix with no
    /// digits after it.
    Int { base: Base, empty_int: bool },
    /// A floating-point literal.
    Float { base: Base },
    /// A character literal; `terminated` reports whether the closing
    /// quote was found.
    Char { terminated: bool },
    /// A string literal; `terminated` reports whether the closing
    /// quote was found.
    Str { terminated: bool },
}

/// The primitive token kinds produced by the raw scanner.
#[derive(Debug, Copy, Clone, Ord, PartialOrd, Eq, PartialEq)]
pub enum TokenKind {
    /// Simple one-line comment
    LineComment,
    /// Multi-line comment
    BlockComment { terminated: bool },
    /// A run of whitespace characters
    Whitespace,
    /// Identifier
    Ident,
    /// Numeric, character or string literal; `suffix_start` is the
    /// offset, counted in characters relative to the token start, of
    /// its trailing identifier-shaped suffix (the literal's own length
    /// when there is none).
    Literal { kind: LiteralKind, suffix_start: usize },
    /// ";"
    Semi,
    /// ","
    Comma,
    /// "."
    Dot,
    /// "("
    OpenParen,
    /// ")"
    CloseParen,
    /// "{"
    OpenBrace,
    /// "}"
    CloseBrace,
    /// "["
    OpenBracket,
    /// "]"
    CloseBracket,
    /// "~"
    Tilde,
    /// "?"
    Question,
    /// ":"
    Colon,
    /// "="
    Eq,
    /// "!"
    Bang,
    /// "<"
    Lt,
    /// ">"
    Gt,
    /// "-"
    Minus,
    /// "&"
    And,
    /// "|"
    Or,
    /// "+"
    Plus,
    /// "*"
    Star,
    /// "/"
    Slash,
    /// "^"
    Caret,
    /// "%"
    Percent,
    /// Any character no other rule recognizes
    Unknown,
}

/// A primitive token: its kind and its span. `len` counts characters
/// of the input slice, not bytes; the two differ where a comment or
/// literal body holds multi-byte characters.
#[derive(Debug, Copy, Clone, Eq, PartialEq)]
pub struct Token {
    pub kind: TokenKind,
    pub len: usize,
}

/// The whitespace class, as a value, for run measurement.
pub open spec fn ws_pred() -> spec_fn(char) -> bool {
    |c: char| spec_is_whitespace(c)
}

/// The identifier-continue class, as a value.
pub open spec fn ident_pred() -> spec_fn(char) -> bool {
    |c: char| spec_is_ident_continue(c)
}

/// The class of characters a line comment runs over: everything but
/// the line break that ends it.
pub open spec fn line_pred() -> spec_fn(char) -> bool {
    |c: char| c != '\n'
}

/// The class of characters a decimal digit run consumes: digits and
/// the `_` separator.
pub open spec fn dec_pred() -> spec_fn(char) -> bool {
    |c: char| spec_is_digit(c) || c == '_'
}

/// An ASCII binary digit.
pub open spec fn spec_is_bin_digit(c: char) -> bool {
    c == '0' || c == '1'
}

/// The class of characters a binary digit run consumes: the digits 0
/// and 1, and the `_` separator.
pub open spec fn bin_pred() -> spec_fn(char) -> bool {
    |c: char| spec_is_bin_digit(c) || c == '_'
}

/// An ASCII octal digit.
pub open spec fn spec_is_oct_digit(c: char) -> bool {
    '0' <= c && c <= '7'
}

/// The class of characters an octal digit run consumes: the digits 0
/// through 7, and the `_` separator.
pub open spec fn oct_pred() -> spec_fn(char) -> bool {
    |c: char| spec_is_oct_digit(c) || c == '_'
}

/// An ASCII hexadecimal digit.
pub open spec fn spec_is_hex_digit(c: char) -> bool {
    spec_is_digit(c) || ('a' <= c && c <= 'f') || ('A' <= c && c <= 'F')
}

/// The class of characters a hexadecimal digit run consumes: hex
/// digits and the `_` separator.
pub open spec fn hex_pred() -> spec_fn(char) -> bool {
    |c: char| spec_is_hex_digit(c) || c == '_'
}

/// The length of the longest prefix of `s` whose characters all
/// satisfy `p`.
pub open spec fn run_len(s: Seq<char>, p: spec_fn(char) -> bool) -> int
    decreases s.len(),
{
    if s.len() == 0 || !p(s[0]) {
        0
    } else {
        1 + run_len(s.skip(1), p)
    }
}

/// A run never measures past the end of the text.
pub proof fn lemma_run_len_bounds(s: Seq<char>, p: spec_fn(char) -> bool)
    ensures
        0 <= run_len(s, p) <= s.len(),
    decreases s.len(),
{
    if s.len() != 0 && p(s[0]) {
        lemma_run_len_bounds(s.skip(1), p);
    }
}

/// A maximal prefix of `p`-characters, ended by the end of the text or
/// a character outside the class, is exactly the run.
pub proof fn lemma_run_len_from_prefix(s: Seq<char>, p: spec_fn(char) -> bool, k: int)
    requires
        0 <= k <= s.len(),
        forall|i: int| 0 <= i < k ==> p(#[trigger] s[i]),
        k == s.len() || !p(s[k]),
    ensures
        run_len(s, p) == k,
    decreases k,
{
    if k == 0 {
    } else {
        assert(p(s[0]));
        assert(forall|i: int| 0 <= i < k - 1 ==> p(#[trigger] s.skip(1)[i]) == p(s[i + 1]));
        lemma_run_len_from_prefix(s.skip(1), p, k - 1);
    }
}

/// Whether the first `n` characters of `s` hold a decimal digit.
pub open spec fn run_has_digit(s: Seq<char>, n: int) -> bool {
    exists|i: int| 0 <= i < n && spec_is_digit(#[trigger] s[i])
}

/// Whether the first `n` characters of `s` hold a binary digit.
pub open spec fn run_has_bin_digit(s: Seq<char>, n: int) -> bool {
    exists|i: int| 0 <= i < n && spec_is_bin_digit(#[trigger] s[i])
}

/// Whether the first `n` characters of `s` hold an octal digit.
pub open spec fn run_has_oct_digit(s: Seq<char>, n: int) -> bool {
    exists|i: int| 0 <= i < n && spec_is_oct_digit(#[trigger] s[i])
}

/// Whether the first `n` characters of `s` hold a hexadecimal digit.
pub open spec fn run_has_hex_digit(s: Seq<char>, n: int) -> bool {
    exists|i: int| 0 <= i < n && spec_is_hex_digit(#[trigger] s[i])
}

/// Walks a block comment body at nesting depth `depth`: the number of
/// characters consumed before the comment closes or the input ends,
/// and whether it closed.
pub open spec fn block_rest(s: Seq<char>, depth: int) -> (int, bool)
    decreases s.len(),
{
    if depth <= 0 {
        (0, true)
    } else if s.len() == 0 {
        (0, false)
    } else if s.len() >= 2 && s[0] == '/' && s[1] == '*' {
        let r = block_rest(s.skip(2), depth + 1);
        (2 + r.0, r.1)
    } else if s.len() >= 2 && s[0] == '*' && s[1] == '/' {
        let r = block_rest(s.skip(2), depth - 1);
        (2 + r.0, r.1)
    } else {
        let r = block_rest(s.skip(1), depth);
        (1 + r.0, r.1)
    }
}

/// A block comment body never runs past the end of the text.
pub proof fn lemma_block_rest_bounds(s: Seq<char>, depth: int)
    ensures
        0 <= block_rest(s, depth).0 <= s.len(),
    decreases s.len(),
{
    if depth <= 0 || s.len() == 0 {
    } else if s.len() >= 2 && s[0] == '/' && s[1] == '*' {
        lemma_block_rest_bounds(s.skip(2), depth + 1);
    } else if s.len() >= 2 && s[0] == '*' && s[1] == '/' {
        lemma_block_rest_bounds(s.skip(2), depth - 1);
    } else {
        lemma_block_rest_bounds(s.skip(1), depth);
    }
}

/// Walks a character literal body after its opening quote, outside the
/// immediately-closed fast path: characters consumed and whether the
/// literal terminated.
pub open spec fn squote_rest(s: Seq<char>) -> (int, bool)
    decreases s.len(),
{
    if s.len() == 0 {
        (0, false)
    } else if s[0] == '\'' {
        (1, true)
    } else if s[0] == '/' {
        (0, false)
    } else if s[0] == '\n' && !(s.len() >= 2 && s[1] == '\'') {
        (0, false)
    } else if s[0] == '\\' {
        if s.len() >= 2 {
            let r = squote_rest(s.skip(2));
            (2 + r.0, r.1)
        } else {
            (1, false)
        }
    } else {
        let r = squote_rest(s.skip(1));
        (1 + r.0, r.1)
    }
}

/// A character literal body never runs past the end of the text.
pub proof fn lemma_squote_rest_bounds(s: Seq<char>)
    ensures
        0 <= squote_rest(s).0 <= s.len(),
    decreases s.len(),
{
    if s.len() == 0 || s[0] == '\'' || s[0] == '/' || (s[0] == '\n' && !(s.len() >= 2 && s[1]
        == '\'')) {
    } else if s[0] == '\\' {
        if s.len() >= 2 {
            lemma_squote_rest_bounds(s.skip(2));
        }
    } else {
        lemma_squote_rest_bounds(s.skip(1));
    }
}

/// Walks a character literal body after its opening quote, fast path
/// included.
pub open spec fn squote_scan(s: Seq<char>) -> (int, bool) {
    if s.len() >= 2 && s[1] == '\'' && s[0] != '\\' {
        (2, true)
    } else {
        squote_rest(s)
    }
}

/// Walks a string literal body after its opening quote: characters
/// consumed and whether the literal terminated.
pub open spec fn dquote_rest(s: Seq<char>) -> (int, bool)
    decreases s.len(),
{
    if s.len() == 0 {
        (0, false)
    } else if s[0] == '"' {
        (1, true)
    } else if s[0] == '\\' && s.len() >= 2 && (s[1] == '\\' || s[1] == '"') {
        let r = dquote_rest(s.skip(2));
        (2 + r.0, r.1)
    } else {
        let r = dquote_rest(s.skip(1));
        (1 + r.0, r.1)
    }
}

/// A string literal body never runs past the end of the text.
pub proof fn lemma_dquote_rest_bounds(s: Seq<char>)
    ensures
        0 <= dquote_rest(s).0 <= s.len(),
    decreases s.len(),
{
    if s.len() == 0 || s[0] == '"' {
    } else if s[0] == '\\' && s.len() >= 2 && (s[1] == '\\' || s[1] == '"') {
        lemma_dquote_rest_bounds(s.skip(2));
    } else {
        lemma_dquote_rest_bounds(s.skip(1));
    }
}

/// The length of the identifier-shaped prefix of `s`: zero when `s`
/// does not begin with an identifier-start character.
pub open spec fn ident_len(s: Seq<char>) -> int {
    if spec_is_ident_start(char_at(s, 0)) {
        1 + run_len(s.skip(1), ident_pred())
    } else {
        0
    }
}

/// An identifier-shaped prefix never runs past the end of the text.
pub proof fn lemma_ident_len_bounds(s: Seq<char>)
    ensures
        0 <= ident_len(s) <= s.len(),
{
    if spec_is_ident_start(char_at(s, 0)) {
        lemma_run_len_bounds(s.skip(1), ident_pred());
    }
}

/// Classifies the fractional part that may follow a numeric body of
/// `off` characters: a `.` not followed by another `.` or an
/// identifier start reclassifies the literal as a float.
pub open spec fn float_or_int(base: Base, s: Seq<char>, off: int) -> (LiteralKind, int) {
    if char_at(s, off) == '.' && char_at(s, off + 1) != '.' && !spec_is_ident_start(
        char_at(s, off + 1),
    ) {
        let frac = if spec_is_digit(char_at(s, off + 1)) {
            run_len(s.skip(off + 1), dec_pred())
        } else {
            0
        };
        (LiteralKind::Float { base }, off + 1 + frac)
    } else {
        (LiteralKind::Int { base, empty_int: false }, off)
    }
}

/// The fractional part never runs past the end of the text.
pub proof fn lemma_float_or_int_bounds(base: Base, s: Seq<char>, off: int)
    requires
        0 <= off <= s.len(),
    ensures
        off <= float_or_int(base, s, off).1 <= s.len(),
{
    if char_at(s, off) == '.' && char_at(s, off + 1) != '.' && !spec_is_ident_start(
        char_at(s, off + 1),
    ) {
        assert(off < s.len());
        lemma_run_len_bounds(s.skip(off + 1), dec_pred());
    }
}

/// Scans a numeric literal body: `c` is the leading digit, `s` what
/// follows it. A `0b`/`0o`/`0x` prefix selects its base and consumes a
/// run of that base's digits (`_` permitted as separator); a prefix
/// with no digit of its class is flagged `empty_int`. Returns the
/// literal's classification and how many characters of `s` the body
/// consumes.
pub open spec fn number_scan(c: char, s: Seq<char>) -> (LiteralKind, int)
    recommends
        spec_is_digit(c),
{
    if c == '0' {
        let p = char_at(s, 0);
        if p == 'b' {
            let n = run_len(s.skip(1), bin_pred());
            if run_has_bin_digit(s.skip(1), n) {
                float_or_int(Base::Binary, s, 1 + n)
            } else {
                (LiteralKind::Int { base: Base::Binary, empty_int: true }, 1 + n)
            }
        } else if p == 'o' {
            let n = run_len(s.skip(1), oct_pred());
            if run_has_oct_digit(s.skip(1), n) {
                float_or_int(Base::Octal, s, 1 + n)
            } else {
                (LiteralKind::Int { base: Base::Octal, empty_int: true }, 1 + n)
            }
        } else if p == 'x' {
            let n = run_len(s.skip(1), hex_pred());
            if run_has_hex_digit(s.skip(1), n) {
                float_or_int(Base::Hexadecimal, s, 1 + n)
            } else {
                (LiteralKind::Int { base: Base::Hexadecimal, empty_int: true }, 1 + n)
            }
        } else if spec_is_digit(p) || p == '_' || p == '.' {
            float_or_int(Base::Decimal, s, run_len(s, dec_pred()))
        } else {
            (LiteralKind::Int { base: Base::Decimal, empty_int: false }, 0)
        }
    } else {
        float_or_int(Base::Decimal, s, run_len(s, dec_pred()))
    }
}

/// A numeric body never runs past the end of the text.
pub proof fn lemma_number_scan_bounds(c: char, s: Seq<char>)
    ensures
        0 <= number_scan(c, s).1 <= s.len(),
{
    if c == '0' {
        let p = char_at(s, 0);
        if p == 'b' || p == 'o' || p == 'x' {
            assert(s.len() >= 1);
            if p == 'b' {
                lemma_run_len_bounds(s.skip(1), bin_pred());
                lemma_float_or_int_bounds(Base::Binary, s, 1 + run_len(s.skip(1), bin_pred()));
            } else if p == 'o' {
                lemma_run_len_bounds(s.skip(1), oct_pred());
                lemma_float_or_int_bounds(Base::Octal, s, 1 + run_len(s.skip(1), oct_pred()));
            } else {
                lemma_run_len_bounds(s.skip(1), hex_pred());
                lemma_float_or_int_bounds(Base::Hexadecimal, s, 1 + run_len(s.skip(1), hex_pred()));
            }
        } else {
            lemma_run_len_bounds(s, dec_pred());
            lemma_float_or_int_bounds(Base::Decimal, s, run_len(s, dec_pred()));
        }
    } else {
        lemma_run_len_bounds(s, dec_pred());
        lemma_float_or_int_bounds(Base::Decimal, s, run_len(s, dec_pred()));
    }
}

/// Classifies the one primitive token at the front of the non-empty
/// text `s`: its kind and how many characters it spans.
pub open spec fn scan_token(s: Seq<char>) -> (TokenKind, int)
    recommends
        s.len() > 0,
{
    let c = s[0];
    let r1 = s.skip(1);
    if c == '/' {
        if char_at(r1, 0) == '/' {
            (TokenKind::LineComment, 2 + run_len(r1.skip(1), line_pred()))
        } else if char_at(r1, 0) == '*' {
            let br = block_rest(r1.skip(1), 1);
            (TokenKind::BlockComment { terminated: br.1 }, 2 + br.0)
        } else {
            (TokenKind::Slash, 1)
        }
    } else if spec_is_whitespace(c) {
        (TokenKind::Whitespace, 1 + run_len(r1, ws_pred()))
    } else if spec_is_ident_start(c) {
        (TokenKind::Ident, 1 + run_len(r1, ident_pred()))
    } else if spec_is_digit(c) {
        let nk = number_scan(c, r1);
        let body = 1 + nk.1;
        let suf = ident_len(s.skip(body));
        (TokenKind::Literal { kind: nk.0, suffix_start: body as usize }, body + suf)
    } else if c == '\'' {
        let q = squote_scan(r1);
        let body = 1 + q.0;
        let suf = if q.1 {
            ident_len(s.skip(body))
        } else {
            0
        };
        (
            TokenKind::Literal {
                kind: LiteralKind::Char { terminated: q.1 },
                suffix_start: body as usize,
            },
            body + suf,
        )
    } else if c == '"' {
        let q = dquote_rest(r1);
        let body = 1 + q.0;
        let suf = if q.1 {
            ident_len(s.skip(body))
        } else {
            0
        };
        (
            TokenKind::Literal {
                kind: LiteralKind::Str { terminated: q.1 },
                suffix_start: body as usize,
            },
            body + suf,
        )
    } else if c == ';' {
        (TokenKind::Semi, 1)
    } else if c == ',' {
        (TokenKind::Comma, 1)
    } else if c == '.' {
        (TokenKind::Dot, 1)
    } else if c == '(' {
        (TokenKind::OpenParen, 1)
    } else if c == ')' {
        (TokenKind::CloseParen, 1)
    } else if c == '{' {
        (TokenKind::OpenBrace, 1)
    } else if c == '}' {
        (TokenKind::CloseBrace, 1)
    } else if c == '[' {
        (TokenKind::OpenBracket, 1)
    } else if c == ']' {
        (TokenKind::CloseBracket, 1)
    } else if c == '~' {
        (TokenKind::Tilde, 1)
    } else if c == '?' {
        (TokenKind::Question, 1)
    } else if c == ':' {
        (TokenKind::Colon, 1)
    } else if c == '=' {
        (TokenKind::Eq, 1)
    } else if c == '!' {
        (TokenKind::Bang, 1)
    } else if c == '<' {
        (TokenKind::Lt, 1)
    } else if c == '>' {
        (TokenKind::Gt, 1)
    } else if c == '-' {
        (TokenKind::Minus, 1)
    } else if c == '&' {
        (TokenKind::And, 1)
    } else if c == '|' {
        (TokenKind::Or, 1)
    } else if c == '+' {
        (TokenKind::Plus, 1)
    } else if c == '*' {
        (TokenKind::Star, 1)
    } else if c == '^' {
        (TokenKind::Caret, 1)
    } else if c == '%' {
        (TokenKind::Percent, 1)
    } else {
        (TokenKind::Unknown, 1)
    }
}

/// Progress: scanning one token from non-empty text consumes at least
/// one character, and never more than the text holds.
pub proof fn lemma_scan_token_bounds(s: Seq<char>)
    requires
        s.len() > 0,
    ensures
        1 <= scan_token(s).1 <= s.len(),
{
    let c = s[0];
    let r1 = s.skip(1);
    assert(r1.len() == s.len() - 1);
    if c == '/' {
        if char_at(r1, 0) == '/' {
            lemma_run_len_bounds(r1.skip(1), line_pred());
        } else if char_at(r1, 0) == '*' {
            lemma_block_rest_bounds(r1.skip(1), 1);
        }
    } else if spec_is_whitespace(c) {
        lemma_run_len_bounds(r1, ws_pred());
    } else if spec_is_ident_start(c) {
        lemma_run_len_bounds(r1, ident_pred());
    } else if spec_is_digit(c) {
        lemma_number_scan_bounds(c, r1);
        let body = 1 + number_scan(c, r1).1;
        lemma_ident_len_bounds(s.skip(body));
    } else if c == '\'' {
        if !(r1.len() >= 2 && r1[1] == '\'' && r1[0] != '\\') {
            lemma_squote_rest_bounds(r1);
        }
        let q = squote_scan(r1);
        let body = 1 + q.0;
        if q.1 {
            lemma_ident_len_bounds(s.skip(body));
        }
    } else if c == '"' {
        lemma_dquote_rest_bounds(r1);
        let q = dquote_rest(r1);
        let body = 1 + q.0;
        if q.1 {
            lemma_ident_len_bounds(s.skip(body));
        }
    }
}

/// Looking `i` characters into a suffix is looking `off + i`
/// characters into the whole text.
pub proof fn lemma_char_at_skip(s: Seq<char>, off: int, i: int)
    requires
        0 <= off <= s.len(),
        0 <= i,
    ensures
        char_at(s.skip(off), i) == char_at(s, off + i),
{
    if off + i < s.len() {
        assert(s.skip(off)[i] == s[off + i]);
    }
}

/// A cursor over the input: the whole text and the number of characters
/// consumed so far.
pub struct Cursor<'a> {
    text: &'a [char],
    pos: usize,
}

impl<'a> Cursor<'a> {
    /// The whole input the cursor was constructed over.
    pub closed spec fn input(&self) -> Seq<char> {
        self.text@
    }

    /// How many characters have been consumed since construction.
    pub closed spec fn consumed(&self) -> int {
        self.pos as int
    }

    /// The cursor position never passes the end of the input.
    pub open spec fn wf(&self) -> bool {
        0 <= self.consumed() <= self.input().len()
    }

    /// The characters not yet consumed.
    pub open spec fn remaining(&self) -> Seq<char> {
        self.input().skip(self.consumed())
    }

    /// A fresh cursor at the start of `input`.
    pub fn new(input: &'a [char]) -> (c: Cursor<'a>)
        ensures
            c.wf(),
            c.input() == input@,
            c.consumed() == 0,
    {
        Cursor { text: input, pos: 0 }
    }

    /// Peeks `n` characters ahead without consuming; the sentinel
    /// stands in past the end of the input.
    pub fn nth_char(&self, n: usize) -> (c: char)
        requires
            self.wf(),
        ensures
            c == char_at(self.remaining(), n as int),
    {
        if n < self.text.len() - self.pos {
            self.text[self.pos + n]
        } else {
            EOF_CHAR
        }
    }

    /// The next character, without consuming it.
    pub fn first(&self) -> (c: char)
        requires
            self.wf(),
        ensures
            c == char_at(self.remaining(), 0),
    {
        self.nth_char(0)
    }

    /// The character after the next one, without consuming anything.
    pub fn second(&self) -> (c: char)
        requires
            self.wf(),
        ensures
            c == char_at(self.remaining(), 1),
    {
        self.nth_char(1)
    }

    /// Reports whether the whole input has been consumed.
    pub fn is_eof(&self) -> (r: bool)
        requires
            self.wf(),
        ensures
            r == (self.remaining().len() == 0),
    {
        self.pos == self.text.len()
    }

    /// The number of characters consumed since construction. The
    /// count is in characters of the input slice, not bytes.
    pub fn len_consumed(&self) -> (n: usize)
        requires
            self.wf(),
        ensures
            n == self.consumed(),
    {
        self.pos
    }

    /// Consumes the run of whitespace the current token began with.
    fn whitespace(&mut self) -> (k: TokenKind)
        requires
            old(self).wf(),
        ensures
            final(self).wf(),
            final(self).input() == old(self).input(),
            old(self).consumed() <= final(self).consumed(),
            final(self).consumed() == old(self).consumed() + run_len(
                old(self).remaining(),
                ws_pred(),
            ),
            k == TokenKind::Whitespace,
    {
        let ghost inp = self.input();
        let ghost s0 = self.remaining();
        let ghost c0 = self.consumed();
        let ghost p = ws_pred();
        loop
            invariant
                self.wf(),
                self.input() == inp,
                0 <= c0 <= self.consumed() <= inp.len(),
                s0 == inp.skip(c0),
                p == ws_pred(),
                forall|i: int| 0 <= i < self.consumed() - c0 ==> p(#[trigger] s0[i]),
            ensures
                self.wf(),
                self.input() == inp,
                c0 <= self.consumed() <= inp.len(),
                forall|i: int| 0 <= i < self.consumed() - c0 ==> p(#[trigger] s0[i]),
                self.consumed() - c0 == s0.len() || !p(s0[self.consumed() - c0]),
            decreases inp.len() - self.consumed(),
        {
            if self.is_eof() {
                break ;
            }
            let c = self.first();
            if !is_whitespace(c) {
                break ;
            }
            let _ = self.bump();
        }
        proof {
            lemma_run_len_from_prefix(s0, p, self.consumed() - c0);
        }
        TokenKind::Whitespace
    }

    /// Consumes a line comment after its leading `/`: the second `/`
    /// and everything up to, not including, the next line break.
    fn line_comment(&mut self) -> (k: TokenKind)
        requires
            old(self).wf(),
            old(self).remaining().len() >= 1,
        ensures
            final(self).wf(),
            final(self).input() == old(self).input(),
            old(self).consumed() <= final(self).consumed(),
            final(self).consumed() == old(self).consumed() + 1 + run_len(
                old(self).remaining().skip(1),
                line_pred(),
            ),
            k == TokenKind::LineComment,
    {
        let _ = self.bump();
        let ghost inp = self.input();
        let ghost s0 = self.remaining();
        let ghost c0 = self.consumed();
        let ghost p = line_pred();
        proof {
            assert(s0 =~= old(self).remaining().skip(1));
        }
        loop
            invariant
                self.wf(),
                self.input() == inp,
                0 <= c0 <= self.consumed() <= inp.len(),
                s0 == inp.skip(c0),
                p == line_pred(),
                forall|i: int| 0 <= i < self.consumed() - c0 ==> p(#[trigger] s0[i]),
            ensures
                self.wf(),
                self.input() == inp,
                c0 <= self.consumed() <= inp.len(),
                forall|i: int| 0 <= i < self.consumed() - c0 ==> p(#[trigger] s0[i]),
                self.consumed() - c0 == s0.len() || !p(s0[self.consumed() - c0]),
            decreases inp.len() - self.consumed(),
        {
            if self.is_eof() {
                break ;
            }
            let c = self.first();
            if c == '\n' {
                break ;
            }
            let _ = self.bump();
        }
        proof {
            lemma_run_len_from_prefix(s0, p, self.consumed() - c0);
        }
        TokenKind::LineComment
    }

    /// Consumes a block comment after its leading `/`: the `*` and the
    /// body, tracking nesting depth until it closes or input ends.
    fn block_comment(&mut self) -> (k: TokenKind)
        requires
            old(self).wf(),
            old(self).remaining().len() >= 1,
        ensures
            final(self).wf(),
            final(self).input() == old(self).input(),
            old(self).consumed() <= final(self).consumed(),
            final(self).consumed() == old(self).consumed() + 1 + block_rest(
                old(self).remaining().skip(1),
                1,
            ).0,
            k == (TokenKind::BlockComment { terminated: block_rest(old(self).remaining().skip(1), 1).1 }),
    {
        let _ = self.bump();
        let ghost inp = self.input();
        let ghost s1 = self.remaining();
        let ghost c1 = self.consumed();
        proof {
            assert(s1 =~= old(self).remaining().skip(1));
        }
        let mut depth: usize = 1;
        loop
            invariant_except_break
                depth >= 1,
                2 * depth <= 2 + self.consumed() - c1,
                block_rest(s1, 1).0 == self.consumed() - c1 + block_rest(
                    self.remaining(),
                    depth as int,
                ).0,
                block_rest(s1, 1).1 == block_rest(self.remaining(), depth as int).1,
            invariant
                self.wf(),
                self.input() == inp,
                0 <= c1 <= self.consumed() <= inp.len(),
                s1 == inp.skip(c1),
            ensures
                self.wf(),
                self.input() == inp,
                c1 <= self.consumed() <= inp.len(),
                block_rest(s1, 1).0 == self.consumed() - c1,
                block_rest(s1, 1).1 == (depth == 0),
            decreases inp.len() - self.consumed(),
        {
            let ghost rem = self.remaining();
            let copt = self.bump();
            let c = match copt {
                Some(c) => c,
                None => {
                    break ;
                },
            };
            if c == '/' && self.first() == '*' {
                let _ = self.bump();
                depth = depth + 1;
                proof {
                    assert(rem.len() >= 2 && rem[0] == '/' && rem[1] == '*');
                    assert(self.remaining() =~= rem.skip(2));
                    assert(block_rest(rem, depth as int - 1) == (
                        2 + block_rest(rem.skip(2), depth as int).0,
                        block_rest(rem.skip(2), depth as int).1,
                    ));
                }
            } else if c == '*' && self.first() == '/' {
                let _ = self.bump();
                depth = depth - 1;
                proof {
                    assert(rem.len() >= 2 && rem[0] == '*' && rem[1] == '/');
                    assert(self.remaining() =~= rem.skip(2));
                    assert(block_rest(rem, depth as int + 1) == (
                        2 + block_rest(rem.skip(2), depth as int).0,
                        block_rest(rem.skip(2), depth as int).1,
                    ));
                }
                if depth == 0 {
                    break ;
                }
            } else {
                proof {
                    assert(self.remaining() =~= rem.skip(1));
                    assert(!(rem.len() >= 2 && rem[0] == '/' && rem[1] == '*'));
                    assert(!(rem.len() >= 2 && rem[0] == '*' && rem[1] == '/'));
                    assert(block_rest(rem, depth as int) == (
                        1 + block_rest(rem.skip(1), depth as int).0,
                        block_rest(rem.skip(1), depth as int).1,
                    ));
                }
            }
        }
        TokenKind::BlockComment { terminated: depth == 0 }
    }

    /// Consumes the identifier the current token began with.
    fn ident(&mut self) -> (k: TokenKind)
        requires
            old(self).wf(),
        ensures
            final(self).wf(),
            final(self).input() == old(self).input(),
            old(self).consumed() <= final(self).consumed(),
            final(self).consumed() == old(self).consumed() + run_len(
                old(self).remaining(),
                ident_pred(),
            ),
            k == TokenKind::Ident,
    {
        let ghost inp = self.input();
        let ghost s0 = self.remaining();
        let ghost c0 = self.consumed();
        let ghost p = ident_pred();
        loop
            invariant
                self.wf(),
                self.input() == inp,
                0 <= c0 <= self.consumed() <= inp.len(),
                s0 == inp.skip(c0),
                p == ident_pred(),
                forall|i: int| 0 <= i < self.consumed() - c0 ==> p(#[trigger] s0[i]),
            ensures
                self.wf(),
                self.input() == inp,
                c0 <= self.consumed() <= inp.len(),
                forall|i: int| 0 <= i < self.consumed() - c0 ==> p(#[trigger] s0[i]),
                self.consumed() - c0 == s0.len() || !p(s0[self.consumed() - c0]),
            decreases inp.len() - self.consumed(),
        {
            if self.is_eof() {
                break ;
            }
            let c = self.first();
            if !is_ident_continue(c) {
                break ;
            }
            let _ = self.bump();
        }
        proof {
            lemma_run_len_from_prefix(s0, p, self.consumed() - c0);
        }
        TokenKind::Ident
    }

    /// Consumes digits and `_` separators; reports whether at least
    /// one real digit was seen.
    fn eat_decimal_digits(&mut self) -> (has_digits: bool)
        requires
            old(self).wf(),
        ensures
            final(self).wf(),
            final(self).input() == old(self).input(),
            old(self).consumed() <= final(self).consumed(),
            final(self).consumed() == old(self).consumed() + run_len(
                old(self).remaining(),
                dec_pred(),
            ),
            has_digits == run_has_digit(
                old(self).remaining(),
                run_len(old(self).remaining(), dec_pred()),
            ),
    {
        let ghost inp = self.input();
        let ghost s0 = self.remaining();
        let ghost c0 = self.consumed();
        let ghost p = dec_pred();
        let mut has_digits = false;
        loop
            invariant
                self.wf(),
                self.input() == inp,
                0 <= c0 <= self.consumed() <= inp.len(),
                s0 == inp.skip(c0),
                p == dec_pred(),
                forall|i: int| 0 <= i < self.consumed() - c0 ==> p(#[trigger] s0[i]),
                has_digits == run_has_digit(s0, self.consumed() - c0),
            ensures
                self.wf(),
                self.input() == inp,
                c0 <= self.consumed() <= inp.len(),
                forall|i: int| 0 <= i < self.consumed() - c0 ==> p(#[trigger] s0[i]),
                self.consumed() - c0 == s0.len() || !p(s0[self.consumed() - c0]),
                has_digits == run_has_digit(s0, self.consumed() - c0),
            decreases inp.len() - self.consumed(),
        {
            let ghost k = self.consumed() - c0;
            let c = self.first();
            if c == '_' {
                if self.is_eof() {
                    break ;
                }
                proof {
                    assert(s0[k] == '_');
                    assert(!spec_is_digit(s0[k]));
                }
                let _ = self.bump();
            } else if '0' <= c && c <= '9' {
                proof {
                    assert(s0[k] == c);
                    assert(spec_is_digit(s0[k]));
                }
                has_digits = true;
                let _ = self.bump();
            } else {
                break ;
            }
        }
        proof {
            lemma_run_len_from_prefix(s0, p, self.consumed() - c0);
        }
        has_digits
    }

    /// Consumes binary digits and `_` separators; reports whether at
    /// least one real digit was seen.
    fn eat_binary_digits(&mut self) -> (has_digits: bool)
        requires
            old(self).wf(),
        ensures
            final(self).wf(),
            final(self).input() == old(self).input(),
            old(self).consumed() <= final(self).consumed(),
            final(self).consumed() == old(self).consumed() + run_len(
                old(self).remaining(),
                bin_pred(),
            ),
            has_digits == run_has_bin_digit(
                old(self).remaining(),
                run_len(old(self).remaining(), bin_pred()),
            ),
    {
        let ghost inp = self.input();
        let ghost s0 = self.remaining();
        let ghost c0 = self.consumed();
        let ghost p = bin_pred();
        let mut has_digits = false;
        loop
            invariant
                self.wf(),
                self.input() == inp,
                0 <= c0 <= self.consumed() <= inp.len(),
                s0 == inp.skip(c0),
                p == bin_pred(),
                forall|i: int| 0 <= i < self.consumed() - c0 ==> p(#[trigger] s0[i]),
                has_digits == run_has_bin_digit(s0, self.consumed() - c0),
            ensures
                self.wf(),
                self.input() == inp,
                c0 <= self.consumed() <= inp.len(),
                forall|i: int| 0 <= i < self.consumed() - c0 ==> p(#[trigger] s0[i]),
                self.consumed() - c0 == s0.len() || !p(s0[self.consumed() - c0]),
                has_digits == run_has_bin_digit(s0, self.consumed() - c0),
            decreases inp.len() - self.consumed(),
        {
            let ghost k = self.consumed() - c0;
            let c = self.first();
            if c == '_' {
                proof {
                    assert(s0[k] == '_');
                    assert(!spec_is_bin_digit(s0[k]));
                }
                let _ = self.bump();
            } else if c == '0' || c == '1' {
                proof {
                    assert(s0[k] == c);
                    assert(spec_is_bin_digit(s0[k]));
                }
                has_digits = true;
                let _ = self.bump();
            } else {
                break ;
            }
        }
        proof {
            lemma_run_len_from_prefix(s0, p, self.consumed() - c0);
        }
        has_digits
    }

    /// Consumes octal digits and `_` separators; reports whether at
    /// least one real digit was seen.
    fn eat_octal_digits(&mut self) -> (has_digits: bool)
        requires
            old(self).wf(),
        ensures
            final(self).wf(),
            final(self).input() == old(self).input(),
            old(self).consumed() <= final(self).consumed(),
            final(self).consumed() == old(self).consumed() + run_len(
                old(self).remaining(),
                oct_pred(),
            ),
            has_digits == run_has_oct_digit(
                old(self).remaining(),
                run_len(old(self).remaining(), oct_pred()),
            ),
    {
        let ghost inp = self.input();
        let ghost s0 = self.remaining();
        let ghost c0 = self.consumed();
        let ghost p = oct_pred();
        let mut has_digits = false;
        loop
            invariant
                self.wf(),
                self.input() == inp,
                0 <= c0 <= self.consumed() <= inp.len(),
                s0 == inp.skip(c0),
                p == oct_pred(),
                forall|i: int| 0 <= i < self.consumed() - c0 ==> p(#[trigger] s0[i]),
                has_digits == run_has_oct_digit(s0, self.consumed() - c0),
            ensures
                self.wf(),
                self.input() == inp,
                c0 <= self.consumed() <= inp.len(),
                forall|i: int| 0 <= i < self.consumed() - c0 ==> p(#[trigger] s0[i]),
                self.consumed() - c0 == s0.len() || !p(s0[self.consumed() - c0]),
                has_digits == run_has_oct_digit(s0, self.consumed() - c0),
            decreases inp.len() - self.consumed(),
        {
            let ghost k = self.consumed() - c0;
            let c = self.first();
            if c == '_' {
                proof {
                    assert(s0[k] == '_');
                    assert(!spec_is_oct_digit(s0[k]));
                }
                let _ = self.bump();
            } else if '0' <= c && c <= '7' {
                proof {
                    assert(s0[k] == c);
                    assert(spec_is_oct_digit(s0[k]));
                }
                has_digits = true;
                let _ = self.bump();
            } else {
                break ;
            }
        }
        proof {
            lemma_run_len_from_prefix(s0, p, self.consumed() - c0);
        }
        has_digits
    }

    /// Consumes hexadecimal digits and `_` separators; reports whether
    /// at least one real digit was seen.
    fn eat_hexadecimal_digits(&mut self) -> (has_digits: bool)
        requires
            old(self).wf(),
        ensures
            final(self).wf(),
            final(self).input() == old(self).input(),
            old(self).consumed() <= final(self).consumed(),
            final(self).consumed() == old(self).consumed() + run_len(
                old(self).remaining(),
                hex_pred(),
            ),
            has_digits == run_has_hex_digit(
                old(self).remaining(),
                run_len(old(self).remaining(), hex_pred()),
            ),
    {
        let ghost inp = self.input();
        let ghost s0 = self.remaining();
        let ghost c0 = self.consumed();
        let ghost p = hex_pred();
        let mut has_digits = false;
        loop
            invariant
                self.wf(),
                self.input() == inp,
                0 <= c0 <= self.consumed() <= inp.len(),
                s0 == inp.skip(c0),
                p == hex_pred(),
                forall|i: int| 0 <= i < self.consumed() - c0 ==> p(#[trigger] s0[i]),
                has_digits == run_has_hex_digit(s0, self.consumed() - c0),
            ensures
                self.wf(),
                self.input() == inp,
                c0 <= self.consumed() <= inp.len(),
                forall|i: int| 0 <= i < self.consumed() - c0 ==> p(#[trigger] s0[i]),
                self.consumed() - c0 == s0.len() || !p(s0[self.consumed() - c0]),
                has_digits == run_has_hex_digit(s0, self.consumed() - c0),
            decreases inp.len() - self.consumed(),
        {
            let ghost k = self.consumed() - c0;
            let c = self.first();
            if c == '_' {
                if self.is_eof() {
                    break ;
                }
                proof {
                    assert(s0[k] == '_');
                    assert(!spec_is_hex_digit(s0[k]));
                }
                let _ = self.bump();
            } else if ('0' <= c && c <= '9') || ('a' <= c && c <= 'f') || ('A' <= c && c <= 'F') {
                proof {
                    assert(s0[k] == c);
                    assert(spec_is_hex_digit(s0[k]));
                }
                has_digits = true;
                let _ = self.bump();
            } else {
                break ;
            }
        }
        proof {
            lemma_run_len_from_prefix(s0, p, self.consumed() - c0);
        }
        has_digits
    }

    /// Consumes the identifier-shaped suffix that may trail a literal.
    fn eat_literal_suffix(&mut self)
        requires
            old(self).wf(),
        ensures
            final(self).wf(),
            final(self).input() == old(self).input(),
            old(self).consumed() <= final(self).consumed(),
            final(self).consumed() == old(self).consumed() + ident_len(old(self).remaining()),
    {
        self.eat_identifier();
    }

    /// Consumes one identifier, if one starts here.
    fn eat_identifier(&mut self)
        requires
            old(self).wf(),
        ensures
            final(self).wf(),
            final(self).input() == old(self).input(),
            old(self).consumed() <= final(self).consumed(),
            final(self).consumed() == old(self).consumed() + ident_len(old(self).remaining()),
    {
        if !is_ident_start(self.first()) {
            return ;
        }
        let _ = self.bump();
        let ghost inp = self.input();
        let ghost s1 = self.remaining();
        let ghost c1 = self.consumed();
        let ghost p = ident_pred();
        proof {
            assert(s1 =~= old(self).remaining().skip(1));
        }
        loop
            invariant
                self.wf(),
                self.input() == inp,
                0 <= c1 <= self.consumed() <= inp.len(),
                s1 == inp.skip(c1),
                p == ident_pred(),
                forall|i: int| 0 <= i < self.consumed() - c1 ==> p(#[trigger] s1[i]),
            ensures
                self.wf(),
                self.input() == inp,
                c1 <= self.consumed() <= inp.len(),
                forall|i: int| 0 <= i < self.consumed() - c1 ==> p(#[trigger] s1[i]),
                self.consumed() - c1 == s1.len() || !p(s1[self.consumed() - c1]),
            decreases inp.len() - self.consumed(),
        {
            if self.is_eof() {
                break ;
            }
            let c = self.first();
            if !is_ident_continue(c) {
                break ;
            }
            let _ = self.bump();
        }
        proof {
            lemma_run_len_from_prefix(s1, p, self.consumed() - c1);
        }
    }

    /// Consumes a character literal body after its opening quote;
    /// reports whether the closing quote was found.
    fn single_quoted_string(&mut self) -> (terminated: bool)
        requires
            old(self).wf(),
        ensures
            final(self).wf(),
            final(self).input() == old(self).input(),
            old(self).consumed() <= final(self).consumed(),
            final(self).consumed() == old(self).consumed() + squote_scan(old(self).remaining()).0,
            terminated == squote_scan(old(self).remaining()).1,
    {
        if self.second() == '\'' && self.first() != '\\' {
            let _ = self.bump();
            let _ = self.bump();
            return true;
        }
        let ghost inp = self.input();
        let ghost s0 = self.remaining();
        let ghost c0 = self.consumed();
        proof {
            assert(squote_scan(s0) == squote_rest(s0));
        }
        loop
            invariant_except_break
                squote_rest(s0).0 == self.consumed() - c0 + squote_rest(self.remaining()).0,
                squote_rest(s0).1 == squote_rest(self.remaining()).1,
            invariant
                self.wf(),
                inp == old(self).input(),
                s0 == old(self).remaining(),
                c0 == old(self).consumed(),
                self.input() == inp,
                0 <= c0 <= self.consumed() <= inp.len(),
                s0 == inp.skip(c0),
                squote_scan(s0) == squote_rest(s0),
            ensures
                self.wf(),
                self.input() == inp,
                0 <= c0 <= self.consumed() <= inp.len(),
                squote_scan(s0) == squote_rest(s0),
                squote_rest(s0).0 == self.consumed() - c0,
                squote_rest(s0).1 == false,
            decreases inp.len() - self.consumed(),
        {
            let ghost rem = self.remaining();
            let c = self.first();
            if c == '\'' {
                let _ = self.bump();
                proof {
                    assert(rem.len() >= 1 && rem[0] == '\'');
                }
                return true;
            } else if c == '/' {
                proof {
                    assert(rem.len() >= 1 && rem[0] == '/');
                }
                break ;
            } else if c == '\n' && self.second() != '\'' {
                proof {
                    assert(rem.len() >= 1 && rem[0] == '\n');
                    assert(!(rem.len() >= 2 && rem[1] == '\''));
                }
                break ;
            } else if self.is_eof() {
                break ;
            } else if c == '\\' {
                let _ = self.bump();
                let _ = self.bump();
                proof {
                    assert(rem.len() >= 1 && rem[0] == '\\');
                    if rem.len() >= 2 {
                        assert(self.remaining() =~= rem.skip(2));
                    } else {
                        assert(self.remaining() =~= rem.skip(1));
                        assert(self.remaining().len() == 0);
                    }
                }
            } else {
                let _ = self.bump();
                proof {
                    assert(rem.len() >= 1 && rem[0] == c);
                    assert(self.remaining() =~= rem.skip(1));
                }
            }
        }
        false
    }

    /// Consumes a string literal body after its opening quote; reports
    /// whether the closing quote was found.
    fn double_quoted_string(&mut self) -> (terminated: bool)
        requires
            old(self).wf(),
        ensures
            final(self).wf(),
            final(self).input() == old(self).input(),
            old(self).consumed() <= final(self).consumed(),
            final(self).consumed() == old(self).consumed() + dquote_rest(old(self).remaining()).0,
            terminated == dquote_rest(old(self).remaining()).1,
    {
        let ghost inp = self.input();
        let ghost s0 = self.remaining();
        let ghost c0 = self.consumed();
        loop
            invariant_except_break
                dquote_rest(s0).0 == self.consumed() - c0 + dquote_rest(self.remaining()).0,
                dquote_rest(s0).1 == dquote_rest(self.remaining()).1,
            invariant
                self.wf(),
                inp == old(self).input(),
                s0 == old(self).remaining(),
                c0 == old(self).consumed(),
                self.input() == inp,
                0 <= c0 <= self.consumed() <= inp.len(),
                s0 == inp.skip(c0),
            ensures
                self.wf(),
                self.input() == inp,
                0 <= c0 <= self.consumed() <= inp.len(),
                dquote_rest(s0).0 == self.consumed() - c0,
                dquote_rest(s0).1 == false,
            decreases inp.len() - self.consumed(),
        {
            let ghost rem = self.remaining();
            let copt = self.bump();
            let c = match copt {
                Some(c) => c,
                None => {
                    break ;
                },
            };
            if c == '"' {
                proof {
                    assert(rem.len() >= 1 && rem[0] == '"');
                }
                return true;
            } else if c == '\\' && (self.first() == '\\' || self.first() == '"') {
                let _ = self.bump();
                proof {
                    assert(rem.len() >= 2 && rem[0] == '\\' && (rem[1] == '\\' || rem[1] == '"'));
                    assert(self.remaining() =~= rem.skip(2));
                }
            } else {
                proof {
                    assert(rem.len() >= 1 && rem[0] == c);
                    assert(self.remaining() =~= rem.skip(1));
                    assert(!(rem[0] == '\\' && rem.len() >= 2 && (rem[1] == '\\' || rem[1]
                        == '"')));
                }
            }
        }
        false
    }

    /// Scans a numeric literal body; `first_digit` is the already
    /// consumed leading digit.
    fn number(&mut self, first_digit: char) -> (kind: LiteralKind)
        requires
            old(self).wf(),
        ensures
            final(self).wf(),
            final(self).input() == old(self).input(),
            old(self).consumed() <= final(self).consumed(),
            final(self).consumed() == old(self).consumed() + number_scan(
                first_digit,
                old(self).remaining(),
            ).1,
            kind == number_scan(first_digit, old(self).remaining()).0,
    {
        let ghost s0 = self.remaining();
        let ghost c0 = self.consumed();
        let mut base = Base::Decimal;
        if first_digit == '0' {
            let p = self.first();
            let has_digits: bool;
            if p == 'b' {
                base = Base::Binary;
                let _ = self.bump();
                proof {
                    assert(self.remaining() =~= s0.skip(1));
                }
                has_digits = self.eat_binary_digits();
            } else if p == 'o' {
                base = Base::Octal;
                let _ = self.bump();
                proof {
                    assert(self.remaining() =~= s0.skip(1));
                }
                has_digits = self.eat_octal_digits();
            } else if p == 'x' {
                base = Base::Hexadecimal;
                let _ = self.bump();
                proof {
                    assert(self.remaining() =~= s0.skip(1));
                }
                has_digits = self.eat_hexadecimal_digits();
            } else if ('0' <= p && p <= '9') || p == '_' || p == '.' {
                let _ = self.eat_decimal_digits();
                has_digits = true;
            } else {
                return LiteralKind::Int { base, empty_int: false };
            }
            if !has_digits {
                return LiteralKind::Int { base, empty_int: true };
            }
        } else {
            let _ = self.eat_decimal_digits();
        }
        let ghost off = self.consumed() - c0;
        proof {
            assert(self.remaining() =~= s0.skip(off));
            lemma_char_at_skip(s0, off, 0);
            lemma_char_at_skip(s0, off, 1);
        }
        let c = self.first();
        if c == '.' && self.second() != '.' && !is_ident_start(self.second()) {
            let _ = self.bump();
            proof {
                assert(char_at(s0, off) == '.');
                assert(self.remaining() =~= s0.skip(off + 1));
                lemma_char_at_skip(s0, off + 1, 0);
            }
            let f = self.first();
            if '0' <= f && f <= '9' {
                let _ = self.eat_decimal_digits();
            }
            LiteralKind::Float { base }
        } else {
            LiteralKind::Int { base, empty_int: false }
        }
    }

    /// Consumes exactly one primitive token; the input must not be
    /// exhausted.
    pub fn advance_token(&mut self) -> (t: Token)
        requires
            old(self).wf(),
            old(self).remaining().len() > 0,
        ensures
            final(self).wf(),
            final(self).input() == old(self).input(),
            old(self).consumed() <= final(self).consumed(),
            t.kind == scan_token(old(self).remaining()).0,
            t.len == scan_token(old(self).remaining()).1,
            final(self).consumed() == old(self).consumed() + t.len,
    {
        let ghost s0 = self.remaining();
        let ghost c0 = self.consumed();
        let start = self.len_consumed();
        let first_char = self.bump().unwrap();
        proof {
            assert(s0[0] == first_char);
            assert(self.remaining() =~= s0.skip(1));
            lemma_char_at_skip(s0, 1, 0);
        }
        let kind: TokenKind;
        if first_char == '/' {
            let p = self.first();
            if p == '/' {
                kind = self.line_comment();
            } else if p == '*' {
                kind = self.block_comment();
            } else {
                kind = TokenKind::Slash;
            }
        } else if is_whitespace(first_char) {
            kind = self.whitespace();
        } else if is_ident_start(first_char) {
            kind = self.ident();
        } else if '0' <= first_char && first_char <= '9' {
            let k = self.number(first_char);
            let suffix_start = self.len_consumed() - start;
            self.eat_literal_suffix();
            proof {
                assert(old(self).input().skip(c0 + 1 + number_scan(first_char, s0.skip(1)).1)
                    =~= s0.skip(1 + number_scan(first_char, s0.skip(1)).1));
            }
            kind = TokenKind::Literal { kind: k, suffix_start };
        } else if first_char == '\'' {
            let terminated = self.single_quoted_string();
            let suffix_start = self.len_consumed() - start;
            if terminated {
                proof {
                    assert(old(self).input().skip(c0 + 1 + squote_scan(s0.skip(1)).0) =~= s0.skip(
                        1 + squote_scan(s0.skip(1)).0,
                    ));
                }
                self.eat_literal_suffix();
            }
            let k = LiteralKind::Char { terminated };
            kind = TokenKind::Literal { kind: k, suffix_start };
        } else if first_char == '"' {
            let terminated = self.double_quoted_string();
            let suffix_start = self.len_consumed() - start;
            if terminated {
                proof {
                    assert(old(self).input().skip(c0 + 1 + dquote_rest(s0.skip(1)).0) =~= s0.skip(
                        1 + dquote_rest(s0.skip(1)).0,
                    ));
                }
                self.eat_literal_suffix();
            }
            let k = LiteralKind::Str { terminated };
            kind = TokenKind::Literal { kind: k, suffix_start };
        } else {
            kind = match first_char {
                ';' => TokenKind::Semi,
                ',' => TokenKind::Comma,
                '.' => TokenKind::Dot,
                '(' => TokenKind::OpenParen,
                ')' => TokenKind::CloseParen,
                '{' => TokenKind::OpenBrace,
                '}' => TokenKind::CloseBrace,
                '[' => TokenKind::OpenBracket,
                ']' => TokenKind::CloseBracket,
                '~' => TokenKind::Tilde,
                '?' => TokenKind::Question,
                ':' => TokenKind::Colon,
                '=' => TokenKind::Eq,
                '!' => TokenKind::Bang,
                '<' => TokenKind::Lt,
                '>' => TokenKind::Gt,
                '-' => TokenKind::Minus,
                '&' => TokenKind::And,
                '|' => TokenKind::Or,
                '+' => TokenKind::Plus,
                '*' => TokenKind::Star,
                '^' => TokenKind::Caret,
                '%' => TokenKind::Percent,
                _ => TokenKind::Unknown,
            };
        }
        let end = self.len_consumed();
        Token { kind, len: end - start }
    }

    /// Consumes and returns the next character, or `None` at the end.
    pub fn bump(&mut self) -> (c: Option<char>)
        requires
            old(self).wf(),
        ensures
            final(self).wf(),
            final(self).input() == old(self).input(),
            old(self).consumed() <= final(self).consumed(),
            old(self).remaining().len() == 0 ==> c is None && final(self).consumed() == old(
                self,
            ).consumed(),
            old(self).remaining().len() > 0 ==> c == Some(old(self).remaining()[0]) && final(
                self
            ).consumed() == old(self).consumed() + 1,
    {
        if self.pos < self.text.len() {
            let c = self.text[self.pos];
            self.pos = self.pos + 1;
            Some(c)
        } else {
            None
        }
    }
}


/// Scans the one token at the front of `input`.
pub fn first_token(input: &[char]) -> (t: Token)
    requires
        input@.len() > 0,
    ensures
        t.kind == scan_token(input@).0,
        t.len == scan_token(input@).1,
{
    let mut cursor = Cursor::new(input);
    proof {
        assert(cursor.remaining() =~= input@);
    }
    cursor.advance_token()
}

/// The full token sequence of `s`: the front token, then the tokens of
/// what follows it.
pub open spec fn tokens_of(s: Seq<char>) -> Seq<Token>
    decreases s.len(),
{
    if s.len() == 0 {
        Seq::empty()
    } else {
        let t = scan_token(s);
        proof {
            lemma_scan_token_bounds(s);
        }
        seq![Token { kind: t.0, len: t.1 as usize }] + tokens_of(s.skip(t.1))
    }
}

/// Scans the whole input into its token sequence.
pub fn tokenize(input: &[char]) -> (toks: Vec<Token>)
    ensures
        toks@ == tokens_of(input@),
{
    let mut cursor = Cursor::new(input);
    let mut toks: Vec<Token> = Vec::new();
    proof {
        assert(cursor.remaining() =~= input@);
        assert(toks@ + tokens_of(cursor.remaining()) =~= tokens_of(input@));
    }
    loop
        invariant
            cursor.wf(),
            cursor.input() == input@,
            tokens_of(input@) == toks@ + tokens_of(cursor.remaining()),
        ensures
            cursor.remaining().len() == 0,
            tokens_of(input@) == toks@ + tokens_of(cursor.remaining()),
        decreases cursor.remaining().len(),
    {
        if cursor.is_eof() {
            break ;
        }
        let ghost rem = cursor.remaining();
        let ghost toks0 = toks@;
        let t = cursor.advance_token();
        toks.push(t);
        proof {
            lemma_scan_token_bounds(rem);
            assert(cursor.remaining() =~= rem.skip(scan_token(rem).1));
            assert(tokens_of(rem) == seq![t] + tokens_of(cursor.remaining()));
            assert(toks@ =~= toks0 + seq![t]);
            assert(toks0 + (seq![t] + tokens_of(cursor.remaining())) =~= (toks0 + seq![t])
                + tokens_of(cursor.remaining()));
        }
    }
    proof {
        assert(tokens_of(cursor.remaining()) =~= Seq::<Token>::empty());
        assert(toks@ + Seq::<Token>::empty() =~= toks@);
    }
    toks
}

/// The sum of the lengths of a token sequence.
pub open spec fn total_len(toks: Seq<Token>) -> int
    decreases toks.len(),
{
    if toks.len() == 0 {
        0
    } else {
        toks[0].len + total_len(toks.skip(1))
    }
}

/// Coverage: over a full scan, the token lengths sum to exactly the
/// input's length; no characters are lost or invented.
pub proof fn lemma_tokens_cover(s: Seq<char>)
    requires
        s.len() <= usize::MAX,
    ensures
        total_len(tokens_of(s)) == s.len(),
    decreases s.len(),
{
    if s.len() == 0 {
    } else {
        lemma_scan_token_bounds(s);
        let n = scan_token(s).1;
        lemma_tokens_cover(s.skip(n));
        let t = Token { kind: scan_token(s).0, len: n as usize };
        assert(tokens_of(s) == seq![t] + tokens_of(s.skip(n)));
        assert(tokens_of(s)[0] == t);
        assert(tokens_of(s).skip(1) =~= tokens_of(s.skip(n)));
    }
}

/// The characters of `s` from `from` on, sliced by the consecutive
/// token lengths of `toks` and concatenated back together.
pub open spec fn reassemble(s: Seq<char>, toks: Seq<Token>, from: int) -> Seq<char>
    decreases toks.len(),
{
    if toks.len() == 0 {
        Seq::empty()
    } else {
        s.subrange(from, from + toks[0].len) + reassemble(s, toks.skip(1), from + toks[0].len)
    }
}

proof fn lemma_round_trip_from(s: Seq<char>, from: int)
    requires
        0 <= from <= s.len() <= usize::MAX,
    ensures
        reassemble(s, tokens_of(s.skip(from)), from) == s.skip(from),
    decreases s.len() - from,
{
    let suf = s.skip(from);
    if suf.len() == 0 {
        assert(reassemble(s, tokens_of(suf), from) =~= suf);
    } else {
        lemma_scan_token_bounds(suf);
        let n = scan_token(suf).1;
        let t = Token { kind: scan_token(suf).0, len: n as usize };
        assert(tokens_of(suf) == seq![t] + tokens_of(suf.skip(n)));
        assert(suf.skip(n) =~= s.skip(from + n));
        lemma_round_trip_from(s, from + n);
        assert(tokens_of(suf).skip(1) =~= tokens_of(s.skip(from + n)));
        assert(tokens_of(suf)[0] == t);
        assert(s.subrange(from, from + n) + s.skip(from + n) =~= s.skip(from));
    }
}

/// Round trip: concatenating the source slices implied by the
/// consecutive token lengths reconstructs the input exactly.
pub proof fn lemma_round_trip(s: Seq<char>)
    requires
        s.len() <= usize::MAX,
    ensures
        reassemble(s, tokens_of(s), 0) == s,
{
    lemma_round_trip_from(s, 0);
    assert(s.skip(0) =~= s);
}

} // verus!
