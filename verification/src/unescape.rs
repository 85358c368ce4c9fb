//! The escape decoder: a pure pass over the text of an
//! already-recognized character or string literal, turning backslash
//! sequences into decoded characters or precise error codes.

use vstd::prelude::*;
use crate::lexer::{lemma_run_len_bounds, lemma_run_len_from_prefix, run_len};

verus! {

/// The ways decoding a literal's text can fail, reported per range.
#[derive(Debug, Copy, Clone, Ord, PartialOrd, Eq, PartialEq)]
pub enum EscapeError {
    /// Expected 1 char, but 0 were found
    ZeroChars,
    /// Expected 1 char, but more than 1 were found
    MoreThanOneChar,
    /// Escaped '\' character without continuation
    LoneSlash,
    /// Invalid escape character
    InvalidEscape,
    /// Raw '\r' encountered
    BareCarriageReturn,
    /// Unescaped character that was expected to be escaped
    EscapeOnlyChar,
}

/// Which kind of literal is being decoded: a character literal in
/// single quotes, or a string literal in double quotes.
#[derive(Debug, Copy, Clone)]
pub enum UnescapeMode {
    Char,
    Str,
}

impl UnescapeMode {
    /// Whether this mode decodes a single-quoted literal.
    pub fn in_single_quotes(self) -> (r: bool)
        ensures
            r == (self is Char),
    {
        match self {
            UnescapeMode::Char => true,
            UnescapeMode::Str => false,
        }
    }

    /// Whether this mode decodes a double-quoted literal.
    pub fn in_double_quotes(self) -> (r: bool)
        ensures
            r == (self is Str),
    {
        !self.in_single_quotes()
    }
}

/// One decoded unit: the source range it came from and the character
/// it decodes to, or the error found there. Ranges are counted in
/// characters of the literal's text, not bytes.
#[derive(Debug, Copy, Clone, Eq, PartialEq)]
pub struct DecodedChar {
    /// First character position of the unit's source range.
    pub start: usize,
    /// One past the last character position of the unit's source range.
    pub end: usize,
    /// The decoded character, or why this range does not decode.
    pub res: Result<char, EscapeError>,
}

/// The ASCII whitespace a line continuation swallows.
pub open spec fn ascii_ws_pred() -> spec_fn(char) -> bool {
    |c: char| c == ' ' || c == '\t' || c == '\n' || c == '\r'
}

/// Decodes one unit at the front of `s`: the result and how many
/// characters it spans. A non-backslash character decodes to itself
/// unless it must be escaped in this mode; a backslash decodes the one
/// character after it by the escape grammar.
pub open spec fn scan_escape_s(s: Seq<char>, mode: UnescapeMode) -> (Result<char, EscapeError>, int)
    recommends
        s.len() > 0,
{
    let c = s[0];
    if c != '\\' {
        let r: Result<char, EscapeError> = if c == '\t' || c == '\n' {
            Err(EscapeError::EscapeOnlyChar)
        } else if c == '\r' {
            Err(EscapeError::BareCarriageReturn)
        } else if c == '\'' && mode is Char {
            Err(EscapeError::EscapeOnlyChar)
        } else if c == '"' && mode is Str {
            Err(EscapeError::EscapeOnlyChar)
        } else {
            Ok(c)
        };
        (r, 1)
    } else if s.len() == 1 {
        (Err(EscapeError::LoneSlash), 1)
    } else {
        let d = s[1];
        let r: Result<char, EscapeError> = if d == '"' {
            Ok('"')
        } else if d == 'n' {
            Ok('\n')
        } else if d == 'r' {
            Ok('\r')
        } else if d == 't' {
            Ok('\t')
        } else if d == '\\' {
            Ok('\\')
        } else if d == '\'' {
            Ok('\'')
        } else if d == '0' {
            Ok('\0')
        } else {
            Err(EscapeError::InvalidEscape)
        };
        (r, 2)
    }
}

/// Decodes one unit at the front of `s`, returning the result and how
/// many characters it spans.
pub fn scan_escape(s: &[char], mode: UnescapeMode) -> (r: (Result<char, EscapeError>, usize))
    requires
        s@.len() > 0,
    ensures
        r.0 == scan_escape_s(s@, mode).0,
        r.1 == scan_escape_s(s@, mode).1,
{
    let c = s[0];
    if c != '\\' {
        let r: Result<char, EscapeError> = if c == '\t' || c == '\n' {
            Err(EscapeError::EscapeOnlyChar)
        } else if c == '\r' {
            Err(EscapeError::BareCarriageReturn)
        } else if c == '\'' && mode.in_single_quotes() {
            Err(EscapeError::EscapeOnlyChar)
        } else if c == '"' && mode.in_double_quotes() {
            Err(EscapeError::EscapeOnlyChar)
        } else {
            Ok(c)
        };
        (r, 1)
    } else if s.len() == 1 {
        (Err(EscapeError::LoneSlash), 1)
    } else {
        let d = s[1];
        let r: Result<char, EscapeError> = if d == '"' {
            Ok('"')
        } else if d == 'n' {
            Ok('\n')
        } else if d == 'r' {
            Ok('\r')
        } else if d == 't' {
            Ok('\t')
        } else if d == '\\' {
            Ok('\\')
        } else if d == '\'' {
            Ok('\'')
        } else if d == '0' {
            Ok('\0')
        } else {
            Err(EscapeError::InvalidEscape)
        };
        (r, 2)
    }
}

/// What decoding a whole character literal's text yields: exactly one
/// decoded character, or the error saying why not.
pub open spec fn spec_unescape_char(s: Seq<char>) -> Result<char, EscapeError> {
    if s.len() == 0 {
        Err(EscapeError::ZeroChars)
    } else {
        let rk = scan_escape_s(s, UnescapeMode::Char);
        if rk.0 is Err {
            rk.0
        } else if rk.1 < s.len() {
            Err(EscapeError::MoreThanOneChar)
        } else {
            rk.0
        }
    }
}

/// How many characters decoding a character literal's text examines:
/// the decoded unit, plus the one character looked at when checking
/// for trailing input.
pub open spec fn unescape_char_consumed(s: Seq<char>) -> int {
    if s.len() == 0 {
        0
    } else {
        let rk = scan_escape_s(s, UnescapeMode::Char);
        if rk.0 is Err {
            rk.1
        } else if rk.1 < s.len() {
            rk.1 + 1
        } else {
            rk.1
        }
    }
}

/// Decodes a character literal's text and reports how many characters
/// were examined.
fn unescape_char_inner(s: &[char]) -> (r: (Result<char, EscapeError>, usize))
    ensures
        r.0 == spec_unescape_char(s@),
        r.1 == unescape_char_consumed(s@),
{
    if s.len() == 0 {
        return (Err(EscapeError::ZeroChars), 0);
    }
    let (res, k) = scan_escape(s, UnescapeMode::Char);
    match res {
        Err(e) => (Err(e), k),
        Ok(c) => if k < s.len() {
            (Err(EscapeError::MoreThanOneChar), k + 1)
        } else {
            (Ok(c), k)
        },
    }
}

/// Decodes the text of a character literal: exactly one character is
/// expected, trailing input or an empty text is an error.
pub fn unescape_char(s: &[char]) -> (r: Result<char, EscapeError>)
    ensures
        r == spec_unescape_char(s@),
{
    unescape_char_inner(s).0
}

/// Decodes a string literal's text from position `i` on: one decoded
/// unit per logical character, with a line continuation (backslash,
/// line break, then any run of ASCII blanks) swallowed silently.
pub open spec fn unescape_str_from(s: Seq<char>, mode: UnescapeMode, i: int) -> Seq<DecodedChar>
    decreases s.len() - i,
{
    if i < 0 || i >= s.len() {
        Seq::empty()
    } else if s[i] == '\\' && i + 1 < s.len() && s[i + 1] == '\n' {
        proof {
            lemma_run_len_bounds(s.skip(i + 1), ascii_ws_pred());
        }
        let skip = 1 + run_len(s.skip(i + 1), ascii_ws_pred());
        unescape_str_from(s, mode, i + skip)
    } else {
        let rk = scan_escape_s(s.skip(i), mode);
        seq![DecodedChar { start: i as usize, end: (i + rk.1) as usize, res: rk.0 }]
            + unescape_str_from(s, mode, i + rk.1)
    }
}

/// Decodes the text of a string literal: one decoded unit per logical
/// character, each with the source range it came from; errors are
/// reported per range and do not stop the rest of the decode.
pub fn unescape_str(src: &[char], mode: UnescapeMode) -> (out: Vec<DecodedChar>)
    ensures
        out@ == unescape_str_from(src@, mode, 0),
{
    let ghost s = src@;
    let mut out: Vec<DecodedChar> = Vec::new();
    let mut i: usize = 0;
    proof {
        assert(out@ + unescape_str_from(s, mode, 0) =~= unescape_str_from(s, mode, 0));
    }
    while i < src.len()
        invariant
            0 <= i <= s.len(),
            s == src@,
            unescape_str_from(s, mode, 0) == out@ + unescape_str_from(s, mode, i as int),
        decreases s.len() - i,
    {
        let ghost i0 = i as int;
        let ghost out0 = out@;
        let c = src[i];
        if c == '\\' && i + 1 < src.len() && src[i + 1] == '\n' {
            let mut j: usize = i + 1;
            proof {
                assert(forall|q: int|
                    0 <= q < j - (i0 + 1) ==> (ascii_ws_pred())(#[trigger] s.skip(i0 + 1)[q]));
            }
            while j < src.len() && (src[j] == ' ' || src[j] == '\t' || src[j] == '\n' || src[j]
                == '\r')
                invariant
                    0 <= i0,
                    i0 + 1 <= j <= s.len(),
                    s == src@,
                    forall|q: int|
                        0 <= q < j - (i0 + 1) ==> (ascii_ws_pred())(#[trigger] s.skip(i0 + 1)[q]),
                decreases s.len() - j,
            {
                proof {
                    assert(s.skip(i0 + 1)[j - (i0 + 1)] == s[j as int]);
                }
                j = j + 1;
            }
            proof {
                if j < s.len() {
                    assert(s.skip(i0 + 1)[j - (i0 + 1)] == s[j as int]);
                }
                lemma_run_len_from_prefix(s.skip(i0 + 1), ascii_ws_pred(), j - (i0 + 1));
                assert(unescape_str_from(s, mode, i0) == unescape_str_from(s, mode, j as int));
            }
            i = j;
        } else {
            let tail = vstd::slice::slice_subrange(src, i, src.len());
            proof {
                assert(tail@ =~= s.skip(i0));
            }
            let (res, k) = scan_escape(tail, mode);
            proof {
                assert(k >= 1);
                assert(k == 2 ==> s.skip(i0).len() >= 2);
            }
            let d = DecodedChar { start: i, end: i + k, res };
            out.push(d);
            proof {
                assert(unescape_str_from(s, mode, i0) == seq![d] + unescape_str_from(
                    s,
                    mode,
                    i0 + k,
                ));
                assert(out@ =~= out0 + seq![d]);
                assert(out0 + (seq![d] + unescape_str_from(s, mode, i0 + k)) =~= (out0 + seq![d])
                    + unescape_str_from(s, mode, i0 + k));
            }
            i = i + k;
        }
    }
    out
}

/// What decoding a whole literal's text yields: in character mode one
/// decoded unit covering the examined range, in string mode one unit
/// per logical character.
pub open spec fn spec_unescape_literal(s: Seq<char>, mode: UnescapeMode) -> Seq<DecodedChar> {
    match mode {
        UnescapeMode::Char => seq![
            DecodedChar {
                start: 0,
                end: unescape_char_consumed(s) as usize,
                res: spec_unescape_char(s),
            },
        ],
        UnescapeMode::Str => unescape_str_from(s, mode, 0),
    }
}

/// Decodes the text of an already-delimited literal in the given mode.
pub fn unescape_literal(literal_text: &[char], mode: UnescapeMode) -> (out: Vec<DecodedChar>)
    ensures
        out@ == spec_unescape_literal(literal_text@, mode),
{
    match mode {
        UnescapeMode::Char => {
            let (res, used) = unescape_char_inner(literal_text);
            let mut out: Vec<DecodedChar> = Vec::new();
            out.push(DecodedChar { start: 0, end: used, res });
            proof {
                assert(out@ =~= spec_unescape_literal(literal_text@, mode));
            }
            out
        },
        UnescapeMode::Str => unescape_str(literal_text, mode),
    }
}

proof fn lemma_plain_text_from(s: Seq<char>, j: int)
    requires
        0 <= j <= s.len() <= usize::MAX,
        forall|i: int|
            0 <= i < s.len() ==> s[i] != '\\' && s[i] != '\r' && s[i] != '"' && s[i] != '\n'
                && s[i] != '\t',
    ensures
        unescape_str_from(s, UnescapeMode::Str, j).len() == s.len() - j,
        forall|i: int|
            j <= i < s.len() ==> unescape_str_from(s, UnescapeMode::Str, j)[i - j]
                == (DecodedChar { start: i as usize, end: (i + 1) as usize, res: Ok(s[i]) }),
    decreases s.len() - j,
{
    if j == s.len() {
    } else {
        lemma_plain_text_from(s, j + 1);
        let d = DecodedChar { start: j as usize, end: (j + 1) as usize, res: Ok(s[j]) };
        assert(s.skip(j)[0] == s[j]);
        assert(scan_escape_s(s.skip(j), UnescapeMode::Str) == (
            Ok::<char, EscapeError>(s[j]),
            1int,
        ));
        assert(unescape_str_from(s, UnescapeMode::Str, j) == seq![d] + unescape_str_from(
            s,
            UnescapeMode::Str,
            j + 1,
        ));
    }
}

/// Plain text decodes to itself: a string-mode literal holding none
/// of the characters the escape grammar rejects raw (no backslash, no
/// carriage return, no tab or line break, no unescaped quote) yields
/// one decoded character per source character, each over its own
/// singleton range, with no errors.
pub proof fn lemma_plain_text_decodes_to_itself(s: Seq<char>)
    requires
        s.len() <= usize::MAX,
        forall|i: int|
            0 <= i < s.len() ==> s[i] != '\\' && s[i] != '\r' && s[i] != '"' && s[i] != '\n'
                && s[i] != '\t',
    ensures
        unescape_str_from(s, UnescapeMode::Str, 0).len() == s.len(),
        forall|i: int|
            0 <= i < s.len() ==> unescape_str_from(s, UnescapeMode::Str, 0)[i] == (DecodedChar {
                start: i as usize,
                end: (i + 1) as usize,
                res: Ok(s[i]),
            }),
{
    lemma_plain_text_from(s, 0);
}

} // verus!
