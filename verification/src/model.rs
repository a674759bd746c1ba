//! The mathematical model of the scan: what token begins at each position,
//! and what the whole left-to-right pass yields. The executable lexer is
//! proved to return exactly what `lex_spec` says.
use vstd::prelude::*;

use crate::token::LexErrorKind;
use crate::token::LexErrorModel;
use crate::token::TokenKind;
use crate::token::TokenModel;
use crate::token::keyword_kind;

verus! {

/// Whitespace as the scanner skips it: space, tab, newline, carriage return.
pub open spec fn is_whitespace(c: char) -> bool {
    c == ' ' || c == '\t' || c == '\n' || c == '\r'
}

/// A character that may open an identifier or keyword run.
pub open spec fn is_ident_start(c: char) -> bool {
    ('a' <= c && c <= 'z') || ('A' <= c && c <= 'Z') || c == '_'
}

/// A decimal digit.
pub open spec fn is_digit(c: char) -> bool {
    '0' <= c && c <= '9'
}

/// A character that may continue an identifier or keyword run.
pub open spec fn is_ident_continue(c: char) -> bool {
    is_ident_start(c) || is_digit(c)
}

/// The kinds decided by a single character with no multi-character form
/// (`=` is among them: it is one surface form of assignment).
pub open spec fn single_char_kind(c: char) -> Option<TokenKind> {
    if c == '(' {
        Some(TokenKind::LeftParenthesis)
    } else if c == ')' {
        Some(TokenKind::RightParenthesis)
    } else if c == '[' {
        Some(TokenKind::LeftSquareBracket)
    } else if c == ']' {
        Some(TokenKind::RightSquareBracket)
    } else if c == '{' {
        Some(TokenKind::LeftBrace)
    } else if c == '}' {
        Some(TokenKind::RightBrace)
    } else if c == '.' {
        Some(TokenKind::Period)
    } else if c == ',' {
        Some(TokenKind::Comma)
    } else if c == ';' {
        Some(TokenKind::Semicolon)
    } else if c == '+' {
        Some(TokenKind::Plus)
    } else if c == '=' {
        Some(TokenKind::Assign)
    } else {
        None
    }
}

/// The end of the maximal run of identifier characters starting at `j`.
pub open spec fn ident_end(s: Seq<char>, j: int) -> int
    decreases s.len() - j,
{
    if j < s.len() && is_ident_continue(s[j]) {
        ident_end(s, j + 1)
    } else {
        j
    }
}

/// The end of the maximal run of digits starting at `j`.
pub open spec fn digit_end(s: Seq<char>, j: int) -> int
    decreases s.len() - j,
{
    if j < s.len() && is_digit(s[j]) {
        digit_end(s, j + 1)
    } else {
        j
    }
}

/// The index of the first `"` at or after `j`, or -1 if none remains.
pub open spec fn quote_end(s: Seq<char>, j: int) -> int
    decreases s.len() - j,
{
    if j >= s.len() {
        -1
    } else if s[j] == '"' {
        j
    } else {
        quote_end(s, j + 1)
    }
}

/// The token that scanning finds at position `i` (which holds a
/// non-whitespace character), paired with the position just past it;
/// or the error detected there. Lookahead resolves `->` and `:=` as
/// single tokens (maximal munch).
pub open spec fn next_token_at(s: Seq<char>, i: int) -> Result<(TokenModel, int), LexErrorModel>
    recommends
        0 <= i < s.len(),
        !is_whitespace(s[i]),
{
    let c = s[i];
    if is_ident_start(c) {
        let e = ident_end(s, i + 1);
        Ok(
            (
                TokenModel {
                    kind: keyword_kind(s.subrange(i, e)),
                    text: s.subrange(i, e),
                    position: i,
                },
                e,
            ),
        )
    } else if is_digit(c) {
        let e = digit_end(s, i + 1);
        Ok((TokenModel { kind: TokenKind::Integer, text: s.subrange(i, e), position: i }, e))
    } else if c == '"' {
        let q = quote_end(s, i + 1);
        if q < 0 {
            Err(LexErrorModel { kind: LexErrorKind::UnterminatedString, position: i })
        } else {
            Ok(
                (
                    TokenModel {
                        kind: TokenKind::String,
                        text: s.subrange(i, q + 1),
                        position: i,
                    },
                    q + 1,
                ),
            )
        }
    } else if c == '-' {
        if i + 1 < s.len() && s[i + 1] == '>' {
            Ok((TokenModel { kind: TokenKind::Arrow, text: s.subrange(i, i + 2), position: i }, i + 2))
        } else {
            Ok((TokenModel { kind: TokenKind::Minus, text: s.subrange(i, i + 1), position: i }, i + 1))
        }
    } else if c == ':' {
        if i + 1 < s.len() && s[i + 1] == '=' {
            Ok((TokenModel { kind: TokenKind::Assign, text: s.subrange(i, i + 2), position: i }, i + 2))
        } else {
            Ok((TokenModel { kind: TokenKind::Colon, text: s.subrange(i, i + 1), position: i }, i + 1))
        }
    } else if single_char_kind(c) is Some {
        Ok(
            (
                TokenModel {
                    kind: single_char_kind(c)->Some_0,
                    text: s.subrange(i, i + 1),
                    position: i,
                },
                i + 1,
            ),
        )
    } else {
        Err(LexErrorModel { kind: LexErrorKind::UnexpectedCharacter, position: i })
    }
}

/// The maximal identifier run reaches no further than the end, covers only
/// identifier characters, and stops exactly where they stop.
pub proof fn lemma_ident_end(s: Seq<char>, j: int)
    requires
        0 <= j <= s.len(),
    ensures
        j <= ident_end(s, j) <= s.len(),
        forall|k: int| j <= k < ident_end(s, j) ==> is_ident_continue(s[k]),
        ident_end(s, j) < s.len() ==> !is_ident_continue(s[ident_end(s, j)]),
    decreases s.len() - j,
{
    if j < s.len() && is_ident_continue(s[j]) {
        lemma_ident_end(s, j + 1);
    }
}

/// The maximal digit run reaches no further than the end, covers only
/// digits, and stops exactly where the digits stop.
pub proof fn lemma_digit_end(s: Seq<char>, j: int)
    requires
        0 <= j <= s.len(),
    ensures
        j <= digit_end(s, j) <= s.len(),
        forall|k: int| j <= k < digit_end(s, j) ==> is_digit(s[k]),
        digit_end(s, j) < s.len() ==> !is_digit(s[digit_end(s, j)]),
    decreases s.len() - j,
{
    if j < s.len() && is_digit(s[j]) {
        lemma_digit_end(s, j + 1);
    }
}

/// `quote_end` finds the first quote at or after `j`, or reports that none
/// remains.
pub proof fn lemma_quote_end(s: Seq<char>, j: int)
    requires
        0 <= j <= s.len(),
    ensures
        quote_end(s, j) == -1 || quote_end(s, j) >= 0,
        quote_end(s, j) == -1 ==> forall|k: int| j <= k < s.len() ==> s[k] != '"',
        quote_end(s, j) >= 0 ==> j <= quote_end(s, j) < s.len() && s[quote_end(s, j)] == '"'
            && forall|k: int| j <= k < quote_end(s, j) ==> s[k] != '"',
    decreases s.len() - j,
{
    if j < s.len() && s[j] != '"' {
        lemma_quote_end(s, j + 1);
    }
}

/// A successful scan at `i` yields the token that starts there, whose text
/// is the exact non-empty substring up to the returned end; a failed scan
/// reports its error at `i`.
pub proof fn lemma_next_token_at(s: Seq<char>, i: int)
    requires
        0 <= i < s.len(),
        !is_whitespace(s[i]),
    ensures
        (match next_token_at(s, i) {
            Ok(te) => i < te.1 <= s.len() && te.0.position == i && te.0.text == s.subrange(i, te.1)
                && te.0.text.len() == te.1 - i,
            Err(er) => er.position == i,
        }),
{
    let c = s[i];
    if is_ident_start(c) {
        lemma_ident_end(s, i + 1);
    } else if is_digit(c) {
        lemma_digit_end(s, i + 1);
    } else if c == '"' {
        lemma_quote_end(s, i + 1);
    }
}

/// The full scan from position `i`: skip whitespace, scan one token,
/// continue just past it; the accumulated tokens, or the first error.
pub open spec fn lex_from(s: Seq<char>, i: int) -> Result<Seq<TokenModel>, LexErrorModel>
    decreases s.len() - i
        when 0 <= i <= s.len()
{
    if i >= s.len() {
        Ok(Seq::empty())
    } else if is_whitespace(s[i]) {
        lex_from(s, i + 1)
    } else {
        match next_token_at(s, i) {
            Err(e) => Err(e),
            Ok((t, e)) => {
                proof {
                    lemma_next_token_at(s, i);
                }
                match lex_from(s, e) {
                    Err(er) => Err(er),
                    Ok(rest) => Ok(seq![t] + rest),
                }
            },
        }
    }
}

/// What lexing the whole input yields.
pub open spec fn lex_spec(s: Seq<char>) -> Result<Seq<TokenModel>, LexErrorModel> {
    lex_from(s, 0)
}

/// The tokens already emitted, continued by the outcome of the remaining
/// scan.
pub open spec fn lex_cont(
    prefix: Seq<TokenModel>,
    r: Result<Seq<TokenModel>, LexErrorModel>,
) -> Result<Seq<TokenModel>, LexErrorModel> {
    match r {
        Ok(rest) => Ok(prefix + rest),
        Err(e) => Err(e),
    }
}

/// Continuing an empty prefix changes nothing.
pub proof fn lemma_lex_cont_empty(r: Result<Seq<TokenModel>, LexErrorModel>)
    ensures
        lex_cont(Seq::<TokenModel>::empty(), r) == r,
{
    match r {
        Ok(rest) => {
            assert(Seq::<TokenModel>::empty() + rest =~= rest);
        },
        Err(_) => {
        },
    }
}

/// Emitting the token scanned at `i` and moving the cursor past it keeps
/// the combined outcome of emitted prefix and remaining scan unchanged.
pub proof fn lemma_lex_step(
    prefix: Seq<TokenModel>,
    s: Seq<char>,
    i: int,
    t: TokenModel,
    e: int,
)
    requires
        0 <= i < s.len(),
        !is_whitespace(s[i]),
        next_token_at(s, i) == Ok::<(TokenModel, int), LexErrorModel>((t, e)),
    ensures
        lex_cont(prefix, lex_from(s, i)) == lex_cont(prefix.push(t), lex_from(s, e)),
{
    lemma_next_token_at(s, i);
    match lex_from(s, e) {
        Ok(rest) => {
            assert(lex_from(s, i) == Ok::<Seq<TokenModel>, LexErrorModel>(seq![t] + rest));
            assert(prefix + (seq![t] + rest) =~= prefix.push(t) + rest);
        },
        Err(er) => {
            assert(lex_from(s, i) == Err::<Seq<TokenModel>, LexErrorModel>(er));
        },
    }
}

} // verus!
