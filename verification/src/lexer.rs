//! The executable lexer: one left-to-right pass over the input characters,
//! proved to return exactly the token sequence (or the first error) that
//! the mathematical model `lex_spec` describes.
use vstd::prelude::*;

use crate::model::is_digit;
use crate::model::is_ident_continue;
use crate::model::is_ident_start;
use crate::model::is_whitespace;
use crate::model::digit_end;
use crate::model::ident_end;
use crate::model::lex_cont;
use crate::model::lex_from;
use crate::model::lex_spec;
use crate::model::lemma_lex_cont_empty;
use crate::model::lemma_lex_step;
use crate::model::next_token_at;
use crate::model::quote_end;
use crate::model::single_char_kind;
use crate::token::LexError;
use crate::token::LexErrorKind;
use crate::token::LexErrorModel;
use crate::token::Token;
use crate::token::TokenKind;
use crate::token::TokenModel;
use crate::token::keyword_kind;

verus! {

/// The mathematical values of a sequence of tokens.
pub open spec fn views_of(tokens: Seq<Token>) -> Seq<TokenModel> {
    tokens.map_values(|t: Token| t@)
}

/// The scan outcome `r` is exactly what the mathematical lexer says of the
/// input `s`: on success the complete token sequence, on failure the first
/// error, never anything else.
pub open spec fn lex_matches(r: Result<Vec<Token>, LexError>, s: Seq<char>) -> bool {
    match (r, lex_spec(s)) {
        (Ok(tokens), Ok(m)) => views_of(tokens@) == m,
        (Err(e), Err(em)) => e@ == em,
        _ => false,
    }
}

fn whitespace_char(c: char) -> (b: bool)
    ensures
        b == is_whitespace(c),
{
    c == ' ' || c == '\t' || c == '\n' || c == '\r'
}

fn ident_start_char(c: char) -> (b: bool)
    ensures
        b == is_ident_start(c),
{
    ('a' <= c && c <= 'z') || ('A' <= c && c <= 'Z') || c == '_'
}

fn digit_char(c: char) -> (b: bool)
    ensures
        b == is_digit(c),
{
    '0' <= c && c <= '9'
}

fn ident_continue_char(c: char) -> (b: bool)
    ensures
        b == is_ident_continue(c),
{
    ident_start_char(c) || digit_char(c)
}

/// The input as an indexable sequence of characters.
fn chars_of(text: &String) -> (v: Vec<char>)
    ensures
        v@ == text@,
{
    let s: &str = text.as_str();
    let n: usize = s.unicode_len();
    let mut v: Vec<char> = Vec::new();
    let mut i: usize = 0;
    while i < n
        invariant
            s@ == text@,
            s@.len() == n,
            i <= n,
            v@ == s@.subrange(0, i as int),
        decreases n - i,
    {
        let c = s.get_char(i);
        v.push(c);
        i = i + 1;
        proof {
            assert(v@ =~= s@.subrange(0, i as int));
        }
    }
    proof {
        assert(v@ =~= text@);
    }
    v
}

/// An identifier-shaped run is a keyword exactly when it matches the
/// keyword table whole-word; anything else is an identifier.
fn keyword_or_identifier(text: &String) -> (k: TokenKind)
    ensures
        k == keyword_kind(text@),
{
    if *text == String::from_str("function") {
        TokenKind::Function
    } else if *text == String::from_str("return") {
        TokenKind::Return
    } else if *text == String::from_str("import") {
        TokenKind::Import
    } else if *text == String::from_str("let") {
        TokenKind::Let
    } else if *text == String::from_str("const") {
        TokenKind::Const
    } else {
        TokenKind::Identifier
    }
}

/// Scan the one token that begins at `start` (a non-whitespace position):
/// the token and the position just past it, as `next_token_at` describes,
/// or the error detected there.
fn scan_token(text: &String, chars: &Vec<char>, start: usize) -> (r: Result<
    (Token, usize),
    LexError,
>)
    requires
        chars@ == text@,
        start < chars@.len(),
        !is_whitespace(chars@[start as int]),
    ensures
        (match r {
            Ok(te) => next_token_at(text@, start as int) == Ok::<(TokenModel, int), LexErrorModel>(
                (te.0@, te.1 as int),
            ) && start < te.1 <= chars@.len(),
            Err(er) => next_token_at(text@, start as int) == Err::<
                (TokenModel, int),
                LexErrorModel,
            >(er@),
        }),
{
    let ghost s = text@;
    let n: usize = chars.len();
    let c: char = chars[start];
    if ident_start_char(c) {
        let mut e: usize = start + 1;
        while e < n && ident_continue_char(chars[e])
            invariant
                chars@ == s,
                s.len() == n,
                start < e <= n,
                ident_end(s, start as int + 1) == ident_end(s, e as int),
            decreases n - e,
        {
            e = e + 1;
        }
        let sub: &str = text.as_str().substring_char(start, e);
        let tok_text: String = String::from_str(sub);
        let kind = keyword_or_identifier(&tok_text);
        Ok((Token { kind, text: tok_text, position: start }, e))
    } else if digit_char(c) {
        let mut e: usize = start + 1;
        while e < n && digit_char(chars[e])
            invariant
                chars@ == s,
                s.len() == n,
                start < e <= n,
                digit_end(s, start as int + 1) == digit_end(s, e as int),
            decreases n - e,
        {
            e = e + 1;
        }
        let sub: &str = text.as_str().substring_char(start, e);
        Ok((Token { kind: TokenKind::Integer, text: String::from_str(sub), position: start }, e))
    } else if c == '"' {
        let mut e: usize = start + 1;
        while e < n && chars[e] != '"'
            invariant
                chars@ == s,
                s.len() == n,
                start < e <= n,
                quote_end(s, start as int + 1) == quote_end(s, e as int),
            decreases n - e,
        {
            e = e + 1;
        }
        if e == n {
            Err(LexError { kind: LexErrorKind::UnterminatedString, position: start })
        } else {
            let sub: &str = text.as_str().substring_char(start, e + 1);
            Ok(
                (
                    Token { kind: TokenKind::String, text: String::from_str(sub), position: start },
                    e + 1,
                ),
            )
        }
    } else if c == '-' {
        if start + 1 < n && chars[start + 1] == '>' {
            let sub: &str = text.as_str().substring_char(start, start + 2);
            Ok(
                (
                    Token { kind: TokenKind::Arrow, text: String::from_str(sub), position: start },
                    start + 2,
                ),
            )
        } else {
            let sub: &str = text.as_str().substring_char(start, start + 1);
            Ok(
                (
                    Token { kind: TokenKind::Minus, text: String::from_str(sub), position: start },
                    start + 1,
                ),
            )
        }
    } else if c == ':' {
        if start + 1 < n && chars[start + 1] == '=' {
            let sub: &str = text.as_str().substring_char(start, start + 2);
            Ok(
                (
                    Token { kind: TokenKind::Assign, text: String::from_str(sub), position: start },
                    start + 2,
                ),
            )
        } else {
            let sub: &str = text.as_str().substring_char(start, start + 1);
            Ok(
                (
                    Token { kind: TokenKind::Colon, text: String::from_str(sub), position: start },
                    start + 1,
                ),
            )
        }
    } else {
        let kind_found: Option<TokenKind> = match c {
            '(' => Some(TokenKind::LeftParenthesis),
            ')' => Some(TokenKind::RightParenthesis),
            '[' => Some(TokenKind::LeftSquareBracket),
            ']' => Some(TokenKind::RightSquareBracket),
            '{' => Some(TokenKind::LeftBrace),
            '}' => Some(TokenKind::RightBrace),
            '.' => Some(TokenKind::Period),
            ',' => Some(TokenKind::Comma),
            ';' => Some(TokenKind::Semicolon),
            '+' => Some(TokenKind::Plus),
            '=' => Some(TokenKind::Assign),
            _ => None,
        };
        proof {
            assert(kind_found == single_char_kind(c));
        }
        match kind_found {
            Some(kind) => {
                let sub: &str = text.as_str().substring_char(start, start + 1);
                Ok((Token { kind, text: String::from_str(sub), position: start }, start + 1))
            },
            None => Err(LexError { kind: LexErrorKind::UnexpectedCharacter, position: start }),
        }
    }
}

/// Transient scanning state: the input as an indexable sequence of
/// characters, the cursor, and the tokens emitted so far. Created for one
/// input, consumed by a single `run`.
pub struct Lexer {
    chars: Vec<char>,
    cursor: usize,
    tokens: Vec<Token>,
}

impl Lexer {
    /// Scan the whole input in one pass. Every input is accepted: the
    /// result is the complete token sequence that `lex_spec` assigns to
    /// the input (empty input gives the empty sequence), or the first
    /// lexical error — never a panic, never a partial sequence.
    pub fn run(input_text: String) -> (r: Result<Vec<Token>, LexError>)
        ensures
            lex_matches(r, input_text@),
    {
        let ghost s = input_text@;
        let chars = chars_of(&input_text);
        let mut lx = Lexer { chars, cursor: 0, tokens: Vec::new() };
        let n: usize = lx.chars.len();
        proof {
            lemma_lex_cont_empty(lex_from(s, 0));
            assert(views_of(lx.tokens@) =~= Seq::<TokenModel>::empty());
        }
        while lx.cursor < n
            invariant
                input_text@ == s,
                lx.chars@ == s,
                s.len() == n,
                lx.cursor <= n,
                lex_spec(s) == lex_cont(views_of(lx.tokens@), lex_from(s, lx.cursor as int)),
            decreases n - lx.cursor,
        {
            let c = lx.chars[lx.cursor];
            if whitespace_char(c) {
                proof {
                    assert(lex_from(s, lx.cursor as int) == lex_from(s, lx.cursor as int + 1));
                }
                lx.cursor = lx.cursor + 1;
            } else {
                match scan_token(&input_text, &lx.chars, lx.cursor) {
                    Ok(te) => {
                        let (t, e) = te;
                        let ghost tm = t@;
                        let ghost prefix = views_of(lx.tokens@);
                        proof {
                            lemma_lex_step(prefix, s, lx.cursor as int, tm, e as int);
                        }
                        lx.tokens.push(t);
                        lx.cursor = e;
                        proof {
                            assert(views_of(lx.tokens@) =~= prefix.push(tm));
                        }
                    },
                    Err(er) => {
                        proof {
                            assert(lex_from(s, lx.cursor as int) == Err::<
                                Seq<TokenModel>,
                                LexErrorModel,
                            >(er@));
                            assert(lex_spec(s) == Err::<Seq<TokenModel>, LexErrorModel>(er@));
                        }
                        return Err(er);
                    },
                }
            }
        }
        proof {
            assert(lex_from(s, n as int) == Ok::<Seq<TokenModel>, LexErrorModel>(Seq::empty()));
            assert(views_of(lx.tokens@) + Seq::<TokenModel>::empty() =~= views_of(lx.tokens@));
        }
        Ok(lx.tokens)
    }
}

} // verus!
