use vstd::prelude::*;

verus! {

/// The classification of a token: keywords, literals, identifiers,
/// brackets, separators, and operators.
#[derive(Clone, Copy, Debug, PartialEq, Eq, Structural)]
pub enum TokenKind {
    Function,
    Return,
    Import,
    Let,
    Const,
    String,
    Integer,
    Identifier,
    LeftParenthesis,
    RightParenthesis,
    LeftSquareBracket,
    RightSquareBracket,
    LeftBrace,
    RightBrace,
    Period,
    Comma,
    Assign,
    Colon,
    Semicolon,
    Arrow,
    Plus,
    Minus,
}

/// A classified, positioned substring of the source text. `text` is the
/// exact substring matched (delimiting quotes included for string
/// literals), and `position` is the zero-based character offset of the
/// token's first character in the input.
#[derive(Clone, Debug, PartialEq, Eq)]
pub struct Token {
    pub kind: TokenKind,
    pub text: String,
    pub position: usize,
}

/// The mathematical value of a `Token`: the classification, the exact
/// character sequence matched, and the character offset where it begins.
pub struct TokenModel {
    pub kind: TokenKind,
    pub text: Seq<char>,
    pub position: int,
}

impl View for Token {
    type V = TokenModel;

    open spec fn view(&self) -> TokenModel {
        TokenModel { kind: self.kind, text: self.text@, position: self.position as int }
    }
}

/// The two ways a scan can fail: an opening quote never closed before the
/// end of the input, or a character that matches no scanning rule.
#[derive(Clone, Copy, Debug, PartialEq, Eq, Structural)]
pub enum LexErrorKind {
    UnterminatedString,
    UnexpectedCharacter,
}

/// A lexical error: what went wrong and the zero-based character offset at
/// which it was detected.
#[derive(Clone, Copy, Debug, PartialEq, Eq)]
pub struct LexError {
    pub kind: LexErrorKind,
    pub position: usize,
}

/// The mathematical value of a `LexError`.
pub struct LexErrorModel {
    pub kind: LexErrorKind,
    pub position: int,
}

impl View for LexError {
    type V = LexErrorModel;

    open spec fn view(&self) -> LexErrorModel {
        LexErrorModel { kind: self.kind, position: self.position as int }
    }
}

impl LexError {
    /// A human-readable description of the error kind.
    pub fn message(&self) -> (m: String)
        ensures
            self.kind == LexErrorKind::UnterminatedString ==> m@ == "unterminated string literal"@,
            self.kind == LexErrorKind::UnexpectedCharacter ==> m@ == "unexpected character"@,
    {
        match self.kind {
            LexErrorKind::UnterminatedString => String::from_str("unterminated string literal"),
            LexErrorKind::UnexpectedCharacter => String::from_str("unexpected character"),
        }
    }
}

/// The fixed keyword table: an identifier-shaped character run that matches
/// one of these exactly is that keyword; anything else is an identifier.
pub open spec fn keyword_kind(t: Seq<char>) -> TokenKind {
    if t == "function"@ {
        TokenKind::Function
    } else if t == "return"@ {
        TokenKind::Return
    } else if t == "import"@ {
        TokenKind::Import
    } else if t == "let"@ {
        TokenKind::Let
    } else if t == "const"@ {
        TokenKind::Const
    } else {
        TokenKind::Identifier
    }
}

} // verus!
