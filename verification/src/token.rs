//! The token model: the output vocabulary of the scanner.
//!
//! A token is a classified, positioned fragment of source text. Its `lexeme`
//! is the exact substring of the source that produced it, and `line` is the
//! 1-based source line on which the token's first character appears.

use vstd::prelude::*;

verus! {

/// The fixed, closed set of lexical categories.
#[derive(Debug, Clone, Copy, PartialEq, Eq, Structural)]
pub enum TokenKind {
    // Single-character punctuation.
    LeftParen,
    RightParen,
    LeftBrace,
    RightBrace,
    Comma,
    Dot,
    Minus,
    Plus,
    Semicolon,
    Star,
    // One- or two-character operators.
    Bang,
    BangEqual,
    Equal,
    EqualEqual,
    Less,
    LessEqual,
    Greater,
    GreaterEqual,
    Slash,
    // Literals.
    Str,
    Number,
    // Identifiers and keywords.
    Identifier,
    And,
    Class,
    Else,
    False,
    For,
    Fun,
    If,
    Nil,
    Or,
    Print,
    Return,
    Super,
    This,
    True,
    Var,
    While,
    // End-of-input sentinel.
    Eof,
}

/// The literal payload of a token: absent for most kinds, the numeric text
/// for `Number` tokens, and the text strictly between the quotes for `Str`
/// tokens. Parsing the numeric text into a machine float is left to the
/// driver, which owns the printable representation.
#[derive(Debug, Clone, PartialEq)]
pub enum Literal {
    Absent,
    Num(String),
    Str(String),
}

/// The mathematical value of a `Literal`.
pub ghost enum LiteralModel {
    Absent,
    Num(Seq<char>),
    Str(Seq<char>),
}

impl View for Literal {
    type V = LiteralModel;

    open spec fn view(&self) -> LiteralModel {
        match self {
            Literal::Absent => LiteralModel::Absent,
            Literal::Num(t) => LiteralModel::Num(t@),
            Literal::Str(t) => LiteralModel::Str(t@),
        }
    }
}

/// One scanned token.
#[derive(Debug, Clone, PartialEq)]
pub struct Token {
    pub kind: TokenKind,
    pub lexeme: String,
    pub literal: Literal,
    pub line: usize,
}

/// The mathematical value of a `Token`: the lexeme as a sequence of
/// characters, the line as an unbounded natural.
pub ghost struct TokenModel {
    pub kind: TokenKind,
    pub lexeme: Seq<char>,
    pub literal: LiteralModel,
    pub line: nat,
}

impl View for Token {
    type V = TokenModel;

    open spec fn view(&self) -> TokenModel {
        TokenModel {
            kind: self.kind,
            lexeme: self.lexeme@,
            literal: self.literal@,
            line: self.line as nat,
        }
    }
}

/// The models of a sequence of tokens.
pub open spec fn toks(ts: Seq<Token>) -> Seq<TokenModel> {
    ts.map_values(|t: Token| t@)
}

pub proof fn lemma_toks_push(ts: Seq<Token>, t: Token)
    ensures
        toks(ts.push(t)) == toks(ts).push(t@),
{
    assert(toks(ts.push(t)) =~= toks(ts).push(t@));
}

} // verus!
