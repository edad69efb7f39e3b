//! The mathematical model of one scan pass.
//!
//! `scan_from` defines, over the source text as a sequence of characters,
//! exactly which tokens and diagnostics a scan produces from a given cursor
//! position and line counter, and at which line the scan ends. The executable
//! scanner is proved to return precisely this model of its input.

use vstd::prelude::*;

use crate::error::DiagModel;
use crate::token::{LiteralModel, TokenKind, TokenModel};

verus! {

// ---------------------------------------------------------------------------
// Character classes (ASCII, as the language defines them).
// ---------------------------------------------------------------------------

/// An ASCII decimal digit.
pub open spec fn is_digit(c: char) -> bool {
    48 <= c as u32 && c as u32 <= 57
}

/// An ASCII letter or underscore: the characters that may start an
/// identifier.
pub open spec fn is_alpha(c: char) -> bool {
    (65 <= c as u32 && c as u32 <= 90) || (97 <= c as u32 && c as u32 <= 122) || c == '_'
}

/// A character that may continue an identifier.
pub open spec fn is_alpha_numeric(c: char) -> bool {
    is_alpha(c) || is_digit(c)
}

// ---------------------------------------------------------------------------
// Runs of characters: where a run that starts at `pos` ends.
// ---------------------------------------------------------------------------

/// The first index at or after `pos` whose character does not continue an
/// identifier, or the end of the text.
pub open spec fn ident_end(s: Seq<char>, pos: nat) -> nat
    decreases s.len() - pos when pos <= s.len()
{
    if pos >= s.len() || !is_alpha_numeric(s[pos as int]) {
        pos
    } else {
        ident_end(s, (pos + 1) as nat)
    }
}

/// The first index at or after `pos` whose character is not a digit, or the
/// end of the text.
pub open spec fn digits_end(s: Seq<char>, pos: nat) -> nat
    decreases s.len() - pos when pos <= s.len()
{
    if pos >= s.len() || !is_digit(s[pos as int]) {
        pos
    } else {
        digits_end(s, (pos + 1) as nat)
    }
}

/// The index of the first newline at or after `pos`, or the end of the text:
/// where a line comment stops consuming.
pub open spec fn comment_end(s: Seq<char>, pos: nat) -> nat
    decreases s.len() - pos when pos <= s.len()
{
    if pos >= s.len() || s[pos as int] == '\n' {
        pos
    } else {
        comment_end(s, (pos + 1) as nat)
    }
}

/// The index of the first double quote at or after `pos`, or the end of the
/// text: where a string literal's closing quote stands, if any.
pub open spec fn string_close(s: Seq<char>, pos: nat) -> nat
    decreases s.len() - pos when pos <= s.len()
{
    if pos >= s.len() || s[pos as int] == '"' {
        pos
    } else {
        string_close(s, (pos + 1) as nat)
    }
}

pub proof fn lemma_ident_end(s: Seq<char>, pos: nat)
    requires
        pos <= s.len(),
    ensures
        pos <= ident_end(s, pos) <= s.len(),
        forall|i: int| pos <= i < ident_end(s, pos) ==> is_alpha_numeric(s[i]),
        ident_end(s, pos) < s.len() ==> !is_alpha_numeric(s[ident_end(s, pos) as int]),
    decreases s.len() - pos,
{
    if pos < s.len() && is_alpha_numeric(s[pos as int]) {
        lemma_ident_end(s, (pos + 1) as nat);
    }
}

pub proof fn lemma_digits_end(s: Seq<char>, pos: nat)
    requires
        pos <= s.len(),
    ensures
        pos <= digits_end(s, pos) <= s.len(),
        forall|i: int| pos <= i < digits_end(s, pos) ==> is_digit(s[i]),
        digits_end(s, pos) < s.len() ==> !is_digit(s[digits_end(s, pos) as int]),
    decreases s.len() - pos,
{
    if pos < s.len() && is_digit(s[pos as int]) {
        lemma_digits_end(s, (pos + 1) as nat);
    }
}

pub proof fn lemma_comment_end(s: Seq<char>, pos: nat)
    requires
        pos <= s.len(),
    ensures
        pos <= comment_end(s, pos) <= s.len(),
        forall|i: int| pos <= i < comment_end(s, pos) ==> s[i] != '\n',
        comment_end(s, pos) < s.len() ==> s[comment_end(s, pos) as int] == '\n',
    decreases s.len() - pos,
{
    if pos < s.len() && s[pos as int] != '\n' {
        lemma_comment_end(s, (pos + 1) as nat);
    }
}

pub proof fn lemma_string_close(s: Seq<char>, pos: nat)
    requires
        pos <= s.len(),
    ensures
        pos <= string_close(s, pos) <= s.len(),
        forall|i: int| pos <= i < string_close(s, pos) ==> s[i] != '"',
        string_close(s, pos) < s.len() ==> s[string_close(s, pos) as int] == '"',
    decreases s.len() - pos,
{
    if pos < s.len() && s[pos as int] != '"' {
        lemma_string_close(s, (pos + 1) as nat);
    }
}

/// Where the number that starts at `pos` ends: the digits after `pos`, and a
/// fractional part only when a dot is directly followed by another digit. A
/// trailing dot is left for the next token.
pub open spec fn number_end(s: Seq<char>, pos: nat) -> nat {
    let int_end = digits_end(s, (pos + 1) as nat);
    if int_end < s.len() && s[int_end as int] == '.' && int_end + 1 < s.len() && is_digit(
        s[int_end as int + 1],
    ) {
        digits_end(s, (int_end + 1) as nat)
    } else {
        int_end
    }
}

pub proof fn lemma_number_end(s: Seq<char>, pos: nat)
    requires
        pos < s.len(),
    ensures
        pos < number_end(s, pos) <= s.len(),
        forall|i: int| pos < i < number_end(s, pos) ==> s[i] != '\n',
{
    lemma_digits_end(s, (pos + 1) as nat);
    let int_end = digits_end(s, (pos + 1) as nat);
    if int_end < s.len() && s[int_end as int] == '.' && int_end + 1 < s.len() && is_digit(
        s[int_end as int + 1],
    ) {
        lemma_digits_end(s, (int_end + 1) as nat);
    }
}

// ---------------------------------------------------------------------------
// Counting newlines, for the line counter.
// ---------------------------------------------------------------------------

/// The number of newline characters at indices in `[a, b)`.
pub open spec fn nl_count(s: Seq<char>, a: nat, b: nat) -> nat
    decreases b when a <= b
{
    if a >= b {
        0
    } else {
        nl_count(s, a, (b - 1) as nat) + (if s[b - 1] == '\n' {
            1nat
        } else {
            0nat
        })
    }
}

pub proof fn lemma_nl_count_split(s: Seq<char>, a: nat, b: nat, c: nat)
    requires
        a <= b <= c,
    ensures
        nl_count(s, a, c) == nl_count(s, a, b) + nl_count(s, b, c),
    decreases c,
{
    if b < c {
        lemma_nl_count_split(s, a, b, (c - 1) as nat);
    }
}

pub proof fn lemma_nl_count_none(s: Seq<char>, a: nat, b: nat)
    requires
        a <= b,
        forall|i: int| a <= i < b ==> s[i] != '\n',
    ensures
        nl_count(s, a, b) == 0,
    decreases b,
{
    if a < b {
        lemma_nl_count_none(s, a, (b - 1) as nat);
    }
}

pub proof fn lemma_nl_count_one(s: Seq<char>, i: nat)
    requires
        i < s.len(),
    ensures
        nl_count(s, i, (i + 1) as nat) == (if s[i as int] == '\n' {
            1nat
        } else {
            0nat
        }),
{
    assert(nl_count(s, i, i) == 0);
}

/// How one consumed character moves the line count from the start of the
/// text.
pub proof fn lemma_nl_step(s: Seq<char>, i: nat)
    requires
        i < s.len(),
    ensures
        nl_count(s, 0, (i + 1) as nat) == nl_count(s, 0, i) + (if s[i as int] == '\n' {
            1nat
        } else {
            0nat
        }),
{
    lemma_nl_count_split(s, 0, i, (i + 1) as nat);
    lemma_nl_count_one(s, i);
}

pub proof fn lemma_nl_count_le(s: Seq<char>, a: nat, b: nat)
    requires
        a <= b,
    ensures
        nl_count(s, a, b) <= b - a,
    decreases b,
{
    if a < b {
        lemma_nl_count_le(s, a, (b - 1) as nat);
    }
}

// ---------------------------------------------------------------------------
// Token classification tables.
// ---------------------------------------------------------------------------

/// The kind of a single-character punctuation token, if `c` is one.
pub open spec fn single_kind(c: char) -> Option<TokenKind> {
    if c == '(' {
        Some(TokenKind::LeftParen)
    } else if c == ')' {
        Some(TokenKind::RightParen)
    } else if c == '{' {
        Some(TokenKind::LeftBrace)
    } else if c == '}' {
        Some(TokenKind::RightBrace)
    } else if c == ',' {
        Some(TokenKind::Comma)
    } else if c == '.' {
        Some(TokenKind::Dot)
    } else if c == '-' {
        Some(TokenKind::Minus)
    } else if c == '+' {
        Some(TokenKind::Plus)
    } else if c == ';' {
        Some(TokenKind::Semicolon)
    } else if c == '*' {
        Some(TokenKind::Star)
    } else {
        None
    }
}

/// For the four operator heads, the kind the character makes alone and the
/// kind it makes when followed by `=`.
pub open spec fn op_kinds(c: char) -> Option<(TokenKind, TokenKind)> {
    if c == '!' {
        Some((TokenKind::Bang, TokenKind::BangEqual))
    } else if c == '=' {
        Some((TokenKind::Equal, TokenKind::EqualEqual))
    } else if c == '<' {
        Some((TokenKind::Less, TokenKind::LessEqual))
    } else if c == '>' {
        Some((TokenKind::Greater, TokenKind::GreaterEqual))
    } else {
        None
    }
}

/// The fixed keyword table: exact-text matching, anything else is an
/// identifier.
pub open spec fn keyword_kind(text: Seq<char>) -> TokenKind {
    if text == "and"@ {
        TokenKind::And
    } else if text == "class"@ {
        TokenKind::Class
    } else if text == "else"@ {
        TokenKind::Else
    } else if text == "false"@ {
        TokenKind::False
    } else if text == "for"@ {
        TokenKind::For
    } else if text == "fun"@ {
        TokenKind::Fun
    } else if text == "if"@ {
        TokenKind::If
    } else if text == "nil"@ {
        TokenKind::Nil
    } else if text == "or"@ {
        TokenKind::Or
    } else if text == "print"@ {
        TokenKind::Print
    } else if text == "return"@ {
        TokenKind::Return
    } else if text == "super"@ {
        TokenKind::Super
    } else if text == "this"@ {
        TokenKind::This
    } else if text == "true"@ {
        TokenKind::True
    } else if text == "var"@ {
        TokenKind::Var
    } else if text == "while"@ {
        TokenKind::While
    } else {
        TokenKind::Identifier
    }
}

// ---------------------------------------------------------------------------
// The scan itself.
// ---------------------------------------------------------------------------

/// Everything one scan produces from a cursor position onwards: the remaining
/// tokens (ending in the end-of-input sentinel), the remaining diagnostics,
/// and the final value of the line counter.
#[verifier::ext_equal]
pub ghost struct ScanOut {
    pub tokens: Seq<TokenModel>,
    pub diags: Seq<DiagModel>,
    pub end_line: nat,
}

pub open spec fn with_token(t: TokenModel, rest: ScanOut) -> ScanOut {
    ScanOut { tokens: seq![t] + rest.tokens, diags: rest.diags, end_line: rest.end_line }
}

pub open spec fn with_diag(d: DiagModel, rest: ScanOut) -> ScanOut {
    ScanOut { tokens: rest.tokens, diags: seq![d] + rest.diags, end_line: rest.end_line }
}

/// One full scan pass from character index `pos`, with the line counter at
/// `line`. Each token records the line on which its first character appears;
/// the line counter advances once per newline character, including newlines
/// inside comments and string literals.
pub open spec fn scan_from(s: Seq<char>, pos: nat, line: nat) -> ScanOut
    decreases s.len() - pos
        when pos <= s.len()
        via scan_from_decreases
{
    if pos >= s.len() {
        ScanOut {
            tokens: seq![
                TokenModel {
                    kind: TokenKind::Eof,
                    lexeme: Seq::empty(),
                    literal: LiteralModel::Absent,
                    line: line,
                },
            ],
            diags: Seq::empty(),
            end_line: line,
        }
    } else {
        let c = s[pos as int];
        if single_kind(c) is Some {
            with_token(
                TokenModel {
                    kind: single_kind(c).unwrap(),
                    lexeme: s.subrange(pos as int, pos as int + 1),
                    literal: LiteralModel::Absent,
                    line: line,
                },
                scan_from(s, (pos + 1) as nat, line),
            )
        } else if op_kinds(c) is Some {
            if pos + 1 < s.len() && s[pos as int + 1] == '=' {
                with_token(
                    TokenModel {
                        kind: op_kinds(c).unwrap().1,
                        lexeme: s.subrange(pos as int, pos as int + 2),
                        literal: LiteralModel::Absent,
                        line: line,
                    },
                    scan_from(s, (pos + 2) as nat, line),
                )
            } else {
                with_token(
                    TokenModel {
                        kind: op_kinds(c).unwrap().0,
                        lexeme: s.subrange(pos as int, pos as int + 1),
                        literal: LiteralModel::Absent,
                        line: line,
                    },
                    scan_from(s, (pos + 1) as nat, line),
                )
            }
        } else if c == '/' {
            if pos + 1 < s.len() && s[pos as int + 1] == '/' {
                scan_from(s, comment_end(s, (pos + 2) as nat), line)
            } else {
                with_token(
                    TokenModel {
                        kind: TokenKind::Slash,
                        lexeme: s.subrange(pos as int, pos as int + 1),
                        literal: LiteralModel::Absent,
                        line: line,
                    },
                    scan_from(s, (pos + 1) as nat, line),
                )
            }
        } else if c == ' ' || c == '\r' || c == '\t' {
            scan_from(s, (pos + 1) as nat, line)
        } else if c == '\n' {
            scan_from(s, (pos + 1) as nat, line + 1)
        } else if c == '"' {
            let close = string_close(s, (pos + 1) as nat);
            let nl = nl_count(s, (pos + 1) as nat, close);
            if close >= s.len() {
                with_diag(
                    DiagModel { line: line, message: "Unterminated string."@ },
                    scan_from(s, close, line + nl),
                )
            } else {
                with_token(
                    TokenModel {
                        kind: TokenKind::Str,
                        lexeme: s.subrange(pos as int, close as int + 1),
                        literal: LiteralModel::Str(s.subrange(pos as int + 1, close as int)),
                        line: line,
                    },
                    scan_from(s, (close + 1) as nat, line + nl),
                )
            }
        } else if is_digit(c) {
            let end = number_end(s, pos);
            with_token(
                TokenModel {
                    kind: TokenKind::Number,
                    lexeme: s.subrange(pos as int, end as int),
                    literal: LiteralModel::Num(s.subrange(pos as int, end as int)),
                    line: line,
                },
                scan_from(s, end, line),
            )
        } else if is_alpha(c) {
            let end = ident_end(s, (pos + 1) as nat);
            with_token(
                TokenModel {
                    kind: keyword_kind(s.subrange(pos as int, end as int)),
                    lexeme: s.subrange(pos as int, end as int),
                    literal: LiteralModel::Absent,
                    line: line,
                },
                scan_from(s, end, line),
            )
        } else {
            with_diag(
                DiagModel {
                    line: line,
                    message: "Unexpected character: "@ + s.subrange(pos as int, pos as int + 1),
                },
                scan_from(s, (pos + 1) as nat, line),
            )
        }
    }
}

/// Appending one element in front of `b` is the same as pushing it onto the
/// back of `a`, when the three parts are concatenated.
pub proof fn lemma_cons<T>(a: Seq<T>, x: T, b: Seq<T>)
    ensures
        a + (seq![x] + b) == a.push(x) + b,
{
    assert(a + (seq![x] + b) =~= a.push(x) + b);
}

#[via_fn]
proof fn scan_from_decreases(s: Seq<char>, pos: nat, line: nat) {
    if pos < s.len() {
        if pos + 2 <= s.len() {
            lemma_comment_end(s, (pos + 2) as nat);
        }
        lemma_string_close(s, (pos + 1) as nat);
        lemma_number_end(s, pos);
        lemma_ident_end(s, (pos + 1) as nat);
    }
}

} // verus!
