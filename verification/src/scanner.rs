//! The scanner: one forward pass over one source string.
//!
//! The cursor counts characters, not bytes, so multi-byte characters inside
//! comments, strings, and between tokens never split a character or corrupt
//! a lexeme. The scanner is proved to produce exactly the token sequence,
//! diagnostics and final line that `model::scan_from` assigns to its input.

use vstd::prelude::*;
use vstd::string::{StrSliceExecFns, StringExecFns};

use crate::error::{DiagModel, ErrorReporter};
use crate::model;
use crate::model::{
    comment_end, digits_end, ident_end, lemma_digits_end, lemma_ident_end, lemma_nl_count_le,
    lemma_nl_count_none, lemma_nl_count_split, lemma_string_close, nl_count, number_end,
    scan_from, string_close, ScanOut,
};
use crate::token::{lemma_toks_push, toks, Literal, LiteralModel, Token, TokenKind, TokenModel};

verus! {

/// The character at a given character index of a text.
fn char_at(s: &str, idx: usize) -> (c: char)
    requires
        idx < s@.len(),
    ensures
        c == s@[idx as int],
{
    s.get_char(idx)
}

/// Whether `c` may start an identifier: an ASCII letter or underscore.
fn is_alpha(c: char) -> (r: bool)
    ensures
        r == model::is_alpha(c),
{
    let u = c as u32;
    (65 <= u && u <= 90) || (97 <= u && u <= 122) || c == '_'
}

/// Whether `c` is an ASCII decimal digit.
fn is_digit(c: char) -> (r: bool)
    ensures
        r == model::is_digit(c),
{
    let u = c as u32;
    48 <= u && u <= 57
}

/// Whether `c` may continue an identifier.
fn is_alpha_numeric(c: char) -> (r: bool)
    ensures
        r == model::is_alpha_numeric(c),
{
    is_alpha(c) || is_digit(c)
}

/// Owns the source text and a cursor for exactly one scan pass; the tokens
/// outlive it and are owned by the caller afterwards.
pub struct Scanner {
    source: String,
    tokens: Vec<Token>,
    start: usize,
    current: usize,
    line: usize,
}

impl Scanner {
    /// The source text being scanned, as a sequence of characters.
    pub closed spec fn src(&self) -> Seq<char> {
        self.source@
    }

    /// A freshly created scanner: cursor at the start, line counter at 1, no
    /// tokens yet.
    pub closed spec fn is_fresh(&self) -> bool {
        self.current == 0 && self.start == 0 && self.line == 1 && self.tokens@
            == Seq::<Token>::empty()
    }

    pub fn new(source: String) -> (sc: Scanner)
        ensures
            sc.src() == source@,
            sc.is_fresh(),
    {
        Scanner { source: source, tokens: Vec::new(), start: 0, current: 0, line: 1 }
    }

    /// The length of the source in characters.
    fn text_len(&self) -> (n: usize)
        ensures
            n == self.src().len(),
    {
        self.source.as_str().unicode_len()
    }

    /// Whether the cursor has reached the end of the text.
    fn eof(&self) -> (r: bool)
        ensures
            r == (self.current >= self.src().len()),
    {
        self.current >= self.source.as_str().unicode_len()
    }

    /// Consumes and returns the character under the cursor.
    fn advance(&mut self) -> (c: char)
        requires
            old(self).current < old(self).src().len(),
            old(self).src().len() <= usize::MAX,
        ensures
            c == old(self).src()[old(self).current as int],
            final(self).current == old(self).current + 1,
            final(self).source == old(self).source,
            final(self).tokens == old(self).tokens,
            final(self).start == old(self).start,
            final(self).line == old(self).line,
    {
        let c = char_at(self.source.as_str(), self.current);
        self.current = self.current + 1;
        c
    }

    /// One character of lookahead; the NUL character at end of text.
    fn peek(&self) -> (c: char)
        requires
            self.current <= self.src().len(),
        ensures
            c == if self.current < self.src().len() {
                self.src()[self.current as int]
            } else {
                '\0'
            },
    {
        if self.eof() {
            return '\0';
        }
        char_at(self.source.as_str(), self.current)
    }

    /// Two characters of lookahead; the NUL character past end of text.
    fn peek_next(&self) -> (c: char)
        requires
            self.current <= self.src().len(),
            self.src().len() <= usize::MAX,
        ensures
            c == if self.current + 1 < self.src().len() {
                self.src()[self.current as int + 1]
            } else {
                '\0'
            },
    {
        let n = self.text_len();
        if self.current >= n {
            return '\0';
        }
        if self.current + 1 >= n {
            return '\0';
        }
        char_at(self.source.as_str(), self.current + 1)
    }

    /// Consumes the character under the cursor only if it equals `expected`.
    fn match_(&mut self, expected: char) -> (r: bool)
        requires
            old(self).current <= old(self).src().len(),
            old(self).src().len() <= usize::MAX,
        ensures
            r == (old(self).current < old(self).src().len() && old(self).src()[old(
                self,
            ).current as int] == expected),
            final(self).current == if r {
                old(self).current + 1
            } else {
                old(self).current as int
            },
            final(self).source == old(self).source,
            final(self).tokens == old(self).tokens,
            final(self).start == old(self).start,
            final(self).line == old(self).line,
    {
        if self.eof() {
            return false;
        }
        if char_at(self.source.as_str(), self.current) != expected {
            return false;
        }
        self.current = self.current + 1;
        true
    }

    /// Appends a token whose lexeme is the current run `start..current`, at
    /// the current line.
    fn add_token(&mut self, kind: TokenKind, literal: Literal)
        requires
            old(self).start <= old(self).current,
            old(self).current <= old(self).src().len(),
            old(self).src().len() <= usize::MAX,
        ensures
            final(self).source == old(self).source,
            final(self).start == old(self).start,
            final(self).current == old(self).current,
            final(self).line == old(self).line,
            toks(final(self).tokens@) == toks(old(self).tokens@).push(
                (TokenModel {
                    kind: kind,
                    lexeme: old(self).src().subrange(
                        old(self).start as int,
                        old(self).current as int,
                    ),
                    literal: literal@,
                    line: old(self).line as nat,
                }),
            ),
    {
        let text = self.source.as_str().substring_char(self.start, self.current).to_owned();
        let t = Token { kind: kind, lexeme: text, literal: literal, line: self.line };
        proof {
            lemma_toks_push(self.tokens@, t);
        }
        self.tokens.push(t);
    }

    /// Consumes a line comment: everything up to, but not including, the next
    /// newline. Emits no token.
    fn line_comment(&mut self)
        requires
            old(self).current <= old(self).src().len(),
            old(self).src().len() <= usize::MAX,
        ensures
            final(self).current == comment_end(old(self).src(), old(self).current as nat),
            final(self).source == old(self).source,
            final(self).tokens == old(self).tokens,
            final(self).start == old(self).start,
            final(self).line == old(self).line,
    {
        let n = self.text_len();
        let ghost src0 = self.source;
        let ghost s = self.src();
        let ghost cur0 = self.current as nat;
        let ghost tk = self.tokens;
        let ghost st = self.start;
        let ghost ln = self.line;
        loop
            invariant
                self.source == src0,
                self.source@ == s,
                n == s.len(),
                s.len() <= usize::MAX,
                cur0 <= self.current as nat <= s.len(),
                comment_end(s, cur0) == comment_end(s, self.current as nat),
                self.tokens == tk,
                self.start == st,
                self.line == ln,
            ensures
                self.source == src0,
                self.source@ == s,
                self.tokens == tk,
                self.start == st,
                self.line == ln,
                self.current as nat == comment_end(s, cur0),
            decreases s.len() - self.current,
        {
            if !(self.current < n) {
                proof {
                    assert(comment_end(s, self.current as nat) == self.current as nat);
                }
                break;
            }
            let c = char_at(self.source.as_str(), self.current);
            if c == '\n' {
                proof {
                    assert(comment_end(s, self.current as nat) == self.current as nat);
                }
                break;
            }
            proof {
                assert(comment_end(s, self.current as nat) == comment_end(
                    s,
                    (self.current + 1) as nat,
                ));
            }
            self.current = self.current + 1;
        }
    }

    /// Consumes the digits from the cursor onwards, stopping at the first
    /// non-digit or the end of the text.
    fn digits(&mut self)
        requires
            old(self).current <= old(self).src().len(),
            old(self).src().len() <= usize::MAX,
        ensures
            final(self).current == digits_end(old(self).src(), old(self).current as nat),
            final(self).source == old(self).source,
            final(self).tokens == old(self).tokens,
            final(self).start == old(self).start,
            final(self).line == old(self).line,
    {
        let n = self.text_len();
        let ghost src0 = self.source;
        let ghost s = self.src();
        let ghost cur0 = self.current as nat;
        let ghost tk = self.tokens;
        let ghost st = self.start;
        let ghost ln = self.line;
        loop
            invariant
                self.source == src0,
                self.source@ == s,
                n == s.len(),
                s.len() <= usize::MAX,
                cur0 <= self.current as nat <= s.len(),
                digits_end(s, cur0) == digits_end(s, self.current as nat),
                self.tokens == tk,
                self.start == st,
                self.line == ln,
            ensures
                self.source == src0,
                self.tokens == tk,
                self.start == st,
                self.line == ln,
                self.current as nat == digits_end(s, cur0),
            decreases s.len() - self.current,
        {
            if !(self.current < n) {
                proof {
                    assert(digits_end(s, self.current as nat) == self.current as nat);
                }
                break;
            }
            let c = char_at(self.source.as_str(), self.current);
            if !is_digit(c) {
                proof {
                    assert(digits_end(s, self.current as nat) == self.current as nat);
                }
                break;
            }
            proof {
                assert(digits_end(s, self.current as nat) == digits_end(
                    s,
                    (self.current + 1) as nat,
                ));
            }
            self.current = self.current + 1;
        }
    }

    /// Consumes the rest of a number literal whose first digit has just been
    /// consumed, and emits its token. A trailing dot with no digit after it
    /// is not consumed.
    fn number(&mut self)
        requires
            old(self).start + 1 == old(self).current,
            old(self).current <= old(self).src().len(),
            old(self).src().len() <= usize::MAX,
        ensures
            final(self).source == old(self).source,
            final(self).start == old(self).start,
            final(self).line == old(self).line,
            final(self).current == number_end(old(self).src(), old(self).start as nat),
            toks(final(self).tokens@) == toks(old(self).tokens@).push(
                (TokenModel {
                    kind: TokenKind::Number,
                    lexeme: old(self).src().subrange(
                        old(self).start as int,
                        number_end(old(self).src(), old(self).start as nat) as int,
                    ),
                    literal: LiteralModel::Num(
                        old(self).src().subrange(
                            old(self).start as int,
                            number_end(old(self).src(), old(self).start as nat) as int,
                        ),
                    ),
                    line: old(self).line as nat,
                }),
            ),
    {
        let ghost s = self.src();
        let ghost start0 = self.start as nat;
        proof {
            lemma_digits_end(s, (start0 + 1) as nat);
        }
        self.digits();
        let ghost int_end = digits_end(s, (start0 + 1) as nat);
        let dot = self.peek();
        let after = self.peek_next();
        if dot == '.' && is_digit(after) {
            proof {
                lemma_digits_end(s, (int_end + 1) as nat);
            }
            self.advance();
            self.digits();
            proof {
                assert(digits_end(s, self.current as nat) == self.current as nat);
            }
        }
        proof {
            assert(self.current as nat == number_end(s, start0));
        }
        let text = self.source.as_str().substring_char(self.start, self.current).to_owned();
        self.add_token(TokenKind::Number, Literal::Num(text));
    }

    /// Consumes the rest of an identifier whose first character has just been
    /// consumed, looks the text up in the keyword table, and emits its token.
    fn identifier(&mut self)
        requires
            old(self).start + 1 == old(self).current,
            old(self).current <= old(self).src().len(),
            old(self).src().len() <= usize::MAX,
        ensures
            final(self).source == old(self).source,
            final(self).start == old(self).start,
            final(self).line == old(self).line,
            final(self).current == ident_end(old(self).src(), old(self).current as nat),
            toks(final(self).tokens@) == toks(old(self).tokens@).push(
                (TokenModel {
                    kind: model::keyword_kind(
                        old(self).src().subrange(
                            old(self).start as int,
                            ident_end(old(self).src(), old(self).current as nat) as int,
                        ),
                    ),
                    lexeme: old(self).src().subrange(
                        old(self).start as int,
                        ident_end(old(self).src(), old(self).current as nat) as int,
                    ),
                    literal: LiteralModel::Absent,
                    line: old(self).line as nat,
                }),
            ),
    {
        let n = self.text_len();
        let ghost src0 = self.source;
        let ghost s = self.src();
        let ghost cur0 = self.current as nat;
        let ghost tk = self.tokens;
        let ghost st = self.start;
        let ghost ln = self.line;
        loop
            invariant
                self.source == src0,
                self.source@ == s,
                n == s.len(),
                s.len() <= usize::MAX,
                cur0 <= self.current as nat <= s.len(),
                ident_end(s, cur0) == ident_end(s, self.current as nat),
                self.tokens == tk,
                self.start == st,
                self.line == ln,
            ensures
                self.source == src0,
                self.tokens == tk,
                self.start == st,
                self.line == ln,
                self.current as nat == ident_end(s, cur0),
            decreases s.len() - self.current,
        {
            if !(self.current < n) {
                proof {
                    assert(ident_end(s, self.current as nat) == self.current as nat);
                }
                break;
            }
            let c = char_at(self.source.as_str(), self.current);
            if !is_alpha_numeric(c) {
                proof {
                    assert(ident_end(s, self.current as nat) == self.current as nat);
                }
                break;
            }
            proof {
                assert(ident_end(s, self.current as nat) == ident_end(
                    s,
                    (self.current + 1) as nat,
                ));
            }
            self.current = self.current + 1;
        }
        proof {
            lemma_ident_end(s, cur0);
        }
        let text = self.source.as_str().substring_char(self.start, self.current).to_owned();
        let kind = keyword_lookup(&text);
        self.add_token(kind, Literal::Absent);
    }

    /// Consumes the rest of a string literal whose opening quote has just
    /// been consumed. On a closing quote, emits a `Str` token at the line of
    /// the opening quote; at end of text, reports "Unterminated string."
    /// there instead and emits nothing. Newlines inside the string advance
    /// the line counter either way.
    fn string(&mut self, er: &mut ErrorReporter)
        requires
            old(self).start + 1 == old(self).current,
            old(self).current <= old(self).src().len(),
            old(self).src().len() <= usize::MAX,
            old(self).line + nl_count(
                old(self).src(),
                old(self).current as nat,
                old(self).src().len(),
            ) <= usize::MAX,
        ensures
            final(self).source == old(self).source,
            final(self).start == old(self).start,
            final(self).line == old(self).line + nl_count(
                old(self).src(),
                old(self).current as nat,
                string_close(old(self).src(), old(self).current as nat),
            ),
            string_close(old(self).src(), old(self).current as nat) < old(self).src().len()
                ==> final(self).current == string_close(
                old(self).src(),
                old(self).current as nat,
            ) + 1,
            string_close(old(self).src(), old(self).current as nat) < old(self).src().len()
                ==> final(er)@ == old(er)@,
            string_close(old(self).src(), old(self).current as nat) < old(self).src().len()
                ==> toks(final(self).tokens@) == toks(old(self).tokens@).push(
                (TokenModel {
                    kind: TokenKind::Str,
                    lexeme: old(self).src().subrange(
                        old(self).start as int,
                        string_close(old(self).src(), old(self).current as nat) as int + 1,
                    ),
                    literal: LiteralModel::Str(
                        old(self).src().subrange(
                            old(self).start as int + 1,
                            string_close(old(self).src(), old(self).current as nat) as int,
                        ),
                    ),
                    line: old(self).line as nat,
                }),
            ),
            string_close(old(self).src(), old(self).current as nat) >= old(self).src().len()
                ==> final(self).current == old(self).src().len(),
            string_close(old(self).src(), old(self).current as nat) >= old(self).src().len()
                ==> final(self).tokens == old(self).tokens,
            string_close(old(self).src(), old(self).current as nat) >= old(self).src().len()
                ==> final(er)@.had_error == true,
            string_close(old(self).src(), old(self).current as nat) >= old(self).src().len()
                ==> final(er)@.diags == old(er)@.diags.push(
                (DiagModel { line: old(self).line as nat, message: "Unterminated string."@ }),
            ),
    {
        let n = self.text_len();
        let line0 = self.line;
        let ghost src0 = self.source;
        let ghost s = self.src();
        let ghost cur0 = self.current as nat;
        let ghost tk = self.tokens;
        let ghost st = self.start;
        proof {
            lemma_string_close(s, cur0);
            assert(nl_count(s, cur0, cur0) == 0);
        }
        loop
            invariant
                self.source == src0,
                self.source@ == s,
                n == s.len(),
                s.len() <= usize::MAX,
                cur0 <= self.current as nat <= s.len(),
                string_close(s, cur0) == string_close(s, self.current as nat),
                self.line == line0 + nl_count(s, cur0, self.current as nat),
                line0 + nl_count(s, cur0, s.len()) <= usize::MAX,
                self.tokens == tk,
                self.start == st,
            ensures
                self.source == src0,
                self.tokens == tk,
                self.start == st,
                self.current as nat == string_close(s, cur0),
                self.line == line0 + nl_count(s, cur0, string_close(s, cur0)),
            decreases s.len() - self.current,
        {
            if !(self.current < n) {
                proof {
                    assert(string_close(s, self.current as nat) == self.current as nat);
                }
                break;
            }
            let c = char_at(self.source.as_str(), self.current);
            if c == '"' {
                proof {
                    assert(string_close(s, self.current as nat) == self.current as nat);
                }
                break;
            }
            proof {
                lemma_nl_count_split(s, cur0, self.current as nat, (self.current + 1) as nat);
                model::lemma_nl_count_one(s, self.current as nat);
                lemma_nl_count_split(s, cur0, (self.current + 1) as nat, s.len() as nat);
                assert(string_close(s, self.current as nat) == string_close(
                    s,
                    (self.current + 1) as nat,
                ));
            }
            if c == '\n' {
                self.line = self.line + 1;
            }
            self.current = self.current + 1;
        }
        if !(self.current < n) {
            er.error(line0, "Unterminated string.");
            return;
        }
        self.advance();
        let lex = self.source.as_str().substring_char(self.start, self.current).to_owned();
        let val = self.source.as_str().substring_char(self.start + 1, self.current - 1).to_owned();
        let t = Token { kind: TokenKind::Str, lexeme: lex, literal: Literal::Str(val), line: line0 };
        proof {
            lemma_toks_push(self.tokens@, t);
        }
        self.tokens.push(t);
    }

    /// Recognizes one run starting at the cursor: emits at most one token,
    /// reports at most one diagnostic, and always advances the cursor. What
    /// remains to be produced afterwards, together with what this run
    /// produced, is exactly what remained to be produced before.
    fn scan_token(&mut self, er: &mut ErrorReporter)
        requires
            old(self).start == old(self).current,
            old(self).current < old(self).src().len(),
            old(self).src().len() < usize::MAX,
            old(self).line as nat == 1 + nl_count(old(self).src(), 0, old(self).current as nat),
        ensures
            final(self).source == old(self).source,
            old(self).current < final(self).current,
            final(self).current <= final(self).src().len(),
            final(self).line as nat == 1 + nl_count(old(self).src(), 0, final(self).current as nat),
            toks(old(self).tokens@) + scan_from(
                old(self).src(),
                old(self).current as nat,
                old(self).line as nat,
            ).tokens == toks(final(self).tokens@) + scan_from(
                old(self).src(),
                final(self).current as nat,
                final(self).line as nat,
            ).tokens,
            old(er)@.diags + scan_from(
                old(self).src(),
                old(self).current as nat,
                old(self).line as nat,
            ).diags == final(er)@.diags + scan_from(
                old(self).src(),
                final(self).current as nat,
                final(self).line as nat,
            ).diags,
            scan_from(old(self).src(), old(self).current as nat, old(self).line as nat).end_line
                == scan_from(
                old(self).src(),
                final(self).current as nat,
                final(self).line as nat,
            ).end_line,
            final(er)@.diags.len() >= old(er)@.diags.len(),
            final(er)@.had_error == (old(er)@.had_error || final(er)@.diags.len() > old(
                er,
            )@.diags.len()),
    {
        let ghost s = self.src();
        let ghost pos0 = self.current as nat;
        let ghost l0 = self.line as nat;
        let ghost tk0 = self.tokens@;
        let ghost er0 = er@;
        let c = self.advance();
        if c == '(' || c == ')' || c == '{' || c == '}' || c == ',' || c == '.' || c == '-' || c
            == '+' || c == ';' || c == '*' {
            let kind: TokenKind = if c == '(' {
                TokenKind::LeftParen
            } else if c == ')' {
                TokenKind::RightParen
            } else if c == '{' {
                TokenKind::LeftBrace
            } else if c == '}' {
                TokenKind::RightBrace
            } else if c == ',' {
                TokenKind::Comma
            } else if c == '.' {
                TokenKind::Dot
            } else if c == '-' {
                TokenKind::Minus
            } else if c == '+' {
                TokenKind::Plus
            } else if c == ';' {
                TokenKind::Semicolon
            } else {
                TokenKind::Star
            };
            self.add_token(kind, Literal::Absent);
            proof {
                let tm = TokenModel {
                    kind: kind,
                    lexeme: s.subrange(pos0 as int, pos0 as int + 1),
                    literal: LiteralModel::Absent,
                    line: l0,
                };
                let rest = scan_from(s, (pos0 + 1) as nat, l0);
                assert(kind == model::single_kind(c).unwrap());
                assert(scan_from(s, pos0, l0) == model::with_token(tm, rest));
                model::lemma_cons(toks(tk0), tm, rest.tokens);
                model::lemma_nl_step(s, pos0);
            }
        } else if c == '!' || c == '=' || c == '<' || c == '>' {
            let two = self.match_('=');
            let kind: TokenKind = if c == '!' {
                if two {
                    TokenKind::BangEqual
                } else {
                    TokenKind::Bang
                }
            } else if c == '=' {
                if two {
                    TokenKind::EqualEqual
                } else {
                    TokenKind::Equal
                }
            } else if c == '<' {
                if two {
                    TokenKind::LessEqual
                } else {
                    TokenKind::Less
                }
            } else {
                if two {
                    TokenKind::GreaterEqual
                } else {
                    TokenKind::Greater
                }
            };
            self.add_token(kind, Literal::Absent);
            proof {
                assert(model::op_kinds(c) is Some);
                if two {
                    let tm = TokenModel {
                        kind: kind,
                        lexeme: s.subrange(pos0 as int, pos0 as int + 2),
                        literal: LiteralModel::Absent,
                        line: l0,
                    };
                    let rest = scan_from(s, (pos0 + 2) as nat, l0);
                    assert(kind == model::op_kinds(c).unwrap().1);
                    assert(scan_from(s, pos0, l0) == model::with_token(tm, rest));
                    model::lemma_cons(toks(tk0), tm, rest.tokens);
                    model::lemma_nl_step(s, pos0);
                    model::lemma_nl_step(s, (pos0 + 1) as nat);
                } else {
                    let tm = TokenModel {
                        kind: kind,
                        lexeme: s.subrange(pos0 as int, pos0 as int + 1),
                        literal: LiteralModel::Absent,
                        line: l0,
                    };
                    let rest = scan_from(s, (pos0 + 1) as nat, l0);
                    assert(kind == model::op_kinds(c).unwrap().0);
                    assert(scan_from(s, pos0, l0) == model::with_token(tm, rest));
                    model::lemma_cons(toks(tk0), tm, rest.tokens);
                    model::lemma_nl_step(s, pos0);
                }
            }
        } else if c == '/' {
            if self.match_('/') {
                self.line_comment();
                proof {
                    let ce = comment_end(s, (pos0 + 2) as nat);
                    model::lemma_comment_end(s, (pos0 + 2) as nat);
                    assert(scan_from(s, pos0, l0) == scan_from(s, ce, l0));
                    assert forall|i: int| pos0 <= i < ce implies s[i] != '\n' by {
                        if i >= pos0 + 2 {
                            assert(s[i] != '\n');
                        }
                    }
                    model::lemma_nl_count_none(s, pos0, ce);
                    lemma_nl_count_split(s, 0, pos0, ce);
                }
            } else {
                self.add_token(TokenKind::Slash, Literal::Absent);
                proof {
                    let tm = TokenModel {
                        kind: TokenKind::Slash,
                        lexeme: s.subrange(pos0 as int, pos0 as int + 1),
                        literal: LiteralModel::Absent,
                        line: l0,
                    };
                    let rest = scan_from(s, (pos0 + 1) as nat, l0);
                    assert(scan_from(s, pos0, l0) == model::with_token(tm, rest));
                    model::lemma_cons(toks(tk0), tm, rest.tokens);
                    model::lemma_nl_step(s, pos0);
                }
            }
        } else if c == ' ' || c == '\r' || c == '\t' {
            proof {
                assert(scan_from(s, pos0, l0) == scan_from(s, (pos0 + 1) as nat, l0));
                model::lemma_nl_step(s, pos0);
            }
        } else if c == '\n' {
            proof {
                model::lemma_nl_count_le(s, 0, pos0);
            }
            self.line = self.line + 1;
            proof {
                assert(scan_from(s, pos0, l0) == scan_from(s, (pos0 + 1) as nat, (l0 + 1) as nat));
                model::lemma_nl_step(s, pos0);
            }
        } else if c == '"' {
            proof {
                lemma_string_close(s, (pos0 + 1) as nat);
                lemma_nl_count_split(s, 0, pos0, s.len() as nat);
                lemma_nl_count_split(s, pos0, (pos0 + 1) as nat, s.len() as nat);
                model::lemma_nl_count_one(s, pos0);
                model::lemma_nl_count_le(s, 0, s.len() as nat);
            }
            self.string(er);
            proof {
                let close = string_close(s, (pos0 + 1) as nat);
                let nl = nl_count(s, (pos0 + 1) as nat, close);
                lemma_string_close(s, (pos0 + 1) as nat);
                if close >= s.len() {
                    let dm = DiagModel { line: l0, message: "Unterminated string."@ };
                    let rest = scan_from(s, close, (l0 + nl) as nat);
                    assert(scan_from(s, pos0, l0) == model::with_diag(dm, rest));
                    model::lemma_cons(er0.diags, dm, rest.diags);
                    lemma_nl_count_split(s, 0, pos0, s.len() as nat);
                    lemma_nl_count_split(s, pos0, (pos0 + 1) as nat, s.len() as nat);
                    model::lemma_nl_count_one(s, pos0);
                } else {
                    let tm = TokenModel {
                        kind: TokenKind::Str,
                        lexeme: s.subrange(pos0 as int, close as int + 1),
                        literal: LiteralModel::Str(s.subrange(pos0 as int + 1, close as int)),
                        line: l0,
                    };
                    let rest = scan_from(s, (close + 1) as nat, (l0 + nl) as nat);
                    assert(scan_from(s, pos0, l0) == model::with_token(tm, rest));
                    model::lemma_cons(toks(tk0), tm, rest.tokens);
                    lemma_nl_count_split(s, 0, pos0, (close + 1) as nat);
                    lemma_nl_count_split(s, pos0, (pos0 + 1) as nat, (close + 1) as nat);
                    lemma_nl_count_split(s, (pos0 + 1) as nat, close, (close + 1) as nat);
                    model::lemma_nl_count_one(s, pos0);
                    model::lemma_nl_count_one(s, close);
                }
            }
        } else if is_digit(c) {
            self.number();
            proof {
                let end = number_end(s, pos0);
                model::lemma_number_end(s, pos0);
                let tm = TokenModel {
                    kind: TokenKind::Number,
                    lexeme: s.subrange(pos0 as int, end as int),
                    literal: LiteralModel::Num(s.subrange(pos0 as int, end as int)),
                    line: l0,
                };
                let rest = scan_from(s, end, l0);
                assert(scan_from(s, pos0, l0) == model::with_token(tm, rest));
                model::lemma_cons(toks(tk0), tm, rest.tokens);
                assert forall|i: int| pos0 <= i < end implies s[i] != '\n' by {
                    if i == pos0 {
                        assert(!model::is_digit('\n'));
                    }
                }
                model::lemma_nl_count_none(s, pos0, end);
                lemma_nl_count_split(s, 0, pos0, end);
            }
        } else if is_alpha(c) {
            self.identifier();
            proof {
                let end = ident_end(s, (pos0 + 1) as nat);
                lemma_ident_end(s, (pos0 + 1) as nat);
                let tm = TokenModel {
                    kind: model::keyword_kind(s.subrange(pos0 as int, end as int)),
                    lexeme: s.subrange(pos0 as int, end as int),
                    literal: LiteralModel::Absent,
                    line: l0,
                };
                let rest = scan_from(s, end, l0);
                assert(scan_from(s, pos0, l0) == model::with_token(tm, rest));
                model::lemma_cons(toks(tk0), tm, rest.tokens);
                assert(!model::is_alpha('\n'));
                assert(!model::is_alpha_numeric('\n'));
                assert forall|i: int| pos0 <= i < end implies s[i] != '\n' by {
                    if i > pos0 {
                        assert(model::is_alpha_numeric(s[i]));
                    }
                }
                model::lemma_nl_count_none(s, pos0, end);
                lemma_nl_count_split(s, 0, pos0, end);
            }
        } else {
            let msg = "Unexpected character: ".to_owned().concat(
                self.source.as_str().substring_char(self.start, self.current),
            );
            er.error(self.line, msg.as_str());
            proof {
                let dm = DiagModel {
                    line: l0,
                    message: "Unexpected character: "@ + s.subrange(pos0 as int, pos0 as int + 1),
                };
                let rest = scan_from(s, (pos0 + 1) as nat, l0);
                assert(scan_from(s, pos0, l0) == model::with_diag(dm, rest));
                model::lemma_cons(er0.diags, dm, rest.diags);
                model::lemma_nl_step(s, pos0);
            }
        }
    }

    /// Scans the whole source: consumes the scanner, returns the token
    /// sequence that `model::scan_from` assigns to the text, terminated by
    /// the end-of-input sentinel, and appends the scan's diagnostics to the
    /// reporter in order, raising its flag exactly when there was at least
    /// one.
    pub fn scan_tokens(self, er: &mut ErrorReporter) -> (tokens: Vec<Token>)
        requires
            self.is_fresh(),
            self.src().len() < usize::MAX,
        ensures
            toks(tokens@) == scan_from(self.src(), 0, 1).tokens,
            final(er)@.diags == old(er)@.diags + scan_from(self.src(), 0, 1).diags,
            final(er)@.had_error == (old(er)@.had_error || scan_from(self.src(), 0, 1).diags.len()
                > 0),
    {
        let mut this = self;
        let ghost s = this.src();
        let ghost er0 = er@;
        let n = this.text_len();
        proof {
            assert(nl_count(s, 0, 0) == 0);
            assert(toks(this.tokens@) =~= Seq::<TokenModel>::empty());
            assert(toks(this.tokens@) + scan_from(s, 0, 1).tokens =~= scan_from(s, 0, 1).tokens);
            assert(er0.diags + scan_from(s, 0, 1).diags =~= er0.diags + scan_from(s, 0, 1).diags);
        }
        while this.current < n
            invariant
                this.source@ == s,
                n == s.len(),
                s.len() < usize::MAX,
                this.current <= n,
                this.line as nat == 1 + nl_count(s, 0, this.current as nat),
                toks(this.tokens@) + scan_from(s, this.current as nat, this.line as nat).tokens
                    == scan_from(s, 0, 1).tokens,
                er@.diags + scan_from(s, this.current as nat, this.line as nat).diags == er0.diags
                    + scan_from(s, 0, 1).diags,
                scan_from(s, this.current as nat, this.line as nat).end_line == scan_from(
                    s,
                    0,
                    1,
                ).end_line,
                er@.diags.len() >= er0.diags.len(),
                er@.had_error == (er0.had_error || er@.diags.len() > er0.diags.len()),
            decreases n - this.current,
        {
            this.start = this.current;
            this.scan_token(er);
        }
        proof {
            assert(scan_from(s, this.current as nat, this.line as nat) == (ScanOut {
                tokens: seq![
                    TokenModel {
                        kind: TokenKind::Eof,
                        lexeme: Seq::empty(),
                        literal: LiteralModel::Absent,
                        line: this.line as nat,
                    },
                ],
                diags: Seq::<DiagModel>::empty(),
                end_line: this.line as nat,
            }));
        }
        let t = Token {
            kind: TokenKind::Eof,
            lexeme: String::new(),
            literal: Literal::Absent,
            line: this.line,
        };
        proof {
            lemma_toks_push(this.tokens@, t);
            assert(toks(this.tokens@).push(t@) =~= toks(this.tokens@) + seq![t@]);
            assert(er@.diags + Seq::<DiagModel>::empty() =~= er@.diags);
        }
        this.tokens.push(t);
        this.tokens
    }
}

/// The kind for an identifier's text: the matching keyword, or `Identifier`.
fn keyword_lookup(text: &String) -> (k: TokenKind)
    ensures
        k == model::keyword_kind(text@),
{
    if *text == "and".to_owned() {
        TokenKind::And
    } else if *text == "class".to_owned() {
        TokenKind::Class
    } else if *text == "else".to_owned() {
        TokenKind::Else
    } else if *text == "false".to_owned() {
        TokenKind::False
    } else if *text == "for".to_owned() {
        TokenKind::For
    } else if *text == "fun".to_owned() {
        TokenKind::Fun
    } else if *text == "if".to_owned() {
        TokenKind::If
    } else if *text == "nil".to_owned() {
        TokenKind::Nil
    } else if *text == "or".to_owned() {
        TokenKind::Or
    } else if *text == "print".to_owned() {
        TokenKind::Print
    } else if *text == "return".to_owned() {
        TokenKind::Return
    } else if *text == "super".to_owned() {
        TokenKind::Super
    } else if *text == "this".to_owned() {
        TokenKind::This
    } else if *text == "true".to_owned() {
        TokenKind::True
    } else if *text == "var".to_owned() {
        TokenKind::Var
    } else if *text == "while".to_owned() {
        TokenKind::While
    } else {
        TokenKind::Identifier
    }
}

} // verus!
