//! Laws of the scan: properties proved of every input.

use vstd::prelude::*;

use crate::error::DiagModel;
use crate::model;
use crate::model::{
    comment_end, ident_end, lemma_comment_end, lemma_ident_end, lemma_nl_count_none,
    lemma_nl_count_one, lemma_nl_count_split, lemma_number_end, lemma_string_close, nl_count,
    number_end, scan_from, string_close,
};
use crate::token::{TokenKind, TokenModel};

verus! {

/// Whether `c` is one of the fixed single-character punctuation marks.
pub open spec fn is_single_punct(c: char) -> bool {
    model::single_kind(c) is Some
}

/// A range without newlines does not change how many newlines remain up to
/// the end of the text.
proof fn lemma_nl_tail_skip(s: Seq<char>, a: nat, b: nat)
    requires
        a <= b <= s.len(),
        forall|i: int| a <= i < b ==> s[i] != '\n',
    ensures
        nl_count(s, a, s.len()) == nl_count(s, b, s.len()),
{
    lemma_nl_count_split(s, a, b, s.len() as nat);
    lemma_nl_count_none(s, a, b);
}

/// Law: the line counter advances exactly once per newline character of the
/// input, newlines inside comments and string literals included. Scanning
/// from `pos` with the counter at `line` ends with the counter at `line`
/// plus the number of newlines from `pos` to the end of the text.
pub proof fn lemma_scan_line_count(s: Seq<char>, pos: nat, line: nat)
    requires
        pos <= s.len(),
    ensures
        scan_from(s, pos, line).end_line == line + nl_count(s, pos, s.len()),
    decreases s.len() - pos,
{
    if pos >= s.len() {
        assert(nl_count(s, pos, s.len()) == 0);
    } else {
        let c = s[pos as int];
        if model::single_kind(c) is Some {
            lemma_scan_line_count(s, (pos + 1) as nat, line);
            lemma_nl_tail_skip(s, pos, (pos + 1) as nat);
        } else if model::op_kinds(c) is Some {
            if pos + 1 < s.len() && s[pos as int + 1] == '=' {
                lemma_scan_line_count(s, (pos + 2) as nat, line);
                lemma_nl_tail_skip(s, pos, (pos + 2) as nat);
            } else {
                lemma_scan_line_count(s, (pos + 1) as nat, line);
                lemma_nl_tail_skip(s, pos, (pos + 1) as nat);
            }
        } else if c == '/' {
            if pos + 1 < s.len() && s[pos as int + 1] == '/' {
                let ce = comment_end(s, (pos + 2) as nat);
                lemma_comment_end(s, (pos + 2) as nat);
                lemma_scan_line_count(s, ce, line);
                assert forall|i: int| pos <= i < ce implies s[i] != '\n' by {
                    if i >= pos + 2 {
                        assert(s[i] != '\n');
                    }
                }
                lemma_nl_tail_skip(s, pos, ce);
            } else {
                lemma_scan_line_count(s, (pos + 1) as nat, line);
                lemma_nl_tail_skip(s, pos, (pos + 1) as nat);
            }
        } else if c == ' ' || c == '\r' || c == '\t' {
            lemma_scan_line_count(s, (pos + 1) as nat, line);
            lemma_nl_tail_skip(s, pos, (pos + 1) as nat);
        } else if c == '\n' {
            lemma_scan_line_count(s, (pos + 1) as nat, (line + 1) as nat);
            lemma_nl_count_split(s, pos, (pos + 1) as nat, s.len() as nat);
            lemma_nl_count_one(s, pos);
        } else if c == '"' {
            let close = string_close(s, (pos + 1) as nat);
            let nl = nl_count(s, (pos + 1) as nat, close);
            lemma_string_close(s, (pos + 1) as nat);
            if close >= s.len() {
                lemma_scan_line_count(s, close, (line + nl) as nat);
                lemma_nl_count_split(s, pos, (pos + 1) as nat, s.len() as nat);
                lemma_nl_count_one(s, pos);
            } else {
                lemma_scan_line_count(s, (close + 1) as nat, (line + nl) as nat);
                lemma_nl_count_split(s, pos, (pos + 1) as nat, s.len() as nat);
                lemma_nl_count_split(s, (pos + 1) as nat, close, s.len() as nat);
                lemma_nl_count_split(s, close, (close + 1) as nat, s.len() as nat);
                lemma_nl_count_one(s, pos);
                lemma_nl_count_one(s, close);
            }
        } else if model::is_digit(c) {
            let end = number_end(s, pos);
            lemma_number_end(s, pos);
            lemma_scan_line_count(s, end, line);
            assert forall|i: int| pos <= i < end implies s[i] != '\n' by {
                if i == pos {
                    assert(!model::is_digit('\n'));
                }
            }
            lemma_nl_tail_skip(s, pos, end);
        } else if model::is_alpha(c) {
            let end = ident_end(s, (pos + 1) as nat);
            lemma_ident_end(s, (pos + 1) as nat);
            lemma_scan_line_count(s, end, line);
            assert(!model::is_alpha('\n'));
            assert(!model::is_alpha_numeric('\n'));
            assert forall|i: int| pos <= i < end implies s[i] != '\n' by {
                if i > pos {
                    assert(model::is_alpha_numeric(s[i]));
                }
            }
            lemma_nl_tail_skip(s, pos, end);
        } else {
            lemma_scan_line_count(s, (pos + 1) as nat, line);
            lemma_nl_tail_skip(s, pos, (pos + 1) as nat);
        }
    }
}

/// Law: every scan ends in exactly one end-of-input sentinel. The token
/// sequence is never empty, its last element is the `Eof` token with an
/// empty lexeme at the final line, and no earlier token is an `Eof` token.
pub proof fn lemma_scan_eof_sentinel(s: Seq<char>, pos: nat, line: nat)
    requires
        pos <= s.len(),
    ensures
        scan_from(s, pos, line).tokens.len() >= 1,
        scan_from(s, pos, line).tokens.last().kind == TokenKind::Eof,
        scan_from(s, pos, line).tokens.last().lexeme == Seq::<char>::empty(),
        scan_from(s, pos, line).tokens.last().line == scan_from(s, pos, line).end_line,
        forall|i: int|
            0 <= i < scan_from(s, pos, line).tokens.len() - 1 ==> scan_from(
                s,
                pos,
                line,
            ).tokens[i].kind != TokenKind::Eof,
    decreases s.len() - pos,
{
    if pos >= s.len() {
    } else {
        let c = s[pos as int];
        if model::single_kind(c) is Some {
            lemma_scan_eof_sentinel(s, (pos + 1) as nat, line);
        } else if model::op_kinds(c) is Some {
            if pos + 1 < s.len() && s[pos as int + 1] == '=' {
                lemma_scan_eof_sentinel(s, (pos + 2) as nat, line);
            } else {
                lemma_scan_eof_sentinel(s, (pos + 1) as nat, line);
            }
        } else if c == '/' {
            if pos + 1 < s.len() && s[pos as int + 1] == '/' {
                lemma_comment_end(s, (pos + 2) as nat);
                lemma_scan_eof_sentinel(s, comment_end(s, (pos + 2) as nat), line);
            } else {
                lemma_scan_eof_sentinel(s, (pos + 1) as nat, line);
            }
        } else if c == ' ' || c == '\r' || c == '\t' {
            lemma_scan_eof_sentinel(s, (pos + 1) as nat, line);
        } else if c == '\n' {
            lemma_scan_eof_sentinel(s, (pos + 1) as nat, (line + 1) as nat);
        } else if c == '"' {
            let close = string_close(s, (pos + 1) as nat);
            let nl = nl_count(s, (pos + 1) as nat, close);
            lemma_string_close(s, (pos + 1) as nat);
            if close >= s.len() {
                lemma_scan_eof_sentinel(s, close, (line + nl) as nat);
            } else {
                lemma_scan_eof_sentinel(s, (close + 1) as nat, (line + nl) as nat);
            }
        } else if model::is_digit(c) {
            lemma_number_end(s, pos);
            lemma_scan_eof_sentinel(s, number_end(s, pos), line);
        } else if model::is_alpha(c) {
            lemma_ident_end(s, (pos + 1) as nat);
            lemma_scan_eof_sentinel(s, ident_end(s, (pos + 1) as nat), line);
        } else {
            lemma_scan_eof_sentinel(s, (pos + 1) as nat, line);
        }
    }
}

/// Law: on input made only of single-character punctuation, the scan yields
/// one token per input character, of the matching kind, in input order, all
/// on the starting line, followed by the end-of-input sentinel, and no
/// diagnostics.
proof fn lemma_punct_scan_from(s: Seq<char>, pos: nat, line: nat)
    requires
        pos <= s.len(),
        forall|i: int| 0 <= i < s.len() ==> is_single_punct(s[i]),
    ensures
        scan_from(s, pos, line).tokens.len() == s.len() - pos + 1,
        forall|i: int|
            0 <= i < s.len() - pos ==> scan_from(s, pos, line).tokens[i].kind
                == model::single_kind(s[pos + i]).unwrap(),
        forall|i: int|
            0 <= i < s.len() - pos ==> scan_from(s, pos, line).tokens[i].lexeme == s.subrange(
                pos + i,
                pos + i + 1,
            ),
        forall|i: int| 0 <= i < s.len() - pos ==> scan_from(s, pos, line).tokens[i].line == line,
        scan_from(s, pos, line).tokens.last().kind == TokenKind::Eof,
        scan_from(s, pos, line).diags == Seq::<DiagModel>::empty(),
        scan_from(s, pos, line).end_line == line,
    decreases s.len() - pos,
{
    if pos >= s.len() {
    } else {
        assert(is_single_punct(s[pos as int]));
        lemma_punct_scan_from(s, (pos + 1) as nat, line);
        let out = scan_from(s, pos, line);
        let rest = scan_from(s, (pos + 1) as nat, line);
        assert forall|i: int|
            0 <= i < s.len() - pos implies out.tokens[i].kind == model::single_kind(
            s[pos + i],
        ).unwrap() && out.tokens[i].lexeme == s.subrange(pos + i, pos + i + 1)
            && out.tokens[i].line == line by {
            if i > 0 {
                assert(out.tokens[i] == rest.tokens[i - 1]);
                assert(rest.tokens[i - 1].kind == model::single_kind(s[pos + 1 + (i - 1)]).unwrap());
                assert(rest.tokens[i - 1].lexeme == s.subrange(pos + 1 + (i - 1), pos + 1 + (i - 1) + 1));
                assert(rest.tokens[i - 1].line == line);
            }
        }
    }
}

/// Law: on input containing only single-character punctuation from the
/// fixed set, the output token count equals the input character count plus
/// one for the end-of-input sentinel, and the tokens carry the matching
/// kinds and one-character lexemes in input order, with no diagnostics.
pub proof fn lemma_punct_only_scan(s: Seq<char>)
    requires
        forall|i: int| 0 <= i < s.len() ==> is_single_punct(s[i]),
    ensures
        scan_from(s, 0, 1).tokens.len() == s.len() + 1,
        forall|i: int|
            0 <= i < s.len() ==> scan_from(s, 0, 1).tokens[i].kind == model::single_kind(
                s[i],
            ).unwrap(),
        forall|i: int|
            0 <= i < s.len() ==> scan_from(s, 0, 1).tokens[i].lexeme == s.subrange(i, i + 1),
        forall|i: int| 0 <= i < s.len() ==> scan_from(s, 0, 1).tokens[i].line == 1,
        scan_from(s, 0, 1).tokens.last().kind == TokenKind::Eof,
        scan_from(s, 0, 1).diags == Seq::<DiagModel>::empty(),
{
    lemma_punct_scan_from(s, 0, 1);
}

proof fn lemma_mono_weaken(a: Seq<TokenModel>, lo: nat, hi: nat)
    requires
        lo <= hi,
        forall|i: int| 0 <= i < a.len() ==> a[i].line >= hi,
    ensures
        forall|i: int| 0 <= i < a.len() ==> a[i].line >= lo,
{
}

proof fn lemma_mono_cons(t: TokenModel, a: Seq<TokenModel>, lo: nat, hi: nat, out: Seq<TokenModel>)
    requires
        out == seq![t] + a,
        t.line == lo,
        lo <= hi,
        forall|i: int| 0 <= i < a.len() ==> a[i].line >= hi,
        forall|i: int, j: int| 0 <= i <= j < a.len() ==> a[i].line <= a[j].line,
    ensures
        forall|i: int| 0 <= i < out.len() ==> out[i].line >= lo,
        forall|i: int, j: int| 0 <= i <= j < out.len() ==> out[i].line <= out[j].line,
{
    assert forall|i: int| 0 <= i < out.len() implies out[i].line >= lo by {
        if i > 0 {
            assert(out[i] == a[i - 1]);
        }
    }
    assert forall|i: int, j: int| 0 <= i <= j < out.len() implies out[i].line <= out[j].line by {
        if i > 0 {
            assert(out[i] == a[i - 1]);
            assert(out[j] == a[j - 1]);
        } else if j > 0 {
            assert(out[j] == a[j - 1]);
        }
    }
}

/// Law: token lines never go backward. Every token of a scan that starts
/// with the line counter at `line` lies on line `line` or later, and the
/// lines are non-decreasing across the produced sequence.
pub proof fn lemma_scan_line_monotone(s: Seq<char>, pos: nat, line: nat)
    requires
        pos <= s.len(),
    ensures
        forall|i: int|
            0 <= i < scan_from(s, pos, line).tokens.len() ==> scan_from(
                s,
                pos,
                line,
            ).tokens[i].line >= line,
        forall|i: int, j: int|
            0 <= i <= j < scan_from(s, pos, line).tokens.len() ==> scan_from(
                s,
                pos,
                line,
            ).tokens[i].line <= scan_from(s, pos, line).tokens[j].line,
    decreases s.len() - pos,
{
    if pos >= s.len() {
    } else {
        let c = s[pos as int];
        let out = scan_from(s, pos, line);
        if model::single_kind(c) is Some {
            lemma_scan_line_monotone(s, (pos + 1) as nat, line);
            let rest = scan_from(s, (pos + 1) as nat, line);
            lemma_mono_cons(out.tokens[0], rest.tokens, line, line, out.tokens);
        } else if model::op_kinds(c) is Some {
            if pos + 1 < s.len() && s[pos as int + 1] == '=' {
                lemma_scan_line_monotone(s, (pos + 2) as nat, line);
                lemma_mono_cons(
                    out.tokens[0],
                    scan_from(s, (pos + 2) as nat, line).tokens,
                    line,
                    line,
                    out.tokens,
                );
            } else {
                lemma_scan_line_monotone(s, (pos + 1) as nat, line);
                lemma_mono_cons(
                    out.tokens[0],
                    scan_from(s, (pos + 1) as nat, line).tokens,
                    line,
                    line,
                    out.tokens,
                );
            }
        } else if c == '/' {
            if pos + 1 < s.len() && s[pos as int + 1] == '/' {
                lemma_comment_end(s, (pos + 2) as nat);
                lemma_scan_line_monotone(s, comment_end(s, (pos + 2) as nat), line);
            } else {
                lemma_scan_line_monotone(s, (pos + 1) as nat, line);
                lemma_mono_cons(
                    out.tokens[0],
                    scan_from(s, (pos + 1) as nat, line).tokens,
                    line,
                    line,
                    out.tokens,
                );
            }
        } else if c == ' ' || c == '\r' || c == '\t' {
            lemma_scan_line_monotone(s, (pos + 1) as nat, line);
        } else if c == '\n' {
            lemma_scan_line_monotone(s, (pos + 1) as nat, (line + 1) as nat);
            lemma_mono_weaken(scan_from(s, (pos + 1) as nat, (line + 1) as nat).tokens, line, (line + 1) as nat);
        } else if c == '"' {
            let close = string_close(s, (pos + 1) as nat);
            let nl = nl_count(s, (pos + 1) as nat, close);
            lemma_string_close(s, (pos + 1) as nat);
            if close >= s.len() {
                lemma_scan_line_monotone(s, close, (line + nl) as nat);
                lemma_mono_weaken(scan_from(s, close, (line + nl) as nat).tokens, line, (line + nl) as nat);
            } else {
                lemma_scan_line_monotone(s, (close + 1) as nat, (line + nl) as nat);
                lemma_mono_cons(
                    out.tokens[0],
                    scan_from(s, (close + 1) as nat, (line + nl) as nat).tokens,
                    line,
                    (line + nl) as nat,
                    out.tokens,
                );
            }
        } else if model::is_digit(c) {
            lemma_number_end(s, pos);
            lemma_scan_line_monotone(s, number_end(s, pos), line);
            lemma_mono_cons(
                out.tokens[0],
                scan_from(s, number_end(s, pos), line).tokens,
                line,
                line,
                out.tokens,
            );
        } else if model::is_alpha(c) {
            lemma_ident_end(s, (pos + 1) as nat);
            lemma_scan_line_monotone(s, ident_end(s, (pos + 1) as nat), line);
            lemma_mono_cons(
                out.tokens[0],
                scan_from(s, ident_end(s, (pos + 1) as nat), line).tokens,
                line,
                line,
                out.tokens,
            );
        } else {
            lemma_scan_line_monotone(s, (pos + 1) as nat, line);
        }
    }
}

/// Law: scanning is deterministic and depends on the source text alone. Any
/// two token and diagnostic sequences that the scanner's contract admits for
/// the same text are equal.
pub proof fn lemma_scan_deterministic(
    s: Seq<char>,
    tokens1: Seq<TokenModel>,
    diags1: Seq<DiagModel>,
    tokens2: Seq<TokenModel>,
    diags2: Seq<DiagModel>,
)
    requires
        tokens1 == scan_from(s, 0, 1).tokens,
        diags1 == scan_from(s, 0, 1).diags,
        tokens2 == scan_from(s, 0, 1).tokens,
        diags2 == scan_from(s, 0, 1).diags,
    ensures
        tokens1 == tokens2,
        diags1 == diags2,
{
}

} // verus!
