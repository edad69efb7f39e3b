use rox::error::ErrorReporter;
use rox::scanner::Scanner;
use rox::token::{Literal, Token, TokenKind};

fn scan(source: &str) -> (Vec<Token>, ErrorReporter) {
    let scanner = Scanner::new(source.to_string());
    let mut reporter = ErrorReporter::new();
    let tokens = scanner.scan_tokens(&mut reporter);
    (tokens, reporter)
}

fn kinds(tokens: &[Token]) -> Vec<TokenKind> {
    tokens.iter().map(|t| t.kind).collect()
}

#[test]
fn punct_sequence() {
    let (tokens, reporter) = scan("(){},.-+;*");
    assert_eq!(tokens.len(), 11);
    let expected = [
        TokenKind::LeftParen,
        TokenKind::RightParen,
        TokenKind::LeftBrace,
        TokenKind::RightBrace,
        TokenKind::Comma,
        TokenKind::Dot,
        TokenKind::Minus,
        TokenKind::Plus,
        TokenKind::Semicolon,
        TokenKind::Star,
        TokenKind::Eof,
    ];
    for (i, k) in expected.iter().enumerate() {
        assert_eq!(tokens[i].kind, *k);
        assert_eq!(tokens[i].line, 1);
    }
    let lexemes = ["(", ")", "{", "}", ",", ".", "-", "+", ";", "*", ""];
    for (i, l) in lexemes.iter().enumerate() {
        assert_eq!(tokens[i].lexeme, *l);
    }
    assert!(!reporter.had_error());
    assert!(reporter.diagnostics().is_empty());
}

#[test]
fn comment_then_text() {
    let (tokens, reporter) = scan("//comment\ntext");
    assert_eq!(kinds(&tokens), vec![TokenKind::Identifier, TokenKind::Eof]);
    assert_eq!(tokens[0].lexeme, "text");
    assert_eq!(tokens[0].line, 2);
    assert!(!reporter.had_error());
}

#[test]
fn string_literal() {
    let (tokens, reporter) = scan("\"abc\"");
    assert_eq!(kinds(&tokens), vec![TokenKind::Str, TokenKind::Eof]);
    assert_eq!(tokens[0].lexeme, "\"abc\"");
    assert_eq!(tokens[0].literal, Literal::Str("abc".to_string()));
    assert_eq!(tokens[0].line, 1);
    assert!(!reporter.had_error());
}

#[test]
fn unterminated_string() {
    let (tokens, reporter) = scan("\"abc");
    assert_eq!(kinds(&tokens), vec![TokenKind::Eof]);
    assert!(reporter.had_error());
    let diags = reporter.diagnostics();
    assert_eq!(diags.len(), 1);
    assert_eq!(diags[0].line, 1);
    assert_eq!(diags[0].message, "Unterminated string.");
}

#[test]
fn unterminated_string_reports_start_line() {
    let (tokens, reporter) = scan("x\n\"a\nb");
    assert_eq!(kinds(&tokens), vec![TokenKind::Identifier, TokenKind::Eof]);
    let diags = reporter.diagnostics();
    assert_eq!(diags.len(), 1);
    assert_eq!(diags[0].message, "Unterminated string.");
    assert_eq!(diags[0].line, 2);
    // The line counter still advanced past the newline inside the string.
    assert_eq!(tokens[1].line, 3);
}

#[test]
fn number_with_fraction() {
    let (tokens, reporter) = scan("123.45");
    assert_eq!(kinds(&tokens), vec![TokenKind::Number, TokenKind::Eof]);
    assert_eq!(tokens[0].lexeme, "123.45");
    match &tokens[0].literal {
        Literal::Num(text) => {
            assert_eq!(text, "123.45");
            assert_eq!(text.parse::<f64>().unwrap(), 123.45);
        }
        other => panic!("expected a numeric literal, got {:?}", other),
    }
    assert!(!reporter.had_error());
}

#[test]
fn number_trailing_dot_not_consumed() {
    let (tokens, reporter) = scan("123.");
    assert_eq!(
        kinds(&tokens),
        vec![TokenKind::Number, TokenKind::Dot, TokenKind::Eof]
    );
    assert_eq!(tokens[0].lexeme, "123");
    assert_eq!(tokens[0].literal, Literal::Num("123".to_string()));
    assert_eq!(tokens[1].lexeme, ".");
    assert!(!reporter.had_error());
}

#[test]
fn fraction_needs_leading_digit() {
    let (tokens, _) = scan(".5");
    assert_eq!(
        kinds(&tokens),
        vec![TokenKind::Dot, TokenKind::Number, TokenKind::Eof]
    );
    assert_eq!(tokens[1].lexeme, "5");
}

#[test]
fn number_with_two_dots() {
    let (tokens, _) = scan("1.2.3");
    assert_eq!(
        kinds(&tokens),
        vec![
            TokenKind::Number,
            TokenKind::Dot,
            TokenKind::Number,
            TokenKind::Eof
        ]
    );
    assert_eq!(tokens[0].lexeme, "1.2");
    assert_eq!(tokens[2].lexeme, "3");
}

#[test]
fn keyword_matching_is_exact_text() {
    let (tokens, reporter) = scan("and form formless");
    assert_eq!(
        kinds(&tokens),
        vec![
            TokenKind::And,
            TokenKind::Identifier,
            TokenKind::Identifier,
            TokenKind::Eof
        ]
    );
    assert_eq!(tokens[1].lexeme, "form");
    assert_eq!(tokens[2].lexeme, "formless");
    assert!(!reporter.had_error());
}

#[test]
fn all_keywords() {
    let (tokens, reporter) =
        scan("and class else false for fun if nil or print return super this true var while");
    assert_eq!(
        kinds(&tokens),
        vec![
            TokenKind::And,
            TokenKind::Class,
            TokenKind::Else,
            TokenKind::False,
            TokenKind::For,
            TokenKind::Fun,
            TokenKind::If,
            TokenKind::Nil,
            TokenKind::Or,
            TokenKind::Print,
            TokenKind::Return,
            TokenKind::Super,
            TokenKind::This,
            TokenKind::True,
            TokenKind::Var,
            TokenKind::While,
            TokenKind::Eof
        ]
    );
    assert!(!reporter.had_error());
}

#[test]
fn operators_standalone() {
    let cases = [
        ("<=", TokenKind::LessEqual),
        ("<", TokenKind::Less),
        ("==", TokenKind::EqualEqual),
        ("=", TokenKind::Equal),
        ("!=", TokenKind::BangEqual),
        ("!", TokenKind::Bang),
        (">", TokenKind::Greater),
        (">=", TokenKind::GreaterEqual),
    ];
    for (text, kind) in cases.iter() {
        let (tokens, reporter) = scan(text);
        assert_eq!(tokens.len(), 2, "input {:?}", text);
        assert_eq!(tokens[0].kind, *kind, "input {:?}", text);
        assert_eq!(tokens[0].lexeme, *text, "input {:?}", text);
        assert_eq!(tokens[1].kind, TokenKind::Eof);
        assert!(!reporter.had_error());
    }
}

#[test]
fn operator_pair_split_by_space() {
    let (tokens, _) = scan("! =");
    assert_eq!(
        kinds(&tokens),
        vec![TokenKind::Bang, TokenKind::Equal, TokenKind::Eof]
    );
}

#[test]
fn slash_is_division() {
    let (tokens, reporter) = scan("1/2");
    assert_eq!(
        kinds(&tokens),
        vec![
            TokenKind::Number,
            TokenKind::Slash,
            TokenKind::Number,
            TokenKind::Eof
        ]
    );
    assert!(!reporter.had_error());
}

#[test]
fn scanning_is_deterministic() {
    let source = "var x = 1.5; // note\nprint \"a\nb\"; @ !=";
    let (tokens1, reporter1) = scan(source);
    let (tokens2, reporter2) = scan(source);
    assert_eq!(tokens1, tokens2);
    assert_eq!(reporter1.diagnostics(), reporter2.diagnostics());
    assert_eq!(reporter1.had_error(), reporter2.had_error());
}

#[test]
fn line_counter_counts_every_newline() {
    let (tokens, reporter) = scan("a\n//c\n\"x\ny\"\nb");
    assert_eq!(
        kinds(&tokens),
        vec![
            TokenKind::Identifier,
            TokenKind::Str,
            TokenKind::Identifier,
            TokenKind::Eof
        ]
    );
    assert_eq!(tokens[0].line, 1);
    // The string token starts on line 3; the newline inside it still counts.
    assert_eq!(tokens[1].line, 3);
    assert_eq!(tokens[1].literal, Literal::Str("x\ny".to_string()));
    assert_eq!(tokens[2].line, 5);
    assert_eq!(tokens[3].line, 5);
    assert!(!reporter.had_error());
}

#[test]
fn empty_input() {
    let (tokens, reporter) = scan("");
    assert_eq!(tokens.len(), 1);
    assert_eq!(tokens[0].kind, TokenKind::Eof);
    assert_eq!(tokens[0].lexeme, "");
    assert_eq!(tokens[0].line, 1);
    assert!(!reporter.had_error());
}

#[test]
fn whitespace_emits_nothing() {
    let (tokens, reporter) = scan(" \r\t(");
    assert_eq!(kinds(&tokens), vec![TokenKind::LeftParen, TokenKind::Eof]);
    assert_eq!(tokens[0].line, 1);
    assert!(!reporter.had_error());
}

#[test]
fn unexpected_character() {
    let (tokens, reporter) = scan("@");
    assert_eq!(kinds(&tokens), vec![TokenKind::Eof]);
    assert!(reporter.had_error());
    let diags = reporter.diagnostics();
    assert_eq!(diags.len(), 1);
    assert_eq!(diags[0].line, 1);
    assert_eq!(diags[0].message, "Unexpected character: @");
}

#[test]
fn scan_continues_after_errors() {
    let (tokens, reporter) = scan("@#+");
    assert_eq!(kinds(&tokens), vec![TokenKind::Plus, TokenKind::Eof]);
    let diags = reporter.diagnostics();
    assert_eq!(diags.len(), 2);
    assert_eq!(diags[0].message, "Unexpected character: @");
    assert_eq!(diags[1].message, "Unexpected character: #");
    assert!(reporter.had_error());
}

#[test]
fn multibyte_character_is_reported_whole() {
    let (tokens, reporter) = scan("é+");
    assert_eq!(kinds(&tokens), vec![TokenKind::Plus, TokenKind::Eof]);
    let diags = reporter.diagnostics();
    assert_eq!(diags.len(), 1);
    assert_eq!(diags[0].message, "Unexpected character: é");
}

#[test]
fn multibyte_inside_string() {
    let (tokens, reporter) = scan("\"héllo\"");
    assert_eq!(kinds(&tokens), vec![TokenKind::Str, TokenKind::Eof]);
    assert_eq!(tokens[0].literal, Literal::Str("héllo".to_string()));
    assert_eq!(tokens[0].lexeme, "\"héllo\"");
    assert!(!reporter.had_error());
}

#[test]
fn multibyte_inside_comment() {
    let (tokens, reporter) = scan("//héllo\nx");
    assert_eq!(kinds(&tokens), vec![TokenKind::Identifier, TokenKind::Eof]);
    assert_eq!(tokens[0].lexeme, "x");
    assert_eq!(tokens[0].line, 2);
    assert!(!reporter.had_error());
}

#[test]
fn string_followed_by_token() {
    let (tokens, _) = scan("\"a\"b");
    assert_eq!(
        kinds(&tokens),
        vec![TokenKind::Str, TokenKind::Identifier, TokenKind::Eof]
    );
    assert_eq!(tokens[1].lexeme, "b");
}

#[test]
fn identifiers_with_digits_and_underscores() {
    let (tokens, reporter) = scan("_ab1 x_2");
    assert_eq!(
        kinds(&tokens),
        vec![TokenKind::Identifier, TokenKind::Identifier, TokenKind::Eof]
    );
    assert_eq!(tokens[0].lexeme, "_ab1");
    assert_eq!(tokens[1].lexeme, "x_2");
    assert!(!reporter.had_error());
}

#[test]
fn comment_at_end_of_input() {
    let (tokens, reporter) = scan("x //done");
    assert_eq!(kinds(&tokens), vec![TokenKind::Identifier, TokenKind::Eof]);
    assert!(!reporter.had_error());
}

#[test]
fn empty_string_literal() {
    let (tokens, reporter) = scan("\"\"");
    assert_eq!(kinds(&tokens), vec![TokenKind::Str, TokenKind::Eof]);
    assert_eq!(tokens[0].literal, Literal::Str(String::new()));
    assert!(!reporter.had_error());
}
