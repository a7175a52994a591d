use orus::compiler::lexer::{LexError, Lexer, Token};

fn lex(src: &str) -> Result<Vec<Token>, LexError> {
    Lexer::new(src).tokenize()
}

fn ident(s: &str) -> Token {
    Token::Identifier(s.to_string())
}

fn kw(s: &str) -> Token {
    Token::Keyword(s.to_string())
}

fn op(s: &str) -> Token {
    Token::Operator(s.to_string())
}

#[test]
fn lone_number_is_one_token() {
    for (text, value) in [("0", 0), ("7", 7), ("42", 42), ("1000", 1000), ("2147483647", 2147483647)] {
        assert_eq!(lex(text), Ok(vec![Token::Number(value), Token::EOF]));
    }
}

#[test]
fn number_with_leading_zeros() {
    assert_eq!(lex("007"), Ok(vec![Token::Number(7), Token::EOF]));
}

#[test]
fn number_too_large_fails() {
    assert_eq!(lex("2147483648"), Err(LexError::NumberOutOfRange));
    assert_eq!(lex("x = 99999999999999999999"), Err(LexError::NumberOutOfRange));
}

#[test]
fn empty_source_is_only_eof() {
    assert_eq!(lex(""), Ok(vec![Token::EOF]));
    assert_eq!(lex("\n   \n\t\n"), Ok(vec![Token::EOF]));
}

#[test]
fn keywords_and_identifiers() {
    assert_eq!(
        lex("mut for in print mutable _x9 Print"),
        Ok(vec![
            kw("mut"),
            kw("for"),
            kw("in"),
            kw("print"),
            ident("mutable"),
            ident("_x9"),
            ident("Print"),
            Token::EOF,
        ])
    );
}

#[test]
fn operators_and_ranges() {
    assert_eq!(
        lex("a+b-c*d/e=f"),
        Ok(vec![
            ident("a"),
            op("+"),
            ident("b"),
            op("-"),
            ident("c"),
            op("*"),
            ident("d"),
            op("/"),
            ident("e"),
            op("="),
            ident("f"),
            Token::EOF,
        ])
    );
    assert_eq!(
        lex("0..3 0..=3 a . b:"),
        Ok(vec![
            Token::Number(0),
            Token::RangeExclusive,
            Token::Number(3),
            Token::Number(0),
            Token::RangeInclusive,
            Token::Number(3),
            ident("a"),
            op("."),
            ident("b"),
            Token::Colon,
            Token::EOF,
        ])
    );
}

#[test]
fn unknown_characters_are_dropped() {
    assert_eq!(
        lex("print(sum) # ?"),
        Ok(vec![kw("print"), ident("sum"), Token::EOF])
    );
}

#[test]
fn indented_block_gives_one_indent_and_one_dedent() {
    let src = "for i in 0..3:\n    print i\nprint 1";
    assert_eq!(
        lex(src),
        Ok(vec![
            kw("for"),
            ident("i"),
            kw("in"),
            Token::Number(0),
            Token::RangeExclusive,
            Token::Number(3),
            Token::Colon,
            Token::Newline,
            Token::Indent,
            kw("print"),
            ident("i"),
            Token::Newline,
            Token::Dedent,
            kw("print"),
            Token::Number(1),
            Token::EOF,
        ])
    );
}

#[test]
fn open_levels_close_at_end_of_input() {
    let tokens = lex("a = 1\n  b = 2\n    c = 3").unwrap();
    let indents = tokens.iter().filter(|t| **t == Token::Indent).count();
    let dedents = tokens.iter().filter(|t| **t == Token::Dedent).count();
    assert_eq!(indents, 2);
    assert_eq!(dedents, 2);
    assert_eq!(tokens[tokens.len() - 3..].to_vec(), vec![Token::Dedent, Token::Dedent, Token::EOF]);
}

#[test]
fn dedent_over_two_levels_gives_two_dedents() {
    let tokens = lex("a\n  b\n    c\nd").unwrap();
    assert_eq!(
        tokens,
        vec![
            ident("a"),
            Token::Newline,
            Token::Indent,
            ident("b"),
            Token::Newline,
            Token::Indent,
            ident("c"),
            Token::Newline,
            Token::Dedent,
            Token::Dedent,
            ident("d"),
            Token::EOF,
        ]
    );
}

#[test]
fn blank_lines_make_no_tokens() {
    assert_eq!(
        lex("a\n\n    \nb"),
        Ok(vec![ident("a"), Token::Newline, ident("b"), Token::EOF])
    );
}
