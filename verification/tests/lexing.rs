use basic2c::lexer::LexError;
use basic2c::lexer::Lexer;
use basic2c::lexer::Token;

fn tokens_of(src: &str) -> Vec<Token> {
    let mut lexer = Lexer::new(src);
    lexer.tokenize().expect("lexing failed")
}

#[test]
fn keywords_are_case_insensitive() {
    assert_eq!(tokens_of("let")[0], Token::Let);
    assert_eq!(tokens_of("LET")[0], Token::Let);
    assert_eq!(tokens_of("Let")[0], Token::Let);
    assert_eq!(tokens_of("lEt")[0], Token::Let);
    assert_eq!(tokens_of("print")[0], Token::Print);
    assert_eq!(tokens_of("GOTO")[0], Token::Goto);
}

#[test]
fn keyword_with_suffix_is_identifier() {
    assert_eq!(tokens_of("Let1")[0], Token::Identifier(String::from("Let1")));
    assert_eq!(tokens_of("PRINTER")[0], Token::Identifier(String::from("PRINTER")));
}

#[test]
fn identifier_case_is_preserved() {
    assert_eq!(tokens_of("CouNT_2")[0], Token::Identifier(String::from("CouNT_2")));
}

#[test]
fn integer_literal() {
    assert_eq!(tokens_of("42")[0], Token::Number(42));
    assert_eq!(tokens_of("0")[0], Token::Number(0));
}

#[test]
fn integer_literal_overflow_defaults_to_zero() {
    assert_eq!(tokens_of("99999999999999999999")[0], Token::Number(0));
}

#[test]
fn float_literal_digits_are_normalized() {
    assert_eq!(
        tokens_of("1.50")[0],
        Token::Float { whole: String::from("1"), frac: String::from("5") },
    );
    assert_eq!(
        tokens_of("007.25")[0],
        Token::Float { whole: String::from("7"), frac: String::from("25") },
    );
    assert_eq!(
        tokens_of("2.")[0],
        Token::Float { whole: String::from("2"), frac: String::from("") },
    );
}

#[test]
fn leading_dot_float_reads_as_zero_point() {
    assert_eq!(
        tokens_of(".5")[0],
        Token::Float { whole: String::from("0"), frac: String::from("5") },
    );
}

#[test]
fn second_dot_ends_the_float() {
    let toks = tokens_of("1.2.3");
    assert_eq!(toks[0], Token::Float { whole: String::from("1"), frac: String::from("2") });
    assert_eq!(toks[1], Token::Float { whole: String::from("0"), frac: String::from("3") });
}

#[test]
fn two_character_comparators_need_lookahead() {
    assert_eq!(tokens_of("<=")[0], Token::LessOrEqual);
    assert_eq!(tokens_of("<>")[0], Token::NotEqual);
    assert_eq!(tokens_of(">=")[0], Token::GreaterOrEqual);
    let toks = tokens_of("< >");
    assert_eq!(toks[0], Token::LessThan);
    assert_eq!(toks[1], Token::GreaterThan);
}

#[test]
fn punctuation_and_operators() {
    let toks = tokens_of("+ - * / ^ = , ; ( )");
    assert_eq!(
        toks,
        vec![
            Token::OperatorAdd,
            Token::OperatorSubtract,
            Token::OperatorMultiply,
            Token::OperatorDivide,
            Token::OperatorPower,
            Token::Equal,
            Token::Comma,
            Token::Semicolon,
            Token::LeftParen,
            Token::RightParen,
            Token::Eof,
        ],
    );
}

#[test]
fn newlines_are_tokens_and_spaces_are_skipped() {
    let toks = tokens_of("1 \t\r\n2");
    assert_eq!(toks, vec![Token::Number(1), Token::Newline, Token::Number(2), Token::Eof]);
}

#[test]
fn string_literal_has_no_escapes() {
    assert_eq!(tokens_of("\"a\\b\"")[0], Token::StrLit(String::from("a\\b")));
}

#[test]
fn unterminated_string_runs_to_end_of_input() {
    let toks = tokens_of("\"abc");
    assert_eq!(toks, vec![Token::StrLit(String::from("abc")), Token::Eof]);
}

#[test]
fn unterminated_string_swallows_newlines() {
    let toks = tokens_of("\"ab\ncd");
    assert_eq!(toks, vec![Token::StrLit(String::from("ab\ncd")), Token::Eof]);
}

#[test]
fn rem_discards_the_rest_of_the_line() {
    let toks = tokens_of("REM anything at all $%&\nPRINT");
    assert_eq!(toks, vec![Token::Rem, Token::Newline, Token::Print, Token::Eof]);
}

#[test]
fn unrecognized_character_is_a_lexical_error() {
    let mut lexer = Lexer::new("LET @");
    let err = lexer.tokenize().unwrap_err();
    assert_eq!(err, LexError { position: 4, ch: '@' });
}

#[test]
fn tokenize_ends_with_exactly_one_eof() {
    let toks = tokens_of("PRINT 1");
    assert_eq!(toks.last(), Some(&Token::Eof));
    assert_eq!(toks.iter().filter(|t| **t == Token::Eof).count(), 1);
}
