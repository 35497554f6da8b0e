use basic2c::lexer::Lexer;
use basic2c::lexer::Token;
use basic2c::parser::BinOp;
use basic2c::parser::Expression;
use basic2c::parser::ParseError;
use basic2c::parser::Parser;
use basic2c::parser::Statement;
use basic2c::parser::StatementNode;

fn parse_ok(src: &str) -> Vec<Statement> {
    let mut lexer = Lexer::new(src);
    let tokens = lexer.tokenize().expect("lexing failed");
    let mut parser = Parser::new(tokens);
    parser.parse().expect("parsing failed")
}

fn parse_err(src: &str) -> ParseError {
    let mut lexer = Lexer::new(src);
    let tokens = lexer.tokenize().expect("lexing failed");
    let mut parser = Parser::new(tokens);
    parser.parse().unwrap_err()
}

#[test]
fn precedence_mixes_as_expected() {
    // 2 + 3 * 4 ^ 2 parses as 2 + (3 * (4 ^ 2))
    let ast = parse_ok("LET X = 2 + 3 * 4 ^ 2");
    assert_eq!(ast.len(), 1);
    match &ast[0].node {
        StatementNode::Let { var, value } => {
            assert_eq!(var, "X");
            match value {
                Expression::BinaryOp { left, operator: BinOp::Add, right } => {
                    assert!(matches!(**left, Expression::Number(2)));
                    match &**right {
                        Expression::BinaryOp { left, operator: BinOp::Multiply, right } => {
                            assert!(matches!(**left, Expression::Number(3)));
                            match &**right {
                                Expression::BinaryOp {
                                    left,
                                    operator: BinOp::Power,
                                    right,
                                } => {
                                    assert!(matches!(**left, Expression::Number(4)));
                                    assert!(matches!(**right, Expression::Number(2)));
                                },
                                other => panic!("expected power node, got {:?}", other),
                            }
                        },
                        other => panic!("expected multiply node, got {:?}", other),
                    }
                },
                other => panic!("expected add node, got {:?}", other),
            }
        },
        other => panic!("expected assignment, got {:?}", other),
    }
}

#[test]
fn power_is_right_associative() {
    let ast = parse_ok("LET X = 2 ^ 3 ^ 2");
    match &ast[0].node {
        StatementNode::Let { value, .. } => match value {
            Expression::BinaryOp { left, operator: BinOp::Power, right } => {
                assert!(matches!(**left, Expression::Number(2)));
                assert!(matches!(
                    **right,
                    Expression::BinaryOp { operator: BinOp::Power, .. }
                ));
            },
            other => panic!("expected power node, got {:?}", other),
        },
        other => panic!("expected assignment, got {:?}", other),
    }
}

#[test]
fn labels_attach_to_statements() {
    let ast = parse_ok("10 LET X = 1\n20 GOTO 10");
    assert_eq!(ast.len(), 2);
    assert_eq!(ast[0].label, Some(10));
    assert_eq!(ast[1].label, Some(20));
    assert!(matches!(ast[1].node, StatementNode::Goto(10)));
}

#[test]
fn if_then_line_number_becomes_implicit_jump() {
    let ast = parse_ok("IF 1 < 2 THEN 30");
    match &ast[0].node {
        StatementNode::If { op, then_part, .. } => {
            assert_eq!(*op, Token::LessThan);
            assert_eq!(then_part.label, None);
            assert!(matches!(then_part.node, StatementNode::Goto(30)));
        },
        other => panic!("expected conditional, got {:?}", other),
    }
}

#[test]
fn if_then_takes_a_nested_statement() {
    let ast = parse_ok("IF X >= 2 THEN PRINT X");
    match &ast[0].node {
        StatementNode::If { op, then_part, .. } => {
            assert_eq!(*op, Token::GreaterOrEqual);
            assert!(matches!(then_part.node, StatementNode::Print { .. }));
        },
        other => panic!("expected conditional, got {:?}", other),
    }
}

#[test]
fn for_loop_collects_body_and_optional_step() {
    let ast = parse_ok("FOR I = 1 TO 10 STEP 2\nPRINT I\nLET A = I\nNEXT I");
    match &ast[0].node {
        StatementNode::For { var, step, body, .. } => {
            assert_eq!(var, "I");
            assert!(step.is_some());
            assert_eq!(body.len(), 2);
        },
        other => panic!("expected loop, got {:?}", other),
    }
}

#[test]
fn for_loop_without_step_has_none() {
    let ast = parse_ok("FOR I = 5 TO 1\nNEXT");
    match &ast[0].node {
        StatementNode::For { step, body, .. } => {
            assert!(step.is_none());
            assert_eq!(body.len(), 0);
        },
        other => panic!("expected loop, got {:?}", other),
    }
}

#[test]
fn function_call_arguments_are_comma_separated() {
    let ast = parse_ok("LET X = FOO(1, 2, 3)");
    match &ast[0].node {
        StatementNode::Let { value, .. } => match value {
            Expression::FunctionCall { name, args } => {
                assert_eq!(name, "FOO");
                assert_eq!(args.len(), 3);
            },
            other => panic!("expected call, got {:?}", other),
        },
        other => panic!("expected assignment, got {:?}", other),
    }
}

#[test]
fn function_call_may_have_no_arguments() {
    let ast = parse_ok("LET X = RND()");
    match &ast[0].node {
        StatementNode::Let { value, .. } => match value {
            Expression::FunctionCall { args, .. } => assert_eq!(args.len(), 0),
            other => panic!("expected call, got {:?}", other),
        },
        other => panic!("expected assignment, got {:?}", other),
    }
}

#[test]
fn blank_lines_and_comments_are_tolerated() {
    let ast = parse_ok("\n\nREM hello\n\nPRINT 1\n\n");
    assert_eq!(ast.len(), 2);
    assert!(matches!(ast[0].node, StatementNode::Rem));
    assert!(matches!(ast[1].node, StatementNode::Print { .. }));
}

#[test]
fn missing_equal_reports_expected_token() {
    let err = parse_err("LET X 1");
    assert_eq!(err, ParseError::Expected { expected: Token::Equal, got: Token::Number(1) });
}

#[test]
fn missing_identifier_after_let() {
    let err = parse_err("LET 5 = 1");
    assert_eq!(err, ParseError::ExpectedIdentifier { got: Token::Number(5) });
}

#[test]
fn missing_line_number_after_goto() {
    let err = parse_err("GOTO X");
    assert_eq!(
        err,
        ParseError::ExpectedLineNumber { got: Token::Identifier(String::from("X")) },
    );
}

#[test]
fn missing_comparison_in_if() {
    let err = parse_err("IF 1 + 2 THEN END");
    assert_eq!(err, ParseError::ExpectedComparison { got: Token::Then });
}

#[test]
fn bad_expression_start_is_reported() {
    let err = parse_err("LET X = )");
    assert_eq!(err, ParseError::UnexpectedExpressionToken { got: Token::RightParen });
}

#[test]
fn bad_statement_start_is_reported() {
    let err = parse_err("5 + 2");
    assert_eq!(err, ParseError::UnexpectedStatementToken { got: Token::OperatorAdd });
}

#[test]
fn missing_close_paren_is_reported() {
    let err = parse_err("LET X = (1 + 2");
    assert_eq!(err, ParseError::Expected { expected: Token::RightParen, got: Token::Eof });
}

#[test]
fn missing_identifier_after_input() {
    let err = parse_err("INPUT 5");
    assert_eq!(err, ParseError::ExpectedIdentifier { got: Token::Number(5) });
}
