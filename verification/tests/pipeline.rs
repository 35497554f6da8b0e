use basic2c::CompileError;
use basic2c::compile;
use basic2c::lexer::LexError;
use basic2c::lexer::Token;
use basic2c::parser::ParseError;

/// The fixed frame around every generated program.
fn framed(vars: Option<&str>, body: &str) -> String {
    let mut s = String::from(
        "#include <stdio.h>\n#include <stdlib.h>\n#include <math.h>\n#include <time.h>\n\nint main() {\n    srand(time(NULL));\n",
    );
    if let Some(v) = vars {
        s.push_str("    double ");
        s.push_str(v);
        s.push_str(";\n\n");
    }
    s.push_str(body);
    s.push_str("\n    return 0;\n}\n");
    s
}

#[test]
fn precedence_renders_fully_parenthesized() {
    let out = compile("PRINT 2 + 3 * 4 ^ 2").unwrap();
    assert_eq!(
        out,
        framed(
            None,
            "    printf(\"%g \", (2.0 + (3.0 * pow(4.0, 2.0))));\n    printf(\"\\n\");\n",
        ),
    );
}

#[test]
fn subtraction_and_division_are_left_associative() {
    let out = compile("PRINT 8 - 4 - 2\nPRINT 8 / 4 / 2").unwrap();
    assert_eq!(
        out,
        framed(
            None,
            "    printf(\"%g \", ((8.0 - 4.0) - 2.0));\n    printf(\"\\n\");\n    printf(\"%g \", ((8.0 / 4.0) / 2.0));\n    printf(\"\\n\");\n",
        ),
    );
}

#[test]
fn label_and_jump_round_trip() {
    let out = compile("10 LET X = 1\n20 GOTO 10").unwrap();
    assert_eq!(
        out,
        framed(Some("X"), "line10:\n    X = 1.0;\nline20:\n    goto line10;\n"),
    );
}

#[test]
fn trailing_separator_suppresses_newline() {
    let out = compile("PRINT \"A\", \"B\";").unwrap();
    assert_eq!(
        out,
        framed(None, "    printf(\"%s\", \"A\");\n    printf(\"%s\", \"B\");\n"),
    );
}

#[test]
fn no_trailing_separator_emits_newline() {
    let out = compile("PRINT \"A\", \"B\"").unwrap();
    assert_eq!(
        out,
        framed(
            None,
            "    printf(\"%s\", \"A\");\n    printf(\"%s\", \"B\");\n    printf(\"\\n\");\n",
        ),
    );
}

#[test]
fn for_loop_bounds_pass_through_unchanged() {
    // FOR I = 5 TO 1 with the default step: the generated loop header
    // keeps the bounds as written, so the C loop runs zero times under
    // native comparison semantics; the generator itself does not
    // special-case it.
    let out = compile("FOR I = 5 TO 1\nNEXT").unwrap();
    assert_eq!(
        out,
        framed(Some("I"), "    for (I = 5.0; I <= 1.0; I += 1.0) {\n    }\n"),
    );
}

#[test]
fn for_loop_with_step_and_body() {
    let out = compile("FOR I = 1 TO 10 STEP 2\nLET A = I\nNEXT I").unwrap();
    assert_eq!(
        out,
        framed(
            Some("I, A"),
            "    for (I = 1.0; I <= 10.0; I += 2.0) {\n        A = I;\n    }\n",
        ),
    );
}

#[test]
fn pipeline_is_idempotent() {
    let src = "10 LET X = 1\n20 PRINT X\n30 IF X < 3 THEN GOTO 10\nEND";
    let first = compile(src).unwrap();
    let second = compile(src).unwrap();
    assert_eq!(first, second);
}

#[test]
fn keyword_case_variants_compile_identically() {
    let upper = compile("LET X = 1").unwrap();
    let lower = compile("let X = 1").unwrap();
    let mixed = compile("Let X = 1").unwrap();
    assert_eq!(upper, lower);
    assert_eq!(upper, mixed);
}

#[test]
fn unterminated_string_can_be_accepted() {
    // At this position the text to end-of-input becomes the string.
    let out = compile("PRINT \"AB").unwrap();
    assert_eq!(
        out,
        framed(None, "    printf(\"%s\", \"AB\");\n    printf(\"\\n\");\n"),
    );
}

#[test]
fn unterminated_string_can_fail_at_syntax_level() {
    // Here the string token lands where an expression is required.
    let err = compile("LET X = \"AB").unwrap_err();
    assert_eq!(
        err,
        CompileError::Parse(ParseError::UnexpectedExpressionToken {
            got: Token::StrLit(String::from("AB")),
        }),
    );
}

#[test]
fn lexical_error_aborts_compilation() {
    let err = compile("LET X = 1 @ 2").unwrap_err();
    assert_eq!(err, CompileError::Lex(LexError { position: 10, ch: '@' }));
}

#[test]
fn conditional_maps_comparators_to_c() {
    let out = compile("IF X = 1 THEN 99").unwrap();
    assert_eq!(
        out,
        framed(None, "    if (X == 1.0) {\n        goto line99;\n    }\n"),
    );
    let out2 = compile("IF X <> 1 THEN END").unwrap();
    assert_eq!(
        out2,
        framed(None, "    if (X != 1.0) {\n        return 0;\n    }\n"),
    );
}

#[test]
fn input_emits_prompt_and_read() {
    let out = compile("INPUT Z").unwrap();
    assert_eq!(
        out,
        framed(Some("Z"), "    printf(\"? \"); scanf(\"%lf\", &Z);\n"),
    );
}

#[test]
fn intrinsic_names_map_case_insensitively() {
    let out = compile("PRINT int(X)\nPRINT SQR(X)\nPRINT EXP(X)\nPRINT ABS(X)").unwrap();
    assert_eq!(
        out,
        framed(
            None,
            "    printf(\"%g \", floor(X));\n    printf(\"\\n\");\n    printf(\"%g \", sqrt(X));\n    printf(\"\\n\");\n    printf(\"%g \", exp(X));\n    printf(\"\\n\");\n    printf(\"%g \", fabs(X));\n    printf(\"\\n\");\n",
        ),
    );
}

#[test]
fn rnd_renders_as_a_call_not_a_value() {
    let out = compile("PRINT RND()").unwrap();
    assert_eq!(
        out,
        framed(
            None,
            "    printf(\"%g \", ((double)rand() / (double)RAND_MAX));\n    printf(\"\\n\");\n",
        ),
    );
}

#[test]
fn unrecognized_function_passes_through() {
    let out = compile("PRINT FOO(X, 2)").unwrap();
    assert_eq!(
        out,
        framed(None, "    printf(\"%g \", FOO(X, 2.0));\n    printf(\"\\n\");\n"),
    );
}

#[test]
fn float_literals_render_normalized() {
    let out = compile("PRINT 1.50\nPRINT .5\nPRINT 2.").unwrap();
    assert_eq!(
        out,
        framed(
            None,
            "    printf(\"%g \", 1.5);\n    printf(\"\\n\");\n    printf(\"%g \", 0.5);\n    printf(\"\\n\");\n    printf(\"%g \", 2);\n    printf(\"\\n\");\n",
        ),
    );
}

#[test]
fn huge_integer_literal_defaults_to_zero() {
    let out = compile("PRINT 99999999999999999999").unwrap();
    assert_eq!(
        out,
        framed(None, "    printf(\"%g \", 0.0);\n    printf(\"\\n\");\n"),
    );
}

#[test]
fn comment_emits_nothing_but_keeps_its_label() {
    let out = compile("10 REM setup\nPRINT 1").unwrap();
    assert_eq!(
        out,
        framed(None, "line10:\n    printf(\"%g \", 1.0);\n    printf(\"\\n\");\n"),
    );
}

#[test]
fn end_returns_early() {
    let out = compile("END\nPRINT 1").unwrap();
    assert_eq!(
        out,
        framed(None, "    return 0;\n    printf(\"%g \", 1.0);\n    printf(\"\\n\");\n"),
    );
}

#[test]
fn variables_declare_once_in_first_use_order() {
    let out = compile("LET B = 1\nLET A = 2\nLET B = 3\nINPUT C").unwrap();
    assert_eq!(
        out,
        framed(
            Some("B, A, C"),
            "    B = 1.0;\n    A = 2.0;\n    B = 3.0;\n    printf(\"? \"); scanf(\"%lf\", &C);\n",
        ),
    );
}

#[test]
fn nested_loop_bodies_flatten_into_one_declaration_set() {
    let out = compile("FOR I = 1 TO 2\nFOR J = 1 TO 2\nLET K = I\nNEXT J\nNEXT I").unwrap();
    assert_eq!(
        out,
        framed(
            Some("I, J, K"),
            "    for (I = 1.0; I <= 2.0; I += 1.0) {\n        for (J = 1.0; J <= 2.0; J += 1.0) {\n            K = I;\n        }\n    }\n",
        ),
    );
}

#[test]
fn duplicate_labels_are_emitted_leniently() {
    let out = compile("10 LET X = 1\n10 LET Y = 2").unwrap();
    assert_eq!(
        out,
        framed(Some("X, Y"), "line10:\n    X = 1.0;\nline10:\n    Y = 2.0;\n"),
    );
}

#[test]
fn empty_source_generates_the_bare_frame() {
    let out = compile("").unwrap();
    assert_eq!(out, framed(None, ""));
}

#[test]
fn stray_separator_ends_the_print_items() {
    // `PRINT , X` consumes the comma, sees no line end, and the
    // separator check then stops at `X`, which no statement form
    // accepts.
    let err = compile("PRINT , X").unwrap_err();
    assert_eq!(
        err,
        CompileError::Parse(ParseError::UnexpectedStatementToken {
            got: Token::Identifier(String::from("X")),
        }),
    );
}

#[test]
fn semicolon_at_line_end_alone_suppresses_newline() {
    let out = compile("PRINT \"A\";").unwrap();
    assert_eq!(out, framed(None, "    printf(\"%s\", \"A\");\n"));
}

#[test]
fn bare_line_number_keeps_its_label() {
    let out = compile("10\nLET X = 1").unwrap();
    assert_eq!(out, framed(Some("X"), "line10:\n    X = 1.0;\n"));
}

#[test]
fn whole_program_renders_exactly() {
    let src = "10 LET N = 5\n20 FOR I = 1 TO N\n30 PRINT \"square\", I * I\nNEXT I\n50 IF N > 3 THEN PRINT \"big\"\nEND";
    let out = compile(src).unwrap();
    assert_eq!(
        out,
        framed(
            Some("N, I"),
            "line10:\n    N = 5.0;\nline20:\n    for (I = 1.0; I <= N; I += 1.0) {\nline30:\n        printf(\"%s\", \"square\");\n        printf(\"%g \", (I * I));\n        printf(\"\\n\");\n    }\nline50:\n    if (N > 3.0) {\n        printf(\"%s\", \"big\");\n        printf(\"\\n\");\n    }\n    return 0;\n",
        ),
    );
}

#[test]
fn print_mixes_strings_and_expressions() {
    let out = compile("PRINT \"X is\", X + 1").unwrap();
    assert_eq!(
        out,
        framed(
            None,
            "    printf(\"%s\", \"X is\");\n    printf(\"%g \", (X + 1.0));\n    printf(\"\\n\");\n",
        ),
    );
}
