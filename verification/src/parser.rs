//! Recursive-descent parsing: consumes the token sequence and builds
//! the statement tree, with operator-precedence climbing for
//! expressions (`+ -` < `* /` < `^`, the last right-associative).
//!
//! The whole grammar is specified by the `sp_*` spec functions over
//! the token model, and the executable parser is proved to return
//! exactly what they say: the same tree on success, the same error on
//! the first structural violation.

use vstd::prelude::*;

use crate::lexer::SpecToken;
use crate::lexer::Token;

verus! {

// ----------------------------------------------------------------------
// The abstract syntax tree
// ----------------------------------------------------------------------

/// An expression tree; each node owns its children.
#[derive(Debug)]
pub enum Expression {
    Number(i64),
    Float { whole: String, frac: String },
    Variable(String),
    BinaryOp { left: Box<Expression>, operator: BinOp, right: Box<Expression> },
    FunctionCall { name: String, args: Vec<Expression> },
}

/// The five arithmetic operators.
#[derive(Debug, Clone)]
pub enum BinOp {
    Add,
    Subtract,
    Multiply,
    Divide,
    Power,
}

/// One item of a PRINT statement: a literal string or an expression.
#[derive(Debug)]
pub enum PrintItem {
    Expr(Expression),
    Str(String),
}

/// An executable line or block: an optional integer label (a jump
/// target) and the statement proper.
#[derive(Debug)]
pub struct Statement {
    pub label: Option<i64>,
    pub node: StatementNode,
}

/// The statement forms of the language.
#[derive(Debug)]
pub enum StatementNode {
    /// LET <var> = <expr>
    Let { var: String, value: Expression },
    /// PRINT <item1>, <item2>, ... [; or ,]
    Print { items: Vec<PrintItem>, newline: bool },
    /// FOR <var> = <start> TO <end> [STEP <step>] ... NEXT
    For {
        var: String,
        start: Expression,
        end: Expression,
        step: Option<Expression>,
        body: Vec<Statement>,
    },
    /// IF <left> <op> <right> THEN <line-or-statement>
    If { left: Expression, op: Token, right: Expression, then_part: Box<Statement> },
    /// GOTO <line>
    Goto(i64),
    /// INPUT <var>
    Input(String),
    /// REM <comment>
    Rem,
    /// END
    End,
}

// ----------------------------------------------------------------------
// Models of the tree
// ----------------------------------------------------------------------

/// Model of an expression.
pub enum SpecExpr {
    Number(int),
    Float(Seq<char>, Seq<char>),
    Variable(Seq<char>),
    BinaryOp(BinOp, Box<SpecExpr>, Box<SpecExpr>),
    FunctionCall(Seq<char>, Seq<SpecExpr>),
}

/// Model of a PRINT item.
pub enum SpecPrintItem {
    Expr(SpecExpr),
    Str(Seq<char>),
}

/// Model of a statement.
pub struct SpecStmt {
    pub label: Option<int>,
    pub node: SpecStmtNode,
}

/// Model of a statement body.
pub enum SpecStmtNode {
    Let { var: Seq<char>, value: SpecExpr },
    Print { items: Seq<SpecPrintItem>, newline: bool },
    For {
        var: Seq<char>,
        start: SpecExpr,
        end: SpecExpr,
        step: Option<SpecExpr>,
        body: Seq<SpecStmt>,
    },
    If { left: SpecExpr, op: SpecToken, right: SpecExpr, then_part: Box<SpecStmt> },
    Goto(int),
    Input(Seq<char>),
    Rem,
    End,
}

/// The model of an expression value.
pub open spec fn view_expr(e: Expression) -> SpecExpr
    decreases e,
{
    match e {
        Expression::Number(n) => SpecExpr::Number(n as int),
        Expression::Float { whole, frac } => SpecExpr::Float(whole@, frac@),
        Expression::Variable(name) => SpecExpr::Variable(name@),
        Expression::BinaryOp { left, operator, right } => SpecExpr::BinaryOp(
            operator,
            Box::new(view_expr(*left)),
            Box::new(view_expr(*right)),
        ),
        Expression::FunctionCall { name, args } => SpecExpr::FunctionCall(
            name@,
            view_expr_seq(args@),
        ),
    }
}

/// The model of a sequence of expressions, elementwise.
pub open spec fn view_expr_seq(s: Seq<Expression>) -> Seq<SpecExpr>
    decreases s,
{
    if s.len() == 0 {
        Seq::empty()
    } else {
        seq![view_expr(s[0])] + view_expr_seq(s.drop_first())
    }
}

/// The model of a PRINT item.
pub open spec fn view_item(it: PrintItem) -> SpecPrintItem {
    match it {
        PrintItem::Expr(e) => SpecPrintItem::Expr(view_expr(e)),
        PrintItem::Str(s) => SpecPrintItem::Str(s@),
    }
}

/// The model of a sequence of PRINT items, elementwise.
pub open spec fn view_item_seq(s: Seq<PrintItem>) -> Seq<SpecPrintItem>
    decreases s,
{
    if s.len() == 0 {
        Seq::empty()
    } else {
        seq![view_item(s[0])] + view_item_seq(s.drop_first())
    }
}

/// The model of a statement.
pub open spec fn view_stmt(st: Statement) -> SpecStmt
    decreases st,
{
    SpecStmt {
        label: match st.label {
            Some(l) => Some(l as int),
            None => None,
        },
        node: view_node(st.node),
    }
}

/// The model of a statement body.
pub open spec fn view_node(n: StatementNode) -> SpecStmtNode
    decreases n,
{
    match n {
        StatementNode::Let { var, value } => SpecStmtNode::Let {
            var: var@,
            value: view_expr(value),
        },
        StatementNode::Print { items, newline } => SpecStmtNode::Print {
            items: view_item_seq(items@),
            newline,
        },
        StatementNode::For { var, start, end, step, body } => SpecStmtNode::For {
            var: var@,
            start: view_expr(start),
            end: view_expr(end),
            step: match step {
                Some(e) => Some(view_expr(e)),
                None => None,
            },
            body: view_stmt_seq(body@),
        },
        StatementNode::If { left, op, right, then_part } => SpecStmtNode::If {
            left: view_expr(left),
            op: op.deep_view(),
            right: view_expr(right),
            then_part: Box::new(view_stmt(*then_part)),
        },
        StatementNode::Goto(line) => SpecStmtNode::Goto(line as int),
        StatementNode::Input(var) => SpecStmtNode::Input(var@),
        StatementNode::Rem => SpecStmtNode::Rem,
        StatementNode::End => SpecStmtNode::End,
    }
}

/// The model of a sequence of statements, elementwise.
pub open spec fn view_stmt_seq(s: Seq<Statement>) -> Seq<SpecStmt>
    decreases s,
{
    if s.len() == 0 {
        Seq::empty()
    } else {
        seq![view_stmt(s[0])] + view_stmt_seq(s.drop_first())
    }
}

pub proof fn lemma_view_expr_seq_props(s: Seq<Expression>)
    ensures
        view_expr_seq(s).len() == s.len(),
        forall|i: int| 0 <= i < s.len() ==> view_expr_seq(s)[i] == view_expr(s[i]),
    decreases s,
{
    if s.len() > 0 {
        lemma_view_expr_seq_props(s.drop_first());
        assert forall|i: int| 0 <= i < s.len() implies view_expr_seq(s)[i] == view_expr(s[i]) by {
            if i > 0 {
                assert(view_expr_seq(s.drop_first())[i - 1] == view_expr(s.drop_first()[i - 1]));
                assert(s.drop_first()[i - 1] == s[i]);
            }
        }
    }
}

pub proof fn lemma_view_item_seq_props(s: Seq<PrintItem>)
    ensures
        view_item_seq(s).len() == s.len(),
        forall|i: int| 0 <= i < s.len() ==> view_item_seq(s)[i] == view_item(s[i]),
    decreases s,
{
    if s.len() > 0 {
        lemma_view_item_seq_props(s.drop_first());
        assert forall|i: int| 0 <= i < s.len() implies view_item_seq(s)[i] == view_item(s[i]) by {
            if i > 0 {
                assert(view_item_seq(s.drop_first())[i - 1] == view_item(s.drop_first()[i - 1]));
                assert(s.drop_first()[i - 1] == s[i]);
            }
        }
    }
}

pub proof fn lemma_view_stmt_seq_props(s: Seq<Statement>)
    ensures
        view_stmt_seq(s).len() == s.len(),
        forall|i: int| 0 <= i < s.len() ==> view_stmt_seq(s)[i] == view_stmt(s[i]),
    decreases s,
{
    if s.len() > 0 {
        lemma_view_stmt_seq_props(s.drop_first());
        assert forall|i: int| 0 <= i < s.len() implies view_stmt_seq(s)[i] == view_stmt(s[i]) by {
            if i > 0 {
                assert(view_stmt_seq(s.drop_first())[i - 1] == view_stmt(s.drop_first()[i - 1]));
                assert(s.drop_first()[i - 1] == s[i]);
            }
        }
    }
}

pub proof fn lemma_view_stmt_seq_push(s: Seq<Statement>, st: Statement)
    ensures
        view_stmt_seq(s.push(st)) == view_stmt_seq(s).push(view_stmt(st)),
    decreases s,
{
    if s.len() == 0 {
        assert(s.push(st).drop_first() =~= Seq::<Statement>::empty());
        assert(s.push(st).len() == 1);
        assert(s.push(st)[0] == st);
        assert(view_stmt_seq(s.push(st)) == seq![view_stmt(st)] + view_stmt_seq(
            Seq::<Statement>::empty(),
        ));
        assert(view_stmt_seq(Seq::<Statement>::empty()) == Seq::<SpecStmt>::empty());
        assert(view_stmt_seq(s) == Seq::<SpecStmt>::empty());
        assert(seq![view_stmt(st)] + Seq::<SpecStmt>::empty() =~= Seq::<SpecStmt>::empty().push(
            view_stmt(st),
        ));
        assert(view_stmt_seq(s.push(st)) =~= view_stmt_seq(s).push(view_stmt(st)));
    } else {
        assert(s.push(st).drop_first() =~= s.drop_first().push(st));
        lemma_view_stmt_seq_push(s.drop_first(), st);
        assert(s.push(st)[0] == s[0]);
        assert(view_stmt_seq(s.push(st)) =~= view_stmt_seq(s).push(view_stmt(st)));
    }
}

// ----------------------------------------------------------------------
// Parse errors
// ----------------------------------------------------------------------

/// A syntax error: the first structural violation found, with the
/// offending token.
#[derive(Debug, Clone, PartialEq)]
pub enum ParseError {
    /// A specific token was required and another one found.
    Expected { expected: Token, got: Token },
    /// An identifier was required (after LET, FOR or INPUT).
    ExpectedIdentifier { got: Token },
    /// A line number was required (after GOTO).
    ExpectedLineNumber { got: Token },
    /// One of the six comparison operators was required (in IF).
    ExpectedComparison { got: Token },
    /// No expression form starts with this token.
    UnexpectedExpressionToken { got: Token },
    /// No statement form starts with this token.
    UnexpectedStatementToken { got: Token },
}

/// Model of a syntax error.
pub enum SpecParseError {
    Expected { expected: SpecToken, got: SpecToken },
    ExpectedIdentifier { got: SpecToken },
    ExpectedLineNumber { got: SpecToken },
    ExpectedComparison { got: SpecToken },
    UnexpectedExpressionToken { got: SpecToken },
    UnexpectedStatementToken { got: SpecToken },
}

impl DeepView for ParseError {
    type V = SpecParseError;

    open spec fn deep_view(&self) -> SpecParseError {
        match self {
            ParseError::Expected { expected, got } => SpecParseError::Expected {
                expected: expected.deep_view(),
                got: got.deep_view(),
            },
            ParseError::ExpectedIdentifier { got } => SpecParseError::ExpectedIdentifier {
                got: got.deep_view(),
            },
            ParseError::ExpectedLineNumber { got } => SpecParseError::ExpectedLineNumber {
                got: got.deep_view(),
            },
            ParseError::ExpectedComparison { got } => SpecParseError::ExpectedComparison {
                got: got.deep_view(),
            },
            ParseError::UnexpectedExpressionToken { got } => SpecParseError::UnexpectedExpressionToken {
                got: got.deep_view(),
            },
            ParseError::UnexpectedStatementToken { got } => SpecParseError::UnexpectedStatementToken {
                got: got.deep_view(),
            },
        }
    }
}

// ----------------------------------------------------------------------
// Nesting depth (bounds the indentation the code generator needs)
// ----------------------------------------------------------------------

/// The nesting depth of a statement body: how many indentation levels
/// the code generator adds below it.
pub open spec fn node_depth(n: SpecStmtNode) -> int
    decreases n,
{
    match n {
        SpecStmtNode::For { body, .. } => 1 + stmts_depth(body),
        SpecStmtNode::If { then_part, .. } => 1 + node_depth(then_part.node),
        _ => 0,
    }
}

/// The largest nesting depth among a sequence of statements.
pub open spec fn stmts_depth(ss: Seq<SpecStmt>) -> int
    decreases ss,
{
    if ss.len() == 0 {
        0
    } else {
        let d0 = node_depth(ss[0].node);
        let dr = stmts_depth(ss.drop_first());
        if d0 >= dr {
            d0
        } else {
            dr
        }
    }
}

pub proof fn lemma_stmts_depth_nonneg(ss: Seq<SpecStmt>)
    ensures
        stmts_depth(ss) >= 0,
    decreases ss,
{
    if ss.len() > 0 {
        lemma_node_depth_nonneg(ss[0].node);
        lemma_stmts_depth_nonneg(ss.drop_first());
    }
}

pub proof fn lemma_stmts_depth_ge(ss: Seq<SpecStmt>, i: int)
    requires
        0 <= i < ss.len(),
    ensures
        node_depth(ss[i].node) <= stmts_depth(ss),
    decreases ss,
{
    if i == 0 {
        lemma_stmts_depth_nonneg(ss.drop_first());
    } else {
        lemma_stmts_depth_ge(ss.drop_first(), i - 1);
        assert(ss.drop_first()[i - 1] == ss[i]);
        lemma_node_depth_nonneg(ss[0].node);
    }
}

pub proof fn lemma_node_depth_nonneg(n: SpecStmtNode)
    ensures
        node_depth(n) >= 0,
    decreases n,
{
    match n {
        SpecStmtNode::For { body, .. } => lemma_stmts_depth_nonneg(body),
        SpecStmtNode::If { then_part, .. } => lemma_node_depth_nonneg(then_part.node),
        _ => {},
    }
}



// ----------------------------------------------------------------------
// The grammar, as spec functions over the token model
// ----------------------------------------------------------------------

/// The token under the cursor; past the end it reads as end-of-input,
/// so one token of lookahead is always available.
pub open spec fn cur(t: Seq<SpecToken>, pos: int) -> SpecToken {
    if 0 <= pos < t.len() {
        t[pos]
    } else {
        SpecToken::Eof
    }
}

/// The cursor after a sub-parse that started at `pos` and ended at
/// `end`.  A successful sub-parse always reports `pos < end <= len`
/// (the advance lemmas below), so this equals `end` wherever the
/// grammar reaches it; the clamp only makes termination of the
/// defining recursions evident.
pub open spec fn bump(pos: int, end: int, len: int) -> int {
    if pos < end <= len {
        end
    } else if pos < len {
        pos + 1
    } else {
        len
    }
}

/// Demand one specific token and step over it.
pub open spec fn sp_expect(t: Seq<SpecToken>, pos: int, expected: SpecToken) -> Result<
    int,
    SpecParseError,
> {
    if cur(t, pos) == expected {
        Ok(pos + 1)
    } else {
        Err(SpecParseError::Expected { expected, got: cur(t, pos) })
    }
}

/// The position after any run of newline tokens.
pub open spec fn sp_skip_newlines(t: Seq<SpecToken>, pos: int) -> int
    decreases t.len() - pos,
        when 0 <= pos <= t.len()
{
    if cur(t, pos) == SpecToken::Newline {
        sp_skip_newlines(t, pos + 1)
    } else {
        pos
    }
}

pub proof fn lemma_sp_skip_newlines_bounds(t: Seq<SpecToken>, pos: int)
    requires
        0 <= pos <= t.len(),
    ensures
        pos <= sp_skip_newlines(t, pos) <= t.len(),
        cur(t, sp_skip_newlines(t, pos)) != SpecToken::Newline,
    decreases t.len() - pos,
{
    if cur(t, pos) == SpecToken::Newline {
        lemma_sp_skip_newlines_bounds(t, pos + 1);
    }
}

/// The six comparison operators an IF accepts.
pub open spec fn is_comparison(tok: SpecToken) -> bool {
    tok == SpecToken::Equal || tok == SpecToken::NotEqual || tok == SpecToken::LessThan || tok
        == SpecToken::LessOrEqual || tok == SpecToken::GreaterThan || tok
        == SpecToken::GreaterOrEqual
}

/// A primary expression: a literal, a variable, a parenthesized
/// expression, or a function call when an identifier is immediately
/// followed by `(`.
pub open spec fn sp_primary(t: Seq<SpecToken>, pos: int) -> Result<
    (SpecExpr, int),
    SpecParseError,
>
    decreases t.len() - pos, 1int,
        when 0 <= pos <= t.len()
{
    match cur(t, pos) {
        SpecToken::Number(n) => Ok((SpecExpr::Number(n), pos + 1)),
        SpecToken::Float(w, f) => Ok((SpecExpr::Float(w, f), pos + 1)),
        SpecToken::Identifier(name) => if cur(t, pos + 1) == SpecToken::LeftParen {
            if cur(t, pos + 2) == SpecToken::RightParen {
                Ok((SpecExpr::FunctionCall(name, Seq::empty()), pos + 3))
            } else {
                match sp_args(t, pos + 2) {
                    Ok((args, e)) => match sp_expect(t, e, SpecToken::RightParen) {
                        Ok(e2) => Ok((SpecExpr::FunctionCall(name, args), e2)),
                        Err(er) => Err(er),
                    },
                    Err(er) => Err(er),
                }
            }
        } else {
            Ok((SpecExpr::Variable(name), pos + 1))
        },
        SpecToken::LeftParen => match sp_expr(t, pos + 1) {
            Ok((e, p2)) => match sp_expect(t, p2, SpecToken::RightParen) {
                Ok(p3) => Ok((e, p3)),
                Err(er) => Err(er),
            },
            Err(er) => Err(er),
        },
        other => Err(SpecParseError::UnexpectedExpressionToken { got: other }),
    }
}

/// A comma-separated, nonempty function-argument list.
pub open spec fn sp_args(t: Seq<SpecToken>, pos: int) -> Result<
    (Seq<SpecExpr>, int),
    SpecParseError,
>
    decreases t.len() - pos, 5int,
        when 0 <= pos <= t.len()
{
    match sp_expr(t, pos) {
        Ok((a, e)) => {
            let b = bump(pos, e, t.len() as int);
            if cur(t, b) == SpecToken::Comma {
                match sp_args(t, b + 1) {
                    Ok((rest, e2)) => Ok((seq![a] + rest, e2)),
                    Err(er) => Err(er),
                }
            } else {
                Ok((seq![a], e))
            }
        },
        Err(er) => Err(er),
    }
}

/// A power chain `p ^ p ^ ...`, right-associative.
pub open spec fn sp_power(t: Seq<SpecToken>, pos: int) -> Result<(SpecExpr, int), SpecParseError>
    decreases t.len() - pos, 2int,
        when 0 <= pos <= t.len()
{
    match sp_primary(t, pos) {
        Ok((l, e)) => sp_power_rest(t, bump(pos, e, t.len() as int), l),
        Err(er) => Err(er),
    }
}

/// The continuation of a power chain after a parsed left operand.
pub open spec fn sp_power_rest(t: Seq<SpecToken>, pos: int, l: SpecExpr) -> Result<
    (SpecExpr, int),
    SpecParseError,
>
    decreases t.len() - pos, 0int,
        when 0 <= pos <= t.len()
{
    if cur(t, pos) == SpecToken::OperatorPower {
        match sp_power(t, pos + 1) {
            Ok((r, e2)) => sp_power_rest(
                t,
                bump(pos, e2, t.len() as int),
                SpecExpr::BinaryOp(BinOp::Power, Box::new(l), Box::new(r)),
            ),
            Err(er) => Err(er),
        }
    } else {
        Ok((l, pos))
    }
}

/// A multiplicative chain `pw * pw / ...`, left-associative.
pub open spec fn sp_term(t: Seq<SpecToken>, pos: int) -> Result<(SpecExpr, int), SpecParseError>
    decreases t.len() - pos, 3int,
        when 0 <= pos <= t.len()
{
    match sp_power(t, pos) {
        Ok((l, e)) => sp_term_rest(t, bump(pos, e, t.len() as int), l),
        Err(er) => Err(er),
    }
}

/// The continuation of a multiplicative chain.
pub open spec fn sp_term_rest(t: Seq<SpecToken>, pos: int, l: SpecExpr) -> Result<
    (SpecExpr, int),
    SpecParseError,
>
    decreases t.len() - pos, 0int,
        when 0 <= pos <= t.len()
{
    if cur(t, pos) == SpecToken::OperatorMultiply || cur(t, pos) == SpecToken::OperatorDivide {
        let op = if cur(t, pos) == SpecToken::OperatorMultiply {
            BinOp::Multiply
        } else {
            BinOp::Divide
        };
        match sp_power(t, pos + 1) {
            Ok((r, e2)) => sp_term_rest(
                t,
                bump(pos, e2, t.len() as int),
                SpecExpr::BinaryOp(op, Box::new(l), Box::new(r)),
            ),
            Err(er) => Err(er),
        }
    } else {
        Ok((l, pos))
    }
}

/// An additive chain `tm + tm - ...`, left-associative: a whole
/// expression.
pub open spec fn sp_expr(t: Seq<SpecToken>, pos: int) -> Result<(SpecExpr, int), SpecParseError>
    decreases t.len() - pos, 4int,
        when 0 <= pos <= t.len()
{
    match sp_term(t, pos) {
        Ok((l, e)) => sp_expr_rest(t, bump(pos, e, t.len() as int), l),
        Err(er) => Err(er),
    }
}

/// The continuation of an additive chain.
pub open spec fn sp_expr_rest(t: Seq<SpecToken>, pos: int, l: SpecExpr) -> Result<
    (SpecExpr, int),
    SpecParseError,
>
    decreases t.len() - pos, 0int,
        when 0 <= pos <= t.len()
{
    if cur(t, pos) == SpecToken::OperatorAdd || cur(t, pos) == SpecToken::OperatorSubtract {
        let op = if cur(t, pos) == SpecToken::OperatorAdd {
            BinOp::Add
        } else {
            BinOp::Subtract
        };
        match sp_term(t, pos + 1) {
            Ok((r, e2)) => sp_expr_rest(
                t,
                bump(pos, e2, t.len() as int),
                SpecExpr::BinaryOp(op, Box::new(l), Box::new(r)),
            ),
            Err(er) => Err(er),
        }
    } else {
        Ok((l, pos))
    }
}

/// LET <identifier> = <expression>.
pub open spec fn sp_let(t: Seq<SpecToken>, pos: int) -> Result<
    (SpecStmtNode, int),
    SpecParseError,
> {
    match sp_expect(t, pos, SpecToken::Let) {
        Ok(p1) => match cur(t, p1) {
            SpecToken::Identifier(name) => match sp_expect(t, p1 + 1, SpecToken::Equal) {
                Ok(p3) => match sp_expr(t, p3) {
                    Ok((v, e)) => Ok((SpecStmtNode::Let { var: name, value: v }, e)),
                    Err(er) => Err(er),
                },
                Err(er) => Err(er),
            },
            other => Err(SpecParseError::ExpectedIdentifier { got: other }),
        },
        Err(er) => Err(er),
    }
}

/// One pass of the PRINT item loop, at the loop head.
pub open spec fn sp_print_loop(t: Seq<SpecToken>, pos: int) -> Result<
    (Seq<SpecPrintItem>, bool, int),
    SpecParseError,
>
    decreases t.len() - pos, 0int,
        when 0 <= pos <= t.len()
{
    match cur(t, pos) {
        SpecToken::Newline => Ok((Seq::empty(), true, pos)),
        SpecToken::Eof => Ok((Seq::empty(), true, pos)),
        SpecToken::StrLit(sv) => match sp_print_sep(t, pos + 1) {
            Ok((items, nl, e)) => Ok((seq![SpecPrintItem::Str(sv)] + items, nl, e)),
            Err(er) => Err(er),
        },
        SpecToken::Comma => if cur(t, pos + 1) == SpecToken::Newline || cur(t, pos + 1)
            == SpecToken::Eof {
            Ok((Seq::empty(), false, pos + 1))
        } else {
            sp_print_sep(t, pos + 1)
        },
        SpecToken::Semicolon => if cur(t, pos + 1) == SpecToken::Newline || cur(t, pos + 1)
            == SpecToken::Eof {
            Ok((Seq::empty(), false, pos + 1))
        } else {
            sp_print_sep(t, pos + 1)
        },
        _ => match sp_expr(t, pos) {
            Ok((ex, ee)) => {
                let b = bump(pos, ee, t.len() as int);
                match sp_print_sep(t, b) {
                    Ok((items, nl, e)) => Ok((seq![SpecPrintItem::Expr(ex)] + items, nl, e)),
                    Err(er) => Err(er),
                }
            },
            Err(er) => Err(er),
        },
    }
}

/// After the bottom separator check stepped over a `,` or `;`: stop
/// without the trailing newline when the line ends here, otherwise go
/// round the loop again.
pub open spec fn sp_print_after_sep(t: Seq<SpecToken>, pos: int) -> Result<
    (Seq<SpecPrintItem>, bool, int),
    SpecParseError,
>
    decreases t.len() - pos, 1int,
        when 0 <= pos <= t.len()
{
    if cur(t, pos) == SpecToken::Newline || cur(t, pos) == SpecToken::Eof {
        Ok((Seq::empty(), false, pos))
    } else {
        sp_print_loop(t, pos)
    }
}

/// The separator check at the bottom of the PRINT loop: a comma or
/// semicolon continues the loop (unless the line ends right after
/// it), anything else ends the statement with its newline.
pub open spec fn sp_print_sep(t: Seq<SpecToken>, pos: int) -> Result<
    (Seq<SpecPrintItem>, bool, int),
    SpecParseError,
>
    decreases t.len() - pos, 0int,
        when 0 <= pos <= t.len()
{
    if cur(t, pos) == SpecToken::Comma || cur(t, pos) == SpecToken::Semicolon {
        sp_print_after_sep(t, pos + 1)
    } else {
        Ok((Seq::empty(), true, pos))
    }
}

/// PRINT with its mixed item list and trailing-newline flag.
pub open spec fn sp_print(t: Seq<SpecToken>, pos: int) -> Result<
    (SpecStmtNode, int),
    SpecParseError,
> {
    match sp_expect(t, pos, SpecToken::Print) {
        Ok(p1) => match sp_print_loop(t, p1) {
            Ok((items, nl, e)) => Ok((SpecStmtNode::Print { items, newline: nl }, e)),
            Err(er) => Err(er),
        },
        Err(er) => Err(er),
    }
}

/// GOTO <line>.
pub open spec fn sp_goto(t: Seq<SpecToken>, pos: int) -> Result<
    (SpecStmtNode, int),
    SpecParseError,
> {
    match sp_expect(t, pos, SpecToken::Goto) {
        Ok(p1) => match cur(t, p1) {
            SpecToken::Number(line) => Ok((SpecStmtNode::Goto(line), p1 + 1)),
            other => Err(SpecParseError::ExpectedLineNumber { got: other }),
        },
        Err(er) => Err(er),
    }
}

/// INPUT <identifier>.
pub open spec fn sp_input(t: Seq<SpecToken>, pos: int) -> Result<
    (SpecStmtNode, int),
    SpecParseError,
> {
    match sp_expect(t, pos, SpecToken::Input) {
        Ok(p1) => match cur(t, p1) {
            SpecToken::Identifier(name) => Ok((SpecStmtNode::Input(name), p1 + 1)),
            other => Err(SpecParseError::ExpectedIdentifier { got: other }),
        },
        Err(er) => Err(er),
    }
}

/// Attach a statement's optional label to a parsed statement body.
pub open spec fn with_label(
    r: Result<(SpecStmtNode, int), SpecParseError>,
    label: Option<int>,
) -> Result<(SpecStmt, int), SpecParseError> {
    match r {
        Ok((n, e)) => Ok((SpecStmt { label, node: n }, e)),
        Err(er) => Err(er),
    }
}

/// FOR <var> = <start> TO <end> [STEP <step>] <body...> NEXT [<var>].
pub open spec fn sp_for(t: Seq<SpecToken>, pos: int) -> Result<(SpecStmtNode, int), SpecParseError>
    decreases t.len() - pos, 1int,
        when 0 <= pos <= t.len()
{
    match sp_expect(t, pos, SpecToken::For) {
        Ok(p1) => match cur(t, p1) {
            SpecToken::Identifier(var) => match sp_expect(t, p1 + 1, SpecToken::Equal) {
                Ok(p3) => match sp_expr(t, p3) {
                    Ok((startx, e1)) => {
                        let b1 = bump(p3, e1, t.len() as int);
                        match sp_expect(t, b1, SpecToken::To) {
                            Ok(p4) => match sp_expr(t, p4) {
                                Ok((endx, e2)) => {
                                    let b2 = bump(p4, e2, t.len() as int);
                                    if cur(t, b2) == SpecToken::Step {
                                        match sp_expr(t, b2 + 1) {
                                            Ok((stx, e3)) => sp_for_tail(
                                                t,
                                                pos,
                                                var,
                                                startx,
                                                endx,
                                                Some(stx),
                                                bump(b2 + 1, e3, t.len() as int),
                                            ),
                                            Err(er) => Err(er),
                                        }
                                    } else {
                                        sp_for_tail(t, pos, var, startx, endx, None, b2)
                                    }
                                },
                                Err(er) => Err(er),
                            },
                            Err(er) => Err(er),
                        }
                    },
                    Err(er) => Err(er),
                },
                Err(er) => Err(er),
            },
            other => Err(SpecParseError::ExpectedIdentifier { got: other }),
        },
        Err(er) => Err(er),
    }
}

/// The tail of a FOR statement after its header: newlines, the body up
/// to NEXT, and an optional repeated loop variable, which is
/// discarded.  `hdr_end` is where the header ended; `pos` is where the
/// whole statement started.
pub open spec fn sp_for_tail(
    t: Seq<SpecToken>,
    pos: int,
    var: Seq<char>,
    startx: SpecExpr,
    endx: SpecExpr,
    step: Option<SpecExpr>,
    hdr_end: int,
) -> Result<(SpecStmtNode, int), SpecParseError>
    decreases t.len() - pos, 0int,
        when 0 <= pos <= t.len() && pos < hdr_end <= t.len()
{
    proof {
        lemma_sp_skip_newlines_bounds(t, hdr_end);
    }
    let p5 = sp_skip_newlines(t, hdr_end);
    match sp_for_body(t, p5) {
        Ok((body, e4)) => match sp_expect(t, e4, SpecToken::Next) {
            Ok(p6) => {
                let p7 = match cur(t, p6) {
                    SpecToken::Identifier(_) => p6 + 1,
                    _ => p6,
                };
                Ok((SpecStmtNode::For { var, start: startx, end: endx, step, body }, p7))
            },
            Err(er) => Err(er),
        },
        Err(er) => Err(er),
    }
}

/// The body of a FOR loop: statements, each followed by skipped
/// newlines, until NEXT or end-of-input.
pub open spec fn sp_for_body(t: Seq<SpecToken>, pos: int) -> Result<
    (Seq<SpecStmt>, int),
    SpecParseError,
>
    decreases t.len() - pos, 3int,
        when 0 <= pos <= t.len()
{
    if cur(t, pos) == SpecToken::Next || cur(t, pos) == SpecToken::Eof {
        Ok((Seq::empty(), pos))
    } else {
        match sp_statement(t, pos) {
            Ok((st, e)) => {
                let b = bump(pos, e, t.len() as int);
                proof {
                    lemma_sp_skip_newlines_bounds(t, b);
                }
                let p2 = sp_skip_newlines(t, b);
                match sp_for_body(t, p2) {
                    Ok((rest, e2)) => Ok((seq![st] + rest, e2)),
                    Err(er) => Err(er),
                }
            },
            Err(er) => Err(er),
        }
    }
}

/// IF <expr> <comparison> <expr> THEN <line-or-statement>.  A bare
/// line number after THEN becomes an implicit unlabelled jump.
pub open spec fn sp_if(t: Seq<SpecToken>, pos: int) -> Result<(SpecStmtNode, int), SpecParseError>
    decreases t.len() - pos, 0int,
        when 0 <= pos <= t.len()
{
    match sp_expect(t, pos, SpecToken::If) {
        Ok(p1) => match sp_expr(t, p1) {
            Ok((l, e1)) => {
                let b1 = bump(p1, e1, t.len() as int);
                if is_comparison(cur(t, b1)) {
                    let op = cur(t, b1);
                    match sp_expr(t, b1 + 1) {
                        Ok((r, e2)) => {
                            let b2 = bump(b1 + 1, e2, t.len() as int);
                            match sp_expect(t, b2, SpecToken::Then) {
                                Ok(p3) => match cur(t, p3) {
                                    SpecToken::Number(line) => Ok(
                                        (
                                            SpecStmtNode::If {
                                                left: l,
                                                op,
                                                right: r,
                                                then_part: Box::new(
                                                    SpecStmt {
                                                        label: None,
                                                        node: SpecStmtNode::Goto(line),
                                                    },
                                                ),
                                            },
                                            p3 + 1,
                                        ),
                                    ),
                                    _ => match sp_statement(t, p3) {
                                        Ok((st, e3)) => Ok(
                                            (
                                                SpecStmtNode::If {
                                                    left: l,
                                                    op,
                                                    right: r,
                                                    then_part: Box::new(st),
                                                },
                                                e3,
                                            ),
                                        ),
                                        Err(er) => Err(er),
                                    },
                                },
                                Err(er) => Err(er),
                            }
                        },
                        Err(er) => Err(er),
                    }
                } else {
                    Err(SpecParseError::ExpectedComparison { got: cur(t, b1) })
                }
            },
            Err(er) => Err(er),
        },
        Err(er) => Err(er),
    }
}

/// One statement: skipped blank lines, an optional integer label, then
/// the statement form chosen by the leading token.
pub open spec fn sp_statement(t: Seq<SpecToken>, pos: int) -> Result<
    (SpecStmt, int),
    SpecParseError,
>
    decreases t.len() - pos, 2int,
        when 0 <= pos <= t.len()
{
    proof {
        lemma_sp_skip_newlines_bounds(t, pos);
    }
    let p0 = sp_skip_newlines(t, pos);
    let label = match cur(t, p0) {
        SpecToken::Number(n) => Some(n),
        _ => None,
    };
    let p1 = match cur(t, p0) {
        SpecToken::Number(_) => p0 + 1,
        _ => p0,
    };
    match cur(t, p1) {
        SpecToken::Let => with_label(sp_let(t, p1), label),
        SpecToken::Print => with_label(sp_print(t, p1), label),
        SpecToken::For => with_label(sp_for(t, p1), label),
        SpecToken::If => with_label(sp_if(t, p1), label),
        SpecToken::Goto => with_label(sp_goto(t, p1), label),
        SpecToken::Input => with_label(sp_input(t, p1), label),
        SpecToken::Rem => Ok((SpecStmt { label, node: SpecStmtNode::Rem }, p1 + 1)),
        SpecToken::End => Ok((SpecStmt { label, node: SpecStmtNode::End }, p1 + 1)),
        SpecToken::Newline => Ok((SpecStmt { label, node: SpecStmtNode::Rem }, p1)),
        SpecToken::Eof => Ok((SpecStmt { label, node: SpecStmtNode::Rem }, p1)),
        other => Err(SpecParseError::UnexpectedStatementToken { got: other }),
    }
}

/// The whole program: statements until end-of-input.
pub open spec fn sp_program(t: Seq<SpecToken>, pos: int) -> Result<
    (Seq<SpecStmt>, int),
    SpecParseError,
>
    decreases t.len() - pos,
        when 0 <= pos <= t.len()
{
    proof {
        lemma_sp_skip_newlines_bounds(t, pos);
    }
    let p = sp_skip_newlines(t, pos);
    if cur(t, p) == SpecToken::Eof {
        Ok((Seq::empty(), p))
    } else {
        match sp_statement(t, p) {
            Ok((st, e)) => {
                let b = bump(p, e, t.len() as int);
                match sp_program(t, b) {
                    Ok((rest, e2)) => Ok((seq![st] + rest, e2)),
                    Err(er) => Err(er),
                }
            },
            Err(er) => Err(er),
        }
    }
}


// ----------------------------------------------------------------------
// Advance lemmas: every successful sub-parse lands inside the token
// sequence, strictly beyond its start where the grammar consumes a
// token; statements also bound the nesting depth by the tokens
// consumed.
// ----------------------------------------------------------------------

pub proof fn lemma_sp_primary_adv(t: Seq<SpecToken>, pos: int)
    requires
        0 <= pos <= t.len(),
    ensures
        match sp_primary(t, pos) {
            Ok((_, e)) => pos < e <= t.len(),
            Err(_) => true,
        },
    decreases t.len() - pos, 1int,
{
    match cur(t, pos) {
        SpecToken::Identifier(name) => {
            if cur(t, pos + 1) == SpecToken::LeftParen && cur(t, pos + 2)
                != SpecToken::RightParen {
                lemma_sp_args_adv(t, pos + 2);
            }
        },
        SpecToken::LeftParen => {
            lemma_sp_expr_adv(t, pos + 1);
        },
        _ => {},
    }
}

pub proof fn lemma_sp_args_adv(t: Seq<SpecToken>, pos: int)
    requires
        0 <= pos <= t.len(),
    ensures
        match sp_args(t, pos) {
            Ok((_, e)) => pos < e <= t.len(),
            Err(_) => true,
        },
    decreases t.len() - pos, 5int,
{
    lemma_sp_expr_adv(t, pos);
    match sp_expr(t, pos) {
        Ok((a, e)) => {
            let b = bump(pos, e, t.len() as int);
            if cur(t, b) == SpecToken::Comma {
                lemma_sp_args_adv(t, b + 1);
            }
        },
        Err(_) => {},
    }
}

pub proof fn lemma_sp_power_adv(t: Seq<SpecToken>, pos: int)
    requires
        0 <= pos <= t.len(),
    ensures
        match sp_power(t, pos) {
            Ok((_, e)) => pos < e <= t.len(),
            Err(_) => true,
        },
    decreases t.len() - pos, 2int,
{
    lemma_sp_primary_adv(t, pos);
    match sp_primary(t, pos) {
        Ok((l, e)) => {
            lemma_sp_power_rest_adv(t, bump(pos, e, t.len() as int), l);
        },
        Err(_) => {},
    }
}

pub proof fn lemma_sp_power_rest_adv(t: Seq<SpecToken>, pos: int, l: SpecExpr)
    requires
        0 <= pos <= t.len(),
    ensures
        match sp_power_rest(t, pos, l) {
            Ok((_, e)) => pos <= e <= t.len(),
            Err(_) => true,
        },
    decreases t.len() - pos, 0int,
{
    if cur(t, pos) == SpecToken::OperatorPower {
        lemma_sp_power_adv(t, pos + 1);
        match sp_power(t, pos + 1) {
            Ok((r, e2)) => {
                lemma_sp_power_rest_adv(
                    t,
                    bump(pos, e2, t.len() as int),
                    SpecExpr::BinaryOp(BinOp::Power, Box::new(l), Box::new(r)),
                );
            },
            Err(_) => {},
        }
    }
}

pub proof fn lemma_sp_term_adv(t: Seq<SpecToken>, pos: int)
    requires
        0 <= pos <= t.len(),
    ensures
        match sp_term(t, pos) {
            Ok((_, e)) => pos < e <= t.len(),
            Err(_) => true,
        },
    decreases t.len() - pos, 3int,
{
    lemma_sp_power_adv(t, pos);
    match sp_power(t, pos) {
        Ok((l, e)) => {
            lemma_sp_term_rest_adv(t, bump(pos, e, t.len() as int), l);
        },
        Err(_) => {},
    }
}

pub proof fn lemma_sp_term_rest_adv(t: Seq<SpecToken>, pos: int, l: SpecExpr)
    requires
        0 <= pos <= t.len(),
    ensures
        match sp_term_rest(t, pos, l) {
            Ok((_, e)) => pos <= e <= t.len(),
            Err(_) => true,
        },
    decreases t.len() - pos, 0int,
{
    if cur(t, pos) == SpecToken::OperatorMultiply || cur(t, pos) == SpecToken::OperatorDivide {
        let op = if cur(t, pos) == SpecToken::OperatorMultiply {
            BinOp::Multiply
        } else {
            BinOp::Divide
        };
        lemma_sp_power_adv(t, pos + 1);
        match sp_power(t, pos + 1) {
            Ok((r, e2)) => {
                lemma_sp_term_rest_adv(
                    t,
                    bump(pos, e2, t.len() as int),
                    SpecExpr::BinaryOp(op, Box::new(l), Box::new(r)),
                );
            },
            Err(_) => {},
        }
    }
}

pub proof fn lemma_sp_expr_adv(t: Seq<SpecToken>, pos: int)
    requires
        0 <= pos <= t.len(),
    ensures
        match sp_expr(t, pos) {
            Ok((_, e)) => pos < e <= t.len(),
            Err(_) => true,
        },
    decreases t.len() - pos, 4int,
{
    lemma_sp_term_adv(t, pos);
    match sp_term(t, pos) {
        Ok((l, e)) => {
            lemma_sp_expr_rest_adv(t, bump(pos, e, t.len() as int), l);
        },
        Err(_) => {},
    }
}

pub proof fn lemma_sp_expr_rest_adv(t: Seq<SpecToken>, pos: int, l: SpecExpr)
    requires
        0 <= pos <= t.len(),
    ensures
        match sp_expr_rest(t, pos, l) {
            Ok((_, e)) => pos <= e <= t.len(),
            Err(_) => true,
        },
    decreases t.len() - pos, 0int,
{
    if cur(t, pos) == SpecToken::OperatorAdd || cur(t, pos) == SpecToken::OperatorSubtract {
        let op = if cur(t, pos) == SpecToken::OperatorAdd {
            BinOp::Add
        } else {
            BinOp::Subtract
        };
        lemma_sp_term_adv(t, pos + 1);
        match sp_term(t, pos + 1) {
            Ok((r, e2)) => {
                lemma_sp_expr_rest_adv(
                    t,
                    bump(pos, e2, t.len() as int),
                    SpecExpr::BinaryOp(op, Box::new(l), Box::new(r)),
                );
            },
            Err(_) => {},
        }
    }
}

pub proof fn lemma_sp_print_loop_adv(t: Seq<SpecToken>, pos: int)
    requires
        0 <= pos <= t.len(),
    ensures
        match sp_print_loop(t, pos) {
            Ok((_, _, e)) => pos <= e <= t.len(),
            Err(_) => true,
        },
    decreases t.len() - pos, 0int,
{
    match cur(t, pos) {
        SpecToken::Newline => {},
        SpecToken::Eof => {},
        SpecToken::StrLit(_) => {
            lemma_sp_print_sep_adv(t, pos + 1);
        },
        SpecToken::Comma => {
            lemma_sp_print_sep_adv(t, pos + 1);
        },
        SpecToken::Semicolon => {
            lemma_sp_print_sep_adv(t, pos + 1);
        },
        _ => {
            lemma_sp_expr_adv(t, pos);
            match sp_expr(t, pos) {
                Ok((_, ee)) => {
                    lemma_sp_print_sep_adv(t, bump(pos, ee, t.len() as int));
                },
                Err(_) => {},
            }
        },
    }
}

pub proof fn lemma_sp_print_after_sep_adv(t: Seq<SpecToken>, pos: int)
    requires
        0 <= pos <= t.len(),
    ensures
        match sp_print_after_sep(t, pos) {
            Ok((_, _, e)) => pos <= e <= t.len(),
            Err(_) => true,
        },
    decreases t.len() - pos, 1int,
{
    if !(cur(t, pos) == SpecToken::Newline || cur(t, pos) == SpecToken::Eof) {
        lemma_sp_print_loop_adv(t, pos);
    }
}

pub proof fn lemma_sp_print_sep_adv(t: Seq<SpecToken>, pos: int)
    requires
        0 <= pos <= t.len(),
    ensures
        match sp_print_sep(t, pos) {
            Ok((_, _, e)) => pos <= e <= t.len(),
            Err(_) => true,
        },
    decreases t.len() - pos, 0int,
{
    if cur(t, pos) == SpecToken::Comma || cur(t, pos) == SpecToken::Semicolon {
        lemma_sp_print_after_sep_adv(t, pos + 1);
    }
}

pub proof fn lemma_sp_let_adv(t: Seq<SpecToken>, pos: int)
    requires
        0 <= pos <= t.len(),
    ensures
        match sp_let(t, pos) {
            Ok((_, e)) => pos < e <= t.len(),
            Err(_) => true,
        },
{
    match sp_expect(t, pos, SpecToken::Let) {
        Ok(p1) => match cur(t, p1) {
            SpecToken::Identifier(_) => match sp_expect(t, p1 + 1, SpecToken::Equal) {
                Ok(_) => {
                    lemma_sp_expr_adv(t, p1 + 2);
                },
                Err(_) => {},
            },
            _ => {},
        },
        Err(_) => {},
    }
}

pub proof fn lemma_sp_print_adv(t: Seq<SpecToken>, pos: int)
    requires
        0 <= pos <= t.len(),
    ensures
        match sp_print(t, pos) {
            Ok((_, e)) => pos < e <= t.len(),
            Err(_) => true,
        },
{
    match sp_expect(t, pos, SpecToken::Print) {
        Ok(p1) => {
            lemma_sp_print_loop_adv(t, p1);
        },
        Err(_) => {},
    }
}

pub proof fn lemma_sp_for_adv(t: Seq<SpecToken>, pos: int)
    requires
        0 <= pos <= t.len(),
    ensures
        match sp_for(t, pos) {
            Ok((n, e)) => pos < e <= t.len() && node_depth(n) <= e - pos,
            Err(_) => true,
        },
    decreases t.len() - pos, 1int,
{
    match sp_expect(t, pos, SpecToken::For) {
        Ok(p1) => match cur(t, p1) {
            SpecToken::Identifier(var) => match sp_expect(t, p1 + 1, SpecToken::Equal) {
                Ok(p3) => match sp_expr(t, p3) {
                    Ok((startx, e1)) => {
                        let b1 = bump(p3, e1, t.len() as int);
                        match sp_expect(t, b1, SpecToken::To) {
                            Ok(p4) => match sp_expr(t, p4) {
                                Ok((endx, e2)) => {
                                    let b2 = bump(p4, e2, t.len() as int);
                                    if cur(t, b2) == SpecToken::Step {
                                        match sp_expr(t, b2 + 1) {
                                            Ok((stx, e3)) => {
                                                lemma_sp_for_tail_adv(
                                                    t,
                                                    pos,
                                                    var,
                                                    startx,
                                                    endx,
                                                    Some(stx),
                                                    bump(b2 + 1, e3, t.len() as int),
                                                );
                                            },
                                            Err(_) => {},
                                        }
                                    } else {
                                        lemma_sp_for_tail_adv(t, pos, var, startx, endx, None, b2);
                                    }
                                },
                                Err(_) => {},
                            },
                            Err(_) => {},
                        }
                    },
                    Err(_) => {},
                },
                Err(_) => {},
            },
            _ => {},
        },
        Err(_) => {},
    }
}

pub proof fn lemma_sp_for_tail_adv(
    t: Seq<SpecToken>,
    pos: int,
    var: Seq<char>,
    startx: SpecExpr,
    endx: SpecExpr,
    step: Option<SpecExpr>,
    hdr_end: int,
)
    requires
        0 <= pos <= t.len(),
        pos < hdr_end <= t.len(),
    ensures
        match sp_for_tail(t, pos, var, startx, endx, step, hdr_end) {
            Ok((n, e)) => pos < e <= t.len() && node_depth(n) <= e - pos,
            Err(_) => true,
        },
    decreases t.len() - pos, 0int,
{
    lemma_sp_skip_newlines_bounds(t, hdr_end);
    let p5 = sp_skip_newlines(t, hdr_end);
    lemma_sp_for_body_adv(t, p5);
    match sp_for_body(t, p5) {
        Ok((body, e4)) => {
            match sp_expect(t, e4, SpecToken::Next) {
                Ok(p6) => {},
                Err(_) => {},
            }
        },
        Err(_) => {},
    }
}

pub proof fn lemma_sp_if_adv(t: Seq<SpecToken>, pos: int)
    requires
        0 <= pos <= t.len(),
    ensures
        match sp_if(t, pos) {
            Ok((n, e)) => pos < e <= t.len() && node_depth(n) <= e - pos,
            Err(_) => true,
        },
    decreases t.len() - pos, 0int,
{
    match sp_expect(t, pos, SpecToken::If) {
        Ok(p1) => {
            lemma_sp_expr_adv(t, p1);
            match sp_expr(t, p1) {
                Ok((l, e1)) => {
                    let b1 = bump(p1, e1, t.len() as int);
                    if is_comparison(cur(t, b1)) {
                        lemma_sp_expr_adv(t, b1 + 1);
                        match sp_expr(t, b1 + 1) {
                            Ok((r, e2)) => {
                                let b2 = bump(b1 + 1, e2, t.len() as int);
                                match sp_expect(t, b2, SpecToken::Then) {
                                    Ok(p3) => match cur(t, p3) {
                                        SpecToken::Number(line) => {
                                            let gst = SpecStmt {
                                                label: None,
                                                node: SpecStmtNode::Goto(line),
                                            };
                                            assert(node_depth(
                                                SpecStmtNode::If {
                                                    left: l,
                                                    op: cur(t, b1),
                                                    right: r,
                                                    then_part: Box::new(gst),
                                                },
                                            ) == 1 + node_depth(gst.node));
                                        },
                                        _ => {
                                            lemma_sp_statement_adv(t, p3);
                                            match sp_statement(t, p3) {
                                                Ok((st, e3)) => {
                                                    assert(node_depth(
                                                        SpecStmtNode::If {
                                                            left: l,
                                                            op: cur(t, b1),
                                                            right: r,
                                                            then_part: Box::new(st),
                                                        },
                                                    ) == 1 + node_depth(st.node));
                                                },
                                                Err(_) => {},
                                            }
                                        },
                                    },
                                    Err(_) => {},
                                }
                            },
                            Err(_) => {},
                        }
                    }
                },
                Err(_) => {},
            }
        },
        Err(_) => {},
    }
}

pub proof fn lemma_sp_statement_adv(t: Seq<SpecToken>, pos: int)
    requires
        0 <= pos <= t.len(),
    ensures
        match sp_statement(t, pos) {
            Ok((st, e)) => pos <= e <= t.len() && node_depth(st.node) <= e - pos && ((cur(t, pos)
                != SpecToken::Newline && cur(t, pos) != SpecToken::Eof) ==> pos < e),
            Err(_) => true,
        },
    decreases t.len() - pos, 2int,
{
    lemma_sp_skip_newlines_bounds(t, pos);
    let p0 = sp_skip_newlines(t, pos);
    let p1 = match cur(t, p0) {
        SpecToken::Number(_) => p0 + 1,
        _ => p0,
    };
    match cur(t, p1) {
        SpecToken::Let => {
            lemma_sp_let_adv(t, p1);
        },
        SpecToken::Print => {
            lemma_sp_print_adv(t, p1);
        },
        SpecToken::For => {
            lemma_sp_for_adv(t, p1);
        },
        SpecToken::If => {
            lemma_sp_if_adv(t, p1);
        },
        SpecToken::Goto => {},
        SpecToken::Input => {},
        _ => {},
    }
}

pub proof fn lemma_sp_for_body_adv(t: Seq<SpecToken>, pos: int)
    requires
        0 <= pos <= t.len(),
    ensures
        match sp_for_body(t, pos) {
            Ok((ss, e)) => pos <= e <= t.len() && stmts_depth(ss) <= e - pos,
            Err(_) => true,
        },
    decreases t.len() - pos, 3int,
{
    if cur(t, pos) == SpecToken::Next || cur(t, pos) == SpecToken::Eof {
    } else {
        lemma_sp_statement_adv(t, pos);
        match sp_statement(t, pos) {
            Ok((st, e)) => {
                let b = bump(pos, e, t.len() as int);
                lemma_sp_skip_newlines_bounds(t, b);
                let p2 = sp_skip_newlines(t, b);
                lemma_sp_for_body_adv(t, p2);
                match sp_for_body(t, p2) {
                    Ok((rest, e2)) => {
                        assert((seq![st] + rest)[0] == st);
                        assert((seq![st] + rest).drop_first() =~= rest);
                        assert(stmts_depth(seq![st] + rest) <= e2 - pos);
                    },
                    Err(_) => {},
                }
            },
            Err(_) => {},
        }
    }
}

pub proof fn lemma_sp_program_adv(t: Seq<SpecToken>, pos: int)
    requires
        0 <= pos <= t.len(),
    ensures
        match sp_program(t, pos) {
            Ok((ss, e)) => pos <= e <= t.len() && stmts_depth(ss) <= e - pos,
            Err(_) => true,
        },
    decreases t.len() - pos,
{
    lemma_sp_skip_newlines_bounds(t, pos);
    let p = sp_skip_newlines(t, pos);
    if cur(t, p) != SpecToken::Eof {
        lemma_sp_statement_adv(t, p);
        match sp_statement(t, p) {
            Ok((st, e)) => {
                let b = bump(p, e, t.len() as int);
                lemma_sp_program_adv(t, b);
                match sp_program(t, b) {
                    Ok((rest, e2)) => {
                        assert((seq![st] + rest)[0] == st);
                        assert((seq![st] + rest).drop_first() =~= rest);
                        assert(stmts_depth(seq![st] + rest) <= e2 - pos);
                    },
                    Err(_) => {},
                }
            },
            Err(_) => {},
        }
    }
}


// ----------------------------------------------------------------------
// Executable token helpers
// ----------------------------------------------------------------------

/// Whether the token is one of the six comparison operators.
fn is_comparison_token(t: &Token) -> (r: bool)
    ensures
        r == is_comparison(t.deep_view()),
{
    match t {
        Token::Equal => true,
        Token::NotEqual => true,
        Token::LessThan => true,
        Token::LessOrEqual => true,
        Token::GreaterThan => true,
        Token::GreaterOrEqual => true,
        _ => false,
    }
}

/// Whether two tokens are equal values (same variant, same payload).
fn token_eq(a: &Token, b: &Token) -> (r: bool)
    ensures
        r == (a.deep_view() == b.deep_view()),
{
    match (a, b) {
        (Token::Identifier(x), Token::Identifier(y)) => x.eq(y),
        (Token::StrLit(x), Token::StrLit(y)) => x.eq(y),
        (Token::Number(x), Token::Number(y)) => x == y,
        (Token::Float { whole: w1, frac: f1 }, Token::Float { whole: w2, frac: f2 }) => w1.eq(w2)
            && f1.eq(f2),
        (Token::OperatorAdd, Token::OperatorAdd) => true,
        (Token::OperatorSubtract, Token::OperatorSubtract) => true,
        (Token::OperatorMultiply, Token::OperatorMultiply) => true,
        (Token::OperatorDivide, Token::OperatorDivide) => true,
        (Token::OperatorPower, Token::OperatorPower) => true,
        (Token::Equal, Token::Equal) => true,
        (Token::NotEqual, Token::NotEqual) => true,
        (Token::LessThan, Token::LessThan) => true,
        (Token::LessOrEqual, Token::LessOrEqual) => true,
        (Token::GreaterThan, Token::GreaterThan) => true,
        (Token::GreaterOrEqual, Token::GreaterOrEqual) => true,
        (Token::Comma, Token::Comma) => true,
        (Token::Semicolon, Token::Semicolon) => true,
        (Token::LeftParen, Token::LeftParen) => true,
        (Token::RightParen, Token::RightParen) => true,
        (Token::Newline, Token::Newline) => true,
        (Token::Eof, Token::Eof) => true,
        (Token::Else, Token::Else) => true,
        (Token::End, Token::End) => true,
        (Token::For, Token::For) => true,
        (Token::Goto, Token::Goto) => true,
        (Token::If, Token::If) => true,
        (Token::Input, Token::Input) => true,
        (Token::Let, Token::Let) => true,
        (Token::Next, Token::Next) => true,
        (Token::Print, Token::Print) => true,
        (Token::Rem, Token::Rem) => true,
        (Token::Step, Token::Step) => true,
        (Token::Then, Token::Then) => true,
        (Token::To, Token::To) => true,
        _ => false,
    }
}

/// An owned copy of a token.
fn clone_token(t: &Token) -> (r: Token)
    ensures
        r.deep_view() == t.deep_view(),
{
    match t {
        Token::Identifier(x) => Token::Identifier(x.clone()),
        Token::StrLit(x) => Token::StrLit(x.clone()),
        Token::Number(x) => Token::Number(*x),
        Token::Float { whole, frac } => Token::Float { whole: whole.clone(), frac: frac.clone() },
        Token::OperatorAdd => Token::OperatorAdd,
        Token::OperatorSubtract => Token::OperatorSubtract,
        Token::OperatorMultiply => Token::OperatorMultiply,
        Token::OperatorDivide => Token::OperatorDivide,
        Token::OperatorPower => Token::OperatorPower,
        Token::Equal => Token::Equal,
        Token::NotEqual => Token::NotEqual,
        Token::LessThan => Token::LessThan,
        Token::LessOrEqual => Token::LessOrEqual,
        Token::GreaterThan => Token::GreaterThan,
        Token::GreaterOrEqual => Token::GreaterOrEqual,
        Token::Comma => Token::Comma,
        Token::Semicolon => Token::Semicolon,
        Token::LeftParen => Token::LeftParen,
        Token::RightParen => Token::RightParen,
        Token::Newline => Token::Newline,
        Token::Eof => Token::Eof,
        Token::Else => Token::Else,
        Token::End => Token::End,
        Token::For => Token::For,
        Token::Goto => Token::Goto,
        Token::If => Token::If,
        Token::Input => Token::Input,
        Token::Let => Token::Let,
        Token::Next => Token::Next,
        Token::Print => Token::Print,
        Token::Rem => Token::Rem,
        Token::Step => Token::Step,
        Token::Then => Token::Then,
        Token::To => Token::To,
    }
}

// ----------------------------------------------------------------------
// The parser
// ----------------------------------------------------------------------

/// The parser: the token sequence and a cursor with one token of
/// lookahead.
pub struct Parser {
    pub tokens: Vec<Token>,
    pub position: usize,
}

impl Parser {
    /// The token model the contracts speak of.
    pub open spec fn toks(&self) -> Seq<SpecToken> {
        self.tokens.deep_view()
    }

    /// The cursor never runs past the end of the token sequence.
    pub open spec fn wf(&self) -> bool {
        self.position <= self.tokens@.len()
    }

    /// A fresh parser positioned at the first token.
    pub fn new(tokens: Vec<Token>) -> (p: Parser)
        ensures
            p.wf(),
            p.tokens == tokens,
            p.position == 0,
    {
        Parser { tokens, position: 0 }
    }

    /// The token under the cursor; past the end it is end-of-input.
    fn current_token(&self) -> (t: &Token)
        ensures
            t.deep_view() == cur(self.toks(), self.position as int),
    {
        if self.position < self.tokens.len() {
            &self.tokens[self.position]
        } else {
            &Token::Eof
        }
    }

    /// Moves the cursor one token forward.
    fn advance(&mut self)
        requires
            old(self).wf(),
            old(self).position < old(self).tokens@.len(),
        ensures
            final(self).wf(),
            final(self).tokens == old(self).tokens,
            final(self).position == old(self).position + 1,
    {
        let n = self.tokens.len();
        proof {
            assert(self.position < n);
        }
        self.position += 1;
    }

    /// Demand one specific token and step over it, or report what was
    /// found instead.
    fn expect(&mut self, expected: Token) -> (r: Result<(), ParseError>)
        requires
            old(self).wf(),
            expected.deep_view() != SpecToken::Eof,
        ensures
            final(self).wf(),
            final(self).tokens == old(self).tokens,
            ({
                let res = sp_expect(old(self).toks(), old(self).position as int, expected.deep_view());
                match (r, res) {
                    (Ok(u), Ok(p)) => final(self).position as int == p,
                    (Err(a), Err(b)) => a.deep_view() == b && final(self).position == old(
                        self,
                    ).position,
                    _ => false,
                }
            }),
    {
        let same = token_eq(self.current_token(), &expected);
        if same {
            self.advance();
            Ok(())
        } else {
            let got = clone_token(self.current_token());
            Err(ParseError::Expected { expected, got })
        }
    }

    /// Steps over any run of newline tokens.
    fn skip_newlines(&mut self)
        requires
            old(self).wf(),
        ensures
            final(self).wf(),
            final(self).tokens == old(self).tokens,
            final(self).position as int == sp_skip_newlines(
                old(self).toks(),
                old(self).position as int,
            ),
    {
        let ghost t = self.toks();
        loop
            invariant
                self.wf(),
                self.tokens == old(self).tokens,
                t == self.toks(),
                sp_skip_newlines(t, self.position as int) == sp_skip_newlines(
                    t,
                    old(self).position as int,
                ),
            ensures
                self.wf(),
                self.tokens == old(self).tokens,
                self.position as int == sp_skip_newlines(t, old(self).position as int),
            decreases t.len() - self.position,
        {
            let is_nl = match self.current_token() {
                Token::Newline => true,
                _ => false,
            };
            if is_nl {
                self.advance();
            } else {
                break ;
            }
        }
    }

    /// A primary expression: a literal, a variable, a parenthesized
    /// expression, or a function call.
    #[verifier::rlimit(60)]
    fn parse_primary(&mut self) -> (r: Result<Expression, ParseError>)
        requires
            old(self).wf(),
        ensures
            final(self).wf(),
            final(self).tokens == old(self).tokens,
            ({
                let res = sp_primary(old(self).toks(), old(self).position as int);
                match (r, res) {
                    (Ok(e), Ok((m, end))) => view_expr(e) == m && final(self).position as int
                        == end,
                    (Err(a), Err(b)) => a.deep_view() == b,
                    _ => false,
                }
            }),
        decreases self.tokens@.len() - self.position, 1int,
    {
        let ghost t = self.toks();
        let ghost p0 = self.position as int;
        let kind: usize = match self.current_token() {
            Token::Number(_) => 0,
            Token::Float { .. } => 1,
            Token::Identifier(_) => 2,
            Token::LeftParen => 3,
            _ => 4,
        };
        if kind == 0 {
            let v = match self.current_token() {
                Token::Number(n) => *n,
                _ => 0,
            };
            self.advance();
            return Ok(Expression::Number(v));
        }
        if kind == 1 {
            let (w, f) = match self.current_token() {
                Token::Float { whole, frac } => (whole.clone(), frac.clone()),
                _ => (String::new(), String::new()),
            };
            self.advance();
            return Ok(Expression::Float { whole: w, frac: f });
        }
        if kind == 2 {
            let name = match self.current_token() {
                Token::Identifier(s) => s.clone(),
                _ => String::new(),
            };
            self.advance();
            let is_lparen = match self.current_token() {
                Token::LeftParen => true,
                _ => false,
            };
            if !is_lparen {
                return Ok(Expression::Variable(name));
            }
            self.advance();
            let is_rparen = match self.current_token() {
                Token::RightParen => true,
                _ => false,
            };
            if is_rparen {
                self.advance();
                let args: Vec<Expression> = Vec::new();
                proof {
                    assert(view_expr_seq(args@) =~= Seq::<SpecExpr>::empty());
                }
                return Ok(Expression::FunctionCall { name, args });
            }
            let args = match self.parse_args() {
                Ok(a) => a,
                Err(e) => {
                    return Err(e);
                },
            };
            match self.expect(Token::RightParen) {
                Ok(_) => {},
                Err(e) => {
                    return Err(e);
                },
            }
            return Ok(Expression::FunctionCall { name, args });
        }
        if kind == 3 {
            self.advance();
            let e = match self.parse_expr() {
                Ok(e) => e,
                Err(er) => {
                    return Err(er);
                },
            };
            match self.expect(Token::RightParen) {
                Ok(_) => {},
                Err(er) => {
                    return Err(er);
                },
            }
            return Ok(e);
        }
        let got = clone_token(self.current_token());
        Err(ParseError::UnexpectedExpressionToken { got })
    }

    /// A nonempty comma-separated argument list.
    fn parse_args(&mut self) -> (r: Result<Vec<Expression>, ParseError>)
        requires
            old(self).wf(),
        ensures
            final(self).wf(),
            final(self).tokens == old(self).tokens,
            ({
                let res = sp_args(old(self).toks(), old(self).position as int);
                match (r, res) {
                    (Ok(v), Ok((m, end))) => view_expr_seq(v@) == m && final(self).position as int
                        == end,
                    (Err(a), Err(b)) => a.deep_view() == b,
                    _ => false,
                }
            }),
        decreases self.tokens@.len() - self.position, 5int,
    {
        let ghost t = self.toks();
        let ghost p0 = self.position as int;
        let a = match self.parse_expr() {
            Ok(a) => a,
            Err(e) => {
                return Err(e);
            },
        };
        proof {
            lemma_sp_expr_adv(t, p0);
        }
        let is_comma = match self.current_token() {
            Token::Comma => true,
            _ => false,
        };
        if is_comma {
            self.advance();
            let rest = match self.parse_args() {
                Ok(v) => v,
                Err(e) => {
                    return Err(e);
                },
            };
            let ghost restm = view_expr_seq(rest@);
            let mut v = rest;
            v.insert(0, a);
            proof {
                assert(v@[0] == a);
                assert(v@.drop_first() =~= rest@);
                assert(view_expr_seq(v@) == seq![view_expr(a)] + restm);
            }
            Ok(v)
        } else {
            let mut v: Vec<Expression> = Vec::new();
            v.push(a);
            proof {
                assert(v@[0] == a);
                assert(v@.drop_first() =~= Seq::<Expression>::empty());
                assert(view_expr_seq(v@.drop_first()) =~= Seq::<SpecExpr>::empty());
                assert(view_expr_seq(v@) == seq![view_expr(v@[0])] + view_expr_seq(v@.drop_first()));
                assert(view_expr_seq(v@) =~= seq![view_expr(a)]);
            }
            Ok(v)
        }
    }

    /// A power chain, right-associative.
    fn parse_power(&mut self) -> (r: Result<Expression, ParseError>)
        requires
            old(self).wf(),
        ensures
            final(self).wf(),
            final(self).tokens == old(self).tokens,
            ({
                let res = sp_power(old(self).toks(), old(self).position as int);
                match (r, res) {
                    (Ok(e), Ok((m, end))) => view_expr(e) == m && final(self).position as int
                        == end,
                    (Err(a), Err(b)) => a.deep_view() == b,
                    _ => false,
                }
            }),
        decreases self.tokens@.len() - self.position, 2int,
    {
        let ghost t = self.toks();
        let ghost p0 = self.position as int;
        let mut left = match self.parse_primary() {
            Ok(e) => e,
            Err(e) => {
                return Err(e);
            },
        };
        proof {
            lemma_sp_primary_adv(t, p0);
        }
        loop
            invariant
                self.wf(),
                self.tokens == old(self).tokens,
                t == self.toks(),
                p0 == old(self).position as int,
                p0 < self.position as int <= t.len(),
                sp_power_rest(t, self.position as int, view_expr(left)) == sp_power(t, p0),
            ensures
                self.wf(),
                self.tokens == old(self).tokens,
                sp_power(t, p0) == Ok::<(SpecExpr, int), SpecParseError>(
                    (view_expr(left), self.position as int),
                ),
            decreases t.len() - self.position,
        {
            let is_pow = match self.current_token() {
                Token::OperatorPower => true,
                _ => false,
            };
            if !is_pow {
                break ;
            }
            self.advance();
            let ghost pc = self.position as int - 1;
            let right = match self.parse_power() {
                Ok(e) => e,
                Err(e) => {
                    return Err(e);
                },
            };
            proof {
                lemma_sp_power_adv(t, pc + 1);
            }
            left = Expression::BinaryOp {
                left: Box::new(left),
                operator: BinOp::Power,
                right: Box::new(right),
            };
        }
        Ok(left)
    }

    /// A multiplicative chain, left-associative.
    fn parse_term(&mut self) -> (r: Result<Expression, ParseError>)
        requires
            old(self).wf(),
        ensures
            final(self).wf(),
            final(self).tokens == old(self).tokens,
            ({
                let res = sp_term(old(self).toks(), old(self).position as int);
                match (r, res) {
                    (Ok(e), Ok((m, end))) => view_expr(e) == m && final(self).position as int
                        == end,
                    (Err(a), Err(b)) => a.deep_view() == b,
                    _ => false,
                }
            }),
        decreases self.tokens@.len() - self.position, 3int,
    {
        let ghost t = self.toks();
        let ghost p0 = self.position as int;
        let mut left = match self.parse_power() {
            Ok(e) => e,
            Err(e) => {
                return Err(e);
            },
        };
        proof {
            lemma_sp_power_adv(t, p0);
        }
        loop
            invariant
                self.wf(),
                self.tokens == old(self).tokens,
                t == self.toks(),
                p0 == old(self).position as int,
                p0 < self.position as int <= t.len(),
                sp_term_rest(t, self.position as int, view_expr(left)) == sp_term(t, p0),
            ensures
                self.wf(),
                self.tokens == old(self).tokens,
                sp_term(t, p0) == Ok::<(SpecExpr, int), SpecParseError>(
                    (view_expr(left), self.position as int),
                ),
            decreases t.len() - self.position,
        {
            let op = match self.current_token() {
                Token::OperatorMultiply => Some(BinOp::Multiply),
                Token::OperatorDivide => Some(BinOp::Divide),
                _ => None,
            };
            let op = match op {
                Some(op) => op,
                None => {
                    break ;
                },
            };
            self.advance();
            let ghost pc = self.position as int - 1;
            let right = match self.parse_power() {
                Ok(e) => e,
                Err(e) => {
                    return Err(e);
                },
            };
            proof {
                lemma_sp_power_adv(t, pc + 1);
            }
            left = Expression::BinaryOp {
                left: Box::new(left),
                operator: op,
                right: Box::new(right),
            };
        }
        Ok(left)
    }

    /// A whole expression: an additive chain, left-associative.
    fn parse_expr(&mut self) -> (r: Result<Expression, ParseError>)
        requires
            old(self).wf(),
        ensures
            final(self).wf(),
            final(self).tokens == old(self).tokens,
            ({
                let res = sp_expr(old(self).toks(), old(self).position as int);
                match (r, res) {
                    (Ok(e), Ok((m, end))) => view_expr(e) == m && final(self).position as int
                        == end,
                    (Err(a), Err(b)) => a.deep_view() == b,
                    _ => false,
                }
            }),
        decreases self.tokens@.len() - self.position, 4int,
    {
        let ghost t = self.toks();
        let ghost p0 = self.position as int;
        let mut left = match self.parse_term() {
            Ok(e) => e,
            Err(e) => {
                return Err(e);
            },
        };
        proof {
            lemma_sp_term_adv(t, p0);
        }
        loop
            invariant
                self.wf(),
                self.tokens == old(self).tokens,
                t == self.toks(),
                p0 == old(self).position as int,
                p0 < self.position as int <= t.len(),
                sp_expr_rest(t, self.position as int, view_expr(left)) == sp_expr(t, p0),
            ensures
                self.wf(),
                self.tokens == old(self).tokens,
                sp_expr(t, p0) == Ok::<(SpecExpr, int), SpecParseError>(
                    (view_expr(left), self.position as int),
                ),
            decreases t.len() - self.position,
        {
            let op = match self.current_token() {
                Token::OperatorAdd => Some(BinOp::Add),
                Token::OperatorSubtract => Some(BinOp::Subtract),
                _ => None,
            };
            let op = match op {
                Some(op) => op,
                None => {
                    break ;
                },
            };
            self.advance();
            let ghost pc = self.position as int - 1;
            let right = match self.parse_term() {
                Ok(e) => e,
                Err(e) => {
                    return Err(e);
                },
            };
            proof {
                lemma_sp_term_adv(t, pc + 1);
            }
            left = Expression::BinaryOp {
                left: Box::new(left),
                operator: op,
                right: Box::new(right),
            };
        }
        Ok(left)
    }

    /// LET <identifier> = <expression>.
    fn parse_let(&mut self) -> (r: Result<StatementNode, ParseError>)
        requires
            old(self).wf(),
        ensures
            final(self).wf(),
            final(self).tokens == old(self).tokens,
            ({
                let res = sp_let(old(self).toks(), old(self).position as int);
                match (r, res) {
                    (Ok(n), Ok((m, end))) => view_node(n) == m && final(self).position as int
                        == end,
                    (Err(a), Err(b)) => a.deep_view() == b,
                    _ => false,
                }
            }),
    {
        let ghost t = self.toks();
        let ghost p0 = self.position as int;
        match self.expect(Token::Let) {
            Ok(_) => {},
            Err(e) => {
                return Err(e);
            },
        }
        let is_ident = match self.current_token() {
            Token::Identifier(_) => true,
            _ => false,
        };
        if !is_ident {
            let got = clone_token(self.current_token());
            return Err(ParseError::ExpectedIdentifier { got });
        }
        let var = match self.current_token() {
            Token::Identifier(name) => name.clone(),
            _ => String::new(),
        };
        self.advance();
        match self.expect(Token::Equal) {
            Ok(_) => {},
            Err(e) => {
                return Err(e);
            },
        }
        let value = match self.parse_expr() {
            Ok(e) => e,
            Err(e) => {
                return Err(e);
            },
        };
        Ok(StatementNode::Let { var, value })
    }

    /// GOTO <line>.
    fn parse_goto(&mut self) -> (r: Result<StatementNode, ParseError>)
        requires
            old(self).wf(),
        ensures
            final(self).wf(),
            final(self).tokens == old(self).tokens,
            ({
                let res = sp_goto(old(self).toks(), old(self).position as int);
                match (r, res) {
                    (Ok(n), Ok((m, end))) => view_node(n) == m && final(self).position as int
                        == end,
                    (Err(a), Err(b)) => a.deep_view() == b,
                    _ => false,
                }
            }),
    {
        match self.expect(Token::Goto) {
            Ok(_) => {},
            Err(e) => {
                return Err(e);
            },
        }
        let line = match self.current_token() {
            Token::Number(n) => Some(*n),
            _ => None,
        };
        match line {
            Some(line) => {
                self.advance();
                Ok(StatementNode::Goto(line))
            },
            None => {
                let got = clone_token(self.current_token());
                Err(ParseError::ExpectedLineNumber { got })
            },
        }
    }

    /// INPUT <identifier>.
    fn parse_input(&mut self) -> (r: Result<StatementNode, ParseError>)
        requires
            old(self).wf(),
        ensures
            final(self).wf(),
            final(self).tokens == old(self).tokens,
            ({
                let res = sp_input(old(self).toks(), old(self).position as int);
                match (r, res) {
                    (Ok(n), Ok((m, end))) => view_node(n) == m && final(self).position as int
                        == end,
                    (Err(a), Err(b)) => a.deep_view() == b,
                    _ => false,
                }
            }),
    {
        match self.expect(Token::Input) {
            Ok(_) => {},
            Err(e) => {
                return Err(e);
            },
        }
        let is_ident = match self.current_token() {
            Token::Identifier(_) => true,
            _ => false,
        };
        if !is_ident {
            let got = clone_token(self.current_token());
            return Err(ParseError::ExpectedIdentifier { got });
        }
        let var = match self.current_token() {
            Token::Identifier(name) => name.clone(),
            _ => String::new(),
        };
        self.advance();
        Ok(StatementNode::Input(var))
    }

    /// The PRINT item loop, at the loop head.
    #[verifier::rlimit(60)]
    fn parse_print_loop(&mut self) -> (r: Result<(Vec<PrintItem>, bool), ParseError>)
        requires
            old(self).wf(),
        ensures
            final(self).wf(),
            final(self).tokens == old(self).tokens,
            ({
                let res = sp_print_loop(old(self).toks(), old(self).position as int);
                match (r, res) {
                    (Ok((v, nl)), Ok((m, mnl, end))) => view_item_seq(v@) == m && nl == mnl
                        && final(self).position as int == end,
                    (Err(a), Err(b)) => a.deep_view() == b,
                    _ => false,
                }
            }),
        decreases self.tokens@.len() - self.position, 0int,
    {
        let ghost t = self.toks();
        let ghost p0 = self.position as int;
        let kind: usize = match self.current_token() {
            Token::Newline => 0,
            Token::Eof => 0,
            Token::StrLit(_) => 1,
            Token::Comma => 2,
            Token::Semicolon => 2,
            _ => 3,
        };
        if kind == 0 {
            let v: Vec<PrintItem> = Vec::new();
            proof {
                assert(view_item_seq(v@) =~= Seq::<SpecPrintItem>::empty());
            }
            return Ok((v, true));
        }
        if kind == 1 {
            let s = match self.current_token() {
                Token::StrLit(s) => s.clone(),
                _ => String::new(),
            };
            self.advance();
            let (rest, nl) = match self.parse_print_sep() {
                Ok(p) => p,
                Err(e) => {
                    return Err(e);
                },
            };
            let ghost restm = view_item_seq(rest@);
            let mut v = rest;
            v.insert(0, PrintItem::Str(s));
            proof {
                assert(v@.drop_first() =~= rest@);
                assert(view_item_seq(v@) == seq![view_item(v@[0])] + restm);
            }
            return Ok((v, nl));
        }
        if kind == 2 {
            self.advance();
            let ends = match self.current_token() {
                Token::Newline => true,
                Token::Eof => true,
                _ => false,
            };
            if ends {
                let v: Vec<PrintItem> = Vec::new();
                proof {
                    assert(view_item_seq(v@) =~= Seq::<SpecPrintItem>::empty());
                }
                return Ok((v, false));
            }
            return self.parse_print_sep();
        }
        let ex = match self.parse_expr() {
            Ok(e) => e,
            Err(e) => {
                return Err(e);
            },
        };
        proof {
            lemma_sp_expr_adv(t, p0);
        }
        let (rest, nl) = match self.parse_print_sep() {
            Ok(p) => p,
            Err(e) => {
                return Err(e);
            },
        };
        let ghost restm = view_item_seq(rest@);
        let mut v = rest;
        v.insert(0, PrintItem::Expr(ex));
        proof {
            assert(v@.drop_first() =~= rest@);
            assert(view_item_seq(v@) == seq![view_item(v@[0])] + restm);
        }
        Ok((v, nl))
    }

    /// After a separator: stop without the trailing newline when the
    /// line ends here, otherwise go round the loop again.
    fn parse_print_after_sep(&mut self) -> (r: Result<(Vec<PrintItem>, bool), ParseError>)
        requires
            old(self).wf(),
        ensures
            final(self).wf(),
            final(self).tokens == old(self).tokens,
            ({
                let res = sp_print_after_sep(old(self).toks(), old(self).position as int);
                match (r, res) {
                    (Ok((v, nl)), Ok((m, mnl, end))) => view_item_seq(v@) == m && nl == mnl
                        && final(self).position as int == end,
                    (Err(a), Err(b)) => a.deep_view() == b,
                    _ => false,
                }
            }),
        decreases self.tokens@.len() - self.position, 1int,
    {
        let ends = match self.current_token() {
            Token::Newline => true,
            Token::Eof => true,
            _ => false,
        };
        if ends {
            let v: Vec<PrintItem> = Vec::new();
            proof {
                assert(view_item_seq(v@) =~= Seq::<SpecPrintItem>::empty());
            }
            Ok((v, false))
        } else {
            self.parse_print_loop()
        }
    }

    /// The separator check at the bottom of the PRINT loop.
    fn parse_print_sep(&mut self) -> (r: Result<(Vec<PrintItem>, bool), ParseError>)
        requires
            old(self).wf(),
        ensures
            final(self).wf(),
            final(self).tokens == old(self).tokens,
            ({
                let res = sp_print_sep(old(self).toks(), old(self).position as int);
                match (r, res) {
                    (Ok((v, nl)), Ok((m, mnl, end))) => view_item_seq(v@) == m && nl == mnl
                        && final(self).position as int == end,
                    (Err(a), Err(b)) => a.deep_view() == b,
                    _ => false,
                }
            }),
        decreases self.tokens@.len() - self.position, 0int,
    {
        let is_sep = match self.current_token() {
            Token::Comma => true,
            Token::Semicolon => true,
            _ => false,
        };
        if is_sep {
            self.advance();
            self.parse_print_after_sep()
        } else {
            let v: Vec<PrintItem> = Vec::new();
            proof {
                assert(view_item_seq(v@) =~= Seq::<SpecPrintItem>::empty());
            }
            Ok((v, true))
        }
    }

    /// PRINT with its mixed item list and trailing-newline flag.
    fn parse_print(&mut self) -> (r: Result<StatementNode, ParseError>)
        requires
            old(self).wf(),
        ensures
            final(self).wf(),
            final(self).tokens == old(self).tokens,
            ({
                let res = sp_print(old(self).toks(), old(self).position as int);
                match (r, res) {
                    (Ok(n), Ok((m, end))) => view_node(n) == m && final(self).position as int
                        == end,
                    (Err(a), Err(b)) => a.deep_view() == b,
                    _ => false,
                }
            }),
    {
        match self.expect(Token::Print) {
            Ok(_) => {},
            Err(e) => {
                return Err(e);
            },
        }
        let (items, newline) = match self.parse_print_loop() {
            Ok(p) => p,
            Err(e) => {
                return Err(e);
            },
        };
        Ok(StatementNode::Print { items, newline })
    }

    /// FOR <var> = <start> TO <end> [STEP <step>] <body...> NEXT
    /// [<var>].
    #[verifier::rlimit(60)]
    fn parse_for(&mut self) -> (r: Result<StatementNode, ParseError>)
        requires
            old(self).wf(),
        ensures
            final(self).wf(),
            final(self).tokens == old(self).tokens,
            ({
                let res = sp_for(old(self).toks(), old(self).position as int);
                match (r, res) {
                    (Ok(n), Ok((m, end))) => view_node(n) == m && final(self).position as int
                        == end,
                    (Err(a), Err(b)) => a.deep_view() == b,
                    _ => false,
                }
            }),
        decreases self.tokens@.len() - self.position, 1int,
    {
        let ghost t = self.toks();
        let ghost p0 = self.position as int;
        match self.expect(Token::For) {
            Ok(_) => {},
            Err(e) => {
                return Err(e);
            },
        }
        let is_ident = match self.current_token() {
            Token::Identifier(_) => true,
            _ => false,
        };
        if !is_ident {
            let got = clone_token(self.current_token());
            return Err(ParseError::ExpectedIdentifier { got });
        }
        let var = match self.current_token() {
            Token::Identifier(name) => name.clone(),
            _ => String::new(),
        };
        self.advance();
        match self.expect(Token::Equal) {
            Ok(_) => {},
            Err(e) => {
                return Err(e);
            },
        }
        let ghost p3 = self.position as int;
        let startx = match self.parse_expr() {
            Ok(e) => e,
            Err(e) => {
                return Err(e);
            },
        };
        proof {
            lemma_sp_expr_adv(t, p3);
        }
        match self.expect(Token::To) {
            Ok(_) => {},
            Err(e) => {
                return Err(e);
            },
        }
        let ghost p4 = self.position as int;
        let endx = match self.parse_expr() {
            Ok(e) => e,
            Err(e) => {
                return Err(e);
            },
        };
        proof {
            lemma_sp_expr_adv(t, p4);
        }
        let has_step = match self.current_token() {
            Token::Step => true,
            _ => false,
        };
        let step = if has_step {
            self.advance();
            let ghost p5 = self.position as int;
            let stx = match self.parse_expr() {
                Ok(e) => e,
                Err(e) => {
                    return Err(e);
                },
            };
            proof {
                lemma_sp_expr_adv(t, p5);
            }
            Some(stx)
        } else {
            None
        };
        let ghost hdr_end = self.position as int;
        self.skip_newlines();
        proof {
            lemma_sp_skip_newlines_bounds(t, hdr_end);
        }
        let body = match self.parse_for_body() {
            Ok(b) => b,
            Err(e) => {
                return Err(e);
            },
        };
        match self.expect(Token::Next) {
            Ok(_) => {},
            Err(e) => {
                return Err(e);
            },
        }
        let trailing_var = match self.current_token() {
            Token::Identifier(_) => true,
            _ => false,
        };
        if trailing_var {
            self.advance();
        }
        Ok(StatementNode::For { var, start: startx, end: endx, step, body })
    }

    /// The body of a FOR loop: statements until NEXT or end-of-input.
    fn parse_for_body(&mut self) -> (r: Result<Vec<Statement>, ParseError>)
        requires
            old(self).wf(),
        ensures
            final(self).wf(),
            final(self).tokens == old(self).tokens,
            ({
                let res = sp_for_body(old(self).toks(), old(self).position as int);
                match (r, res) {
                    (Ok(v), Ok((m, end))) => view_stmt_seq(v@) == m && final(self).position as int
                        == end,
                    (Err(a), Err(b)) => a.deep_view() == b,
                    _ => false,
                }
            }),
        decreases self.tokens@.len() - self.position, 3int,
    {
        let ghost t = self.toks();
        let ghost p0 = self.position as int;
        let stop = match self.current_token() {
            Token::Next => true,
            Token::Eof => true,
            _ => false,
        };
        if stop {
            let v: Vec<Statement> = Vec::new();
            proof {
                assert(view_stmt_seq(v@) =~= Seq::<SpecStmt>::empty());
            }
            return Ok(v);
        }
        let st = match self.parse_statement() {
            Ok(st) => st,
            Err(e) => {
                return Err(e);
            },
        };
        proof {
            lemma_sp_statement_adv(t, p0);
        }
        let ghost b = self.position as int;
        self.skip_newlines();
        proof {
            lemma_sp_skip_newlines_bounds(t, b);
        }
        let rest = match self.parse_for_body() {
            Ok(v) => v,
            Err(e) => {
                return Err(e);
            },
        };
        let ghost restm = view_stmt_seq(rest@);
        let mut v = rest;
        v.insert(0, st);
        proof {
            assert(v@.drop_first() =~= rest@);
            assert(view_stmt_seq(v@) == seq![view_stmt(v@[0])] + restm);
        }
        Ok(v)
    }

    /// IF <expr> <comparison> <expr> THEN <line-or-statement>.
    #[verifier::rlimit(60)]
    fn parse_if(&mut self) -> (r: Result<StatementNode, ParseError>)
        requires
            old(self).wf(),
        ensures
            final(self).wf(),
            final(self).tokens == old(self).tokens,
            ({
                let res = sp_if(old(self).toks(), old(self).position as int);
                match (r, res) {
                    (Ok(n), Ok((m, end))) => view_node(n) == m && final(self).position as int
                        == end,
                    (Err(a), Err(b)) => a.deep_view() == b,
                    _ => false,
                }
            }),
        decreases self.tokens@.len() - self.position, 0int,
    {
        let ghost t = self.toks();
        let ghost p0 = self.position as int;
        match self.expect(Token::If) {
            Ok(_) => {},
            Err(e) => {
                return Err(e);
            },
        }
        let ghost p1 = self.position as int;
        let left = match self.parse_expr() {
            Ok(e) => e,
            Err(e) => {
                return Err(e);
            },
        };
        proof {
            lemma_sp_expr_adv(t, p1);
        }
        let op_is_cmp = is_comparison_token(self.current_token());
        if !op_is_cmp {
            let got = clone_token(self.current_token());
            return Err(ParseError::ExpectedComparison { got });
        }
        let op = clone_token(self.current_token());
        self.advance();
        let ghost pr = self.position as int;
        let right = match self.parse_expr() {
            Ok(e) => e,
            Err(e) => {
                return Err(e);
            },
        };
        proof {
            lemma_sp_expr_adv(t, pr);
        }
        match self.expect(Token::Then) {
            Ok(_) => {},
            Err(e) => {
                return Err(e);
            },
        }
        let ghost p3 = self.position as int;
        let is_num = match self.current_token() {
            Token::Number(_) => true,
            _ => false,
        };
        let then_part = if is_num {
            let line = match self.current_token() {
                Token::Number(n) => *n,
                _ => 0,
            };
            self.advance();
            let st = Statement { label: None, node: StatementNode::Goto(line) };
            proof {
                assert(view_node(st.node) == SpecStmtNode::Goto(line as int));
                assert(view_stmt(st) == SpecStmt {
                    label: None,
                    node: SpecStmtNode::Goto(line as int),
                });
            }
            st
        } else {
            match self.parse_statement() {
                Ok(st) => st,
                Err(e) => {
                    return Err(e);
                },
            }
        };
        Ok(StatementNode::If { left, op, right, then_part: Box::new(then_part) })
    }

    /// One statement: skipped blank lines, an optional label, then the
    /// statement form chosen by the leading token.
    #[verifier::rlimit(60)]
    fn parse_statement(&mut self) -> (r: Result<Statement, ParseError>)
        requires
            old(self).wf(),
        ensures
            final(self).wf(),
            final(self).tokens == old(self).tokens,
            ({
                let res = sp_statement(old(self).toks(), old(self).position as int);
                match (r, res) {
                    (Ok(st), Ok((m, end))) => view_stmt(st) == m && final(self).position as int
                        == end,
                    (Err(a), Err(b)) => a.deep_view() == b,
                    _ => false,
                }
            }),
        decreases self.tokens@.len() - self.position, 2int,
    {
        let ghost t = self.toks();
        let ghost p0 = self.position as int;
        self.skip_newlines();
        proof {
            lemma_sp_skip_newlines_bounds(t, p0);
        }
        let label = match self.current_token() {
            Token::Number(n) => Some(*n),
            _ => None,
        };
        if label.is_some() {
            self.advance();
        }
        let kind: usize = match self.current_token() {
            Token::Let => 0,
            Token::Print => 1,
            Token::For => 2,
            Token::If => 3,
            Token::Goto => 4,
            Token::Input => 5,
            Token::Rem => 6,
            Token::End => 7,
            Token::Newline => 8,
            Token::Eof => 8,
            _ => 9,
        };
        if kind == 9 {
            let got = clone_token(self.current_token());
            return Err(ParseError::UnexpectedStatementToken { got });
        }
        let node = if kind == 0 {
            self.parse_let()
        } else if kind == 1 {
            self.parse_print()
        } else if kind == 2 {
            self.parse_for()
        } else if kind == 3 {
            self.parse_if()
        } else if kind == 4 {
            self.parse_goto()
        } else if kind == 5 {
            self.parse_input()
        } else if kind == 6 {
            self.advance();
            Ok(StatementNode::Rem)
        } else if kind == 7 {
            self.advance();
            Ok(StatementNode::End)
        } else {
            Ok(StatementNode::Rem)
        };
        let node = match node {
            Ok(n) => n,
            Err(e) => {
                return Err(e);
            },
        };
        Ok(Statement { label, node })
    }

    /// The whole program: statements until end-of-input, exactly as
    /// `sp_program` says.
    pub fn parse(&mut self) -> (r: Result<Vec<Statement>, ParseError>)
        requires
            old(self).wf(),
        ensures
            final(self).wf(),
            final(self).tokens == old(self).tokens,
            ({
                let res = sp_program(old(self).toks(), old(self).position as int);
                match (r, res) {
                    (Ok(v), Ok((m, end))) => view_stmt_seq(v@) == m && final(self).position as int
                        == end,
                    (Err(a), Err(b)) => a.deep_view() == b,
                    _ => false,
                }
            }),
    {
        let ghost t = self.toks();
        let ghost p0 = self.position as int;
        let mut statements: Vec<Statement> = Vec::new();
        self.skip_newlines();
        proof {
            lemma_sp_skip_newlines_bounds(t, p0);
            assert(view_stmt_seq(statements@) =~= Seq::<SpecStmt>::empty());
        }
        loop
            invariant
                self.wf(),
                self.tokens == old(self).tokens,
                t == self.toks(),
                p0 == old(self).position as int,
                0 <= p0 <= t.len(),
                p0 <= self.position as int <= t.len(),
                cur(t, self.position as int) != SpecToken::Newline,
                sp_program(t, p0) == (match sp_program(t, self.position as int) {
                    Ok((rest, e)) => Ok::<(Seq<SpecStmt>, int), SpecParseError>(
                        (view_stmt_seq(statements@) + rest, e),
                    ),
                    Err(er) => Err::<(Seq<SpecStmt>, int), SpecParseError>(er),
                }),
            decreases t.len() - self.position,
        {
            let ghost pc = self.position as int;
            let is_eof = match self.current_token() {
                Token::Eof => true,
                _ => false,
            };
            if is_eof {
                proof {
                    assert(sp_skip_newlines(t, pc) == pc);
                    assert(sp_program(t, pc) == Ok::<(Seq<SpecStmt>, int), SpecParseError>(
                        (Seq::<SpecStmt>::empty(), pc),
                    ));
                    assert(view_stmt_seq(statements@) + Seq::<SpecStmt>::empty() =~= view_stmt_seq(
                        statements@,
                    ));
                }
                return Ok(statements);
            }
            let st = match self.parse_statement() {
                Ok(st) => st,
                Err(e) => {
                    proof {
                        assert(sp_skip_newlines(t, pc) == pc);
                    }
                    return Err(e);
                },
            };
            proof {
                lemma_sp_statement_adv(t, pc);
                assert(sp_skip_newlines(t, pc) == pc);
            }
            let ghost b = self.position as int;
            self.skip_newlines();
            proof {
                lemma_sp_skip_newlines_bounds(t, b);
            }
            let ghost pre = statements@;
            statements.push(st);
            proof {
                lemma_view_stmt_seq_push(pre, st);
                let stm = view_stmt(st);
                assert(sp_skip_newlines(t, b) == self.position as int);
                assert(sp_program(t, b) == sp_program(t, self.position as int));
                match sp_program(t, self.position as int) {
                    Ok((rest, e)) => {
                        assert(view_stmt_seq(pre) + (seq![stm] + rest) =~= view_stmt_seq(
                            statements@,
                        ) + rest);
                    },
                    Err(_) => {},
                }
            }
        }
    }
}


// ----------------------------------------------------------------------
// Precedence laws
// ----------------------------------------------------------------------

/// Operator precedence: for any three number literals, `a + b * c`
/// parses with the multiplication binding tighter, as `a + (b * c)`.
pub proof fn lemma_precedence_add_mul(a: int, b: int, c: int)
    ensures
        ({
            let t = seq![
                SpecToken::Number(a),
                SpecToken::OperatorAdd,
                SpecToken::Number(b),
                SpecToken::OperatorMultiply,
                SpecToken::Number(c),
                SpecToken::Eof,
            ];
            sp_expr(t, 0) == Ok::<(SpecExpr, int), SpecParseError>(
                (
                    SpecExpr::BinaryOp(
                        BinOp::Add,
                        Box::new(SpecExpr::Number(a)),
                        Box::new(
                            SpecExpr::BinaryOp(
                                BinOp::Multiply,
                                Box::new(SpecExpr::Number(b)),
                                Box::new(SpecExpr::Number(c)),
                            ),
                        ),
                    ),
                    5,
                ),
            )
        }),
{
    let t = seq![
        SpecToken::Number(a),
        SpecToken::OperatorAdd,
        SpecToken::Number(b),
        SpecToken::OperatorMultiply,
        SpecToken::Number(c),
        SpecToken::Eof,
    ];
    let na = SpecExpr::Number(a);
    let nb = SpecExpr::Number(b);
    let nc = SpecExpr::Number(c);
    let mul = SpecExpr::BinaryOp(BinOp::Multiply, Box::new(nb), Box::new(nc));
    assert(t.len() == 6);
    assert(sp_primary(t, 0) == Ok::<(SpecExpr, int), SpecParseError>((na, 1)));
    assert(sp_power_rest(t, 1, na) == Ok::<(SpecExpr, int), SpecParseError>((na, 1)));
    assert(sp_power(t, 0) == Ok::<(SpecExpr, int), SpecParseError>((na, 1)));
    assert(sp_term_rest(t, 1, na) == Ok::<(SpecExpr, int), SpecParseError>((na, 1)));
    assert(sp_term(t, 0) == Ok::<(SpecExpr, int), SpecParseError>((na, 1)));
    assert(sp_primary(t, 2) == Ok::<(SpecExpr, int), SpecParseError>((nb, 3)));
    assert(sp_power_rest(t, 3, nb) == Ok::<(SpecExpr, int), SpecParseError>((nb, 3)));
    assert(sp_power(t, 2) == Ok::<(SpecExpr, int), SpecParseError>((nb, 3)));
    assert(sp_primary(t, 4) == Ok::<(SpecExpr, int), SpecParseError>((nc, 5)));
    assert(sp_power_rest(t, 5, nc) == Ok::<(SpecExpr, int), SpecParseError>((nc, 5)));
    assert(sp_power(t, 4) == Ok::<(SpecExpr, int), SpecParseError>((nc, 5)));
    assert(sp_term_rest(t, 5, mul) == Ok::<(SpecExpr, int), SpecParseError>((mul, 5)));
    assert(sp_term_rest(t, 3, nb) == Ok::<(SpecExpr, int), SpecParseError>((mul, 5)));
    assert(sp_term(t, 2) == Ok::<(SpecExpr, int), SpecParseError>((mul, 5)));
    let sum = SpecExpr::BinaryOp(BinOp::Add, Box::new(na), Box::new(mul));
    assert(sp_expr_rest(t, 5, sum) == Ok::<(SpecExpr, int), SpecParseError>((sum, 5)));
    assert(sp_expr_rest(t, 1, na) == Ok::<(SpecExpr, int), SpecParseError>((sum, 5)));
    assert(sp_expr(t, 0) == Ok::<(SpecExpr, int), SpecParseError>((sum, 5)));
}

/// Right-associativity of power: for any three number literals,
/// `a ^ b ^ c` parses as `a ^ (b ^ c)`.
pub proof fn lemma_power_right_assoc(a: int, b: int, c: int)
    ensures
        ({
            let t = seq![
                SpecToken::Number(a),
                SpecToken::OperatorPower,
                SpecToken::Number(b),
                SpecToken::OperatorPower,
                SpecToken::Number(c),
                SpecToken::Eof,
            ];
            sp_expr(t, 0) == Ok::<(SpecExpr, int), SpecParseError>(
                (
                    SpecExpr::BinaryOp(
                        BinOp::Power,
                        Box::new(SpecExpr::Number(a)),
                        Box::new(
                            SpecExpr::BinaryOp(
                                BinOp::Power,
                                Box::new(SpecExpr::Number(b)),
                                Box::new(SpecExpr::Number(c)),
                            ),
                        ),
                    ),
                    5,
                ),
            )
        }),
{
    let t = seq![
        SpecToken::Number(a),
        SpecToken::OperatorPower,
        SpecToken::Number(b),
        SpecToken::OperatorPower,
        SpecToken::Number(c),
        SpecToken::Eof,
    ];
    let na = SpecExpr::Number(a);
    let nb = SpecExpr::Number(b);
    let nc = SpecExpr::Number(c);
    let inner = SpecExpr::BinaryOp(BinOp::Power, Box::new(nb), Box::new(nc));
    let outer = SpecExpr::BinaryOp(BinOp::Power, Box::new(na), Box::new(inner));
    assert(t.len() == 6);
    assert(sp_primary(t, 0) == Ok::<(SpecExpr, int), SpecParseError>((na, 1)));
    assert(sp_primary(t, 2) == Ok::<(SpecExpr, int), SpecParseError>((nb, 3)));
    assert(sp_primary(t, 4) == Ok::<(SpecExpr, int), SpecParseError>((nc, 5)));
    assert(sp_power_rest(t, 5, nc) == Ok::<(SpecExpr, int), SpecParseError>((nc, 5)));
    assert(sp_power(t, 4) == Ok::<(SpecExpr, int), SpecParseError>((nc, 5)));
    assert(sp_power_rest(t, 5, inner) == Ok::<(SpecExpr, int), SpecParseError>((inner, 5)));
    assert(sp_power_rest(t, 3, nb) == Ok::<(SpecExpr, int), SpecParseError>((inner, 5)));
    assert(sp_power(t, 2) == Ok::<(SpecExpr, int), SpecParseError>((inner, 5)));
    assert(sp_power_rest(t, 5, outer) == Ok::<(SpecExpr, int), SpecParseError>((outer, 5)));
    assert(sp_power_rest(t, 1, na) == Ok::<(SpecExpr, int), SpecParseError>((outer, 5)));
    assert(sp_power(t, 0) == Ok::<(SpecExpr, int), SpecParseError>((outer, 5)));
    assert(sp_term_rest(t, 5, outer) == Ok::<(SpecExpr, int), SpecParseError>((outer, 5)));
    assert(sp_term(t, 0) == Ok::<(SpecExpr, int), SpecParseError>((outer, 5)));
    assert(sp_expr_rest(t, 5, outer) == Ok::<(SpecExpr, int), SpecParseError>((outer, 5)));
    assert(sp_expr(t, 0) == Ok::<(SpecExpr, int), SpecParseError>((outer, 5)));
}

} // verus!
