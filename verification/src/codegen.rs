//! Syntax-directed code generation: walks the statement tree twice
//! (variable collection, then emission) and renders one C translation
//! unit as text.
//!
//! The whole rendering is specified by `spec_generate` and the
//! `render_*` spec functions; the executable generator is proved to
//! return exactly that text.  The transformation is total: any tree
//! the parser can produce renders without error.

use vstd::prelude::*;
use vstd::string::StringExecFns;

use vstd::string::StrSliceExecFns;

use crate::lexer::SpecToken;
use crate::lexer::Token;
use crate::lexer::kw_char;
use crate::lexer::kw_char_exec;
use crate::lexer::kw_is;
use crate::parser::BinOp;
use crate::parser::Expression;
use crate::parser::PrintItem;
use crate::parser::SpecExpr;
use crate::parser::SpecPrintItem;
use crate::parser::SpecStmt;
use crate::parser::SpecStmtNode;
use crate::parser::Statement;
use crate::parser::StatementNode;
use crate::parser::lemma_stmts_depth_ge;
use crate::parser::lemma_view_expr_seq_props;
use crate::parser::lemma_view_item_seq_props;
use crate::parser::lemma_view_stmt_seq_props;
use crate::parser::node_depth;
use crate::parser::stmts_depth;
use crate::parser::lemma_node_depth_nonneg;
use crate::parser::lemma_stmts_depth_nonneg;
use crate::parser::view_expr;
use crate::parser::view_expr_seq;
use crate::parser::view_item;
use crate::parser::view_item_seq;
use crate::parser::view_node;
use crate::parser::view_stmt;
use crate::parser::view_stmt_seq;
use crate::text::push_char;

verus! {

// ----------------------------------------------------------------------
// Decimal rendering
// ----------------------------------------------------------------------

/// The character for one decimal digit.
pub open spec fn spec_digit(d: int) -> char {
    if d == 0 {
        '0'
    } else if d == 1 {
        '1'
    } else if d == 2 {
        '2'
    } else if d == 3 {
        '3'
    } else if d == 4 {
        '4'
    } else if d == 5 {
        '5'
    } else if d == 6 {
        '6'
    } else if d == 7 {
        '7'
    } else if d == 8 {
        '8'
    } else {
        '9'
    }
}

/// The decimal digits of a nonnegative integer, most significant
/// first.
pub open spec fn dec_str(n: int) -> Seq<char>
    decreases n,
        when n >= 0
{
    if 0 <= n < 10 {
        seq![spec_digit(n)]
    } else if n >= 10 {
        dec_str(n / 10).push(spec_digit(n % 10))
    } else {
        Seq::empty()
    }
}

/// The decimal rendering of an integer, with a leading `-` when
/// negative.
pub open spec fn render_int(n: int) -> Seq<char> {
    if n >= 0 {
        dec_str(n)
    } else {
        seq!['-'] + dec_str(-n)
    }
}

/// The character for one decimal digit, as executable code.
fn digit_char(d: u64) -> (c: char)
    requires
        d < 10,
    ensures
        c == spec_digit(d as int),
{
    match d {
        0 => '0',
        1 => '1',
        2 => '2',
        3 => '3',
        4 => '4',
        5 => '5',
        6 => '6',
        7 => '7',
        8 => '8',
        _ => '9',
    }
}

/// The decimal digits of an unsigned value.
fn u64_string(n: u64) -> (s: String)
    ensures
        s@ == dec_str(n as int),
    decreases n,
{
    if n < 10 {
        let mut s = String::new();
        push_char(&mut s, digit_char(n));
        proof {
            assert(s@ =~= seq![spec_digit(n as int)]);
        }
        s
    } else {
        let mut s = u64_string(n / 10);
        push_char(&mut s, digit_char(n % 10));
        s
    }
}

/// The decimal rendering of a signed value.
fn i64_string(n: i64) -> (s: String)
    ensures
        s@ == render_int(n as int),
{
    if n >= 0 {
        u64_string(n as u64)
    } else {
        let mut s = String::new();
        push_char(&mut s, '-');
        let mag: u64 = if n == i64::MIN {
            9223372036854775808u64
        } else {
            (-n) as u64
        };
        proof {
            assert(mag as int == -(n as int));
        }
        let tail = u64_string(mag);
        s.append(tail.as_str());
        proof {
            assert(s@ =~= seq!['-'] + dec_str(mag as int));
        }
        s
    }
}

// ----------------------------------------------------------------------
// Expression rendering
// ----------------------------------------------------------------------

/// The rendering of an expression: every binary operation is
/// parenthesized explicitly, power becomes a call to `pow`, and the
/// recognized intrinsic names map to C math-library calls.
pub open spec fn render_expr(e: SpecExpr) -> Seq<char>
    decreases e, 0int, 0int,
{
    match e {
        SpecExpr::Number(n) => render_int(n) + ".0"@,
        SpecExpr::Float(w, f) => if f.len() == 0 {
            w
        } else {
            w + "."@ + f
        },
        SpecExpr::Variable(name) => name,
        SpecExpr::BinaryOp(op, l, r) => {
            let ls = render_expr(*l);
            let rs = render_expr(*r);
            match op {
                BinOp::Add => "("@ + ls + " + "@ + rs + ")"@,
                BinOp::Subtract => "("@ + ls + " - "@ + rs + ")"@,
                BinOp::Multiply => "("@ + ls + " * "@ + rs + ")"@,
                BinOp::Divide => "("@ + ls + " / "@ + rs + ")"@,
                BinOp::Power => "pow("@ + ls + ", "@ + rs + ")"@,
            }
        },
        SpecExpr::FunctionCall(name, args) => {
            if kw_is(name, seq!['I', 'N', 'T']) {
                "floor("@ + render_first_arg(args) + ")"@
            } else if kw_is(name, seq!['R', 'N', 'D']) {
                "((double)rand() / (double)RAND_MAX)"@
            } else if kw_is(name, seq!['S', 'Q', 'R']) {
                "sqrt("@ + render_first_arg(args) + ")"@
            } else if kw_is(name, seq!['E', 'X', 'P']) {
                "exp("@ + render_first_arg(args) + ")"@
            } else if kw_is(name, seq!['A', 'B', 'S']) {
                "fabs("@ + render_first_arg(args) + ")"@
            } else {
                name + "("@ + render_args_from(args, 0) + ")"@
            }
        },
    }
}

/// The rendering of an intrinsic call's first argument; an intrinsic
/// call without arguments renders as the bare target call.
pub open spec fn render_first_arg(args: Seq<SpecExpr>) -> Seq<char>
    decreases args, 1int, 0int,
{
    if args.len() > 0 {
        render_expr(args[0])
    } else {
        Seq::empty()
    }
}

/// The renderings of `args[i..]`, joined with `, `.
pub open spec fn render_args_from(args: Seq<SpecExpr>, i: int) -> Seq<char>
    decreases args, 1int, args.len() - i,
        when 0 <= i
{
    if i < 0 || i >= args.len() {
        Seq::empty()
    } else if i == args.len() - 1 {
        render_expr(args[i])
    } else {
        render_expr(args[i]) + ", "@ + render_args_from(args, i + 1)
    }
}

// ----------------------------------------------------------------------
// Variable collection
// ----------------------------------------------------------------------

/// Record one written variable, once.
pub open spec fn insert_var(acc: Seq<Seq<char>>, v: Seq<char>) -> Seq<Seq<char>> {
    if acc.contains(v) {
        acc
    } else {
        acc.push(v)
    }
}

/// The variables a statement body writes, added to `acc` in first-use
/// order.
pub open spec fn collect_vars_node(n: SpecStmtNode, acc: Seq<Seq<char>>) -> Seq<Seq<char>>
    decreases n, 0int,
{
    match n {
        SpecStmtNode::Let { var, .. } => insert_var(acc, var),
        SpecStmtNode::For { var, body, .. } => collect_vars_seq(body, insert_var(acc, var)),
        SpecStmtNode::Input(var) => insert_var(acc, var),
        SpecStmtNode::If { then_part, .. } => collect_vars_node(then_part.node, acc),
        _ => acc,
    }
}

/// The variables a statement sequence writes, left to right.
pub open spec fn collect_vars_seq(ss: Seq<SpecStmt>, acc: Seq<Seq<char>>) -> Seq<Seq<char>>
    decreases ss, 1int,
{
    if ss.len() == 0 {
        acc
    } else {
        collect_vars_seq(ss.drop_first(), collect_vars_node(ss[0].node, acc))
    }
}

/// The collected names joined with `, `, from index `i`.
pub open spec fn join_vars_from(vars: Seq<Seq<char>>, i: int) -> Seq<char>
    decreases vars.len() - i,
        when 0 <= i
{
    if i < 0 || i >= vars.len() {
        Seq::empty()
    } else if i == vars.len() - 1 {
        vars[i]
    } else {
        vars[i] + ", "@ + join_vars_from(vars, i + 1)
    }
}

// ----------------------------------------------------------------------
// Statement rendering
// ----------------------------------------------------------------------

/// The indentation for a nesting level: four spaces per level.
pub open spec fn indent_chars(lv: int) -> Seq<char>
    decreases lv,
        when lv >= 0
{
    if lv <= 0 {
        Seq::empty()
    } else {
        indent_chars(lv - 1) + "    "@
    }
}

/// The C comparison operator for an IF's comparison token; anything
/// else falls back to equality, though the parser only ever stores one
/// of the six comparisons.
pub open spec fn cmp_c(op: SpecToken) -> Seq<char> {
    match op {
        SpecToken::Equal => "=="@,
        SpecToken::NotEqual => "!="@,
        SpecToken::LessThan => "<"@,
        SpecToken::LessOrEqual => "<="@,
        SpecToken::GreaterThan => ">"@,
        SpecToken::GreaterOrEqual => ">="@,
        _ => "=="@,
    }
}

/// The rendering of a statement body at nesting level `lv`.
pub open spec fn render_node(n: SpecStmtNode, lv: int) -> Seq<char>
    decreases n, 2int, 0int,
{
    match n {
        SpecStmtNode::Let { var, value } => indent_chars(lv) + var + " = "@ + render_expr(value)
            + ";\n"@,
        SpecStmtNode::Print { items, newline } => render_items_from(items, 0, lv) + (if newline {
            indent_chars(lv) + "printf(\"\\n\");\n"@
        } else {
            Seq::empty()
        }),
        SpecStmtNode::For { var, start, end, step, body } => indent_chars(lv) + "for ("@ + var
            + " = "@ + render_expr(start) + "; "@ + var + " <= "@ + render_expr(end) + "; "@ + var
            + " += "@ + (match step {
            Some(s) => render_expr(s),
            None => "1.0"@,
        }) + ") {\n"@ + render_stmts_from(body, 0, lv + 1) + indent_chars(lv) + "}\n"@,
        SpecStmtNode::If { left, op, right, then_part } => indent_chars(lv) + "if ("@ + render_expr(
            left,
        ) + " "@ + cmp_c(op) + " "@ + render_expr(right) + ") {\n"@ + render_stmt(
            *then_part,
            lv + 1,
        ) + indent_chars(lv) + "}\n"@,
        SpecStmtNode::Goto(line) => indent_chars(lv) + "goto line"@ + render_int(line) + ";\n"@,
        SpecStmtNode::Input(var) => indent_chars(lv) + "printf(\"? \"); scanf(\"%lf\", &"@ + var
            + ");\n"@,
        SpecStmtNode::Rem => Seq::empty(),
        SpecStmtNode::End => indent_chars(lv) + "return 0;\n"@,
    }
}

/// The renderings of the PRINT items from index `i`: one formatted
/// output call per item.
pub open spec fn render_items_from(items: Seq<SpecPrintItem>, i: int, lv: int) -> Seq<char>
    decreases items, 0int, items.len() - i,
        when 0 <= i
{
    if i < 0 || i >= items.len() {
        Seq::empty()
    } else {
        (match items[i] {
            SpecPrintItem::Str(s) => indent_chars(lv) + "printf(\"%s\", \""@ + s + "\");\n"@,
            SpecPrintItem::Expr(e) => indent_chars(lv) + "printf(\"%g \", "@ + render_expr(e)
                + ");\n"@,
        }) + render_items_from(items, i + 1, lv)
    }
}

/// The rendering of one statement: its label as a C label when it has
/// one, then its body.
pub open spec fn render_stmt(st: SpecStmt, lv: int) -> Seq<char>
    decreases st, 3int, 0int,
{
    (match st.label {
        Some(l) => "line"@ + render_int(l) + ":\n"@,
        None => Seq::empty(),
    }) + render_node(st.node, lv)
}

/// The renderings of the statements from index `i`.
pub open spec fn render_stmts_from(ss: Seq<SpecStmt>, i: int, lv: int) -> Seq<char>
    decreases ss, 4int, ss.len() - i,
        when 0 <= i
{
    if i < 0 || i >= ss.len() {
        Seq::empty()
    } else {
        render_stmt(ss[i], lv) + render_stmts_from(ss, i + 1, lv)
    }
}

/// The whole translation unit: the fixed preamble, the entry point,
/// one combined declaration of the collected variables (when any), the
/// rendered statements at one level of indentation, and a trailing
/// successful return.
pub open spec fn spec_generate(stmts: Seq<SpecStmt>) -> Seq<char> {
    let vars = collect_vars_seq(stmts, Seq::empty());
    "#include <stdio.h>\n"@ + "#include <stdlib.h>\n"@ + "#include <math.h>\n"@
        + "#include <time.h>\n\n"@ + "int main() {\n"@ + "    srand(time(NULL));\n"@ + (
    if vars.len() > 0 {
        "    double "@ + join_vars_from(vars, 0) + ";\n\n"@
    } else {
        Seq::empty()
    }) + render_stmts_from(stmts, 0, 1) + "\n    return 0;\n"@ + "}\n"@
}


// ----------------------------------------------------------------------
// The code generator
// ----------------------------------------------------------------------

/// Whether the string matches the three-letter name `u0 u1 u2`,
/// ignoring ASCII case, as the intrinsic-function table does.
fn str_kw_eq3(s: &str, u0: char, u1: char, u2: char) -> (b: bool)
    ensures
        b == kw_is(s@, seq![u0, u1, u2]),
{
    let ghost u = seq![u0, u1, u2];
    let n = s.unicode_len();
    if n != 3 {
        return false;
    }
    let b = kw_char_exec(s.get_char(0), u0) && kw_char_exec(s.get_char(1), u1) && kw_char_exec(
        s.get_char(2),
        u2,
    );
    proof {
        if b {
            assert forall|k: int| 0 <= k < s@.len() implies #[trigger] kw_char(s@[k], u[k]) by {}
        } else if kw_is(s@, u) {
            assert(kw_char(s@[0], u[0]));
            assert(kw_char(s@[1], u[1]));
            assert(kw_char(s@[2], u[2]));
        }
    }
    b
}

/// The C comparison operator for an IF's comparison token.
fn cmp_token(op: &Token) -> (s: &'static str)
    ensures
        s@ == cmp_c(op.deep_view()),
{
    match op {
        Token::Equal => "==",
        Token::NotEqual => "!=",
        Token::LessThan => "<",
        Token::LessOrEqual => "<=",
        Token::GreaterThan => ">",
        Token::GreaterOrEqual => ">=",
        _ => "==",
    }
}

/// The code generator: the current indentation level and the set of
/// variables collected so far, in first-use order without duplicates.
pub struct CodeGenerator {
    pub indent_level: usize,
    pub variables: Vec<String>,
}

impl CodeGenerator {
    /// A fresh generator, ready for one program.
    pub fn new() -> (g: CodeGenerator)
        ensures
            g.indent_level == 1,
            g.variables@.len() == 0,
    {
        CodeGenerator { indent_level: 1, variables: Vec::new() }
    }

    /// Four spaces for each level of nesting.
    pub fn indent(&self) -> (s: String)
        ensures
            s@ == indent_chars(self.indent_level as int),
    {
        let mut s = String::new();
        let mut i: usize = 0;
        while i < self.indent_level
            invariant
                i <= self.indent_level,
                s@ == indent_chars(i as int),
            decreases self.indent_level - i,
        {
            s.append("    ");
            i += 1;
        }
        s
    }

    /// Renders one expression exactly as `render_expr` says.
    fn generate_expr(&self, expr: &Expression) -> (out: String)
        ensures
            out@ == render_expr(view_expr(*expr)),
        decreases *expr, 0int, 0int,
    {
        match expr {
            Expression::Number(n) => {
                let mut out = i64_string(*n);
                out.append(".0");
                out
            },
            Expression::Float { whole, frac } => {
                let mut out = whole.clone();
                if !frac.as_str().is_empty() {
                    out.append(".");
                    out.append(frac.as_str());
                }
                out
            },
            Expression::Variable(name) => name.clone(),
            Expression::BinaryOp { left, operator, right } => {
                proof {
                    assert(decreases_to!(*expr => **left));
                    assert(decreases_to!(*expr => **right));
                }
                let ls = self.generate_expr(&**left);
                let rs = self.generate_expr(&**right);
                match operator {
                    BinOp::Add => {
                        let mut out = "(".to_owned();
                        out.append(ls.as_str());
                        out.append(" + ");
                        out.append(rs.as_str());
                        out.append(")");
                        out
                    },
                    BinOp::Subtract => {
                        let mut out = "(".to_owned();
                        out.append(ls.as_str());
                        out.append(" - ");
                        out.append(rs.as_str());
                        out.append(")");
                        out
                    },
                    BinOp::Multiply => {
                        let mut out = "(".to_owned();
                        out.append(ls.as_str());
                        out.append(" * ");
                        out.append(rs.as_str());
                        out.append(")");
                        out
                    },
                    BinOp::Divide => {
                        let mut out = "(".to_owned();
                        out.append(ls.as_str());
                        out.append(" / ");
                        out.append(rs.as_str());
                        out.append(")");
                        out
                    },
                    BinOp::Power => {
                        let mut out = "pow(".to_owned();
                        out.append(ls.as_str());
                        out.append(", ");
                        out.append(rs.as_str());
                        out.append(")");
                        out
                    },
                }
            },
            Expression::FunctionCall { name, args } => {
                proof {
                    assert(decreases_to!(*expr => *args));
                    assert(decreases_to!(*args => args@));
                }
                if str_kw_eq3(name.as_str(), 'I', 'N', 'T') {
                    let mut out = "floor(".to_owned();
                    out.append(self.first_arg(args).as_str());
                    out.append(")");
                    out
                } else if str_kw_eq3(name.as_str(), 'R', 'N', 'D') {
                    "((double)rand() / (double)RAND_MAX)".to_owned()
                } else if str_kw_eq3(name.as_str(), 'S', 'Q', 'R') {
                    let mut out = "sqrt(".to_owned();
                    out.append(self.first_arg(args).as_str());
                    out.append(")");
                    out
                } else if str_kw_eq3(name.as_str(), 'E', 'X', 'P') {
                    let mut out = "exp(".to_owned();
                    out.append(self.first_arg(args).as_str());
                    out.append(")");
                    out
                } else if str_kw_eq3(name.as_str(), 'A', 'B', 'S') {
                    let mut out = "fabs(".to_owned();
                    out.append(self.first_arg(args).as_str());
                    out.append(")");
                    out
                } else {
                    let mut out = name.clone();
                    out.append("(");
                    out.append(self.generate_args(args, 0).as_str());
                    out.append(")");
                    out
                }
            },
        }
    }

    /// Renders the first argument of an intrinsic call, or nothing.
    fn first_arg(&self, args: &Vec<Expression>) -> (out: String)
        ensures
            out@ == render_first_arg(view_expr_seq(args@)),
        decreases args@, 1int, 0int,
    {
        proof {
            lemma_view_expr_seq_props(args@);
        }
        if args.len() > 0 {
            proof {
                assert(decreases_to!(args@ => args@[0]));
            }
            self.generate_expr(&args[0])
        } else {
            String::new()
        }
    }

    /// Renders `args[i..]`, joined with `, `.
    fn generate_args(&self, args: &Vec<Expression>, i: usize) -> (out: String)
        ensures
            out@ == render_args_from(view_expr_seq(args@), i as int),
        decreases args@, 1int, args@.len() - i,
    {
        proof {
            lemma_view_expr_seq_props(args@);
        }
        let n = args.len();
        if i >= n {
            String::new()
        } else if i == n - 1 {
            proof {
                assert(decreases_to!(args@ => args@[i as int]));
            }
            self.generate_expr(&args[i])
        } else {
            proof {
                assert(decreases_to!(args@ => args@[i as int]));
            }
            let mut out = self.generate_expr(&args[i]);
            out.append(", ");
            out.append(self.generate_args(args, i + 1).as_str());
            out
        }
    }

    /// Records one written variable, once, in first-use order.
    fn insert_variable(&mut self, var: &String)
        ensures
            final(self).variables.deep_view() == insert_var(
                old(self).variables.deep_view(),
                var@,
            ),
            final(self).indent_level == old(self).indent_level,
    {
        let ghost vs = self.variables.deep_view();
        let n = self.variables.len();
        let mut i: usize = 0;
        while i < n
            invariant
                n == self.variables@.len(),
                i <= n,
                self.variables == old(self).variables,
                self.indent_level == old(self).indent_level,
                vs == self.variables.deep_view(),
                vs.len() == n,
                forall|k: int| 0 <= k < i ==> vs[k] != var@,
            decreases n - i,
        {
            if self.variables[i].eq(var) {
                proof {
                    assert(vs[i as int] == self.variables@[i as int]@);
                    assert(vs.contains(var@));
                }
                return ;
            }
            proof {
                assert(vs[i as int] == self.variables@[i as int]@);
            }
            i += 1;
        }
        proof {
            assert(!vs.contains(var@));
        }
        self.variables.push(var.clone());
        proof {
            assert(self.variables.deep_view() =~= vs.push(var@));
        }
    }

    /// Collection pass over one statement body: records the name of
    /// every variable it writes.
    fn collect_variables_node(&mut self, node: &StatementNode)
        ensures
            final(self).variables.deep_view() == collect_vars_node(
                view_node(*node),
                old(self).variables.deep_view(),
            ),
            final(self).indent_level == old(self).indent_level,
        decreases *node, 0int,
    {
        match node {
            StatementNode::Let { var, .. } => {
                self.insert_variable(var);
            },
            StatementNode::For { var, body, .. } => {
                self.insert_variable(var);
                proof {
                    assert(decreases_to!(*node => *body));
                    assert(decreases_to!(*body => body@));
                }
                self.collect_variables(body.as_slice());
            },
            StatementNode::Input(var) => {
                self.insert_variable(var);
            },
            StatementNode::If { then_part, .. } => {
                proof {
                    assert(decreases_to!(*node => (**then_part).node));
                }
                self.collect_variables_node(&then_part.node);
            },
            _ => {},
        }
    }

    /// Collection pass over a statement sequence, left to right.
    fn collect_variables(&mut self, statements: &[Statement])
        ensures
            final(self).variables.deep_view() == collect_vars_seq(
                view_stmt_seq(statements@),
                old(self).variables.deep_view(),
            ),
            final(self).indent_level == old(self).indent_level,
        decreases statements@, 1int,
    {
        let ghost ss = view_stmt_seq(statements@);
        proof {
            lemma_view_stmt_seq_props(statements@);
            assert(ss.subrange(0, statements@.len() as int) =~= ss);
        }
        let n = statements.len();
        let mut i: usize = 0;
        while i < n
            invariant
                n == statements@.len(),
                i <= n,
                ss == view_stmt_seq(statements@),
                ss.len() == n,
                forall|k: int| 0 <= k < n ==> ss[k] == view_stmt(statements@[k]),
                self.indent_level == old(self).indent_level,
                collect_vars_seq(ss, old(self).variables.deep_view()) == collect_vars_seq(
                    ss.subrange(i as int, n as int),
                    self.variables.deep_view(),
                ),
            decreases n - i,
        {
            proof {
                assert(decreases_to!(statements@ => statements@[i as int]));
            }
            self.collect_variables_node(&statements[i].node);
            proof {
                let sub = ss.subrange(i as int, n as int);
                assert(sub[0] == ss[i as int]);
                assert(sub.drop_first() =~= ss.subrange(i as int + 1, n as int));
            }
            i += 1;
        }
        proof {
            assert(ss.subrange(n as int, n as int) =~= Seq::<SpecStmt>::empty());
        }
    }

    /// Renders one statement body at the current indentation level,
    /// exactly as `render_node` says.
    #[verifier::rlimit(60)]
    fn generate_statement_node(&mut self, node: &StatementNode) -> (out: String)
        requires
            old(self).indent_level + node_depth(view_node(*node)) <= usize::MAX,
        ensures
            final(self).indent_level == old(self).indent_level,
            final(self).variables == old(self).variables,
            out@ == render_node(view_node(*node), old(self).indent_level as int),
        decreases *node, 2int,
    {
        let ghost lv = self.indent_level as int;
        match node {
            StatementNode::Let { var, value } => {
                let mut out = self.indent();
                out.append(var.as_str());
                out.append(" = ");
                out.append(self.generate_expr(value).as_str());
                out.append(";\n");
                out
            },
            StatementNode::Print { items, newline } => {
                let ghost iv = view_item_seq(items@);
                proof {
                    lemma_view_item_seq_props(items@);
                }
                let mut out = String::new();
                let n = items.len();
                let mut i: usize = 0;
                while i < n
                    invariant
                        n == items@.len(),
                        iv.len() == n,
                        i <= n,
                        iv == view_item_seq(items@),
                        forall|k: int| 0 <= k < n ==> iv[k] == view_item(items@[k]),
                        self.indent_level as int == lv,
                        self.variables == old(self).variables,
                        render_items_from(iv, 0, lv) == out@ + render_items_from(iv, i as int, lv),
                    decreases n - i,
                {
                    let ghost out0 = out@;
                    match &items[i] {
                        PrintItem::Str(s) => {
                            out.append(self.indent().as_str());
                            out.append("printf(\"%s\", \"");
                            out.append(s.as_str());
                            out.append("\");\n");
                        },
                        PrintItem::Expr(e) => {
                            out.append(self.indent().as_str());
                            out.append("printf(\"%g \", ");
                            out.append(self.generate_expr(e).as_str());
                            out.append(");\n");
                        },
                    }
                    i += 1;
                    proof {
                        assert(render_items_from(iv, 0, lv) =~= out@ + render_items_from(
                            iv,
                            i as int,
                            lv,
                        ));
                    }
                }
                if *newline {
                    out.append(self.indent().as_str());
                    out.append("printf(\"\\n\");\n");
                }
                proof {
                    assert(out@ =~= render_node(view_node(*node), lv));
                }
                out
            },
            StatementNode::For { var, start, end, step, body } => {
                let mut out = self.indent();
                out.append("for (");
                out.append(var.as_str());
                out.append(" = ");
                out.append(self.generate_expr(start).as_str());
                out.append("; ");
                out.append(var.as_str());
                out.append(" <= ");
                out.append(self.generate_expr(end).as_str());
                out.append("; ");
                out.append(var.as_str());
                out.append(" += ");
                match step {
                    Some(s) => {
                        out.append(self.generate_expr(s).as_str());
                    },
                    None => {
                        out.append("1.0");
                    },
                }
                out.append(") {\n");
                let ghost bv = view_stmt_seq(body@);
                proof {
                    lemma_view_stmt_seq_props(body@);
                    lemma_stmts_depth_nonneg(bv);
                    assert(decreases_to!(*node => *body));
                    assert(decreases_to!(*body => body@));
                }
                self.indent_level += 1;
                let n = body.len();
                let mut i: usize = 0;
                let mut bodyout = String::new();
                while i < n
                    invariant
                        n == body@.len(),
                        bv.len() == n,
                        i <= n,
                        bv == view_stmt_seq(body@),
                        forall|k: int| 0 <= k < n ==> bv[k] == view_stmt(body@[k]),
                        self.indent_level as int == lv + 1,
                        self.variables == old(self).variables,
                        lv + 1 + stmts_depth(bv) <= usize::MAX,
                        decreases_to!(*node => body@),
                        render_stmts_from(bv, 0, lv + 1) == bodyout@ + render_stmts_from(
                            bv,
                            i as int,
                            lv + 1,
                        ),
                    decreases n - i,
                {
                    proof {
                        lemma_stmts_depth_ge(bv, i as int);
                        assert(decreases_to!(body@ => body@[i as int]));
                    }
                    let piece = self.generate_statements_internal(&body[i]);
                    bodyout.append(piece.as_str());
                    i += 1;
                    proof {
                        assert(render_stmts_from(bv, 0, lv + 1) =~= bodyout@ + render_stmts_from(
                            bv,
                            i as int,
                            lv + 1,
                        ));
                    }
                }
                self.indent_level -= 1;
                out.append(bodyout.as_str());
                out.append(self.indent().as_str());
                out.append("}\n");
                proof {
                    assert(out@ =~= render_node(view_node(*node), lv));
                }
                out
            },
            StatementNode::If { left, op, right, then_part } => {
                let mut out = self.indent();
                out.append("if (");
                out.append(self.generate_expr(left).as_str());
                out.append(" ");
                out.append(cmp_token(op));
                out.append(" ");
                out.append(self.generate_expr(right).as_str());
                out.append(") {\n");
                proof {
                    lemma_node_depth_nonneg(view_stmt(**then_part).node);
                    assert(decreases_to!(*node => **then_part));
                }
                self.indent_level += 1;
                let piece = self.generate_statements_internal(&**then_part);
                self.indent_level -= 1;
                out.append(piece.as_str());
                out.append(self.indent().as_str());
                out.append("}\n");
                proof {
                    assert(out@ =~= render_node(view_node(*node), lv));
                }
                out
            },
            StatementNode::Goto(line) => {
                let mut out = self.indent();
                out.append("goto line");
                out.append(i64_string(*line).as_str());
                out.append(";\n");
                out
            },
            StatementNode::Input(var) => {
                let mut out = self.indent();
                out.append("printf(\"? \"); scanf(\"%lf\", &");
                out.append(var.as_str());
                out.append(");\n");
                out
            },
            StatementNode::Rem => String::new(),
            StatementNode::End => {
                let mut out = self.indent();
                out.append("return 0;\n");
                out
            },
        }
    }

    /// Renders one statement: its label as a C jump target when it has
    /// one, then its body.
    fn generate_statements_internal(&mut self, stmt: &Statement) -> (out: String)
        requires
            old(self).indent_level + node_depth(view_stmt(*stmt).node) <= usize::MAX,
        ensures
            final(self).indent_level == old(self).indent_level,
            final(self).variables == old(self).variables,
            out@ == render_stmt(view_stmt(*stmt), old(self).indent_level as int),
        decreases *stmt, 3int,
    {
        let mut out = String::new();
        match &stmt.label {
            Some(l) => {
                out.append("line");
                out.append(i64_string(*l).as_str());
                out.append(":\n");
            },
            None => {},
        }
        proof {
            assert(decreases_to!(*stmt => stmt.node));
        }
        let body = self.generate_statement_node(&stmt.node);
        out.append(body.as_str());
        proof {
            assert(out@ =~= render_stmt(view_stmt(*stmt), old(self).indent_level as int));
        }
        out
    }

    /// The collected variable names joined with `, `, from index `i`.
    fn join_variables(&self, i: usize) -> (out: String)
        ensures
            out@ == join_vars_from(self.variables.deep_view(), i as int),
        decreases self.variables@.len() - i,
    {
        let ghost vs = self.variables.deep_view();
        let n = self.variables.len();
        proof {
            assert(vs.len() == n);
        }
        if i >= n {
            String::new()
        } else if i == n - 1 {
            proof {
                assert(vs[i as int] == self.variables@[i as int]@);
            }
            self.variables[i].clone()
        } else {
            proof {
                assert(vs[i as int] == self.variables@[i as int]@);
            }
            let mut out = self.variables[i].clone();
            out.append(", ");
            out.append(self.join_variables(i + 1).as_str());
            out
        }
    }

    /// Renders the whole translation unit for the given statements,
    /// exactly as `spec_generate` says: the collection pass fills the
    /// variable set, then the emission pass renders the text.
    pub fn generate(&mut self, statements: &[Statement]) -> (out: String)
        requires
            old(self).indent_level == 1,
            old(self).variables@.len() == 0,
            1 + stmts_depth(view_stmt_seq(statements@)) <= usize::MAX,
        ensures
            out@ == spec_generate(view_stmt_seq(statements@)),
            final(self).indent_level == 1,
            final(self).variables.deep_view() == collect_vars_seq(
                view_stmt_seq(statements@),
                Seq::empty(),
            ),
    {
        let ghost sv = view_stmt_seq(statements@);
        proof {
            lemma_view_stmt_seq_props(statements@);
            assert(old(self).variables.deep_view() =~= Seq::<Seq<char>>::empty());
        }
        self.collect_variables(statements);
        let mut out = "#include <stdio.h>\n".to_owned();
        out.append("#include <stdlib.h>\n");
        out.append("#include <math.h>\n");
        out.append("#include <time.h>\n\n");
        out.append("int main() {\n");
        out.append("    srand(time(NULL));\n");
        if self.variables.len() > 0 {
            out.append("    double ");
            out.append(self.join_variables(0).as_str());
            out.append(";\n\n");
        }
        proof {
            assert(self.variables.deep_view().len() == self.variables@.len());
        }
        let n = statements.len();
        let mut i: usize = 0;
        let mut bodyout = String::new();
        while i < n
            invariant
                n == statements@.len(),
                sv.len() == n,
                i <= n,
                sv == view_stmt_seq(statements@),
                forall|k: int| 0 <= k < n ==> sv[k] == view_stmt(statements@[k]),
                self.indent_level == 1,
                1 + stmts_depth(sv) <= usize::MAX,
                self.variables.deep_view() == collect_vars_seq(sv, Seq::empty()),
                render_stmts_from(sv, 0, 1) == bodyout@ + render_stmts_from(sv, i as int, 1),
            decreases n - i,
        {
            proof {
                lemma_stmts_depth_ge(sv, i as int);
            }
            let piece = self.generate_statements_internal(&statements[i]);
            bodyout.append(piece.as_str());
            i += 1;
            proof {
                assert(render_stmts_from(sv, 0, 1) =~= bodyout@ + render_stmts_from(
                    sv,
                    i as int,
                    1,
                ));
            }
        }
        out.append(bodyout.as_str());
        out.append("\n    return 0;\n");
        out.append("}\n");
        proof {
            assert(out@ =~= spec_generate(sv));
        }
        out
    }
}

} // verus!
