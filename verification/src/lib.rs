//! A compiler from a line-oriented BASIC dialect to C source text.
//!
//! The pipeline has three phases, each a value-to-value function:
//! lexing (`lexer`), recursive-descent parsing (`parser`) and
//! syntax-directed code generation (`codegen`).  Every phase is
//! specified by a spec-level function over mathematical sequences,
//! and the executable code is proved to return exactly what the
//! specification says.

use vstd::prelude::*;

pub mod codegen;
pub mod lexer;
pub mod parser;
pub mod text;

use crate::codegen::CodeGenerator;
use crate::codegen::spec_generate;
use crate::lexer::LexError;
use crate::lexer::Lexer;
use crate::lexer::SpecLexError;
use crate::lexer::lemma_spec_tokenize_count;
use crate::lexer::spec_tokenize_from;
use crate::parser::ParseError;
use crate::parser::Parser;
use crate::parser::SpecParseError;
use crate::parser::lemma_sp_program_adv;
use crate::parser::sp_program;

verus! {

/// The first error the pipeline stops on: lexical or syntactic.
#[derive(Debug, Clone, PartialEq)]
pub enum CompileError {
    Lex(LexError),
    Parse(ParseError),
}

/// Model of a pipeline error.
pub enum SpecCompileError {
    Lex(SpecLexError),
    Parse(SpecParseError),
}

impl DeepView for CompileError {
    type V = SpecCompileError;

    open spec fn deep_view(&self) -> SpecCompileError {
        match self {
            CompileError::Lex(e) => SpecCompileError::Lex(e.deep_view()),
            CompileError::Parse(e) => SpecCompileError::Parse(e.deep_view()),
        }
    }
}

/// The whole pipeline as one mathematical function of the source
/// text: tokens, then the statement tree, then the rendered C text,
/// stopping at the first lexical or syntactic violation.
pub open spec fn spec_compile(src: Seq<char>) -> Result<Seq<char>, SpecCompileError> {
    match spec_tokenize_from(src, 0) {
        Err(e) => Err(SpecCompileError::Lex(e)),
        Ok(toks) => match sp_program(toks, 0) {
            Err(e) => Err(SpecCompileError::Parse(e)),
            Ok((stmts, _)) => Ok(spec_generate(stmts)),
        },
    }
}

/// Runs the full pipeline on one source text.
///
/// The result is exactly `spec_compile` of the text, a function of
/// the text alone: re-running the pipeline on the same source yields
/// byte-identical output.
pub fn compile(source: &str) -> (r: Result<String, CompileError>)
    requires
        source@.len() + 2 <= usize::MAX,
    ensures
        match r {
            Ok(out) => spec_compile(source@) == Ok::<Seq<char>, SpecCompileError>(out@),
            Err(e) => spec_compile(source@) == Err::<Seq<char>, SpecCompileError>(e.deep_view()),
        },
{
    let mut lexer = Lexer::new(source);
    let tokens = match lexer.tokenize() {
        Ok(t) => t,
        Err(e) => {
            return Err(CompileError::Lex(e));
        },
    };
    proof {
        lemma_spec_tokenize_count(source@, 0);
    }
    let ghost tv = tokens.deep_view();
    let n_tokens = tokens.len();
    proof {
        assert(tv.len() == tokens@.len());
    }
    let mut parser = Parser::new(tokens);
    let ast = match parser.parse() {
        Ok(a) => a,
        Err(e) => {
            return Err(CompileError::Parse(e));
        },
    };
    proof {
        lemma_sp_program_adv(tv, 0);
    }
    let mut generator = CodeGenerator::new();
    let c_code = generator.generate(ast.as_slice());
    Ok(c_code)
}

/// Idempotence of the pipeline: two runs on the same source text give
/// the same outcome, byte for byte, because the outcome is a function
/// of the text alone.
pub proof fn lemma_pipeline_deterministic(
    src: Seq<char>,
    r1: Result<Seq<char>, SpecCompileError>,
    r2: Result<Seq<char>, SpecCompileError>,
)
    requires
        r1 == spec_compile(src),
        r2 == spec_compile(src),
    ensures
        r1 == r2,
{
}

} // verus!
