//! The whole pipeline: source text to assembly text.
use vstd::prelude::*;
use crate::codegen::{CodegenError, gen_stmt_spec};
use crate::emit::{codegen, program_text};
use crate::node::Ast;
use crate::parse::{ParseError, PARSE_LIMIT, align_up, p_function, parse};
use crate::tokenize::{LexError, lex, lemma_lex_wf, tokenize};

verus! {

/// Why a source text could not be compiled.
#[derive(PartialEq, Eq, Structural, Clone, Copy, Debug)]
pub enum CompileError {
    Lex(LexError),
    Parse(ParseError),
    Codegen(CodegenError),
    /// The source holds `PARSE_LIMIT` characters or more.
    TooLarge,
}

/// The assembly text of a source text, or the first error.
pub open spec fn compile_spec(s: Seq<char>) -> Result<Seq<char>, CompileError> {
    if s.len() >= PARSE_LIMIT {
        Err(CompileError::TooLarge)
    } else {
        match lex(s) {
            Err(e) => Err(CompileError::Lex(e)),
            Ok(ts) => match p_function(ts) {
                Err(e) => Err(CompileError::Parse(e)),
                Ok((b, vars)) => match gen_stmt_spec(Ast::Block(b), 1) {
                    Err(e) => Err(CompileError::Codegen(e)),
                    Ok((c, _)) => Ok(program_text(align_up(8 * vars.len() as int, 16) as i32, c)),
                },
            },
        }
    }
}

/// Compiles a source text: lexes, parses and generates the assembly text.
pub fn compile(input: &str) -> (r: Result<String, CompileError>)
    ensures
        match r {
            Ok(t) => compile_spec(input@) == Ok::<Seq<char>, CompileError>(t@),
            Err(e) => compile_spec(input@) == Err::<Seq<char>, CompileError>(e),
        },
{
    if input.unicode_len() >= PARSE_LIMIT {
        return Err(CompileError::TooLarge);
    }
    let tok = match tokenize(input) {
        Ok(t) => t,
        Err(e) => return Err(CompileError::Lex(e)),
    };
    proof {
        lemma_lex_wf(input@);
    }
    let prog = match parse(tok) {
        Ok(f) => f,
        Err(e) => return Err(CompileError::Parse(e)),
    };
    match codegen(&prog) {
        Ok(t) => Ok(t),
        Err(e) => Err(CompileError::Codegen(e)),
    }
}

} // verus!
