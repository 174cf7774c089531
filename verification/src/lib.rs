//! A compiler for a small subset of C to RISC-V assembly: a lexer, a parser, a type checker,
//! a lowering pass and a code generator, each with its contract.
use vstd::prelude::*;

pub mod text;
pub mod table;
pub mod types;
pub mod lexer;
pub mod error;
pub mod parser;
pub mod sema;
pub mod codegen;
pub mod machine;

use crate::codegen::{Codegen, CodegenError, CodegenState, generate_spec};
use crate::error::ParseError;
use crate::lexer::{LexError, lex, lex_spec};
use crate::parser::{parse, parse_spec, reported};
use crate::sema::{lower, spec_lower};
use crate::types::{CheckerState, Type, TypeChecker, TypeError, sc_check};

verus! {

/// Why a source text could not be compiled, at the stage that refused it.
#[derive(Debug)]
pub enum CompileError {
    Lex(LexError),
    Parse(Vec<ParseError>),
    Type(TypeError),
    Codegen(CodegenError),
}

/// The state of a type checker that has checked nothing.
pub open spec fn fresh_checker() -> CheckerState {
    CheckerState { scopes: seq![], functions: seq![], strings: seq![], globals: seq![], current_return: None }
}

/// The state of a code generator for a program with these globals and string literals, before
/// it wrote anything.
pub open spec fn fresh_codegen(
    globals: Seq<(Seq<char>, Type)>,
    strings: Seq<(Seq<char>, Seq<char>)>,
) -> CodegenState {
    CodegenState {
        scopes: seq![],
        globals,
        strings,
        functions: seq![],
        frame: 0,
        offset: 0,
        label: 0,
        out: seq![],
    }
}

/// Compiles a source text to the lines of its assembly: splits it into tokens, parses them,
/// type-checks the program, lowers it and generates its code. The first stage that refuses the
/// text gives the error.
pub fn compile(source: &str) -> (r: Result<Vec<String>, CompileError>)
    ensures
        match lex_spec(source@) {
            Err(e) => r == Err::<Vec<String>, CompileError>(CompileError::Lex(e)),
            Ok(_) => match parse_spec(source@) {
                None => r matches Err(CompileError::Parse(es)) && es@.len() == 1 && reported(es@[0], source@),
                Some(a) => match sc_check(fresh_checker(), a) {
                    Err(f) => r matches Err(CompileError::Type(e)) && e@ == f,
                    Ok((cs, ta)) => match generate_spec(fresh_codegen(cs.globals, cs.strings), spec_lower(ta)) {
                        Err(f) => r matches Err(CompileError::Codegen(e)) && e@ == f,
                        Ok(gs) => r matches Ok(lines) && lines@.map_values(|l: String| l@) == gs.out,
                    },
                },
            },
        },
{
    match lex(source) {
        Err(e) => {
            return Err(CompileError::Lex(e));
        },
        Ok(_) => {},
    }
    let tree = match parse(source) {
        Ok(tree) => tree,
        Err(errors) => {
            return Err(CompileError::Parse(errors));
        },
    };
    let mut checker = TypeChecker::new();
    proof {
        assert(checker@.scopes =~= seq![]);
        assert(checker@.functions =~= seq![]);
        assert(checker@.strings =~= seq![]);
        assert(checker@.globals =~= seq![]);
        assert(checker@ == fresh_checker());
    }
    let typed = match checker.check_result(&tree) {
        Ok(typed) => typed,
        Err(e) => {
            return Err(CompileError::Type(e));
        },
    };
    let lowered = lower(typed);
    let mut codegen = Codegen::new(checker.globals().clone(), checker.strings().clone());
    proof {
        assert(codegen@.scopes =~= seq![]);
        assert(codegen@.functions =~= seq![]);
        assert(codegen@.out =~= seq![]);
        assert(codegen@ == fresh_codegen(checker@.globals, checker@.strings));
    }
    match codegen.generate_result(&lowered) {
        Ok(()) => Ok(codegen.output().clone()),
        Err(e) => Err(CompileError::Codegen(e)),
    }
}

} // verus!
