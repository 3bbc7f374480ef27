//! A small interpreter for a Logo-style turtle language: text is lexed into
//! tokens, parsed into statements, and evaluated into drawing instructions.

pub mod command;
pub mod error;
pub mod evaluator;
pub mod infix;
pub mod lexer;
pub mod parser;
pub mod scoping;
pub mod table;
pub mod text;

pub use command::Command;
pub use evaluator::Instruction;

use error::{LexError, LogoError, LogoErrorView};
use evaluator::{run_program, Evaluator, InstructionView, Memory};
use lexer::{lex_run, Lexer};
use parser::{program, Parser};
use text::view_each;
use vstd::prelude::*;

verus! {

/// What running a source text comes to.
pub struct Run {
    /// The state of the interpreter afterwards.
    pub memory: Memory,
    /// The instructions for the renderer, or the failure of the stage that
    /// stopped the run.
    pub result: Result<Seq<InstructionView>, LogoErrorView>,
}

/// Runs `source` through the three stages, each of them to its end before the
/// next begins. A text that does not lex or parse leaves the state as it is; a
/// failure at run time keeps what was done before it.
pub open spec fn interpret(memory: Memory, source: Seq<char>) -> Run {
    let lexed = lex_run(source, 0);
    if lexed.failed {
        Run { memory, result: Err(LogoErrorView::Lex(LexError::UnrecognizedToken)) }
    } else {
        match program(lexed.tokens, 0).outcome {
            Err(e) => Run { memory, result: Err(LogoErrorView::Parse(e)) },
            Ok(statements) => {
                let outcome = run_program(memory, statements);
                Run {
                    memory: outcome.memory,
                    result: match outcome.error {
                        None => Ok(outcome.emitted),
                        Some(e) => Err(LogoErrorView::Runtime(e)),
                    },
                }
            },
        }
    }
}

/// The interpreter: source text in, instructions out.
pub struct Interpreter {
    evaluator: Evaluator,
}

impl View for Interpreter {
    type V = Memory;

    closed spec fn view(&self) -> Memory {
        self.evaluator@
    }
}

impl Interpreter {
    /// A fresh interpreter: no variables, no procedures.
    pub fn new() -> (interpreter: Self)
        ensures
            interpreter@ == Memory::empty(),
    {
        Interpreter { evaluator: Evaluator::new() }
    }

    /// Lexes, parses and evaluates `source`. A program that only declares
    /// variables or procedures yields no instructions.
    pub fn run_program(&mut self, source: &str) -> (result: Result<Vec<Instruction>, LogoError>)
        ensures
            final(self)@ == interpret(old(self)@, source@).memory,
            (match interpret(old(self)@, source@).result {
                Ok(wanted) => result matches Ok(instructions) && view_each(instructions@)
                    == wanted,
                Err(e) => result matches Err(err) && err@ == e,
            }),
    {
        let mut lexer = Lexer::new(source);
        let tokens = match lexer.collect_tokens() {
            Ok(tokens) => tokens,
            Err(e) => {
                return Err(LogoError::Lex(e));
            },
        };
        let mut parser = Parser::new(&tokens);
        let ast = match parser.build_ast() {
            Ok(ast) => ast,
            Err(e) => {
                return Err(LogoError::Parse(e));
            },
        };
        match self.evaluator.evaluate_ast(&ast) {
            Ok(instructions) => Ok(instructions),
            Err(e) => Err(LogoError::Runtime(e)),
        }
    }
}

} // verus!
