//! The whole pipeline: source text to output bytes.

use crate::equivalence::law_compaction_preserves_run;
use crate::evaluator::{eval_vec, State};
use crate::machine::{run, Machine};
use crate::optimizer::{compact, compacted};
use crate::parser::{parse, parsed, Error};
use vstd::prelude::*;

verus! {

/// The characters of a source text, in order.
pub fn source_chars(code: &str) -> (chars: Vec<char>)
    ensures
        chars@ == code@,
{
    let mut chars: Vec<char> = Vec::new();
    for c in it: code.chars()
        invariant
            it.seq() == code@,
            chars@ == it.seq().take(it.index()),
    {
        chars.push(c);
    }
    chars
}

/// What a run leaves behind.
#[derive(Debug, PartialEq, Eq)]
pub struct Outcome {
    /// The bytes that the program emitted, oldest first.
    pub output: Vec<u8>,
    /// Whether the program ran to its end; `false` if the budget of loop passes ran
    /// out first, in which case `output` holds what was emitted until then.
    pub finished: bool,
}

/// The machine that a run of a source text ends in: its program is compacted and
/// executed from the starting machine. The parser's error if the text is no program.
pub open spec fn final_machine(code: Seq<char>, input: Seq<u8>, budget: nat) -> Result<
    Machine,
    Error,
> {
    match parsed(code) {
        Ok(tree) => Ok(run(compacted(tree), Machine::start(input, budget))),
        Err(e) => Err(e),
    }
}

/// Parses, compacts and executes a source text. `input` is what the program can read,
/// `budget` the number of loop passes it may make.
///
/// A text with unbalanced brackets is rejected before anything is executed.
pub fn run_brainfuck(code: &str, input: Vec<u8>, budget: u64) -> (result: Result<Outcome, Error>)
    ensures
        match final_machine(code@, input@, budget as nat) {
            Ok(machine) => result matches Ok(outcome) && outcome.output@ == machine.output
                && outcome.finished == !machine.stopped,
            Err(e) => result == Err::<Outcome, Error>(e),
        },
{
    let chars = source_chars(code);
    let ast = match parse(chars.as_slice()) {
        Ok(ast) => ast,
        Err(e) => {
            return Err(e);
        },
    };
    let ast = compact(ast.as_slice());
    let mut state = State::new(input, budget);
    eval_vec(&mut state, ast.as_slice());
    let finished = state.finished();
    Ok(Outcome { output: state.into_output(), finished })
}

/// Compaction is invisible: a program that is executed as parsed ends in the machine
/// in which `run_brainfuck`, which compacts it first, ends; so both emit the same
/// bytes and both finish or neither does.
pub proof fn law_compaction_is_invisible(code: Seq<char>, input: Seq<u8>, budget: nat)
    ensures
        parsed(code) matches Ok(tree) ==> final_machine(code, input, budget) == Ok::<
            Machine,
            Error,
        >(run(tree, Machine::start(input, budget))),
{
    if let Ok(tree) = parsed(code) {
        law_compaction_preserves_run(tree, Machine::start(input, budget));
    }
}

} // verus!
