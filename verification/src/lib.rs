//! A tree-walking interpreter for an eight-instruction byte-tape language.
//!
//! A source text is parsed into a tree of instructions ([`parser`]), the tree is
//! compacted ([`optimizer`]) and then executed on a tape of byte cells
//! ([`evaluator`]). What execution means is defined in [`machine`], and
//! [`equivalence`] shows that compaction does not change it. [`runner`] puts the
//! stages together.
//!
//! Pointer and cells wrap around; reading at the end of the input leaves the cell as
//! it is. Every run is given a budget of loop passes, so that every run ends: a
//! program that would make more passes is stopped, and the run reports that it did
//! not finish.

pub mod equivalence;
pub mod evaluator;
pub mod instruction;
pub mod machine;
pub mod modular;
pub mod optimizer;
pub mod parser;
pub mod runner;

pub use crate::evaluator::{eval, eval_vec, eval_while, State};
pub use crate::instruction::Instruction;
pub use crate::machine::HEAP_SIZE;
pub use crate::optimizer::compact;
pub use crate::parser::{get_ast, parse, Error};
pub use crate::runner::{run_brainfuck, Outcome};
