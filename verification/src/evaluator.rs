//! The evaluator: executable code that follows the semantics of `machine`.

use crate::instruction::{tree_view, Instruction};
use crate::machine::{
    lemma_loop_unfold, lemma_run_budget, lemma_step_budget, run, run_loop, step, Machine, HEAP_SIZE,
};
use crate::modular::wrapped_sum;
use vstd::prelude::*;

verus! {

/// The state of one run of the interpreter.
pub struct State {
    curr_ptr: usize,
    data: [u8; HEAP_SIZE],
    output: Vec<u8>,
    input: Vec<u8>,
    taken: usize,
    budget: u64,
    stopped: bool,
}

impl View for State {
    type V = Machine;

    closed spec fn view(&self) -> Machine {
        Machine {
            pointer: self.curr_ptr as int,
            tape: self.data@,
            output: self.output@,
            input: self.input@.skip(self.taken as int),
            budget: self.budget as nat,
            stopped: self.stopped,
        }
    }
}

impl State {
    /// The pointer addresses a cell, and no more input was read than there is.
    pub closed spec fn wf(&self) -> bool {
        &&& self.curr_ptr < HEAP_SIZE
        &&& self.taken <= self.input.len()
    }

    /// A fresh state: pointer at cell 0, all cells zero, no output, `input` unread.
    pub fn new(input: Vec<u8>, budget: u64) -> (state: State)
        ensures
            state.wf(),
            state@ == Machine::start(input@, budget as nat),
    {
        let state = State {
            curr_ptr: 0,
            data: [0u8; HEAP_SIZE],
            output: Vec::new(),
            input,
            taken: 0,
            budget,
            stopped: false,
        };
        assert(state@.tape =~= Machine::start(input@, budget as nat).tape);
        assert(state@.input =~= input@);
        state
    }

    /// The value of the current cell.
    pub fn cell(&self) -> (value: u8)
        requires
            self.wf(),
        ensures
            value == self@.cell(),
    {
        self.data[self.curr_ptr]
    }

    /// The index of the current cell.
    pub fn pointer(&self) -> (index: usize)
        ensures
            index == self@.pointer,
            self.wf() ==> index < HEAP_SIZE,
    {
        self.curr_ptr
    }

    /// The bytes emitted so far, oldest first.
    pub fn output(&self) -> (bytes: &Vec<u8>)
        ensures
            bytes@ == self@.output,
    {
        &self.output
    }

    /// The number of loop passes that may still begin.
    pub fn budget(&self) -> (passes: u64)
        ensures
            passes == self@.budget,
    {
        self.budget
    }

    /// Whether everything asked of this state so far was executed: `false` once a loop
    /// pass was due and the budget had run out.
    pub fn finished(&self) -> (done: bool)
        ensures
            done == !self@.stopped,
    {
        !self.stopped
    }

    /// Ends the run and hands out its output.
    pub fn into_output(self) -> (bytes: Vec<u8>)
        ensures
            bytes@ == self@.output,
    {
        self.output
    }

    /// A well-formed state stands for a well-formed machine.
    pub proof fn lemma_view_wf(&self)
        requires
            self.wf(),
        ensures
            self@.wf(),
    {
    }
}

/// Executes one instruction.
pub fn eval(state: &mut State, op: &Instruction)
    requires
        old(state).wf(),
    ensures
        final(state).wf(),
        final(state)@ == step(op@, old(state)@),
    decreases op, old(state)@.budget, 0nat,
{
    if state.stopped {
        return;
    }
    match op {
        Instruction::MovePointer(n) => {
            state.curr_ptr = wrapped_sum(state.curr_ptr as i64, *n, HEAP_SIZE as i64) as usize;
        },
        Instruction::ModifyCell(n) => {
            let value = wrapped_sum(state.data[state.curr_ptr] as i64, *n, 256) as u8;
            state.data[state.curr_ptr] = value;
        },
        Instruction::Output => {
            let value = state.data[state.curr_ptr];
            state.output.push(value);
        },
        Instruction::Input => {
            if state.taken < state.input.len() {
                let value = state.input[state.taken];
                state.data[state.curr_ptr] = value;
                state.taken = state.taken + 1;
                assert(state@.input =~= old(state)@.input.drop_first());
            }
        },
        Instruction::Loop(body) => {
            eval_while(state, body.as_slice());
        },
    }
}

/// Executes a loop with the given body: tests the current cell before every pass.
pub fn eval_while(state: &mut State, ops: &[Instruction])
    requires
        old(state).wf(),
    ensures
        final(state).wf(),
        final(state)@ == run_loop(tree_view(ops@), old(state)@),
    decreases ops@, old(state)@.budget, 1nat,
{
    let ghost body = tree_view(ops@);
    let ghost start = state@;
    while state.data[state.curr_ptr] != 0 && !state.stopped
        invariant
            state.wf(),
            body == tree_view(ops@),
            start == old(state)@,
            state@.budget <= start.budget,
            run_loop(body, start) == run_loop(body, state@),
        decreases state@.budget, (if state@.stopped { 0nat } else { 1nat }),
    {
        if state.budget == 0 {
            state.stopped = true;
        } else {
            proof {
                lemma_loop_unfold(body, state@);
                lemma_run_budget(body, state@.spent());
            }
            state.budget = state.budget - 1;
            eval_vec(state, ops);
        }
    }
}

/// Executes a sequence of instructions, first to last.
pub fn eval_vec(state: &mut State, ops: &[Instruction])
    requires
        old(state).wf(),
    ensures
        final(state).wf(),
        final(state)@ == run(tree_view(ops@), old(state)@),
    decreases ops@, old(state)@.budget, 0nat,
{
    let ghost tree = tree_view(ops@);
    let mut i: usize = 0;
    assert(tree.skip(0) =~= tree);
    while i < ops.len()
        invariant
            state.wf(),
            i <= ops.len(),
            tree == tree_view(ops@),
            state@.budget <= old(state)@.budget,
            run(tree, old(state)@) == run(tree.skip(i as int), state@),
        decreases ops.len() - i,
    {
        proof {
            assert(tree.skip(i as int).drop_first() =~= tree.skip(i as int + 1));
            lemma_step_budget(tree[i as int], state@);
        }
        eval(state, &ops[i]);
        i = i + 1;
    }
}

} // verus!
