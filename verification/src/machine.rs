//! The meaning of a program: a function from machine to machine.

use crate::instruction::Instr;
use crate::modular::{lemma_add_twice, lemma_full_turn};
use vstd::arithmetic::div_mod::lemma_mod_bound;
use vstd::prelude::*;

verus! {

/// The number of cells on the tape.
pub const HEAP_SIZE: usize = 4092;

/// The interpreter's state as a mathematical value.
pub struct Machine {
    /// Index of the current cell.
    pub pointer: int,
    /// The cells.
    pub tape: Seq<u8>,
    /// The bytes emitted so far, oldest first.
    pub output: Seq<u8>,
    /// The bytes of input not yet read, next first.
    pub input: Seq<u8>,
    /// The number of loop passes the run may still begin.
    pub budget: nat,
    /// Whether a loop pass was due when no budget was left; a stopped machine
    /// executes nothing further.
    pub stopped: bool,
}

impl Machine {
    /// The pointer addresses a cell of a tape of `HEAP_SIZE` cells.
    pub open spec fn wf(self) -> bool {
        &&& 0 <= self.pointer < HEAP_SIZE
        &&& self.tape.len() == HEAP_SIZE
    }

    /// The machine a run begins with: pointer at cell 0, every cell zero, nothing emitted.
    pub open spec fn start(input: Seq<u8>, budget: nat) -> Machine {
        Machine {
            pointer: 0,
            tape: Seq::new(HEAP_SIZE as nat, |i: int| 0u8),
            output: Seq::empty(),
            input,
            budget,
            stopped: false,
        }
    }

    /// The value of the current cell.
    pub open spec fn cell(self) -> u8 {
        self.tape[self.pointer]
    }

    /// This machine with the current cell set to `value`.
    pub open spec fn with_cell(self, value: u8) -> Machine {
        Machine { tape: self.tape.update(self.pointer, value), ..self }
    }

    /// This machine after `MovePointer(count)`.
    pub open spec fn moved(self, count: int) -> Machine {
        Machine { pointer: (self.pointer + count) % (HEAP_SIZE as int), ..self }
    }

    /// This machine after `ModifyCell(count)`.
    pub open spec fn modified(self, count: int) -> Machine {
        self.with_cell(((self.cell() + count) % 256) as u8)
    }

    /// This machine after `Output`.
    pub open spec fn emitted(self) -> Machine {
        Machine { output: self.output.push(self.cell()), ..self }
    }

    /// This machine after `Input`: the next byte of input replaces the current cell;
    /// at end of input nothing changes.
    pub open spec fn fed(self) -> Machine {
        if self.input.len() > 0 {
            Machine { input: self.input.drop_first(), ..self.with_cell(self.input[0]) }
        } else {
            self
        }
    }

    /// This machine with one loop pass taken from its budget.
    pub open spec fn spent(self) -> Machine {
        Machine { budget: (self.budget - 1) as nat, ..self }
    }

    /// This machine with `extra` loop passes added to its budget.
    pub open spec fn granted(self, extra: nat) -> Machine {
        Machine { budget: self.budget + extra, ..self }
    }
}

/// The machine after one instruction.
pub open spec fn step(op: Instr, m: Machine) -> Machine
    decreases op, m.budget, 0nat,
{
    if m.stopped {
        m
    } else {
        match op {
            Instr::MovePointer(n) => m.moved(n),
            Instr::ModifyCell(n) => m.modified(n),
            Instr::Output => m.emitted(),
            Instr::Input => m.fed(),
            Instr::Loop(body) => run_loop(body, m),
        }
    }
}

/// The machine after a loop with the given body: the current cell is tested before
/// every pass, the first included, and each pass takes one from the budget. A pass that
/// is due when the budget is zero stops the machine instead.
///
/// A pass never leaves more budget than it found (`lemma_run_budget`), so the test on
/// `after.budget` always succeeds: it is there to show that the definition is
/// well-founded. `lemma_loop_unfold` states the equation without it.
pub open spec fn run_loop(body: Seq<Instr>, m: Machine) -> Machine
    decreases body, m.budget, 1nat,
{
    if m.stopped || m.cell() == 0 {
        m
    } else if m.budget == 0 {
        Machine { stopped: true, ..m }
    } else {
        let after = run(body, m.spent());
        if after.budget < m.budget {
            run_loop(body, after)
        } else {
            after
        }
    }
}

/// The machine after a sequence of instructions, executed first to last.
pub open spec fn run(ops: Seq<Instr>, m: Machine) -> Machine
    decreases ops, m.budget, 0nat,
{
    if ops.len() == 0 {
        m
    } else {
        run(ops.drop_first(), step(ops[0], m))
    }
}

/// No instruction, loop or sequence adds to the budget.
pub proof fn lemma_step_budget(op: Instr, m: Machine)
    ensures
        step(op, m).budget <= m.budget,
    decreases op, m.budget, 0nat,
{
    if !m.stopped {
        if let Instr::Loop(body) = op {
            lemma_run_loop_budget(body, m);
        }
    }
}

/// See `lemma_step_budget`.
pub proof fn lemma_run_loop_budget(body: Seq<Instr>, m: Machine)
    ensures
        run_loop(body, m).budget <= m.budget,
    decreases body, m.budget, 1nat,
{
    if !(m.stopped || m.cell() == 0) && m.budget > 0 {
        let after = run(body, m.spent());
        lemma_run_budget(body, m.spent());
        lemma_run_loop_budget(body, after);
    }
}

/// See `lemma_step_budget`.
pub proof fn lemma_run_budget(ops: Seq<Instr>, m: Machine)
    ensures
        run(ops, m).budget <= m.budget,
    decreases ops, m.budget, 0nat,
{
    if ops.len() > 0 {
        lemma_step_budget(ops[0], m);
        lemma_run_budget(ops.drop_first(), step(ops[0], m));
    }
}

/// A loop whose test succeeds with budget left makes one pass of its body and
/// is then tested again.
pub proof fn lemma_loop_unfold(body: Seq<Instr>, m: Machine)
    requires
        !m.stopped,
        m.cell() != 0,
        m.budget > 0,
    ensures
        run_loop(body, m) == run_loop(body, run(body, m.spent())),
{
    lemma_run_budget(body, m.spent());
}

/// Execution keeps the pointer on the tape and the tape at its length.
pub proof fn lemma_step_wf(op: Instr, m: Machine)
    requires
        m.wf(),
    ensures
        step(op, m).wf(),
    decreases op, m.budget, 0nat,
{
    if !m.stopped {
        match op {
            Instr::MovePointer(n) => {
                lemma_mod_bound(m.pointer + n, HEAP_SIZE as int);
            },
            Instr::Loop(body) => {
                lemma_run_loop_wf(body, m);
            },
            _ => {},
        }
    }
}

/// See `lemma_step_wf`.
pub proof fn lemma_run_loop_wf(body: Seq<Instr>, m: Machine)
    requires
        m.wf(),
    ensures
        run_loop(body, m).wf(),
    decreases body, m.budget, 1nat,
{
    if !(m.stopped || m.cell() == 0) && m.budget > 0 {
        let after = run(body, m.spent());
        lemma_run_wf(body, m.spent());
        if after.budget < m.budget {
            lemma_run_loop_wf(body, after);
        }
    }
}

/// See `lemma_step_wf`.
pub proof fn lemma_run_wf(ops: Seq<Instr>, m: Machine)
    requires
        m.wf(),
    ensures
        run(ops, m).wf(),
    decreases ops, m.budget, 0nat,
{
    if ops.len() > 0 {
        lemma_step_wf(ops[0], m);
        lemma_run_wf(ops.drop_first(), step(ops[0], m));
    }
}

/// A stopped machine executes nothing.
pub proof fn lemma_stopped_stays(ops: Seq<Instr>, m: Machine)
    requires
        m.stopped,
    ensures
        run(ops, m) == m,
    decreases ops.len(),
{
    if ops.len() > 0 {
        assert(step(ops[0], m) == m);
        lemma_stopped_stays(ops.drop_first(), m);
    }
}

/// Executing two sequences one after the other is executing their concatenation.
pub proof fn lemma_run_concat(first: Seq<Instr>, second: Seq<Instr>, m: Machine)
    ensures
        run(first + second, m) == run(second, run(first, m)),
    decreases first.len(),
{
    if first.len() > 0 {
        assert((first + second).drop_first() =~= first.drop_first() + second);
        lemma_run_concat(first.drop_first(), second, step(first[0], m));
    }
}

/// Executing a sequence of one instruction is executing that instruction.
pub proof fn lemma_run_single(op: Instr, m: Machine)
    ensures
        run(seq![op], m) == step(op, m),
{
    assert(run(seq![op].drop_first(), step(seq![op][0], m)) == step(op, m));
}

/// Two pointer moves in a row are one move by the sum of their counts.
pub proof fn lemma_moves_add(m: Machine, first: int, second: int)
    ensures
        m.moved(first).moved(second) == m.moved(first + second),
{
    lemma_add_twice(m.pointer, first, second, HEAP_SIZE as int);
}

/// Two cell changes in a row are one change by the sum of their counts.
pub proof fn lemma_changes_add(m: Machine, first: int, second: int)
    requires
        m.wf(),
    ensures
        m.modified(first).modified(second) == m.modified(first + second),
{
    lemma_add_twice(m.cell() as int, first, second, 256);
    lemma_mod_bound(m.cell() + first, 256);
    assert(m.modified(first).modified(second).tape =~= m.modified(first + second).tape);
}

/// `times` copies of one instruction.
pub open spec fn repeated(op: Instr, times: nat) -> Seq<Instr> {
    Seq::new(times, |i: int| op)
}

/// Pointer moves by a fixed count, repeated, are one move by the product.
pub proof fn lemma_repeated_moves(m: Machine, count: int, times: nat)
    requires
        m.wf(),
    ensures
        run(repeated(Instr::MovePointer(count), times), m) == step(
            Instr::MovePointer(times * count),
            m,
        ),
    decreases times,
{
    let op = Instr::MovePointer(count);
    if m.stopped {
        lemma_stopped_stays(repeated(op, times), m);
    } else if times == 0 {
        assert(times * count == 0) by (nonlinear_arith)
            requires
                times == 0,
        ;
        lemma_full_turn(m.pointer, HEAP_SIZE as int);
    } else {
        let fewer = (times - 1) as nat;
        assert(repeated(op, times).drop_first() =~= repeated(op, fewer));
        lemma_step_wf(op, m);
        lemma_repeated_moves(step(op, m), count, fewer);
        assert(times * count == count + fewer * count) by (nonlinear_arith)
            requires
                fewer == times - 1,
        ;
        lemma_moves_add(m, count, fewer * count);
    }
}

/// Cell changes by a fixed count, repeated, are one change by the product.
pub proof fn lemma_repeated_changes(m: Machine, count: int, times: nat)
    requires
        m.wf(),
    ensures
        run(repeated(Instr::ModifyCell(count), times), m) == step(
            Instr::ModifyCell(times * count),
            m,
        ),
    decreases times,
{
    let op = Instr::ModifyCell(count);
    if m.stopped {
        lemma_stopped_stays(repeated(op, times), m);
    } else if times == 0 {
        assert(times * count == 0) by (nonlinear_arith)
            requires
                times == 0,
        ;
        lemma_full_turn(m.cell() as int, 256);
        assert(m.modified(0).tape =~= m.tape);
    } else {
        let fewer = (times - 1) as nat;
        assert(repeated(op, times).drop_first() =~= repeated(op, fewer));
        lemma_step_wf(op, m);
        lemma_repeated_changes(step(op, m), count, fewer);
        assert(times * count == count + fewer * count) by (nonlinear_arith)
            requires
                fewer == times - 1,
        ;
        lemma_changes_add(m, count, fewer * count);
    }
}

/// A loop entered with the current cell at zero executes nothing: the machine is
/// unchanged, whatever the body.
pub proof fn law_loop_tests_first(body: Seq<Instr>, m: Machine)
    requires
        m.cell() == 0,
    ensures
        step(Instr::Loop(body), m) == m,
{
}

/// A cell changed 256 times by one, up or down, has its value again.
pub proof fn law_cell_wraps(m: Machine)
    requires
        m.wf(),
    ensures
        run(repeated(Instr::ModifyCell(1), 256), m) == m,
        run(repeated(Instr::ModifyCell(-1), 256), m) == m,
{
    lemma_repeated_changes(m, 1, 256);
    lemma_repeated_changes(m, -1, 256);
    lemma_full_turn(m.cell() as int, 256);
    assert(m.modified(256).tape =~= m.tape);
    assert(m.modified(-256).tape =~= m.tape);
}

/// A pointer moved as many times by one as the tape has cells, left or right, is at
/// its index again.
pub proof fn law_pointer_wraps(m: Machine)
    requires
        m.wf(),
    ensures
        run(repeated(Instr::MovePointer(1), HEAP_SIZE as nat), m) == m,
        run(repeated(Instr::MovePointer(-1), HEAP_SIZE as nat), m) == m,
{
    lemma_repeated_moves(m, 1, HEAP_SIZE as nat);
    lemma_repeated_moves(m, -1, HEAP_SIZE as nat);
    lemma_full_turn(m.pointer, HEAP_SIZE as int);
}

/// The budget is a limit and nothing else: an instruction that is executed without
/// stopping the machine does the same with any larger budget, and leaves as much more
/// as it was given more.
pub proof fn lemma_step_budget_free(op: Instr, m: Machine, extra: nat)
    requires
        !step(op, m).stopped,
    ensures
        step(op, m.granted(extra)) == step(op, m).granted(extra),
    decreases op, m.budget, 0nat,
{
    if let Instr::Loop(body) = op {
        lemma_run_loop_budget_free(body, m, extra);
    }
}

/// See `lemma_step_budget_free`.
pub proof fn lemma_run_loop_budget_free(body: Seq<Instr>, m: Machine, extra: nat)
    requires
        !run_loop(body, m).stopped,
    ensures
        run_loop(body, m.granted(extra)) == run_loop(body, m).granted(extra),
    decreases body, m.budget, 1nat,
{
    if m.cell() != 0 {
        let after = run(body, m.spent());
        lemma_run_budget(body, m.spent());
        assert(m.granted(extra).spent() == m.spent().granted(extra));
        lemma_run_budget_free(body, m.spent(), extra);
        lemma_run_loop_budget_free(body, after, extra);
    }
}

/// See `lemma_step_budget_free`.
pub proof fn lemma_run_budget_free(ops: Seq<Instr>, m: Machine, extra: nat)
    requires
        !run(ops, m).stopped,
    ensures
        run(ops, m.granted(extra)) == run(ops, m).granted(extra),
    decreases ops, m.budget, 0nat,
{
    if ops.len() > 0 {
        let next = step(ops[0], m);
        if next.stopped {
            lemma_stopped_stays(ops.drop_first(), next);
        }
        lemma_step_budget_free(ops[0], m, extra);
        lemma_run_budget_free(ops.drop_first(), next, extra);
    }
}

/// A run that finishes within its budget emits the same bytes with any larger budget.
pub proof fn law_budget_only_limits(ops: Seq<Instr>, m: Machine, extra: nat)
    requires
        !run(ops, m).stopped,
    ensures
        !run(ops, m.granted(extra)).stopped,
        run(ops, m.granted(extra)).output == run(ops, m).output,
        run(ops, m.granted(extra)).tape == run(ops, m).tape,
        run(ops, m.granted(extra)).pointer == run(ops, m).pointer,
{
    lemma_run_budget_free(ops, m, extra);
}

/// What was emitted before an instruction is the beginning of what is emitted after
/// it.
pub proof fn lemma_step_appends(op: Instr, m: Machine)
    ensures
        m.output.is_prefix_of(step(op, m).output),
    decreases op, m.budget, 0nat,
{
    if !m.stopped {
        if let Instr::Loop(body) = op {
            lemma_run_loop_appends(body, m);
        }
    }
}

/// See `lemma_step_appends`.
pub proof fn lemma_run_loop_appends(body: Seq<Instr>, m: Machine)
    ensures
        m.output.is_prefix_of(run_loop(body, m).output),
    decreases body, m.budget, 1nat,
{
    if !(m.stopped || m.cell() == 0) && m.budget > 0 {
        let after = run(body, m.spent());
        lemma_run_appends(body, m.spent());
        if after.budget < m.budget {
            lemma_run_loop_appends(body, after);
        }
    }
}

/// See `lemma_step_appends`.
pub proof fn lemma_run_appends(ops: Seq<Instr>, m: Machine)
    ensures
        m.output.is_prefix_of(run(ops, m).output),
    decreases ops, m.budget, 0nat,
{
    if ops.len() > 0 {
        lemma_step_appends(ops[0], m);
        lemma_run_appends(ops.drop_first(), step(ops[0], m));
    }
}

/// Output is append-only: what a machine had emitted is the beginning of what it has
/// emitted after any sequence of instructions.
pub proof fn law_output_only_grows(ops: Seq<Instr>, m: Machine)
    ensures
        m.output.is_prefix_of(run(ops, m).output),
{
    lemma_run_appends(ops, m);
}

} // verus!
