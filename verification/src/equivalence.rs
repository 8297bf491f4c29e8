//! Compaction changes nothing that a run can observe.

use crate::instruction::Instr;
use crate::machine::{
    lemma_changes_add, lemma_moves_add, lemma_run_budget, lemma_run_concat, lemma_run_single,
    lemma_run_wf, lemma_step_wf, run, run_loop, step, Machine, HEAP_SIZE,
};
use crate::optimizer::{compacted, flushed, merged, Pending};
use vstd::arithmetic::div_mod::lemma_add_mod_noop_right;
use vstd::prelude::*;

verus! {

/// The machine after the instructions of a pending run.
pub open spec fn applied(run: Pending, m: Machine) -> Machine {
    match run {
        Pending::Nothing => m,
        Pending::Move(total) => step(Instr::MovePointer(total), m),
        Pending::Modify(total) => step(Instr::ModifyCell(total), m),
    }
}

/// The instruction that closes a run does what the run does, also where its count
/// was reduced to fit.
proof fn lemma_flushed_runs(pending: Pending, m: Machine)
    requires
        m.wf(),
    ensures
        run(flushed(pending), m) == applied(pending, m),
        applied(pending, m).wf(),
{
    match pending {
        Pending::Nothing => {},
        Pending::Move(total) => {
            lemma_run_single(flushed(pending)[0], m);
            lemma_add_mod_noop_right(m.pointer, total, HEAP_SIZE as int);
            lemma_step_wf(Instr::MovePointer(total), m);
        },
        Pending::Modify(total) => {
            lemma_run_single(flushed(pending)[0], m);
            lemma_add_mod_noop_right(m.cell() as int, total, 256);
            lemma_step_wf(Instr::ModifyCell(total), m);
        },
    }
}

/// Executing the compaction of `ops` with a run pending is executing the run and
/// then `ops`.
pub proof fn lemma_merged_runs(pending: Pending, ops: Seq<Instr>, m: Machine)
    requires
        m.wf(),
    ensures
        run(merged(pending, ops), m) == run(ops, applied(pending, m)),
    decreases ops, m.budget, 0nat,
{
    lemma_flushed_runs(pending, m);
    let closing = flushed(pending);
    let ready = applied(pending, m);
    if ops.len() > 0 {
        let rest = ops.drop_first();
        match ops[0] {
            Instr::MovePointer(count) => match pending {
                Pending::Move(total) => {
                    lemma_merged_runs(Pending::Move(total + count), rest, m);
                    lemma_moves_add(m, total, count);
                    assert(step(ops[0], ready) == applied(Pending::Move(total + count), m));
                },
                _ => {
                    let tail = merged(Pending::Move(count), rest);
                    lemma_run_concat(closing, tail, m);
                    lemma_merged_runs(Pending::Move(count), rest, ready);
                },
            },
            Instr::ModifyCell(count) => match pending {
                Pending::Modify(total) => {
                    lemma_merged_runs(Pending::Modify(total + count), rest, m);
                    lemma_changes_add(m, total, count);
                    assert(step(ops[0], ready) == applied(Pending::Modify(total + count), m));
                },
                _ => {
                    let tail = merged(Pending::Modify(count), rest);
                    lemma_run_concat(closing, tail, m);
                    lemma_merged_runs(Pending::Modify(count), rest, ready);
                },
            },
            Instr::Output => {
                let tail = merged(Pending::Nothing, rest);
                lemma_kept_runs(closing, ops[0], tail, m);
                lemma_step_wf(ops[0], ready);
                lemma_merged_runs(Pending::Nothing, rest, step(ops[0], ready));
            },
            Instr::Input => {
                let tail = merged(Pending::Nothing, rest);
                lemma_kept_runs(closing, ops[0], tail, m);
                lemma_step_wf(ops[0], ready);
                lemma_merged_runs(Pending::Nothing, rest, step(ops[0], ready));
            },
            Instr::Loop(body) => {
                let kept = Instr::Loop(compacted(body));
                let tail = merged(Pending::Nothing, rest);
                lemma_compacted_loop(body, ready);
                lemma_kept_runs(closing, kept, tail, m);
                lemma_step_wf(ops[0], ready);
                lemma_merged_runs(Pending::Nothing, rest, step(ops[0], ready));
            },
        }
    }
}

/// Executing a sequence, one instruction and another sequence in a row.
proof fn lemma_kept_runs(closing: Seq<Instr>, kept: Instr, tail: Seq<Instr>, m: Machine)
    ensures
        run(closing + seq![kept] + tail, m) == run(tail, step(kept, run(closing, m))),
{
    lemma_run_concat(closing + seq![kept], tail, m);
    lemma_run_concat(closing, seq![kept], m);
    lemma_run_single(kept, run(closing, m));
}

/// A loop over a compacted body does what the loop over the body does.
pub proof fn lemma_compacted_loop(body: Seq<Instr>, m: Machine)
    requires
        m.wf(),
    ensures
        run_loop(compacted(body), m) == run_loop(body, m),
    decreases body, m.budget, 1nat,
{
    if !(m.stopped || m.cell() == 0) && m.budget > 0 {
        let after = run(body, m.spent());
        lemma_merged_runs(Pending::Nothing, body, m.spent());
        lemma_run_wf(body, m.spent());
        lemma_run_budget(body, m.spent());
        lemma_compacted_loop(body, after);
    }
}

/// Compaction preserves meaning: from any machine, a compacted sequence leaves the
/// machine that the sequence itself leaves; in particular the same output.
pub proof fn law_compaction_preserves_run(ops: Seq<Instr>, m: Machine)
    requires
        m.wf(),
    ensures
        run(compacted(ops), m) == run(ops, m),
{
    lemma_merged_runs(Pending::Nothing, ops, m);
}

} // verus!
