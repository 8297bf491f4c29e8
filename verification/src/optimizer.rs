//! The compaction pass: runs of pointer moves, and runs of cell changes, become one
//! instruction each.

use crate::instruction::{tree_view, Instr, Instruction};
use crate::machine::HEAP_SIZE;
use crate::modular::{lemma_full_turn, lemma_rem_toward_zero};
use vstd::arithmetic::div_mod::lemma_mod_bound;
use vstd::prelude::*;

verus! {

/// The run that compaction has read and not yet emitted: its kind and the sum of the
/// counts read.
pub enum Pending {
    /// No run is open.
    Nothing,
    /// A run of pointer moves.
    Move(int),
    /// A run of cell changes.
    Modify(int),
}

/// The count that an emitted instruction carries for a run whose counts sum to `total`:
/// the sum itself where an `i64` holds it, else its remainder by `modulus`, which has
/// the same effect on a pointer or cell that wraps at `modulus`.
pub open spec fn narrowed(total: int, modulus: int) -> int {
    if i64::MIN <= total <= i64::MAX {
        total
    } else {
        total % modulus
    }
}

/// The instruction that closes a pending run; nothing if no run is open.
pub open spec fn flushed(run: Pending) -> Seq<Instr> {
    match run {
        Pending::Nothing => Seq::empty(),
        Pending::Move(total) => seq![Instr::MovePointer(narrowed(total, HEAP_SIZE as int))],
        Pending::Modify(total) => seq![Instr::ModifyCell(narrowed(total, 256))],
    }
}

/// The compaction of `ops` when `run` is pending before them.
///
/// An instruction of the pending run's kind adds its count to the run, whatever its
/// sign. Any other instruction closes the run. Outputs and inputs are kept as they are;
/// a loop is kept with its body compacted.
pub open spec fn merged(run: Pending, ops: Seq<Instr>) -> Seq<Instr>
    decreases ops,
{
    if ops.len() == 0 {
        flushed(run)
    } else {
        let rest = ops.drop_first();
        match ops[0] {
            Instr::MovePointer(count) => match run {
                Pending::Move(total) => merged(Pending::Move(total + count), rest),
                _ => flushed(run) + merged(Pending::Move(count), rest),
            },
            Instr::ModifyCell(count) => match run {
                Pending::Modify(total) => merged(Pending::Modify(total + count), rest),
                _ => flushed(run) + merged(Pending::Modify(count), rest),
            },
            Instr::Output => flushed(run) + seq![Instr::Output] + merged(Pending::Nothing, rest),
            Instr::Input => flushed(run) + seq![Instr::Input] + merged(Pending::Nothing, rest),
            Instr::Loop(body) => flushed(run) + seq![
                Instr::Loop(merged(Pending::Nothing, body)),
            ] + merged(Pending::Nothing, rest),
        }
    }
}

/// The compaction of a sequence of instructions.
pub open spec fn compacted(ops: Seq<Instr>) -> Seq<Instr> {
    merged(Pending::Nothing, ops)
}

/// The largest magnitude of a count.
spec fn count_limit() -> int {
    0x8000_0000_0000_0000
}

/// A pending run in executable form. The sum is kept in 128 bits, which hold the sum
/// of as many 64-bit counts as a vector has elements.
enum Accumulator {
    Nothing,
    Move(i128),
    Modify(i128),
}

impl Accumulator {
    spec fn pending(self) -> Pending {
        match self {
            Accumulator::Nothing => Pending::Nothing,
            Accumulator::Move(total) => Pending::Move(total as int),
            Accumulator::Modify(total) => Pending::Modify(total as int),
        }
    }

    /// The sum is that of at most `terms` counts.
    spec fn within(self, terms: int) -> bool {
        match self {
            Accumulator::Nothing => true,
            Accumulator::Move(total) | Accumulator::Modify(total) => -terms * count_limit()
                <= total <= terms * count_limit(),
        }
    }
}

/// The count to emit for a run that sums to `total`.
fn narrow(total: i128, modulus: i128) -> (count: i64)
    requires
        0 < modulus <= i64::MAX,
    ensures
        count == narrowed(total as int, modulus as int),
{
    if total >= i64::MIN as i128 && total <= i64::MAX as i128 {
        total as i64
    } else {
        let rem: i128 = total % modulus;
        proof {
            lemma_rem_toward_zero(0, total as int, modulus as int);
        }
        if rem < 0 {
            proof {
                lemma_full_turn(rem + modulus, modulus as int);
            }
            (rem + modulus) as i64
        } else {
            proof {
                lemma_full_turn(rem as int, modulus as int);
            }
            rem as i64
        }
    }
}

/// Emits the instruction that closes the pending run, if one is open.
fn flush(out: &mut Vec<Instruction>, run: Accumulator)
    ensures
        tree_view(final(out)@) == tree_view(old(out)@) + flushed(run.pending()),
{
    match run {
        Accumulator::Nothing => {},
        Accumulator::Move(total) => {
            out.push(Instruction::MovePointer(narrow(total, HEAP_SIZE as i128)));
        },
        Accumulator::Modify(total) => {
            out.push(Instruction::ModifyCell(narrow(total, 256)));
        },
    }
}

/// Compacts a sequence of instructions.
pub fn compact(ast: &[Instruction]) -> (out: Vec<Instruction>)
    ensures
        tree_view(out@) == compacted(tree_view(ast@)),
    decreases ast@,
{
    let ghost tree = tree_view(ast@);
    let mut out: Vec<Instruction> = Vec::new();
    let mut run = Accumulator::Nothing;
    let mut i: usize = 0;
    assert(tree.skip(0) =~= tree);
    while i < ast.len()
        invariant
            i <= ast.len(),
            tree == tree_view(ast@),
            run.within(i as int),
            compacted(tree) == tree_view(out@) + merged(run.pending(), tree.skip(i as int)),
        decreases ast.len() - i,
    {
        let ghost done = tree_view(out@);
        let ghost closing = flushed(run.pending());
        let ghost rest = tree.skip(i as int + 1);
        proof {
            assert(tree.skip(i as int).drop_first() =~= rest);
        }
        match &ast[i] {
            Instruction::MovePointer(count) => {
                if let Accumulator::Move(total) = run {
                    run = Accumulator::Move(total + *count as i128);
                } else {
                    flush(&mut out, run);
                    run = Accumulator::Move(*count as i128);
                }
            },
            Instruction::ModifyCell(count) => {
                if let Accumulator::Modify(total) = run {
                    run = Accumulator::Modify(total + *count as i128);
                } else {
                    flush(&mut out, run);
                    run = Accumulator::Modify(*count as i128);
                }
            },
            Instruction::Output => {
                flush(&mut out, run);
                out.push(Instruction::Output);
                run = Accumulator::Nothing;
                assert(done + (closing + seq![Instr::Output] + merged(Pending::Nothing, rest))
                    =~= (done + closing + seq![Instr::Output]) + merged(Pending::Nothing, rest));
            },
            Instruction::Input => {
                flush(&mut out, run);
                out.push(Instruction::Input);
                run = Accumulator::Nothing;
                assert(done + (closing + seq![Instr::Input] + merged(Pending::Nothing, rest))
                    =~= (done + closing + seq![Instr::Input]) + merged(Pending::Nothing, rest));
            },
            Instruction::Loop(body) => {
                flush(&mut out, run);
                let inner = compact(body.as_slice());
                let ghost kept = Instr::Loop(tree_view(inner@));
                out.push(Instruction::Loop(inner));
                run = Accumulator::Nothing;
                assert(done + (closing + seq![kept] + merged(Pending::Nothing, rest)) =~= (done
                    + closing + seq![kept]) + merged(Pending::Nothing, rest));
            },
        }
        i = i + 1;
    }
    flush(&mut out, run);
    out
}

/// An `i64` holds the count.
pub open spec fn fits(count: int) -> bool {
    i64::MIN <= count <= i64::MAX
}

/// The run that an instruction opens when none of its kind is pending.
pub open spec fn opened(op: Instr) -> Pending {
    match op {
        Instr::MovePointer(count) => Pending::Move(count),
        Instr::ModifyCell(count) => Pending::Modify(count),
        _ => Pending::Nothing,
    }
}

/// The instruction is of the pending run's kind, so that compaction adds it to the run.
pub open spec fn continues(run: Pending, op: Instr) -> bool {
    ||| run is Move && op is MovePointer
    ||| run is Modify && op is ModifyCell
}

/// The shape of a compacted sequence: no pointer move follows a pointer move, no cell
/// change follows a cell change, every count fits an `i64`, and every loop body has
/// this shape too.
pub open spec fn compact_form(ops: Seq<Instr>) -> bool
    decreases ops, 1nat,
{
    if ops.len() == 0 {
        true
    } else {
        &&& item_form(ops[0])
        &&& ops.len() > 1 ==> !continues(opened(ops[0]), ops[1])
        &&& compact_form(ops.drop_first())
    }
}

/// The shape of one instruction of a compacted sequence.
pub open spec fn item_form(op: Instr) -> bool
    decreases op, 0nat,
{
    match op {
        Instr::MovePointer(count) => fits(count),
        Instr::ModifyCell(count) => fits(count),
        Instr::Loop(body) => compact_form(body),
        _ => true,
    }
}

/// A sequence in compact form stays so with one more instruction in front, if that
/// instruction is in compact form itself and not of the kind of the one it precedes.
proof fn lemma_form_with_head(head: Instr, tail: Seq<Instr>)
    requires
        item_form(head),
        compact_form(tail),
        tail.len() > 0 ==> !continues(opened(head), tail[0]),
    ensures
        compact_form(seq![head] + tail),
{
    assert((seq![head] + tail).drop_first() =~= tail);
}

/// What closes a run is in compact form.
proof fn lemma_flushed_form(run: Pending)
    ensures
        compact_form(flushed(run)),
        run !is Nothing ==> flushed(run).len() == 1 && continues(run, flushed(run)[0]),
        run is Nothing ==> flushed(run).len() == 0,
{
    match run {
        Pending::Nothing => {},
        Pending::Move(total) => {
            lemma_mod_bound(total, HEAP_SIZE as int);
            lemma_form_with_head(flushed(run)[0], Seq::empty());
        },
        Pending::Modify(total) => {
            lemma_mod_bound(total, 256);
            lemma_form_with_head(flushed(run)[0], Seq::empty());
        },
    }
}

/// What closes a run, followed by a sequence in compact form that does not begin with
/// an instruction of the run's kind, is in compact form.
proof fn lemma_form_after_flush(run: Pending, tail: Seq<Instr>)
    requires
        compact_form(tail),
        tail.len() > 0 ==> !continues(run, tail[0]),
    ensures
        compact_form(flushed(run) + tail),
        run !is Nothing ==> continues(run, (flushed(run) + tail)[0]),
{
    lemma_flushed_form(run);
    if run !is Nothing {
        lemma_form_with_head(flushed(run)[0], tail);
    }
}

/// Compaction gives a sequence in compact form, which begins with an instruction of
/// the pending run's kind if a run is pending.
pub proof fn lemma_merged_form(run: Pending, ops: Seq<Instr>)
    ensures
        compact_form(merged(run, ops)),
        run !is Nothing ==> merged(run, ops).len() > 0 && continues(run, merged(run, ops)[0]),
    decreases ops,
{
    if ops.len() == 0 {
        lemma_flushed_form(run);
    } else {
        let rest = ops.drop_first();
        match ops[0] {
            Instr::MovePointer(count) => match run {
                Pending::Move(total) => {
                    lemma_merged_form(Pending::Move(total + count), rest);
                },
                _ => {
                    lemma_merged_form(Pending::Move(count), rest);
                    lemma_form_after_flush(run, merged(Pending::Move(count), rest));
                },
            },
            Instr::ModifyCell(count) => match run {
                Pending::Modify(total) => {
                    lemma_merged_form(Pending::Modify(total + count), rest);
                },
                _ => {
                    lemma_merged_form(Pending::Modify(count), rest);
                    lemma_form_after_flush(run, merged(Pending::Modify(count), rest));
                },
            },
            Instr::Output => {
                lemma_merged_form(Pending::Nothing, rest);
                lemma_kept_form(run, Instr::Output, merged(Pending::Nothing, rest));
            },
            Instr::Input => {
                lemma_merged_form(Pending::Nothing, rest);
                lemma_kept_form(run, Instr::Input, merged(Pending::Nothing, rest));
            },
            Instr::Loop(body) => {
                lemma_merged_form(Pending::Nothing, body);
                lemma_merged_form(Pending::Nothing, rest);
                let kept = Instr::Loop(merged(Pending::Nothing, body));
                lemma_kept_form(run, kept, merged(Pending::Nothing, rest));
            },
        }
    }
}

/// What closes a run, then an instruction that belongs to no run, then a sequence in
/// compact form: all in compact form.
proof fn lemma_kept_form(run: Pending, kept: Instr, tail: Seq<Instr>)
    requires
        opened(kept) is Nothing,
        item_form(kept),
        compact_form(tail),
    ensures
        compact_form(flushed(run) + seq![kept] + tail),
        run !is Nothing ==> continues(run, (flushed(run) + seq![kept] + tail)[0]),
{
    lemma_form_with_head(kept, tail);
    lemma_form_after_flush(run, seq![kept] + tail);
    assert(flushed(run) + seq![kept] + tail =~= flushed(run) + (seq![kept] + tail));
}

/// Compaction leaves a sequence in compact form as it is, after what closes the
/// pending run.
pub proof fn lemma_form_is_kept(run: Pending, ops: Seq<Instr>)
    requires
        compact_form(ops),
        ops.len() > 0 ==> !continues(run, ops[0]),
    ensures
        merged(run, ops) == flushed(run) + ops,
    decreases ops,
{
    if ops.len() > 0 {
        let rest = ops.drop_first();
        assert(item_form(ops[0]));
        match ops[0] {
            Instr::MovePointer(count) => {
                lemma_form_is_kept(Pending::Move(count), rest);
            },
            Instr::ModifyCell(count) => {
                lemma_form_is_kept(Pending::Modify(count), rest);
            },
            Instr::Output => {
                lemma_form_is_kept(Pending::Nothing, rest);
            },
            Instr::Input => {
                lemma_form_is_kept(Pending::Nothing, rest);
            },
            Instr::Loop(body) => {
                lemma_form_is_kept(Pending::Nothing, body);
                lemma_form_is_kept(Pending::Nothing, rest);
            },
        }
    }
}

/// Compaction is idempotent: a compacted sequence is its own compaction.
pub proof fn law_compaction_idempotent(ops: Seq<Instr>)
    ensures
        compacted(compacted(ops)) == compacted(ops),
{
    lemma_merged_form(Pending::Nothing, ops);
    lemma_form_is_kept(Pending::Nothing, compacted(ops));
}

/// Compaction never lengthens: what it gives has at most as many instructions as
/// it was given, one more if a run was pending.
pub proof fn lemma_merged_len(run: Pending, ops: Seq<Instr>)
    ensures
        merged(run, ops).len() <= ops.len() + flushed(run).len(),
    decreases ops.len(),
{
    if ops.len() > 0 {
        let rest = ops.drop_first();
        match ops[0] {
            Instr::MovePointer(count) => match run {
                Pending::Move(total) => {
                    lemma_merged_len(Pending::Move(total + count), rest);
                },
                _ => {
                    lemma_merged_len(Pending::Move(count), rest);
                },
            },
            Instr::ModifyCell(count) => match run {
                Pending::Modify(total) => {
                    lemma_merged_len(Pending::Modify(total + count), rest);
                },
                _ => {
                    lemma_merged_len(Pending::Modify(count), rest);
                },
            },
            _ => {
                lemma_merged_len(Pending::Nothing, rest);
            },
        }
    }
}

/// A compacted sequence is no longer than the sequence it was made from.
pub proof fn law_compaction_shrinks(ops: Seq<Instr>)
    ensures
        compacted(ops).len() <= ops.len(),
{
    lemma_merged_len(Pending::Nothing, ops);
}

} // verus!
