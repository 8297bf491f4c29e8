//! The parser: source characters to instruction tree.

use crate::instruction::{tree_view, Instr, Instruction};
use vstd::prelude::*;

verus! {

/// Why a source text is no program.
#[derive(Debug, Clone, Copy, PartialEq, Eq)]
pub enum Error {
    /// A `[` has no matching `]`, or a `]` has no matching `[`.
    ///
    /// `position` is the index at which the parser stopped and `found` the character
    /// there: `Some(']')` for a `]` that closes nothing, `None` where the text ended
    /// while a loop was still open.
    UnbalancedLoop { position: usize, found: Option<char> },
}

/// The instruction that a character other than a bracket stands for, if any.
pub open spec fn simple(c: char) -> Option<Instr> {
    if c == '>' {
        Some(Instr::MovePointer(1))
    } else if c == '<' {
        Some(Instr::MovePointer(-1))
    } else if c == '+' {
        Some(Instr::ModifyCell(1))
    } else if c == '-' {
        Some(Instr::ModifyCell(-1))
    } else if c == '.' {
        Some(Instr::Output)
    } else if c == ',' {
        Some(Instr::Input)
    } else {
        None
    }
}

/// The instructions that one character other than a bracket contributes: one or none.
pub open spec fn contribution(c: char) -> Seq<Instr> {
    match simple(c) {
        Some(op) => seq![op],
        None => Seq::empty(),
    }
}

/// The instructions read from `start` up to the first `]` that closes no loop opened
/// since `start`, or up to the end of the text, together with the index at which
/// reading stopped. `None` if the text ends inside a loop.
///
/// A `[` is followed by the scan of its body, which must stop at a `]`, and then by
/// the scan of what follows that `]`. Any other character contributes its instruction,
/// if it has one, and is followed by the scan of the rest. (That the body's scan stops
/// after the `[` always holds, see `lemma_scan_stops`; it is what makes the definition
/// well-founded.)
pub open spec fn scan(code: Seq<char>, start: int) -> Option<(Seq<Instr>, int)>
    decreases code.len() - start,
{
    if start < 0 || start >= code.len() || code[start] == ']' {
        Some((Seq::empty(), start))
    } else if code[start] == '[' {
        match scan(code, start + 1) {
            Some((body, close)) => if start < close < code.len() && code[close] == ']' {
                match scan(code, close + 1) {
                    Some((rest, next)) => Some((seq![Instr::Loop(body)] + rest, next)),
                    None => None,
                }
            } else {
                None
            },
            None => None,
        }
    } else {
        match scan(code, start + 1) {
            Some((rest, next)) => Some((contribution(code[start]) + rest, next)),
            None => None,
        }
    }
}

/// The program that a source text denotes, or the reason why it denotes none.
pub open spec fn parsed(code: Seq<char>) -> Result<Seq<Instr>, Error> {
    match scan(code, 0) {
        Some((ops, next)) => if next == code.len() {
            Ok(ops)
        } else {
            Err(Error::UnbalancedLoop { position: next as usize, found: Some(']') })
        },
        None => Err(Error::UnbalancedLoop { position: code.len() as usize, found: None }),
    }
}

/// `scan` stops at or after its start, and short of the end only at a `]`.
pub proof fn lemma_scan_stops(code: Seq<char>, start: int)
    requires
        0 <= start <= code.len(),
    ensures
        scan(code, start) matches Some((_, next)) ==> {
            &&& start <= next <= code.len()
            &&& next < code.len() ==> code[next] == ']'
        },
    decreases code.len() - start,
{
    if start < code.len() && code[start] != ']' {
        lemma_scan_stops(code, start + 1);
        if code[start] == '[' {
            if let Some((_, close)) = scan(code, start + 1) {
                if close < code.len() {
                    lemma_scan_stops(code, close + 1);
                }
            }
        }
    }
}

/// What a scan gives in all, when `done` was read before the point from which `tail`
/// was scanned.
pub open spec fn resumed(done: Seq<Instr>, tail: Option<(Seq<Instr>, int)>) -> Option<
    (Seq<Instr>, int),
> {
    match tail {
        Some((rest, next)) => Some((done + rest, next)),
        None => None,
    }
}

/// Reads instructions from `start` up to the first `]` that closes no loop opened since
/// `start`, or up to the end of the text; returns them with the index at which it
/// stopped. Fails if the text ends inside a loop. A caller that wants a whole program
/// has to see to it that the index returned is the end of the text, as `parse` does.
pub fn get_ast(code: &[char], start: usize) -> (result: Result<(Vec<Instruction>, usize), Error>)
    ensures
        match scan(code@, start as int) {
            Some((ops, next)) => result matches Ok((tree, stop)) && tree_view(tree@) == ops && stop
                == next,
            None => result == Err::<(Vec<Instruction>, usize), Error>(
                Error::UnbalancedLoop { position: code.len(), found: None },
            ),
        },
    decreases code.len() - start,
{
    let mut ops: Vec<Instruction> = Vec::new();
    let mut i: usize = start;
    while i < code.len()
        invariant
            start <= i,
            scan(code@, start as int) == resumed(tree_view(ops@), scan(code@, i as int)),
        decreases code.len() - i,
    {
        let ch = code[i];
        if ch == ']' {
            return Ok((ops, i));
        } else if ch == '[' {
            let (body, close) = match get_ast(code, i + 1) {
                Ok(found) => found,
                Err(e) => {
                    return Err(e);
                },
            };
            proof {
                lemma_scan_stops(code@, i as int + 1);
            }
            if close >= code.len() {
                return Err(Error::UnbalancedLoop { position: code.len(), found: None });
            }
            ops.push(Instruction::Loop(body));
            i = close + 1;
        } else {
            if ch == '>' {
                ops.push(Instruction::MovePointer(1));
            } else if ch == '<' {
                ops.push(Instruction::MovePointer(-1));
            } else if ch == '+' {
                ops.push(Instruction::ModifyCell(1));
            } else if ch == '-' {
                ops.push(Instruction::ModifyCell(-1));
            } else if ch == '.' {
                ops.push(Instruction::Output);
            } else if ch == ',' {
                ops.push(Instruction::Input);
            }
            i = i + 1;
        }
    }
    Ok((ops, i))
}

/// Parses a whole source text into its program.
pub fn parse(code: &[char]) -> (result: Result<Vec<Instruction>, Error>)
    ensures
        match parsed(code@) {
            Ok(ops) => result matches Ok(tree) && tree_view(tree@) == ops,
            Err(e) => result == Err::<Vec<Instruction>, Error>(e),
        },
{
    proof {
        lemma_scan_stops(code@, 0);
    }
    match get_ast(code, 0) {
        Ok((tree, stop)) => {
            if stop < code.len() {
                Err(Error::UnbalancedLoop { position: stop, found: Some(code[stop]) })
            } else {
                Ok(tree)
            }
        },
        Err(e) => Err(e),
    }
}

/// The character is one of the eight that the language gives a meaning.
pub open spec fn is_command(c: char) -> bool {
    c == '[' || c == ']' || simple(c) is Some
}

/// A result of `scan` with its stopping index moved one to the right if it is at or
/// after `at`.
pub open spec fn lifted(found: Option<(Seq<Instr>, int)>, at: int) -> Option<(Seq<Instr>, int)> {
    match found {
        Some((ops, next)) => Some(
            (
                ops,
                if next >= at {
                    next + 1
                } else {
                    next
                },
            ),
        ),
        None => None,
    }
}

/// One character without meaning, inserted at `at`, changes what `scan` reads from no
/// starting index: only indices at or after `at` move one to the right.
pub proof fn lemma_scan_skips(code: Seq<char>, at: int, c: char, start: int)
    requires
        0 <= at <= code.len(),
        0 <= start <= code.len(),
        !is_command(c),
    ensures
        start <= at ==> scan(code.insert(at, c), start) == lifted(scan(code, start), at),
        start >= at ==> scan(code.insert(at, c), start + 1) == lifted(scan(code, start), at),
    decreases code.len() - start,
{
    lemma_scan_stops(code, start);
    if start < code.len() && code[start] != ']' {
        lemma_scan_skips(code, at, c, start + 1);
        lemma_scan_stops(code, start + 1);
        if code[start] == '[' {
            if let Some((_, close)) = scan(code, start + 1) {
                if close < code.len() {
                    lemma_scan_skips(code, at, c, close + 1);
                }
            }
        }
    }
}

/// Text that the language gives no meaning is skipped: a character that is none of the
/// eight commands, inserted anywhere into a source text, leaves the program that the
/// text denotes as it is, and leaves a text that denotes none without one.
pub proof fn law_comments_are_skipped(code: Seq<char>, at: int, c: char)
    requires
        0 <= at <= code.len(),
        !is_command(c),
    ensures
        parsed(code) is Ok ==> parsed(code.insert(at, c)) == parsed(code),
        parsed(code) is Err ==> parsed(code.insert(at, c)) is Err,
{
    lemma_scan_skips(code, at, c, 0);
    lemma_scan_stops(code, 0);
}

/// Every pointer move and cell change in the sequence is by one, up or down, also
/// inside loops.
pub open spec fn unit_steps(ops: Seq<Instr>) -> bool
    decreases ops,
{
    forall|i: int|
        0 <= i < ops.len() ==> match #[trigger] ops[i] {
            Instr::MovePointer(count) => count == 1 || count == -1,
            Instr::ModifyCell(count) => count == 1 || count == -1,
            Instr::Loop(body) => unit_steps(body),
            _ => true,
        }
}

/// What `scan` reads holds unit steps only.
pub proof fn lemma_scan_unit_steps(code: Seq<char>, start: int)
    ensures
        scan(code, start) matches Some((ops, _)) ==> unit_steps(ops),
    decreases code.len() - start,
{
    if !(start < 0 || start >= code.len() || code[start] == ']') {
        lemma_scan_unit_steps(code, start + 1);
        if code[start] == '[' {
            if let Some((_, close)) = scan(code, start + 1) {
                if start < close < code.len() {
                    lemma_scan_unit_steps(code, close + 1);
                }
            }
        }
    }
}

/// A parsed program moves the pointer and changes cells by one at a time: counts other
/// than one come from compaction.
pub proof fn law_parsed_in_unit_steps(code: Seq<char>)
    ensures
        parsed(code) matches Ok(tree) ==> unit_steps(tree),
{
    lemma_scan_unit_steps(code, 0);
}

/// A comment of any length, inserted anywhere into a source text, leaves the program
/// that the text denotes as it is.
pub proof fn law_comment_text_is_skipped(code: Seq<char>, at: int, comment: Seq<char>)
    requires
        0 <= at <= code.len(),
        forall|i: int| 0 <= i < comment.len() ==> !is_command(#[trigger] comment[i]),
    ensures
        parsed(code) is Ok ==> parsed(code.subrange(0, at) + comment + code.subrange(
            at,
            code.len() as int,
        )) == parsed(code),
    decreases comment.len(),
{
    let tail = code.subrange(at, code.len() as int);
    if comment.len() == 0 {
        assert(code.subrange(0, at) + comment + tail =~= code);
    } else {
        let shorter = comment.drop_last();
        let before = code.subrange(0, at) + shorter + tail;
        law_comment_text_is_skipped(code, at, shorter);
        law_comments_are_skipped(before, at + shorter.len(), comment.last());
        assert(before.insert(at + shorter.len(), comment.last()) =~= code.subrange(0, at)
            + comment + tail);
    }
}

} // verus!
