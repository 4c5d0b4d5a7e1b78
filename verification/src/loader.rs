//! The loader: translating a source string into an instruction sequence
//! with precomputed jump targets.
//!
//! The mathematical model is a left-to-right scan (`load_prefix`) that
//! carries the instructions built so far together with the output indices
//! of the opening brackets still awaiting their partner.  `load_spec` is
//! the model of a whole load; `parse_program` is the executable loader,
//! proved equal to it.

use vstd::prelude::*;

use crate::engine::BrainfuckInterpreter;
use crate::instructions::Instruction;
use crate::instructions::StructuralError;

verus! {

broadcast use vstd::string::axiom_spec_iter;

/// Is `c` one of the eight command characters?  Every other character is
/// ignored by the loader.
pub open spec fn is_command(c: char) -> bool {
    ||| c == '>'
    ||| c == '<'
    ||| c == '+'
    ||| c == '-'
    ||| c == '.'
    ||| c == ','
    ||| c == '['
    ||| c == ']'
}

/// How many command characters a source sequence holds; each contributes
/// exactly one instruction.
pub open spec fn command_count(s: Seq<char>) -> int
    decreases s.len(),
{
    if s.len() == 0 {
        0
    } else {
        command_count(s.drop_last()) + if is_command(s.last()) {
            1int
        } else {
            0int
        }
    }
}

/// The command characters of a source sequence, in order.
pub open spec fn command_chars(s: Seq<char>) -> Seq<char>
    decreases s.len(),
{
    if s.len() == 0 {
        Seq::empty()
    } else {
        command_chars(s.drop_last()) + if is_command(s.last()) {
            seq![s.last()]
        } else {
            Seq::empty()
        }
    }
}

/// The loader's state in the middle of a scan: the instructions emitted so
/// far, and the output indices of the opening brackets not yet matched,
/// bottom of the stack first.
pub struct LoadState {
    pub instructions: Seq<Instruction>,
    pub pending: Seq<usize>,
}

/// The placeholder target an opening bracket's jump carries until its
/// partner is found.
pub open spec fn unresolved_target() -> usize {
    usize::MAX
}

/// One character of the scan.  A command appends exactly one instruction;
/// `]` additionally resolves the most recent pending opening bracket, and
/// fails if there is none; anything else leaves the state alone.
pub open spec fn load_step(st: LoadState, c: char) -> Result<LoadState, StructuralError> {
    if c == '[' {
        Ok(
            LoadState {
                instructions: st.instructions.push(
                    Instruction::JumpIfZero(unresolved_target()),
                ),
                pending: st.pending.push(st.instructions.len() as usize),
            },
        )
    } else if c == ']' {
        if st.pending.len() == 0 {
            Err(StructuralError::UnmatchedClosingBracket)
        } else {
            let opening = st.pending.last();
            let close_index = st.instructions.len() as usize;
            Ok(
                LoadState {
                    instructions: st.instructions.update(
                        opening as int,
                        Instruction::JumpIfZero(close_index),
                    ).push(Instruction::JumpIfNonZero(opening)),
                    pending: st.pending.drop_last(),
                },
            )
        }
    } else if c == '>' {
        Ok(LoadState { instructions: st.instructions.push(Instruction::MoveRight), ..st })
    } else if c == '<' {
        Ok(LoadState { instructions: st.instructions.push(Instruction::MoveLeft), ..st })
    } else if c == '+' {
        Ok(LoadState { instructions: st.instructions.push(Instruction::Increment), ..st })
    } else if c == '-' {
        Ok(LoadState { instructions: st.instructions.push(Instruction::Decrement), ..st })
    } else if c == '.' {
        Ok(LoadState { instructions: st.instructions.push(Instruction::OutputByte), ..st })
    } else if c == ',' {
        Ok(LoadState { instructions: st.instructions.push(Instruction::InputByte), ..st })
    } else {
        Ok(st)
    }
}

/// The scan of a whole source prefix, character by character.
pub open spec fn load_prefix(s: Seq<char>) -> Result<LoadState, StructuralError>
    decreases s.len(),
{
    if s.len() == 0 {
        Ok(LoadState { instructions: Seq::empty(), pending: Seq::empty() })
    } else {
        match load_prefix(s.drop_last()) {
            Ok(st) => load_step(st, s.last()),
            Err(e) => Err(e),
        }
    }
}

/// The model of a whole load: scan the source, then fail if any opening
/// bracket is still pending.
pub open spec fn load_spec(s: Seq<char>) -> Result<Seq<Instruction>, StructuralError> {
    match load_prefix(s) {
        Ok(st) => if st.pending.len() == 0 {
            Ok(st.instructions)
        } else {
            Err(StructuralError::UnmatchedOpeningBracket)
        },
        Err(e) => Err(e),
    }
}

/// The index a jump instruction points at; -1 for the other instructions.
pub open spec fn jump_target(x: Instruction) -> int {
    match x {
        Instruction::JumpIfZero(t) => t as int,
        Instruction::JumpIfNonZero(t) => t as int,
        _ => -1,
    }
}

/// Does the pending stack hold the output index `i`?
pub open spec fn pending_has(pending: Seq<usize>, i: int) -> bool {
    exists|k: int| 0 <= k < pending.len() && pending[k] == i
}

/// The forward jump at `i` is resolved: it points past itself at a
/// backward jump whose own target is `i`.
pub open spec fn fwd_resolved(insts: Seq<Instruction>, i: int) -> bool {
    match insts[i] {
        Instruction::JumpIfZero(t) => i < t < insts.len() && (match insts[t as int] {
            Instruction::JumpIfNonZero(u) => u == i,
            _ => false,
        }),
        _ => false,
    }
}

/// The backward jump at `i` points before itself at a forward jump whose
/// own target is `i`.
pub open spec fn bwd_resolved(insts: Seq<Instruction>, i: int) -> bool {
    match insts[i] {
        Instruction::JumpIfNonZero(t) => 0 <= t < i && (match insts[t as int] {
            Instruction::JumpIfZero(u) => u == i,
            _ => false,
        }),
        _ => false,
    }
}

/// Jump targets are mutual inverses: every forward jump's partner is a
/// backward jump pointing back at it, and vice versa.
pub open spec fn targets_resolved(insts: Seq<Instruction>) -> bool {
    forall|i: int|
        0 <= i < insts.len() ==> match #[trigger] insts[i] {
            Instruction::JumpIfZero(_) => fwd_resolved(insts, i),
            Instruction::JumpIfNonZero(_) => bwd_resolved(insts, i),
            _ => true,
        }
}

/// What holds of every loader state the scan can reach: pending indices
/// are in range, strictly increasing, and name forward jumps; every
/// forward jump not pending is resolved; every backward jump is resolved
/// and its partner is not pending.
pub open spec fn loader_state_inv(st: LoadState) -> bool {
    &&& forall|k: int| 0 <= k < st.pending.len() ==> #[trigger] st.pending[k] < st.instructions.len()
    &&& forall|k1: int, k2: int|
        0 <= k1 < k2 < st.pending.len() ==> #[trigger] st.pending[k1] < #[trigger] st.pending[k2]
    &&& forall|k: int|
        0 <= k < st.pending.len() ==> st.instructions[#[trigger] st.pending[k] as int] is JumpIfZero
    &&& forall|i: int|
        0 <= i < st.instructions.len() && #[trigger] st.instructions[i] is JumpIfZero
            && !pending_has(st.pending, i) ==> fwd_resolved(st.instructions, i)
    &&& forall|i: int|
        0 <= i < st.instructions.len() && #[trigger] st.instructions[i] is JumpIfNonZero
            ==> bwd_resolved(st.instructions, i) && !pending_has(
            st.pending,
            jump_target(st.instructions[i]),
        )
}

/// One scan step preserves the loader's structural invariant, and fails
/// exactly on a `]` with nothing pending.
proof fn lemma_load_step_inv(st: LoadState, c: char)
    requires
        loader_state_inv(st),
        st.instructions.len() <= usize::MAX,
    ensures
        match load_step(st, c) {
            Ok(st2) => {
                &&& loader_state_inv(st2)
                &&& st2.instructions.len() == st.instructions.len() + (if is_command(c) {
                    1int
                } else {
                    0int
                })
            },
            Err(e) => {
                &&& e == StructuralError::UnmatchedClosingBracket
                &&& c == ']'
                &&& st.pending.len() == 0
            },
        },
{
    let insts = st.instructions;
    let len: int = insts.len() as int;
    if c == '[' {
        let st2 = LoadState {
            instructions: insts.push(Instruction::JumpIfZero(unresolved_target())),
            pending: st.pending.push(len as usize),
        };
        assert(load_step(st, c) == Ok::<LoadState, StructuralError>(st2));
        assert(st2.instructions[len] == Instruction::JumpIfZero(unresolved_target()));
        assert(pending_has(st2.pending, len)) by {
            assert(st2.pending[st.pending.len() as int] == len as usize);
        }
        assert forall|i: int|
            0 <= i < st2.instructions.len() && #[trigger] st2.instructions[i] is JumpIfZero
                && !pending_has(st2.pending, i) implies fwd_resolved(st2.instructions, i) by {
            assert(i < len);
            assert(!pending_has(st.pending, i)) by {
                if pending_has(st.pending, i) {
                    let k: int = choose|k: int| 0 <= k < st.pending.len() && st.pending[k] == i;
                    assert(st2.pending[k] == i);
                }
            }
            assert(fwd_resolved(insts, i));
            assert(jump_target(insts[i]) < len);
        }
        assert forall|i: int|
            0 <= i < st2.instructions.len() && #[trigger] st2.instructions[i] is JumpIfNonZero
                implies bwd_resolved(st2.instructions, i) && !pending_has(
            st2.pending,
            jump_target(st2.instructions[i]),
        ) by {
            assert(i < len);
            assert(bwd_resolved(insts, i));
            let t: int = jump_target(insts[i]);
            assert(!pending_has(st.pending, t));
            assert(insts[t] is JumpIfZero);
            assert(t < len);
            if pending_has(st2.pending, t) {
                let k: int = choose|k: int| 0 <= k < st2.pending.len() && st2.pending[k] == t;
                if k < st.pending.len() {
                    assert(st.pending[k] == t);
                } else {
                    assert(st2.pending[k] == len as usize);
                }
            }
        }
    } else if c == ']' {
        if st.pending.len() > 0 {
            let opening: int = st.pending.last() as int;
            let patched = insts.update(opening, Instruction::JumpIfZero(len as usize));
            let st2 = LoadState {
                instructions: patched.push(Instruction::JumpIfNonZero(st.pending.last())),
                pending: st.pending.drop_last(),
            };
            assert(load_step(st, c) == Ok::<LoadState, StructuralError>(st2));
            let insts2 = st2.instructions;
            assert(0 <= opening < len);
            assert(insts[opening] is JumpIfZero);
            // the popped index is not among the remaining pending ones
            assert(!pending_has(st2.pending, opening)) by {
                if pending_has(st2.pending, opening) {
                    let k: int = choose|k: int|
                        0 <= k < st2.pending.len() && st2.pending[k] == opening;
                    assert(st.pending[k] == st.pending[st.pending.len() - 1]);
                    assert(st.pending[k] < st.pending[st.pending.len() - 1]);
                }
            }
            // no backward jump pointed at the popped index, so patching it
            // disturbs no resolved pair
            assert forall|i: int|
                0 <= i < insts2.len() && #[trigger] insts2[i] is JumpIfNonZero implies bwd_resolved(
                insts2,
                i,
            ) && !pending_has(st2.pending, jump_target(insts2[i])) by {
                if i < len {
                    assert(insts[i] is JumpIfNonZero);
                    assert(bwd_resolved(insts, i));
                    let t: int = jump_target(insts[i]);
                    assert(!pending_has(st.pending, t));
                    assert(t != opening) by {
                        if t == opening {
                            assert(st.pending[st.pending.len() - 1] == st.pending.last());
                            assert(pending_has(st.pending, opening));
                        }
                    }
                    assert(insts2[i] == insts[i]);
                    assert(insts2[t] == insts[t]);
                    assert(bwd_resolved(insts2, i));
                    assert(!pending_has(st2.pending, t)) by {
                        if pending_has(st2.pending, t) {
                            let k: int = choose|k: int|
                                0 <= k < st2.pending.len() && st2.pending[k] == t;
                            assert(st.pending[k] == t);
                        }
                    }
                } else {
                    assert(i == len);
                    assert(insts2[i] == Instruction::JumpIfNonZero(st.pending.last()));
                    assert(insts2[opening] == Instruction::JumpIfZero(len as usize));
                    assert(bwd_resolved(insts2, i));
                    assert(!pending_has(st2.pending, opening));
                }
            }
            assert forall|i: int|
                0 <= i < insts2.len() && #[trigger] insts2[i] is JumpIfZero && !pending_has(
                st2.pending,
                i,
            ) implies fwd_resolved(insts2, i) by {
                if i == opening {
                    assert(insts2[opening] == Instruction::JumpIfZero(len as usize));
                    assert(insts2[len] == Instruction::JumpIfNonZero(st.pending.last()));
                    assert(fwd_resolved(insts2, i));
                } else {
                    assert(i < len);
                    assert(insts[i] is JumpIfZero);
                    assert(!pending_has(st.pending, i)) by {
                        if pending_has(st.pending, i) {
                            let k: int = choose|k: int|
                                0 <= k < st.pending.len() && st.pending[k] == i;
                            assert(k == st.pending.len() - 1 ==> i == opening);
                            assert(k < st.pending.len() - 1 ==> st2.pending[k] == i);
                        }
                    }
                    assert(fwd_resolved(insts, i));
                    let t: int = jump_target(insts[i]);
                    assert(insts[t] is JumpIfNonZero);
                    assert(t != opening);
                    assert(i != opening);
                    assert(insts2[i] == insts[i]);
                    assert(insts2[t] == insts[t]);
                    assert(fwd_resolved(insts2, i));
                }
            }
            assert forall|k: int|
                0 <= k < st2.pending.len() implies st2.instructions[#[trigger] st2.pending[k] as int]
                is JumpIfZero by {
                assert(st.pending[k] < st.pending[st.pending.len() - 1]);
                assert(st2.pending[k] as int != opening);
                assert(st2.instructions[st2.pending[k] as int] == insts[st.pending[k] as int]);
            }
        }
    } else {
        if is_command(c) {
            let st2 = load_step(st, c).unwrap();
            assert(st2.pending == st.pending);
            assert(st2.instructions.len() == len + 1);
            assert(st2.instructions[len] is JumpIfZero == false);
            assert forall|i: int|
                0 <= i < st2.instructions.len() && #[trigger] st2.instructions[i] is JumpIfZero
                    && !pending_has(st2.pending, i) implies fwd_resolved(st2.instructions, i) by {
                assert(i < len);
                assert(fwd_resolved(st.instructions, i));
                assert(jump_target(st.instructions[i]) < len);
            }
            assert forall|i: int|
                0 <= i < st2.instructions.len() && #[trigger] st2.instructions[i] is JumpIfNonZero
                    implies bwd_resolved(st2.instructions, i) && !pending_has(
                st2.pending,
                jump_target(st2.instructions[i]),
            ) by {
                assert(i < len);
                assert(bwd_resolved(st.instructions, i));
            }
        }
    }
}

/// With nothing pending, the structural invariant says exactly that all
/// jump targets are mutual inverses.
proof fn lemma_inv_resolved(st: LoadState)
    requires
        loader_state_inv(st),
        st.pending.len() == 0,
    ensures
        targets_resolved(st.instructions),
{
    assert forall|i: int|
        0 <= i < st.instructions.len() implies match #[trigger] st.instructions[i] {
        Instruction::JumpIfZero(_) => fwd_resolved(st.instructions, i),
        Instruction::JumpIfNonZero(_) => bwd_resolved(st.instructions, i),
        _ => true,
    } by {
        assert(!pending_has(st.pending, i));
    }
}

/// A scan that has already failed on a prefix fails the same way on the
/// whole source.
proof fn lemma_load_prefix_err_extends(s: Seq<char>, i: int)
    requires
        0 <= i <= s.len(),
        load_prefix(s.take(i)) is Err,
    ensures
        load_prefix(s) == load_prefix(s.take(i)),
    decreases s.len() - i,
{
    if i < s.len() {
        assert(s.take(i + 1).drop_last() =~= s.take(i));
        assert(s.take(i + 1).last() == s[i]);
        assert(load_prefix(s.take(i + 1)) == load_prefix(s.take(i)));
        lemma_load_prefix_err_extends(s, i + 1);
    } else {
        assert(s.take(i) =~= s);
    }
}

/// How many `[` a source sequence holds.
pub open spec fn open_brackets(s: Seq<char>) -> int
    decreases s.len(),
{
    if s.len() == 0 {
        0
    } else {
        open_brackets(s.drop_last()) + if s.last() == '[' {
            1int
        } else {
            0int
        }
    }
}

/// How many `]` a source sequence holds.
pub open spec fn close_brackets(s: Seq<char>) -> int
    decreases s.len(),
{
    if s.len() == 0 {
        0
    } else {
        close_brackets(s.drop_last()) + if s.last() == ']' {
            1int
        } else {
            0int
        }
    }
}

/// Some prefix holds more `]` than `[`: a closing bracket with no
/// corresponding opening one.
pub open spec fn has_orphan_close(s: Seq<char>) -> bool {
    exists|i: int|
        0 <= i <= s.len() && close_brackets(#[trigger] s.take(i)) > open_brackets(s.take(i))
}

/// Brackets are balanced: no prefix closes more than it opened, and the
/// whole source opens exactly as much as it closes.
pub open spec fn brackets_balanced(s: Seq<char>) -> bool {
    &&& !has_orphan_close(s)
    &&& open_brackets(s) == close_brackets(s)
}

/// The scan's pending stack is as deep as the excess of `[` over `]`, no
/// prefix scanned without error over-closes, and every command character
/// contributes exactly one instruction; the scan fails exactly on an
/// orphan closing bracket.
proof fn lemma_load_prefix_counts(s: Seq<char>)
    ensures
        match load_prefix(s) {
            Ok(st) => {
                &&& st.pending.len() == open_brackets(s) - close_brackets(s)
                &&& !has_orphan_close(s)
                &&& st.instructions.len() == command_count(s)
                &&& forall|k: int|
                    0 <= k < st.pending.len() ==> #[trigger] st.pending[k]
                        < st.instructions.len()
            },
            Err(e) => e == StructuralError::UnmatchedClosingBracket && has_orphan_close(s),
        },
    decreases s.len(),
{
    if s.len() == 0 {
        assert forall|i: int|
            0 <= i <= s.len() implies !(close_brackets(s.take(i)) > open_brackets(
            s.take(i),
        )) by {
            assert(s.take(i) =~= s);
        }
    } else {
        let p = s.drop_last();
        let c = s.last();
        lemma_load_prefix_counts(p);
        assert(s.take(s.len() as int) =~= s);
        match load_prefix(p) {
            Err(e) => {
                let w: int = choose|i: int|
                    0 <= i <= p.len() && close_brackets(#[trigger] p.take(i)) > open_brackets(
                        p.take(i),
                    );
                assert(s.take(w) =~= p.take(w));
                assert(has_orphan_close(s));
            },
            Ok(st) => {
                if c == ']' && st.pending.len() == 0 {
                    // the whole of s over-closes
                    assert(close_brackets(s) == close_brackets(p) + 1);
                    assert(open_brackets(s) == open_brackets(p));
                    assert(close_brackets(s.take(s.len() as int)) > open_brackets(
                        s.take(s.len() as int),
                    ));
                    assert(has_orphan_close(s));
                } else {
                    assert(load_prefix(s) == load_step(st, c));
                    assert(load_prefix(s) is Ok);
                    let st2 = load_prefix(s).unwrap();
                    if c == '[' {
                        // a truncating cast can only shrink the pushed index
                        assert(st.instructions.len() as usize <= st.instructions.len());
                        assert(forall|k: int|
                            0 <= k < st2.pending.len() ==> #[trigger] st2.pending[k]
                                < st2.instructions.len());
                    }
                    if c == ']' {
                        assert(0 <= st.pending.last() < st.instructions.len());
                    }
                    assert(open_brackets(s) == open_brackets(p) + if c == '[' {
                        1int
                    } else {
                        0int
                    });
                    assert(close_brackets(s) == close_brackets(p) + if c == ']' {
                        1int
                    } else {
                        0int
                    });
                    assert(command_count(s) == command_count(p) + if is_command(c) {
                        1int
                    } else {
                        0int
                    });
                    assert(st2.pending.len() == st.pending.len() + if c == '[' {
                        1int
                    } else if c == ']' {
                        -1int
                    } else {
                        0int
                    });
                    assert(st2.instructions.len() == st.instructions.len() + if is_command(c) {
                        1int
                    } else {
                        0int
                    });
                    assert forall|i: int|
                        0 <= i <= s.len() implies !(close_brackets(s.take(i)) > open_brackets(
                        s.take(i),
                    )) by {
                        if i < s.len() {
                            assert(s.take(i) =~= p.take(i));
                            assert(!(close_brackets(p.take(i)) > open_brackets(p.take(i))));
                        } else {
                            assert(s.take(i) =~= s);
                            let st2 = load_prefix(s).unwrap();
                            assert(st2.pending.len() == open_brackets(s) - close_brackets(s));
                        }
                    }
                }
            },
        }
    }
}

/// Every scan state of a source no longer than the machine's indices
/// satisfies the loader's structural invariant.
proof fn lemma_load_prefix_inv(s: Seq<char>)
    requires
        s.len() <= usize::MAX,
    ensures
        match load_prefix(s) {
            Ok(st) => loader_state_inv(st) && st.instructions.len() <= s.len(),
            Err(_) => true,
        },
    decreases s.len(),
{
    if s.len() > 0 {
        let p = s.drop_last();
        lemma_load_prefix_inv(p);
        match load_prefix(p) {
            Ok(st) => {
                lemma_load_step_inv(st, s.last());
            },
            Err(_) => {},
        }
    }
}

/// A load succeeds exactly on balanced brackets; an orphan `]` fails with
/// `UnmatchedClosingBracket`; otherwise an excess of `[` fails with
/// `UnmatchedOpeningBracket`.  On success, the sequence holds exactly one
/// instruction per command character of the source.
pub proof fn lemma_load_classifies(s: Seq<char>)
    ensures
        load_spec(s) is Ok <==> brackets_balanced(s),
        load_spec(s) == Err::<Seq<Instruction>, StructuralError>(
            StructuralError::UnmatchedClosingBracket,
        ) <==> has_orphan_close(s),
        load_spec(s) == Err::<Seq<Instruction>, StructuralError>(
            StructuralError::UnmatchedOpeningBracket,
        ) <==> (!has_orphan_close(s) && open_brackets(s) > close_brackets(s)),
        load_spec(s) matches Ok(insts) ==> insts.len() == command_count(s),
{
    lemma_load_prefix_counts(s);
}

/// Every successful load yields mutually inverse jump targets: each
/// forward jump's partner is a backward jump pointing back at it, and
/// vice versa.
pub proof fn lemma_load_targets_mutual(s: Seq<char>)
    requires
        s.len() <= usize::MAX,
    ensures
        load_spec(s) matches Ok(insts) ==> targets_resolved(insts),
{
    lemma_load_prefix_inv(s);
    match load_prefix(s) {
        Ok(st) => {
            if st.pending.len() == 0 {
                lemma_inv_resolved(st);
            }
        },
        Err(_) => {},
    }
}

/// Characters outside the eight commands are ignored: scanning a source is
/// scanning its command characters alone.
proof fn lemma_load_prefix_filter(s: Seq<char>)
    ensures
        load_prefix(s) == load_prefix(command_chars(s)),
    decreases s.len(),
{
    if s.len() == 0 {
        assert(command_chars(s) =~= s);
    } else {
        let p = s.drop_last();
        let c = s.last();
        lemma_load_prefix_filter(p);
        let cc = command_chars(s);
        if is_command(c) {
            assert(cc == command_chars(p) + seq![c]);
            assert(cc.len() > 0);
            assert(cc.drop_last() =~= command_chars(p));
            assert(cc.last() == c);
        } else {
            assert(cc == command_chars(p) + Seq::<char>::empty());
            assert(cc =~= command_chars(p));
        }
    }
}

/// Characters outside the eight commands contribute no instruction and no
/// bracket bookkeeping: loading a source is loading its command
/// characters alone.
pub proof fn lemma_load_skips_noncommands(s: Seq<char>)
    ensures
        load_spec(s) == load_spec(command_chars(s)),
{
    lemma_load_prefix_filter(s);
}

/// `command_count` counts exactly the characters `command_chars` keeps, so
/// a loaded sequence is never longer than the filtered source.
pub proof fn lemma_command_count_chars(s: Seq<char>)
    ensures
        command_count(s) == command_chars(s).len(),
    decreases s.len(),
{
    if s.len() > 0 {
        lemma_command_count_chars(s.drop_last());
    }
}

impl BrainfuckInterpreter {
    /// Translate a source string into an instruction sequence, resolving
    /// jump targets and validating bracket balance.  The result is exactly
    /// the model `load_spec` of the source, and on success every jump
    /// target points at its partner bracket.
    pub fn parse_program(program: &str) -> (r: Result<Vec<Instruction>, StructuralError>)
        ensures
            match r {
                Ok(v) => load_spec(program@) == Ok::<Seq<Instruction>, StructuralError>(v@)
                    && targets_resolved(v@),
                Err(e) => load_spec(program@) == Err::<Seq<Instruction>, StructuralError>(e),
            },
    {
        let mut instructions: Vec<Instruction> = Vec::new();
        let mut pending: Vec<usize> = Vec::new();
        for ch in it: program.chars()
            invariant
                it.seq() == program@,
                0 <= it.index() <= program@.len(),
                load_prefix(program@.take(it.index())) == Ok::<LoadState, StructuralError>(
                    LoadState { instructions: instructions@, pending: pending@ },
                ),
                loader_state_inv(LoadState { instructions: instructions@, pending: pending@ }),
        {
            let ghost prev = LoadState { instructions: instructions@, pending: pending@ };
            let ghost idx: int = it.index();
            proof {
                assert(0 <= idx && idx < it.seq().len());
                assert(ch == it.seq()[idx]);
                assert(it.seq().take(idx + 1).drop_last() =~= it.seq().take(idx));
                assert(it.seq().take(idx + 1).last() == it.seq()[idx]);
                let cur_len: nat = instructions@.len();
                assert(cur_len <= usize::MAX) by {
                    vstd::std_specs::vec::axiom_spec_len(&instructions);
                }
                lemma_load_step_inv(prev, ch);
            }
            match ch {
                '>' => {
                    instructions.push(Instruction::MoveRight);
                },
                '<' => {
                    instructions.push(Instruction::MoveLeft);
                },
                '+' => {
                    instructions.push(Instruction::Increment);
                },
                '-' => {
                    instructions.push(Instruction::Decrement);
                },
                '.' => {
                    instructions.push(Instruction::OutputByte);
                },
                ',' => {
                    instructions.push(Instruction::InputByte);
                },
                '[' => {
                    let open_index: usize = instructions.len();
                    pending.push(open_index);
                    instructions.push(Instruction::JumpIfZero(usize::MAX));
                },
                ']' => {
                    match pending.pop() {
                        Some(opening) => {
                            let close_index: usize = instructions.len();
                            instructions[opening] = Instruction::JumpIfZero(close_index);
                            instructions.push(Instruction::JumpIfNonZero(opening));
                        },
                        None => {
                            proof {
                                lemma_load_prefix_err_extends(program@, idx + 1);
                            }
                            return Err(StructuralError::UnmatchedClosingBracket);
                        },
                    }
                },
                _ => {},
            }
        }
        proof {
            assert(program@.take(program@.len() as int) =~= program@);
        }
        if pending.len() == 0 {
            proof {
                lemma_inv_resolved(LoadState { instructions: instructions@, pending: pending@ });
            }
            Ok(instructions)
        } else {
            Err(StructuralError::UnmatchedOpeningBracket)
        }
    }
}

} // verus!
