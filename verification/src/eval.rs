//! Tree-walking evaluator over a fixed-size tape of numeric cells.
//!
//! The whole mutable state of a run is the tape, a single cursor into
//! it, the external input not yet consumed, and everything emitted so
//! far.  A spec-level interpreter, `eval_node`, gives each tree a
//! meaning as a function of that state and of a step budget that bounds
//! loop re-entries; the executable evaluator returns exactly what the
//! spec interpreter says, budget included.

use vstd::prelude::*;
use crate::ast::LanguageNode;
use crate::ast::NodeView;
use crate::ast::deep_view_seq;
use crate::ast::node_size;
use crate::ast::seq_size;

verus! {

/// The number of cells on the memory tape.
pub const TAPE_LEN: usize = 30000;

/// Why a run stopped before completing.
#[derive(Debug, Clone, Copy, PartialEq, Eq, Structural)]
pub enum EvalError {
    /// The cursor would have left the tape; `at` is the offending position.
    OutOfBounds { at: usize },
    /// An input operation found no input left.
    InputExhausted,
    /// The step budget ran out before the program finished.
    OutOfFuel,
}

/// The whole mutable state of one run, as mathematical values.
pub struct StateView {
    /// The cells of the tape.
    pub tape: Seq<usize>,
    /// The index of the active cell.
    pub cursor: int,
    /// External input not yet consumed, front first.
    pub inputs: Seq<usize>,
    /// Everything emitted so far, oldest first.
    pub outputs: Seq<usize>,
}

/// The meaning of executing a tree: finished with a state and an
/// unspent budget, stopped on an error in a state, or still running
/// when the budget ran out.
pub enum EvalResult {
    Done(StateView, nat),
    Failed(EvalError, StateView),
    Hung,
}

/// `x + 1`, wrapping to 0 at the numeric type's maximum.
pub open spec fn wrap_inc(x: usize) -> usize {
    if x == usize::MAX {
        0
    } else {
        (x + 1) as usize
    }
}

/// `x - 1`, wrapping to the numeric type's maximum at 0.
pub open spec fn wrap_dec(x: usize) -> usize {
    if x == 0 {
        usize::MAX
    } else {
        (x - 1) as usize
    }
}

/// `left` capped at `cap`; the identity whenever `left <= cap`.
pub open spec fn cap_fuel(left: nat, cap: nat) -> nat {
    if left <= cap {
        left
    } else {
        cap
    }
}

/// The meaning of one tree on one state, with `fuel` bounding how often
/// loop bodies may be re-entered.
///
/// Cursor movement is checked in both directions: moving forward off
/// the tape fails at the exact step that exceeds the bound, and moving
/// backward at cell 0 stays at cell 0.  Cell arithmetic wraps.  A loop
/// re-checks the active cell before every pass and stops on the first
/// zero it observes.
pub open spec fn eval_node(n: NodeView, st: StateView, fuel: nat) -> EvalResult
    decreases fuel, node_size(n), 0nat, 0nat,
{
    match n {
        NodeView::IncrementPointer => {
            if st.cursor + 1 < st.tape.len() {
                EvalResult::Done(StateView { cursor: st.cursor + 1, ..st }, fuel)
            } else {
                EvalResult::Failed(EvalError::OutOfBounds { at: (st.cursor + 1) as usize }, st)
            }
        },
        NodeView::DecrementPointer => {
            if st.cursor > 0 {
                EvalResult::Done(StateView { cursor: st.cursor - 1, ..st }, fuel)
            } else {
                EvalResult::Done(st, fuel)
            }
        },
        NodeView::IncrementCounter => EvalResult::Done(
            StateView { tape: st.tape.update(st.cursor, wrap_inc(st.tape[st.cursor])), ..st },
            fuel,
        ),
        NodeView::DecrementCounter => EvalResult::Done(
            StateView { tape: st.tape.update(st.cursor, wrap_dec(st.tape[st.cursor])), ..st },
            fuel,
        ),
        NodeView::ReadFromStd => {
            if st.inputs.len() > 0 {
                EvalResult::Done(
                    StateView {
                        tape: st.tape.update(st.cursor, st.inputs[0]),
                        inputs: st.inputs.subrange(1, st.inputs.len() as int),
                        ..st
                    },
                    fuel,
                )
            } else {
                EvalResult::Failed(EvalError::InputExhausted, st)
            }
        },
        NodeView::WriteToStd => EvalResult::Done(
            StateView { outputs: st.outputs.push(st.tape[st.cursor]), ..st },
            fuel,
        ),
        NodeView::Brackets(body) => {
            if st.tape[st.cursor] == 0 {
                EvalResult::Done(st, fuel)
            } else if fuel == 0 {
                EvalResult::Hung
            } else {
                match eval_node(*body, st, (fuel - 1) as nat) {
                    EvalResult::Done(st1, left) => eval_node(
                        n,
                        st1,
                        cap_fuel(left, (fuel - 1) as nat),
                    ),
                    EvalResult::Failed(e, stf) => EvalResult::Failed(e, stf),
                    EvalResult::Hung => EvalResult::Hung,
                }
            }
        },
        NodeView::Many(items) => eval_seq(items, st, fuel),
    }
}

/// The meaning of an ordered list of trees, threading state and budget
/// through each in order.
pub open spec fn eval_seq(items: Seq<NodeView>, st: StateView, fuel: nat) -> EvalResult
    decreases fuel, seq_size(items), 1nat, items.len(),
{
    if items.len() == 0 {
        EvalResult::Done(st, fuel)
    } else {
        match eval_node(items[0], st, fuel) {
            EvalResult::Done(st1, left) => eval_seq(
                items.subrange(1, items.len() as int),
                st1,
                cap_fuel(left, fuel),
            ),
            EvalResult::Failed(e, stf) => EvalResult::Failed(e, stf),
            EvalResult::Hung => EvalResult::Hung,
        }
    }
}

/// External input and output of one run: input values consumed front to
/// back, output values appended.
pub struct IoBuffer {
    /// All input supplied to the run.
    pub inputs: Vec<usize>,
    /// How many of the inputs have been consumed.
    pub taken: usize,
    /// Everything emitted so far.
    pub outputs: Vec<usize>,
}

impl IoBuffer {
    /// The consumed count never passes the end of the input.
    pub open spec fn wf(self) -> bool {
        self.taken <= self.inputs@.len()
    }

    /// The input not yet consumed.
    pub open spec fn remaining(self) -> Seq<usize> {
        self.inputs@.subrange(self.taken as int, self.inputs@.len() as int)
    }

    /// A buffer holding the given input, nothing consumed or emitted.
    pub fn new(inputs: Vec<usize>) -> (b: IoBuffer)
        ensures
            b.wf(),
            b.remaining() == inputs@,
            b.outputs@ == Seq::<usize>::empty(),
    {
        let b = IoBuffer { inputs, taken: 0, outputs: Vec::new() };
        proof {
            assert(b.remaining() =~= b.inputs@);
        }
        b
    }
}

/// The run state formed by a tape, a cursor, and an I/O buffer.
pub open spec fn state_of(tape: Seq<usize>, cursor: int, io: IoBuffer) -> StateView {
    StateView { tape, cursor, inputs: io.remaining(), outputs: io.outputs@ }
}

/// Execute one tree against the tape, threading the cursor through and
/// returning its final position.
///
/// Returns exactly what `eval_node` says of the same tree, state and
/// budget: the new cursor on success, the offending position on a
/// bounds error, the input error when input runs out, and the budget
/// error when `fuel` re-entries of loop bodies did not finish the run.
#[verifier::loop_isolation(false)]
pub fn run_params(
    program: &LanguageNode,
    buffer: &mut Vec<usize>,
    pointer: usize,
    io: &mut IoBuffer,
    fuel: &mut u64,
) -> (r: Result<usize, EvalError>)
    requires
        old(io).wf(),
        pointer < old(buffer)@.len(),
    ensures
        final(io).wf(),
        final(buffer)@.len() == old(buffer)@.len(),
        final(io).inputs@ == old(io).inputs@,
        old(io).taken <= final(io).taken,
        *final(fuel) <= *old(fuel),
        ({
            let pre = state_of(old(buffer)@, pointer as int, *old(io));
            let nv = program.deep_view();
            match r {
                Ok(p) => {
                    &&& p < old(buffer)@.len()
                    &&& eval_node(nv, pre, *old(fuel) as nat) == EvalResult::Done(
                        state_of(final(buffer)@, p as int, *final(io)),
                        *final(fuel) as nat,
                    )
                },
                Err(e) => {
                    if e is OutOfFuel {
                        eval_node(nv, pre, *old(fuel) as nat) is Hung
                    } else {
                        exists|c: int|
                            eval_node(nv, pre, *old(fuel) as nat) == EvalResult::Failed(
                                e,
                                state_of(final(buffer)@, c, *final(io)),
                            )
                    }
                },
            }
        }),
    decreases *fuel, *program,
{
    match program {
        LanguageNode::IncrementPointer => {
            if pointer < buffer.len() - 1 {
                Ok(pointer + 1)
            } else {
                Err(EvalError::OutOfBounds { at: pointer + 1 })
            }
        },
        LanguageNode::DecrementPointer => {
            if pointer > 0 {
                Ok(pointer - 1)
            } else {
                Ok(pointer)
            }
        },
        LanguageNode::IncrementCounter => {
            let v = buffer[pointer];
            let w = if v == usize::MAX {
                0
            } else {
                v + 1
            };
            buffer[pointer] = w;
            Ok(pointer)
        },
        LanguageNode::DecrementCounter => {
            let v = buffer[pointer];
            let w = if v == 0 {
                usize::MAX
            } else {
                v - 1
            };
            buffer[pointer] = w;
            Ok(pointer)
        },
        LanguageNode::ReadFromStd => {
            if io.taken < io.inputs.len() {
                let v = io.inputs[io.taken];
                io.taken = io.taken + 1;
                buffer[pointer] = v;
                proof {
                    let pre = state_of(old(buffer)@, pointer as int, *old(io));
                    assert(v == pre.inputs[0]);
                    assert(io.remaining() =~= pre.inputs.subrange(1, pre.inputs.len() as int));
                }
                Ok(pointer)
            } else {
                proof {
                    assert(state_of(old(buffer)@, pointer as int, *old(io)).inputs.len() == 0);
                }
                Err(EvalError::InputExhausted)
            }
        },
        LanguageNode::WriteToStd => {
            let v = buffer[pointer];
            io.outputs.push(v);
            Ok(pointer)
        },
        LanguageNode::Brackets(inner) => {
            let ghost pre = state_of(old(buffer)@, pointer as int, *old(io));
            let ghost nv = program.deep_view();
            let ghost fuel0 = *old(fuel) as nat;
            let mut point = pointer;
            loop
                invariant
                    io.wf(),
                    point < buffer@.len(),
                    buffer@.len() == old(buffer)@.len(),
                    io.inputs@ == old(io).inputs@,
                    old(io).taken <= io.taken,
                    *fuel <= *old(fuel),
                    eval_node(nv, pre, fuel0) == eval_node(
                        nv,
                        state_of(buffer@, point as int, *io),
                        *fuel as nat,
                    ),
                decreases *fuel,
            {
                if buffer[point] == 0 {
                    return Ok(point);
                }
                if *fuel == 0 {
                    return Err(EvalError::OutOfFuel);
                }
                *fuel = *fuel - 1;
                let ghost mid = state_of(buffer@, point as int, *io);
                let ghost f_iter = *fuel as nat;
                match run_params(&**inner, buffer, point, io, fuel) {
                    Ok(p) => {
                        proof {
                            assert(eval_node(nv, mid, (f_iter + 1) as nat) == eval_node(
                                nv,
                                state_of(buffer@, p as int, *io),
                                *fuel as nat,
                            ));
                        }
                        point = p;
                    },
                    Err(e) => {
                        return Err(e);
                    },
                }
            }
        },
        LanguageNode::Many(items) => {
            let ghost pre = state_of(old(buffer)@, pointer as int, *old(io));
            let ghost nv = program.deep_view();
            let ghost iv = deep_view_seq(items@);
            let ghost fuel0 = *old(fuel) as nat;
            proof {
                crate::ast::lemma_deep_view_seq_index(items@);
                assert(iv.subrange(0, iv.len() as int) =~= iv);
            }
            let mut point = pointer;
            let mut i: usize = 0;
            while i < items.len()
                invariant
                    io.wf(),
                    point < buffer@.len(),
                    buffer@.len() == old(buffer)@.len(),
                    io.inputs@ == old(io).inputs@,
                    old(io).taken <= io.taken,
                    *fuel <= *old(fuel),
                    i <= items@.len(),
                    eval_seq(iv, pre, fuel0) == eval_seq(
                        iv.subrange(i as int, iv.len() as int),
                        state_of(buffer@, point as int, *io),
                        *fuel as nat,
                    ),
                decreases items@.len() - i,
            {
                let ghost mid = state_of(buffer@, point as int, *io);
                let ghost f_b = *fuel as nat;
                let ghost sub = iv.subrange(i as int, iv.len() as int);
                match run_params(&items[i], buffer, point, io, fuel) {
                    Ok(p) => {
                        proof {
                            assert(sub[0] == iv[i as int]);
                            assert(sub.subrange(1, sub.len() as int) =~= iv.subrange(
                                i as int + 1,
                                iv.len() as int,
                            ));
                        }
                        point = p;
                        i = i + 1;
                    },
                    Err(e) => {
                        proof {
                            assert(sub[0] == iv[i as int]);
                        }
                        return Err(e);
                    },
                }
            }
            proof {
                assert(iv.subrange(i as int, iv.len() as int) =~= Seq::<NodeView>::empty());
            }
            Ok(point)
        },
    }
}

/// The zeroed tape a run starts on.
pub open spec fn fresh_tape() -> Seq<usize> {
    Seq::new(TAPE_LEN as nat, |i: int| 0usize)
}

/// Execute a whole program tree from a fresh state: a zeroed tape of
/// `TAPE_LEN` cells, the cursor on cell 0, and the given input.
///
/// Returns everything the program emitted, in order, or the error that
/// stopped it; `fuel` bounds how often loop bodies may be re-entered.
pub fn run(program: &LanguageNode, inputs: Vec<usize>, fuel: u64) -> (r: Result<
    Vec<usize>,
    EvalError,
>)
    ensures
        ({
            let pre = StateView {
                tape: fresh_tape(),
                cursor: 0,
                inputs: inputs@,
                outputs: Seq::<usize>::empty(),
            };
            let res = eval_node(program.deep_view(), pre, fuel as nat);
            match r {
                Ok(outs) => res matches EvalResult::Done(st, left) && st.outputs == outs@,
                Err(e) => {
                    if e is OutOfFuel {
                        res is Hung
                    } else {
                        res matches EvalResult::Failed(e2, stf) && e2 == e
                    }
                },
            }
        }),
{
    let ghost ins = inputs@;
    let mut buffer: Vec<usize> = Vec::new();
    let mut k: usize = 0;
    while k < TAPE_LEN
        invariant
            k <= TAPE_LEN,
            buffer@.len() == k,
            forall|j: int| 0 <= j < k ==> buffer@[j] == 0usize,
        decreases TAPE_LEN - k,
    {
        buffer.push(0);
        k = k + 1;
    }
    proof {
        assert(buffer@ =~= fresh_tape());
    }
    let mut io = IoBuffer::new(inputs);
    let mut f = fuel;
    let res = run_params(program, &mut buffer, 0, &mut io, &mut f);
    match res {
        Ok(_) => Ok(io.outputs),
        Err(e) => Err(e),
    }
}

/// A loop whose active cell is zero stops on the check that observes
/// the zero: the result is the unchanged state, the body never runs.
pub proof fn lemma_loop_halts_on_zero(body: NodeView, st: StateView, fuel: nat)
    requires
        st.tape[st.cursor] == 0,
    ensures
        eval_node(NodeView::Brackets(Box::new(body)), st, fuel) == EvalResult::Done(st, fuel),
{
}

/// Moving backward with the cursor on cell 0 keeps it on cell 0; the
/// cursor is never negative.
pub proof fn lemma_move_backward_floor(st: StateView, fuel: nat)
    requires
        st.cursor == 0,
    ensures
        eval_node(NodeView::DecrementPointer, st, fuel) == EvalResult::Done(st, fuel),
{
}

/// Moving forward off the end of the tape fails on the exact step that
/// exceeds the bound, naming the offending position; every other
/// forward move succeeds.
pub proof fn lemma_move_forward_bound(st: StateView, fuel: nat)
    requires
        0 <= st.cursor < st.tape.len(),
    ensures
        st.cursor + 1 >= st.tape.len() ==> eval_node(NodeView::IncrementPointer, st, fuel)
            == EvalResult::Failed(EvalError::OutOfBounds { at: (st.cursor + 1) as usize }, st),
        st.cursor + 1 < st.tape.len() ==> eval_node(NodeView::IncrementPointer, st, fuel)
            == EvalResult::Done(StateView { cursor: st.cursor + 1, ..st }, fuel),
{
}

/// Cell arithmetic wraps: incrementing a cell at the numeric type's
/// maximum yields 0, and decrementing a cell at 0 yields the maximum.
pub proof fn lemma_cell_wraparound(st: StateView, fuel: nat)
    requires
        0 <= st.cursor < st.tape.len(),
    ensures
        st.tape[st.cursor] == usize::MAX ==> eval_node(NodeView::IncrementCounter, st, fuel)
            == EvalResult::Done(StateView { tape: st.tape.update(st.cursor, 0usize), ..st }, fuel),
        st.tape[st.cursor] == 0 ==> eval_node(NodeView::DecrementCounter, st, fuel)
            == EvalResult::Done(
            StateView { tape: st.tape.update(st.cursor, usize::MAX), ..st },
            fuel,
        ),
{
}

} // verus!
