use vstd::prelude::*;

use crate::machine::{moved_cursor, run_for, step, BfConfig, RunState};
use crate::matching::{depth, lemma_resolve_balanced, nesting_delta, spec_resolve};
use crate::parser::{compress_from, flush_move, flush_sum, is_move_token, is_sum_token, lemma_depth_zero, spec_compress, spec_parse, spec_parse_compress};
use crate::token::{token_of_char, tokens_of, BfToken};

verus! {

/// A machine state without a program counter: what two equivalent token
/// sequences must agree on.
#[verifier::ext_equal]
pub ghost struct BfSnapshot {
    pub cursor: int,
    pub memory: Seq<u8>,
    pub input_pos: int,
    pub output: Seq<u8>,
}

/// The snapshot of a configuration.
pub open spec fn snapshot_of(c: BfConfig) -> BfSnapshot {
    BfSnapshot { cursor: c.cursor, memory: c.memory, input_pos: c.input_pos, output: c.output }
}

/// A snapshot placed at a program counter.
pub open spec fn at_pc(st: BfSnapshot, pc: int) -> BfConfig {
    BfConfig {
        cursor: st.cursor,
        memory: st.memory,
        input_pos: st.input_pos,
        output: st.output,
        pc,
    }
}

/// A snapshot that execution can work on: the cursor on a nonempty tape and
/// no more input consumed than there is.
pub open spec fn wf_snapshot(st: BfSnapshot, input: Seq<u8>) -> bool {
    &&& st.memory.len() > 0
    &&& 0 <= st.cursor < st.memory.len()
    &&& 0 <= st.input_pos <= input.len()
}

/// A token sequence with no loop tokens in it.
pub open spec fn loop_free(toks: Seq<BfToken>) -> bool {
    forall|k: int|
        0 <= k < toks.len() ==> !(#[trigger] toks[k] is LoopStart) && !(toks[k] is LoopEnd)
}

/// What one token, never a loop token, does to a snapshot: `None` is a read
/// past the end of the input.
pub open spec fn sl_step(t: BfToken, input: Seq<u8>, st: BfSnapshot) -> Option<BfSnapshot> {
    match t {
        BfToken::Increment(v) => Some(
            BfSnapshot {
                memory: st.memory.update(st.cursor, (((st.memory[st.cursor] + v) % 256) as u8)),
                ..st
            },
        ),
        BfToken::Decrement(v) => Some(
            BfSnapshot {
                memory: st.memory.update(st.cursor, (((st.memory[st.cursor] - v) % 256) as u8)),
                ..st
            },
        ),
        BfToken::CursorLeft(v) => Some(
            BfSnapshot { cursor: moved_cursor(st.cursor, true, v as int, st.memory.len() as int), ..st },
        ),
        BfToken::CursorRight(v) => Some(
            BfSnapshot {
                cursor: moved_cursor(st.cursor, false, v as int, st.memory.len() as int),
                ..st
            },
        ),
        BfToken::PrintChar => Some(BfSnapshot { output: st.output.push(st.memory[st.cursor]), ..st }),
        BfToken::InputChar => if st.input_pos < input.len() {
            Some(
                BfSnapshot {
                    memory: st.memory.update(st.cursor, input[st.input_pos]),
                    input_pos: st.input_pos + 1,
                    ..st
                },
            )
        } else {
            None
        },
        _ => Some(st),
    }
}

/// Executing a loop-free token run left to right.  `Err` carries the
/// snapshot at the read that found the input spent.
pub open spec fn sl_exec(toks: Seq<BfToken>, input: Seq<u8>, st: BfSnapshot) -> Result<
    BfSnapshot,
    BfSnapshot,
>
    decreases toks.len(),
{
    if toks.len() == 0 {
        Ok(st)
    } else {
        match sl_step(toks[0], input, st) {
            Some(st2) => sl_exec(toks.drop_first(), input, st2),
            None => Err(st),
        }
    }
}

/// Executing a concatenation is executing the parts in turn.
proof fn lemma_sl_exec_append(a: Seq<BfToken>, b: Seq<BfToken>, input: Seq<u8>, st: BfSnapshot)
    ensures
        sl_exec(a + b, input, st) == (match sl_exec(a, input, st) {
            Ok(st2) => sl_exec(b, input, st2),
            Err(e) => Err(e),
        }),
    decreases a.len(),
{
    if a.len() == 0 {
        assert(a + b =~= b);
    } else {
        assert((a + b)[0] == a[0]);
        assert((a + b).drop_first() =~= a.drop_first() + b);
        match sl_step(a[0], input, st) {
            Some(st2) => {
                lemma_sl_exec_append(a.drop_first(), b, input, st2);
            },
            None => {},
        }
    }
}

/// Executing one appended token is one more step.
proof fn lemma_sl_exec_push(a: Seq<BfToken>, t: BfToken, input: Seq<u8>, st: BfSnapshot)
    ensures
        sl_exec(a.push(t), input, st) == (match sl_exec(a, input, st) {
            Ok(st2) => match sl_step(t, input, st2) {
                Some(st3) => Ok::<BfSnapshot, BfSnapshot>(st3),
                None => Err(st2),
            },
            Err(e) => Err(e),
        }),
{
    assert(a.push(t) =~= a + seq![t]);
    lemma_sl_exec_append(a, seq![t], input, st);
    assert(seq![t][0] == t);
    assert(seq![t].drop_first() =~= Seq::<BfToken>::empty());
    match sl_exec(a, input, st) {
        Ok(st2) => {
            match sl_step(t, input, st2) {
                Some(st3) => {
                    assert(sl_exec(seq![t].drop_first(), input, st3) == Ok::<
                        BfSnapshot,
                        BfSnapshot,
                    >(st3));
                },
                None => {},
            }
        },
        Err(_) => {},
    }
}

/// One step leaves a snapshot fit for the next, on the same tape and input.
proof fn lemma_sl_step_wf(t: BfToken, input: Seq<u8>, st: BfSnapshot)
    requires
        wf_snapshot(st, input),
    ensures
        match sl_step(t, input, st) {
            Some(st2) => wf_snapshot(st2, input) && st2.memory.len() == st.memory.len(),
            None => true,
        },
{
    match t {
        BfToken::CursorLeft(v) => {
            vstd::arithmetic::div_mod::lemma_mod_bound(
                st.cursor - v as int,
                st.memory.len() as int,
            );
        },
        BfToken::CursorRight(v) => {
            vstd::arithmetic::div_mod::lemma_mod_bound(
                st.cursor + v as int,
                st.memory.len() as int,
            );
        },
        _ => {},
    }
}

/// Execution preserves fitness, the tape length, and never un-reads input.
proof fn lemma_sl_exec_wf(toks: Seq<BfToken>, input: Seq<u8>, st: BfSnapshot)
    requires
        wf_snapshot(st, input),
    ensures
        match sl_exec(toks, input, st) {
            Ok(st2) => wf_snapshot(st2, input) && st2.memory.len() == st.memory.len(),
            Err(e) => wf_snapshot(e, input) && e.memory.len() == st.memory.len(),
        },
    decreases toks.len(),
{
    if toks.len() > 0 {
        lemma_sl_step_wf(toks[0], input, st);
        match sl_step(toks[0], input, st) {
            Some(st2) => {
                lemma_sl_exec_wf(toks.drop_first(), input, st2);
            },
            None => {},
        }
    }
}

// ---------------------------------------------------------------------------
// Pending runs and what flushing them executes to
// ---------------------------------------------------------------------------

/// A pending increment run applied at once: the current cell moves by the
/// whole sum, modulo 256.
pub open spec fn apply_sum(st: BfSnapshot, sum: int) -> BfSnapshot {
    BfSnapshot {
        memory: st.memory.update(st.cursor, (((st.memory[st.cursor] + sum) % 256) as u8)),
        ..st
    }
}

/// A pending move run applied at once: the cursor moves by the whole
/// displacement, modulo the tape length.
pub open spec fn apply_move(st: BfSnapshot, mv: int) -> BfSnapshot {
    BfSnapshot { cursor: (st.cursor + mv) % st.memory.len() as int, ..st }
}

/// Applying a zero-length run changes nothing.
proof fn lemma_apply_zero(st: BfSnapshot, input: Seq<u8>)
    requires
        wf_snapshot(st, input),
    ensures
        apply_sum(st, 0) == st,
        apply_move(st, 0) == st,
{
    assert(st.memory[st.cursor] < 256);
    vstd::arithmetic::div_mod::lemma_small_mod(st.memory[st.cursor] as nat, 256);
    assert(apply_sum(st, 0).memory =~= st.memory);
    assert(apply_sum(st, 0) =~~= st);
    vstd::arithmetic::div_mod::lemma_small_mod(st.cursor as nat, st.memory.len());
    assert(apply_move(st, 0) =~~= st);
}

/// An applied run stays on the tape and reads no input.
proof fn lemma_apply_wf(st: BfSnapshot, input: Seq<u8>, sum: int, mv: int)
    requires
        wf_snapshot(st, input),
    ensures
        wf_snapshot(apply_sum(st, sum), input),
        apply_sum(st, sum).memory.len() == st.memory.len(),
        apply_sum(st, sum).cursor == st.cursor,
        wf_snapshot(apply_move(st, mv), input),
        apply_move(st, mv).memory == st.memory,
{
    vstd::arithmetic::div_mod::lemma_mod_bound(st.memory[st.cursor] + sum, 256);
    vstd::arithmetic::div_mod::lemma_mod_bound(st.cursor + mv, st.memory.len() as int);
}

/// One more increment or decrement merges into the pending sum.
proof fn lemma_sum_accumulates(st: BfSnapshot, input: Seq<u8>, sum: int)
    requires
        wf_snapshot(st, input),
    ensures
        sl_step(BfToken::Increment(1), input, apply_sum(st, sum)) == Some(apply_sum(st, sum + 1)),
        sl_step(BfToken::Decrement(1), input, apply_sum(st, sum)) == Some(apply_sum(st, sum - 1)),
{
    let cell = st.memory[st.cursor];
    let part = apply_sum(st, sum);
    vstd::arithmetic::div_mod::lemma_mod_bound(cell + sum, 256);
    assert(part.memory[part.cursor] == ((cell + sum) % 256) as u8);
    vstd::arithmetic::div_mod::lemma_add_mod_noop(cell + sum, 1, 256);
    vstd::arithmetic::div_mod::lemma_add_mod_noop_right((cell + sum) % 256, 1, 256);
    vstd::arithmetic::div_mod::lemma_sub_mod_noop(cell + sum, 1, 256);
    vstd::arithmetic::div_mod::lemma_sub_mod_noop_right((cell + sum) % 256, 1, 256);
    assert(((cell + sum) % 256 + 1) % 256 == (cell + (sum + 1)) % 256);
    assert(((cell + sum) % 256 - 1) % 256 == (cell + (sum - 1)) % 256);
    assert(sl_step(BfToken::Increment(1), input, part)->Some_0 =~~= apply_sum(st, sum + 1));
    assert(sl_step(BfToken::Decrement(1), input, part)->Some_0 =~~= apply_sum(st, sum - 1));
}

/// One more move merges into the pending displacement.
proof fn lemma_move_accumulates(st: BfSnapshot, input: Seq<u8>, mv: int)
    requires
        wf_snapshot(st, input),
    ensures
        sl_step(BfToken::CursorRight(1), input, apply_move(st, mv)) == Some(apply_move(st, mv + 1)),
        sl_step(BfToken::CursorLeft(1), input, apply_move(st, mv)) == Some(apply_move(st, mv - 1)),
{
    let len = st.memory.len() as int;
    let part = apply_move(st, mv);
    vstd::arithmetic::div_mod::lemma_mod_bound(st.cursor + mv, len);
    vstd::arithmetic::div_mod::lemma_add_mod_noop(st.cursor + mv, 1, len);
    vstd::arithmetic::div_mod::lemma_add_mod_noop_right((st.cursor + mv) % len, 1, len);
    vstd::arithmetic::div_mod::lemma_sub_mod_noop(st.cursor + mv, 1, len);
    vstd::arithmetic::div_mod::lemma_sub_mod_noop_right((st.cursor + mv) % len, 1, len);
    assert(((st.cursor + mv) % len + 1) % len == (st.cursor + (mv + 1)) % len);
    assert(((st.cursor + mv) % len - 1) % len == (st.cursor + (mv - 1)) % len);
    assert(sl_step(BfToken::CursorRight(1), input, part)->Some_0 =~~= apply_move(st, mv + 1));
    assert(sl_step(BfToken::CursorLeft(1), input, part)->Some_0 =~~= apply_move(st, mv - 1));
}

/// Flushing a pending sum executes to the same state as applying it at
/// once: the emitted count carries the sum modulo 256, and cell arithmetic
/// wraps at 256.
proof fn lemma_flush_sum_exec(st: BfSnapshot, input: Seq<u8>, sum: int)
    requires
        wf_snapshot(st, input),
    ensures
        sl_exec(flush_sum(sum), input, st) == Ok::<BfSnapshot, BfSnapshot>(apply_sum(st, sum)),
{
    let cell = st.memory[st.cursor];
    if sum > 0 {
        let v = (sum % 256) as u8;
        vstd::arithmetic::div_mod::lemma_mod_bound(sum, 256);
        assert(flush_sum(sum) =~= Seq::<BfToken>::empty().push(BfToken::Increment(v)));
        lemma_sl_exec_push(Seq::<BfToken>::empty(), BfToken::Increment(v), input, st);
        vstd::arithmetic::div_mod::lemma_add_mod_noop_right(cell as int, sum, 256);
        assert((cell + sum % 256) % 256 == (cell + sum) % 256);
        assert(sl_step(BfToken::Increment(v), input, st)->Some_0 =~~= apply_sum(st, sum));
    } else if sum < 0 {
        let v = ((-sum) % 256) as u8;
        vstd::arithmetic::div_mod::lemma_mod_bound(-sum, 256);
        assert(flush_sum(sum) =~= Seq::<BfToken>::empty().push(BfToken::Decrement(v)));
        lemma_sl_exec_push(Seq::<BfToken>::empty(), BfToken::Decrement(v), input, st);
        vstd::arithmetic::div_mod::lemma_sub_mod_noop_right(cell as int, -sum, 256);
        assert((cell - (-sum) % 256) % 256 == (cell - (-sum)) % 256);
        assert(sl_step(BfToken::Decrement(v), input, st)->Some_0 =~~= apply_sum(st, sum));
    } else {
        lemma_apply_zero(st, input);
    }
}

/// Flushing a pending displacement executes to the same state as applying
/// it at once, provided the displacement fits the emitted count.
proof fn lemma_flush_move_exec(st: BfSnapshot, input: Seq<u8>, mv: int)
    requires
        wf_snapshot(st, input),
        -(usize::MAX as int) <= mv <= usize::MAX as int,
    ensures
        sl_exec(flush_move(mv), input, st) == Ok::<BfSnapshot, BfSnapshot>(apply_move(st, mv)),
{
    if mv > 0 {
        let v = mv as usize;
        assert(flush_move(mv) =~= Seq::<BfToken>::empty().push(BfToken::CursorRight(v)));
        lemma_sl_exec_push(Seq::<BfToken>::empty(), BfToken::CursorRight(v), input, st);
        assert(sl_step(BfToken::CursorRight(v), input, st)->Some_0 =~~= apply_move(st, mv));
    } else if mv < 0 {
        let v = (-mv) as usize;
        assert(flush_move(mv) =~= Seq::<BfToken>::empty().push(BfToken::CursorLeft(v)));
        lemma_sl_exec_push(Seq::<BfToken>::empty(), BfToken::CursorLeft(v), input, st);
        assert(sl_step(BfToken::CursorLeft(v), input, st)->Some_0 =~~= apply_move(st, mv));
    } else {
        lemma_apply_zero(st, input);
    }
}

// ---------------------------------------------------------------------------
// Linking the step-indexed run to the left-to-right execution
// ---------------------------------------------------------------------------

/// On a loop-free sequence, the budgeted run from counter `k` halts at the
/// end in the state the left-to-right execution computes, or fails at the
/// read it blames, in the same state.
proof fn lemma_run_is_sl_exec(toks: Seq<BfToken>, input: Seq<u8>, st: BfSnapshot, k: int)
    requires
        loop_free(toks),
        0 <= k <= toks.len(),
    ensures
        ({
            let r = run_for(toks, input, at_pc(st, k), (toks.len() - k) as nat);
            match sl_exec(toks.skip(k), input, st) {
                Ok(st2) => r == RunState::Halted(at_pc(st2, toks.len() as int)),
                Err(e) => r is Failed && snapshot_of(r->Failed_0) == e,
            }
        }),
    decreases toks.len() - k,
{
    let len = toks.len() as int;
    if k == len {
        assert(toks.skip(k) =~= Seq::<BfToken>::empty());
    } else {
        assert(toks.skip(k)[0] == toks[k]);
        assert(toks.skip(k).drop_first() =~= toks.skip(k + 1));
        let c = at_pc(st, k);
        match sl_step(toks[k], input, st) {
            Some(st2) => {
                assert(step(toks, input, c) == Some(at_pc(st2, k + 1))) by {
                    assert(step(toks, input, c)->Some_0 =~~= at_pc(st2, k + 1));
                }
                lemma_run_is_sl_exec(toks, input, st2, k + 1);
            },
            None => {
                assert(step(toks, input, c) is None);
            },
        }
    }
}

/// Every count in the sequence is one: the form the parser's own token
/// stream takes before compression.
pub open spec fn unit_steps(toks: Seq<BfToken>) -> bool {
    forall|k: int|
        0 <= k < toks.len() ==> {
            &&& (#[trigger] toks[k] is Increment ==> toks[k]->Increment_0 == 1)
            &&& (toks[k] is Decrement ==> toks[k]->Decrement_0 == 1)
            &&& (toks[k] is CursorLeft ==> toks[k]->CursorLeft_0 == 1)
            &&& (toks[k] is CursorRight ==> toks[k]->CursorRight_0 == 1)
        }
}

/// Compression of a loop-free sequence over loop-free output stays
/// loop-free.
proof fn lemma_compress_loop_free(
    toks: Seq<BfToken>,
    i: int,
    sum: int,
    mv: int,
    acc: Seq<BfToken>,
)
    requires
        loop_free(toks),
        loop_free(acc),
        0 <= i <= toks.len(),
    ensures
        loop_free(compress_from(toks, i, sum, mv, acc)),
    decreases toks.len() - i,
{
    if i >= toks.len() {
        assert(loop_free(acc + flush_sum(sum) + flush_move(mv)));
    } else {
        let t = toks[i];
        let acc1 = if !is_sum_token(t) {
            acc + flush_sum(sum)
        } else {
            acc
        };
        let acc2 = if !is_move_token(t) {
            acc1 + flush_move(mv)
        } else {
            acc1
        };
        assert(loop_free(acc2));
        let sum1: int = if !is_sum_token(t) {
            0
        } else {
            sum
        };
        let mv1: int = if !is_move_token(t) {
            0
        } else {
            mv
        };
        if is_sum_token(t) || is_move_token(t) {
            match t {
                BfToken::Increment(_) => {
                    lemma_compress_loop_free(toks, i + 1, sum1 + 1, mv1, acc2);
                },
                BfToken::Decrement(_) => {
                    lemma_compress_loop_free(toks, i + 1, sum1 - 1, mv1, acc2);
                },
                BfToken::CursorLeft(_) => {
                    lemma_compress_loop_free(toks, i + 1, sum1, mv1 - 1, acc2);
                },
                BfToken::CursorRight(_) => {
                    lemma_compress_loop_free(toks, i + 1, sum1, mv1 + 1, acc2);
                },
                _ => {},
            }
        } else {
            assert(loop_free(acc2.push(t)));
            lemma_compress_loop_free(toks, i + 1, sum1, mv1, acc2.push(t));
        }
    }
}

/// Executing the output so far, then the pending sum, then the pending
/// displacement.
proof fn lemma_exec_with_pendings(
    acc: Seq<BfToken>,
    input: Seq<u8>,
    st0: BfSnapshot,
    sum: int,
    mv: int,
)
    requires
        wf_snapshot(st0, input),
        -(usize::MAX as int) <= mv <= usize::MAX as int,
    ensures
        sl_exec(acc + flush_sum(sum) + flush_move(mv), input, st0) == (match sl_exec(
            acc,
            input,
            st0,
        ) {
            Ok(sta) => Ok::<BfSnapshot, BfSnapshot>(apply_move(apply_sum(sta, sum), mv)),
            Err(e) => Err::<BfSnapshot, BfSnapshot>(e),
        }),
{
    lemma_sl_exec_append(acc, flush_sum(sum), input, st0);
    lemma_sl_exec_append(acc + flush_sum(sum), flush_move(mv), input, st0);
    match sl_exec(acc, input, st0) {
        Ok(sta) => {
            lemma_sl_exec_wf(acc, input, st0);
            lemma_flush_sum_exec(sta, input, sum);
            lemma_apply_wf(sta, input, sum, 0);
            lemma_flush_move_exec(apply_sum(sta, sum), input, mv);
        },
        Err(_) => {},
    }
}

/// The heart of the loop-free equivalence: whenever the output so far with
/// its pending runs executes to the same result as the tokens already read,
/// the finished compression executes to the same result as the whole
/// sequence.
proof fn lemma_compress_exec_from(
    toks: Seq<BfToken>,
    input: Seq<u8>,
    i: int,
    sum: int,
    mv: int,
    acc: Seq<BfToken>,
    st0: BfSnapshot,
)
    requires
        loop_free(toks),
        unit_steps(toks),
        toks.len() <= usize::MAX,
        0 <= i <= toks.len(),
        -i <= sum <= i,
        -i <= mv <= i,
        sum == 0 || mv == 0,
        wf_snapshot(st0, input),
        sl_exec(toks.take(i), input, st0) == (match sl_exec(acc, input, st0) {
            Ok(sta) => Ok::<BfSnapshot, BfSnapshot>(apply_move(apply_sum(sta, sum), mv)),
            Err(e) => Err::<BfSnapshot, BfSnapshot>(e),
        }),
    ensures
        sl_exec(compress_from(toks, i, sum, mv, acc), input, st0) == sl_exec(toks, input, st0),
    decreases toks.len() - i,
{
    let len = toks.len() as int;
    if i >= len {
        lemma_exec_with_pendings(acc, input, st0, sum, mv);
        assert(toks.take(i) =~= toks);
    } else {
        let t = toks[i];
        assert(toks.take(i + 1) =~= toks.take(i).push(t));
        lemma_sl_exec_push(toks.take(i), t, input, st0);
        let acc1 = if !is_sum_token(t) {
            acc + flush_sum(sum)
        } else {
            acc
        };
        let sum1: int = if !is_sum_token(t) {
            0
        } else {
            sum
        };
        let acc2 = if !is_move_token(t) {
            acc1 + flush_move(mv)
        } else {
            acc1
        };
        let mv1: int = if !is_move_token(t) {
            0
        } else {
            mv
        };
        match sl_exec(acc, input, st0) {
            Err(e) => {
                // The failure happened in the output already emitted; it
                // propagates through every flush and every further token.
                assert(sl_exec(toks.take(i), input, st0) == Err::<BfSnapshot, BfSnapshot>(e));
                assert(sl_exec(toks.take(i + 1), input, st0) == Err::<BfSnapshot, BfSnapshot>(e));
                if !is_sum_token(t) {
                    lemma_sl_exec_append(acc, flush_sum(sum), input, st0);
                }
                if !is_move_token(t) {
                    lemma_sl_exec_append(acc1, flush_move(mv), input, st0);
                }
                assert(sl_exec(acc2, input, st0) == Err::<BfSnapshot, BfSnapshot>(e));
                if is_sum_token(t) || is_move_token(t) {
                    match t {
                        BfToken::Increment(_) => {
                            lemma_compress_exec_from(toks, input, i + 1, sum1 + 1, mv1, acc2, st0);
                        },
                        BfToken::Decrement(_) => {
                            lemma_compress_exec_from(toks, input, i + 1, sum1 - 1, mv1, acc2, st0);
                        },
                        BfToken::CursorLeft(_) => {
                            lemma_compress_exec_from(toks, input, i + 1, sum1, mv1 - 1, acc2, st0);
                        },
                        BfToken::CursorRight(_) => {
                            lemma_compress_exec_from(toks, input, i + 1, sum1, mv1 + 1, acc2, st0);
                        },
                        _ => {},
                    }
                } else {
                    lemma_sl_exec_push(acc2, t, input, st0);
                    lemma_compress_exec_from(toks, input, i + 1, 0, 0, acc2.push(t), st0);
                }
            },
            Ok(sta) => {
                lemma_sl_exec_wf(acc, input, st0);
                lemma_apply_wf(sta, input, sum, mv);
                lemma_apply_wf(apply_sum(sta, sum), input, 0, mv);
                let x = apply_move(apply_sum(sta, sum), mv);
                assert(wf_snapshot(x, input));
                assert(sl_exec(toks.take(i), input, st0) == Ok::<BfSnapshot, BfSnapshot>(x));
                match t {
                    BfToken::Increment(_) => {
                        assert(t == BfToken::Increment(1u8));
                        // The pending displacement is flushed; the sum grows.
                        lemma_sl_exec_append(acc, flush_move(mv), input, st0);
                        lemma_flush_move_exec(sta, input, mv);
                        assert(sl_exec(acc2, input, st0) == Ok::<BfSnapshot, BfSnapshot>(
                            apply_move(sta, mv),
                        ));
                        let stb = apply_move(sta, mv);
                        lemma_apply_wf(sta, input, 0, mv);
                        if mv == 0 {
                            lemma_apply_zero(sta, input);
                            lemma_apply_zero(apply_sum(sta, sum), input);
                            assert(x == apply_sum(sta, sum));
                            assert(stb == sta);
                            lemma_sum_accumulates(sta, input, sum);
                            assert(sl_step(t, input, x) == Some(apply_sum(sta, sum + 1)));
                            lemma_apply_wf(sta, input, sum + 1, 0);
                            lemma_apply_zero(apply_sum(sta, sum + 1), input);
                            assert(sl_exec(toks.take(i + 1), input, st0) == Ok::<
                                BfSnapshot,
                                BfSnapshot,
                            >(apply_move(apply_sum(stb, sum + 1), 0)));
                        } else {
                            // Only the displacement was pending.
                            lemma_apply_zero(sta, input);
                            assert(x == apply_move(sta, mv));
                            assert(x == stb);
                            lemma_sum_accumulates(stb, input, 0);
                            lemma_apply_zero(stb, input);
                            assert(sl_step(t, input, x) == Some(apply_sum(stb, 1)));
                            lemma_apply_wf(stb, input, 1, 0);
                            lemma_apply_zero(apply_sum(stb, 1), input);
                            assert(sl_exec(toks.take(i + 1), input, st0) == Ok::<
                                BfSnapshot,
                                BfSnapshot,
                            >(apply_move(apply_sum(stb, sum1 + 1), 0)));
                        }
                        lemma_compress_exec_from(toks, input, i + 1, sum1 + 1, 0, acc2, st0);
                    },
                    BfToken::Decrement(_) => {
                        assert(t == BfToken::Decrement(1u8));
                        lemma_sl_exec_append(acc, flush_move(mv), input, st0);
                        lemma_flush_move_exec(sta, input, mv);
                        let stb = apply_move(sta, mv);
                        assert(sl_exec(acc2, input, st0) == Ok::<BfSnapshot, BfSnapshot>(stb));
                        lemma_apply_wf(sta, input, 0, mv);
                        if mv == 0 {
                            lemma_apply_zero(sta, input);
                            lemma_apply_zero(apply_sum(sta, sum), input);
                            assert(x == apply_sum(sta, sum));
                            assert(stb == sta);
                            lemma_sum_accumulates(sta, input, sum);
                            assert(sl_step(t, input, x) == Some(apply_sum(sta, sum - 1)));
                            lemma_apply_wf(sta, input, sum - 1, 0);
                            lemma_apply_zero(apply_sum(sta, sum - 1), input);
                            assert(sl_exec(toks.take(i + 1), input, st0) == Ok::<
                                BfSnapshot,
                                BfSnapshot,
                            >(apply_move(apply_sum(stb, sum - 1), 0)));
                        } else {
                            lemma_apply_zero(sta, input);
                            assert(x == stb);
                            lemma_sum_accumulates(stb, input, 0);
                            lemma_apply_zero(stb, input);
                            assert(sl_step(t, input, x) == Some(apply_sum(stb, 0 - 1)));
                            lemma_apply_wf(stb, input, -1, 0);
                            lemma_apply_zero(apply_sum(stb, -1), input);
                            assert(sl_exec(toks.take(i + 1), input, st0) == Ok::<
                                BfSnapshot,
                                BfSnapshot,
                            >(apply_move(apply_sum(stb, sum1 - 1), 0)));
                        }
                        lemma_compress_exec_from(toks, input, i + 1, sum1 - 1, 0, acc2, st0);
                    },
                    BfToken::CursorRight(_) => {
                        assert(t == BfToken::CursorRight(1usize));
                        // The pending sum is flushed; the displacement grows.
                        lemma_sl_exec_append(acc, flush_sum(sum), input, st0);
                        lemma_flush_sum_exec(sta, input, sum);
                        let stb = apply_sum(sta, sum);
                        assert(sl_exec(acc2, input, st0) == Ok::<BfSnapshot, BfSnapshot>(stb));
                        lemma_apply_wf(sta, input, sum, 0);
                        lemma_move_accumulates(stb, input, mv);
                        assert(sl_step(t, input, x) == Some(apply_move(stb, mv + 1)));
                        lemma_apply_wf(stb, input, 0, mv + 1);
                        lemma_apply_zero(apply_move(stb, mv + 1), input);
                        assert(apply_move(apply_sum(apply_move(stb, mv + 1), 0), 0) == apply_move(
                            stb,
                            mv + 1,
                        )) by {
                            lemma_apply_zero(apply_move(stb, mv + 1), input);
                            lemma_apply_wf(apply_move(stb, mv + 1), input, 0, 0);
                            lemma_apply_zero(apply_sum(apply_move(stb, mv + 1), 0), input);
                        }
                        assert(sl_exec(toks.take(i + 1), input, st0) == Ok::<
                            BfSnapshot,
                            BfSnapshot,
                        >(apply_move(apply_sum(stb, 0), mv1 + 1))) by {
                            lemma_apply_zero(stb, input);
                        }
                        lemma_compress_exec_from(toks, input, i + 1, 0, mv1 + 1, acc2, st0);
                    },
                    BfToken::CursorLeft(_) => {
                        assert(t == BfToken::CursorLeft(1usize));
                        lemma_sl_exec_append(acc, flush_sum(sum), input, st0);
                        lemma_flush_sum_exec(sta, input, sum);
                        let stb = apply_sum(sta, sum);
                        assert(sl_exec(acc2, input, st0) == Ok::<BfSnapshot, BfSnapshot>(stb));
                        lemma_apply_wf(sta, input, sum, 0);
                        lemma_move_accumulates(stb, input, mv);
                        assert(sl_step(t, input, x) == Some(apply_move(stb, mv - 1)));
                        lemma_apply_wf(stb, input, 0, mv - 1);
                        assert(sl_exec(toks.take(i + 1), input, st0) == Ok::<
                            BfSnapshot,
                            BfSnapshot,
                        >(apply_move(apply_sum(stb, 0), mv1 - 1))) by {
                            lemma_apply_zero(stb, input);
                        }
                        lemma_compress_exec_from(toks, input, i + 1, 0, mv1 - 1, acc2, st0);
                    },
                    _ => {
                        // Both pendings are flushed; the token passes through.
                        lemma_exec_with_pendings(acc, input, st0, sum, mv);
                        assert(acc2 == acc + flush_sum(sum) + flush_move(mv));
                        assert(sl_exec(acc2, input, st0) == Ok::<BfSnapshot, BfSnapshot>(x));
                        lemma_sl_exec_push(acc2, t, input, st0);
                        match sl_step(t, input, x) {
                            Some(st3) => {
                                lemma_sl_step_wf(t, input, x);
                                lemma_apply_zero(st3, input);
                                lemma_apply_wf(st3, input, 0, 0);
                                lemma_apply_zero(apply_sum(st3, 0), input);
                                assert(sl_exec(toks.take(i + 1), input, st0) == Ok::<
                                    BfSnapshot,
                                    BfSnapshot,
                                >(apply_move(apply_sum(st3, 0), 0)));
                            },
                            None => {
                                assert(sl_exec(toks.take(i + 1), input, st0) == Err::<
                                    BfSnapshot,
                                    BfSnapshot,
                                >(x));
                                assert(sl_exec(acc2.push(t), input, st0) == Err::<
                                    BfSnapshot,
                                    BfSnapshot,
                                >(x));
                            },
                        }
                        lemma_compress_exec_from(toks, input, i + 1, 0, 0, acc2.push(t), st0);
                    },
                }
            },
        }
    }
}

/// A loop-free sequence is balanced trivially, and resolution returns it
/// unchanged.
proof fn lemma_resolve_loop_free_identity(toks: Seq<BfToken>)
    requires
        loop_free(toks),
    ensures
        spec_resolve(toks) == Ok::<Seq<BfToken>, int>(toks),
{
    assert forall|k: int| 0 <= k < toks.len() implies nesting_delta(#[trigger] toks[k]) == 0 by {}
    assert forall|k: int| 0 <= k <= toks.len() implies #[trigger] depth(toks, k) == 0 by {
        lemma_depth_zero(toks, k);
    }
    lemma_resolve_balanced(toks);
    let r = spec_resolve(toks)->Ok_0;
    assert forall|j: int| 0 <= j < toks.len() implies r[j] == toks[j] by {}
    assert(r =~= toks);
}

/// The token sequence of a source without loop commands: loop-free, with
/// every count one.
proof fn lemma_tokens_loop_free(s: Seq<char>)
    requires
        forall|k: int| 0 <= k < s.len() ==> s[k] != '[' && s[k] != ']',
    ensures
        loop_free(tokens_of(s)),
        unit_steps(tokens_of(s)),
{
    let toks = tokens_of(s);
    assert forall|k: int| 0 <= k < toks.len() implies !(#[trigger] toks[k] is LoopStart) && !(
    toks[k] is LoopEnd) by {
        assert(toks[k] == token_of_char(s[k]));
    }
    assert forall|k: int| 0 <= k < toks.len() implies {
        &&& (#[trigger] toks[k] is Increment ==> toks[k]->Increment_0 == 1)
        &&& (toks[k] is Decrement ==> toks[k]->Decrement_0 == 1)
        &&& (toks[k] is CursorLeft ==> toks[k]->CursorLeft_0 == 1)
        &&& (toks[k] is CursorRight ==> toks[k]->CursorRight_0 == 1)
    } by {
        assert(toks[k] == token_of_char(s[k]));
    }
}

/// Law (the loop-free half of compression soundness): on a source without
/// loop commands, the token sequences of plain and of compressing parsing
/// execute from the same fit start to the same end — the same tape, cursor,
/// output and input consumption — and when the input runs dry, both fail at
/// a read in the same state.
pub proof fn lemma_parse_compress_loop_free_equiv(s: Seq<char>, input: Seq<u8>, st: BfSnapshot)
    requires
        forall|k: int| 0 <= k < s.len() ==> s[k] != '[' && s[k] != ']',
        s.len() <= usize::MAX,
        wf_snapshot(st, input),
    ensures
        spec_parse(s) is Ok,
        spec_parse_compress(s) is Ok,
        ({
            let plain = spec_parse(s)->Ok_0;
            let fast = spec_parse_compress(s)->Ok_0;
            let rp = run_for(plain, input, at_pc(st, 0), plain.len());
            let rf = run_for(fast, input, at_pc(st, 0), fast.len());
            &&& (rp is Halted <==> rf is Halted)
            &&& (rp is Failed <==> rf is Failed)
            &&& rp is Halted ==> snapshot_of(rp->Halted_0) == snapshot_of(rf->Halted_0)
            &&& rp is Failed ==> snapshot_of(rp->Failed_0) == snapshot_of(rf->Failed_0)
        }),
{
    let toks = tokens_of(s);
    lemma_tokens_loop_free(s);
    lemma_resolve_loop_free_identity(toks);
    assert(spec_parse(s) == Ok::<Seq<BfToken>, int>(toks));
    lemma_compress_loop_free(toks, 0, 0, 0, Seq::empty());
    let ctoks = spec_compress(toks);
    lemma_resolve_loop_free_identity(ctoks);
    assert(spec_parse_compress(s) == Ok::<Seq<BfToken>, int>(ctoks));
    lemma_apply_zero(st, input);
    lemma_apply_wf(st, input, 0, 0);
    lemma_apply_zero(apply_sum(st, 0), input);
    assert(toks.take(0) =~= Seq::<BfToken>::empty());
    lemma_compress_exec_from(toks, input, 0, 0, 0, Seq::empty(), st);
    lemma_run_is_sl_exec(toks, input, st, 0);
    lemma_run_is_sl_exec(ctoks, input, st, 0);
    assert(toks.skip(0) =~= toks);
    assert(ctoks.skip(0) =~= ctoks);
}

} // verus!
