use vstd::prelude::*;

use crate::token::BfToken;

verus! {

/// A failure during execution.  `EndOfInput` wraps the one stream failure an
/// in-memory input can raise: a read past its end.  `StepLimitExceeded`
/// reports a run that was still going when the machine's step budget — one
/// step short of 2^64 — had been spent.
#[derive(Debug, PartialEq, Eq, Clone, Copy, Structural)]
pub enum BfRuntimeError {
    EndOfInput,
    StepLimitExceeded,
}

/// The per-run execution state: the token sequence being executed and the
/// program counter into it.
pub struct BfState {
    pub commands: Vec<BfToken>,
    pub program_counter: usize,
}

/// A machine: a cursor, a fixed-length byte tape, and in-memory streams.
/// The input is a byte sequence read left to right — `input_pos` is how much
/// of it has been consumed — and every output byte is appended to `output`.
/// Tape, cursor and streams persist across runs.
pub struct BfMachine {
    pub cursor: usize,
    pub memory: Vec<u8>,
    pub input: Vec<u8>,
    pub input_pos: usize,
    pub output: Vec<u8>,
}

/// One instant of execution, as the specification sees it.
#[verifier::ext_equal]
pub ghost struct BfConfig {
    pub cursor: int,
    pub memory: Seq<u8>,
    pub input_pos: int,
    pub output: Seq<u8>,
    pub pc: int,
}

/// Where a run stands after a given number of steps.
pub ghost enum RunState {
    Running(BfConfig),
    Halted(BfConfig),
    Failed(BfConfig),
}

/// The cursor after a wrapping move: a left move subtracts and a right move
/// adds, both modulo the tape length, so a displacement of any size lands
/// back on the tape.
pub open spec fn moved_cursor(cursor: int, to_left: bool, offset: int, bound: int) -> int {
    if to_left {
        (cursor - offset) % bound
    } else {
        (cursor + offset) % bound
    }
}

/// What one token does to a configuration: the successor configuration, or
/// nothing when the token is a read and the input is spent.  Meaningful when
/// `c.pc` indexes `toks` and the cursor is on the tape.
pub open spec fn step(toks: Seq<BfToken>, input: Seq<u8>, c: BfConfig) -> Option<BfConfig> {
    match toks[c.pc] {
        BfToken::NotCommand(_) => Some(
            BfConfig {
                cursor: c.cursor,
                memory: c.memory,
                input_pos: c.input_pos,
                output: c.output,
                pc: c.pc + 1,
            },
        ),
        BfToken::Increment(v) => Some(
            BfConfig {
                cursor: c.cursor,
                memory: c.memory.update(c.cursor, (((c.memory[c.cursor] + v) % 256) as u8)),
                input_pos: c.input_pos,
                output: c.output,
                pc: c.pc + 1,
            },
        ),
        BfToken::Decrement(v) => Some(
            BfConfig {
                cursor: c.cursor,
                memory: c.memory.update(c.cursor, (((c.memory[c.cursor] - v) % 256) as u8)),
                input_pos: c.input_pos,
                output: c.output,
                pc: c.pc + 1,
            },
        ),
        BfToken::CursorLeft(v) => Some(
            BfConfig {
                cursor: moved_cursor(c.cursor, true, v as int, c.memory.len() as int),
                memory: c.memory,
                input_pos: c.input_pos,
                output: c.output,
                pc: c.pc + 1,
            },
        ),
        BfToken::CursorRight(v) => Some(
            BfConfig {
                cursor: moved_cursor(c.cursor, false, v as int, c.memory.len() as int),
                memory: c.memory,
                input_pos: c.input_pos,
                output: c.output,
                pc: c.pc + 1,
            },
        ),
        BfToken::LoopStart(target) => Some(
            BfConfig {
                cursor: c.cursor,
                memory: c.memory,
                input_pos: c.input_pos,
                output: c.output,
                pc: if c.memory[c.cursor] == 0 {
                    target + 1
                } else {
                    c.pc + 1
                },
            },
        ),
        BfToken::LoopEnd(target) => Some(
            BfConfig {
                cursor: c.cursor,
                memory: c.memory,
                input_pos: c.input_pos,
                output: c.output,
                pc: if c.memory[c.cursor] != 0 {
                    target + 1
                } else {
                    c.pc + 1
                },
            },
        ),
        BfToken::PrintChar => Some(
            BfConfig {
                cursor: c.cursor,
                memory: c.memory,
                input_pos: c.input_pos,
                output: c.output.push(c.memory[c.cursor]),
                pc: c.pc + 1,
            },
        ),
        BfToken::InputChar => if c.input_pos < input.len() {
            Some(
                BfConfig {
                    cursor: c.cursor,
                    memory: c.memory.update(c.cursor, input[c.input_pos]),
                    input_pos: c.input_pos + 1,
                    output: c.output,
                    pc: c.pc + 1,
                },
            )
        } else {
            None
        },
    }
}

/// The state of a run after at most `n` steps from `c`: `Halted` once the
/// counter leaves the sequence, `Failed` at a read past the end of the
/// input, and otherwise `Running` with the budget spent.
pub open spec fn run_for(toks: Seq<BfToken>, input: Seq<u8>, c: BfConfig, n: nat) -> RunState
    decreases n,
{
    if c.pc < 0 || c.pc >= toks.len() {
        RunState::Halted(c)
    } else if n == 0 {
        RunState::Running(c)
    } else {
        match step(toks, input, c) {
            Some(c2) => run_for(toks, input, c2, (n - 1) as nat),
            None => RunState::Failed(c),
        }
    }
}

/// A run that is still going after `n` steps extends by one more step.
proof fn lemma_run_for_extend(toks: Seq<BfToken>, input: Seq<u8>, c: BfConfig, n: nat)
    requires
        run_for(toks, input, c, n) is Running,
    ensures
        ({
            let cur = run_for(toks, input, c, n)->Running_0;
            run_for(toks, input, c, (n + 1) as nat) == (match step(toks, input, cur) {
                Some(c2) => run_for(toks, input, c2, 0),
                None => RunState::Failed(cur),
            })
        }),
    decreases n,
{
    if 0 <= c.pc < toks.len() && n > 0 {
        match step(toks, input, c) {
            Some(c2) => {
                lemma_run_for_extend(toks, input, c2, (n - 1) as nat);
            },
            None => {},
        }
    }
}

/// A run's outcome is determined: once it has halted or failed, a larger
/// budget changes nothing.  The three outcomes of `run` therefore exclude
/// one another.
pub proof fn lemma_run_for_determined(
    toks: Seq<BfToken>,
    input: Seq<u8>,
    c: BfConfig,
    n: nat,
    m: nat,
)
    requires
        n <= m,
    ensures
        run_for(toks, input, c, n) is Halted ==> run_for(toks, input, c, m) == run_for(
            toks,
            input,
            c,
            n,
        ),
        run_for(toks, input, c, n) is Failed ==> run_for(toks, input, c, m) == run_for(
            toks,
            input,
            c,
            n,
        ),
    decreases n,
{
    if 0 <= c.pc < toks.len() && n > 0 {
        match step(toks, input, c) {
            Some(c2) => {
                lemma_run_for_determined(toks, input, c2, (n - 1) as nat, (m - 1) as nat);
            },
            None => {},
        }
    }
}

/// The specification view of a machine, at program counter `pc`.
pub open spec fn config_of(m: BfMachine, pc: int) -> BfConfig {
    BfConfig {
        cursor: m.cursor as int,
        memory: m.memory@,
        input_pos: m.input_pos as int,
        output: m.output@,
        pc,
    }
}

/// The Euclidean remainder of a value within one divisor of the range
/// `[0, m)`.
proof fn lemma_mod_near(x: int, m: int)
    requires
        m > 0,
        -m <= x < 2 * m,
    ensures
        x % m == if x < 0 {
            x + m
        } else if x < m {
            x
        } else {
            x - m
        },
{
    if x < 0 {
        vstd::arithmetic::div_mod::lemma_mod_add_multiples_vanish(x, m);
        vstd::arithmetic::div_mod::lemma_small_mod((x + m) as nat, m as nat);
    } else if x < m {
        vstd::arithmetic::div_mod::lemma_small_mod(x as nat, m as nat);
    } else {
        vstd::arithmetic::div_mod::lemma_mod_add_multiples_vanish(x - m, m);
        vstd::arithmetic::div_mod::lemma_small_mod((x - m) as nat, m as nat);
    }
}

/// Copies a token sequence into an owned vector.
fn copy_tokens(commands: &Vec<BfToken>) -> (v: Vec<BfToken>)
    ensures
        v@ == commands@,
{
    let mut v: Vec<BfToken> = Vec::new();
    let n = commands.len();
    let mut i: usize = 0;
    while i < n
        invariant
            n == commands@.len(),
            i <= n,
            v@ == commands@.take(i as int),
        decreases n - i,
    {
        v.push(commands[i]);
        proof {
            assert(v@ =~= commands@.take(i + 1));
        }
        i = i + 1;
    }
    proof {
        assert(commands@.take(n as int) =~= commands@);
    }
    v
}

impl BfMachine {
    /// Fit to run: a nonempty tape, the cursor on it, and no more input
    /// consumed than there is.
    pub open spec fn wf(self) -> bool {
        &&& self.memory@.len() > 0
        &&& (self.cursor as int) < self.memory@.len()
        &&& self.input_pos <= self.input@.len()
    }

    /// Makes a machine with a zeroed tape of `memory_size` cells, the cursor
    /// at the left edge, and the given input and output buffers attached.
    /// A zero-length tape is invalid and rejected before any run.
    pub fn new(memory_size: usize, input: Vec<u8>, output: Vec<u8>) -> (m: BfMachine)
        requires
            memory_size > 0,
        ensures
            m.cursor == 0,
            m.memory@.len() == memory_size,
            forall|i: int| 0 <= i < memory_size ==> m.memory@[i] == 0u8,
            m.input@ == input@,
            m.input_pos == 0,
            m.output@ == output@,
            m.wf(),
    {
        let mut memory: Vec<u8> = Vec::new();
        let mut i: usize = 0;
        while i < memory_size
            invariant
                i <= memory_size,
                memory@.len() == i,
                forall|j: int| 0 <= j < i ==> memory@[j] == 0u8,
            decreases memory_size - i,
        {
            memory.push(0);
            i = i + 1;
        }
        BfMachine { cursor: 0, memory, input, input_pos: 0, output }
    }

    /// The cursor after a wrapping move of `offset` cells — leftward when
    /// `sign` holds — over a tape of `bound` cells.
    fn wrapped_cursor(cursor: usize, sign: bool, offset: usize, bound: usize) -> (r: usize)
        requires
            bound > 0,
            cursor < bound,
        ensures
            r < bound,
            r == moved_cursor(cursor as int, sign, offset as int, bound as int),
    {
        let off = offset % bound;
        proof {
            vstd::arithmetic::div_mod::lemma_mod_division_less_than_divisor(
                offset as int,
                bound as int,
            );
        }
        if sign {
            proof {
                vstd::arithmetic::div_mod::lemma_sub_mod_noop(
                    cursor as int,
                    offset as int,
                    bound as int,
                );
                vstd::arithmetic::div_mod::lemma_small_mod(cursor as nat, bound as nat);
                vstd::arithmetic::div_mod::lemma_mod_twice(offset as int, bound as int);
                lemma_mod_near(cursor - off, bound as int);
            }
            if off <= cursor {
                cursor - off
            } else {
                cursor + (bound - off)
            }
        } else {
            proof {
                vstd::arithmetic::div_mod::lemma_add_mod_noop(
                    cursor as int,
                    offset as int,
                    bound as int,
                );
                vstd::arithmetic::div_mod::lemma_small_mod(cursor as nat, bound as nat);
                vstd::arithmetic::div_mod::lemma_mod_twice(offset as int, bound as int);
                lemma_mod_near(cursor + off, bound as int);
            }
            if off < bound - cursor {
                cursor + off
            } else {
                off - (bound - cursor)
            }
        }
    }

    /// Executes a token sequence against the tape, starting at counter zero,
    /// until the counter leaves the sequence.  The machine the call leaves
    /// behind is exactly the one the step semantics reaches:  halted on
    /// `Ok`, stopped at a failed read on `Err(EndOfInput)`, and still
    /// running after the whole step budget on `Err(StepLimitExceeded)`.
    pub fn run(&mut self, commands: &Vec<BfToken>) -> (r: Result<(), BfRuntimeError>)
        requires
            old(self).wf(),
        ensures
            final(self).wf(),
            final(self).memory@.len() == old(self).memory@.len(),
            final(self).input@ == old(self).input@,
            match r {
                Ok(()) => exists|n: nat, p: int|
                    run_for(commands@, old(self).input@, config_of(*old(self), 0), n)
                        == RunState::Halted(config_of(*final(self), p)),
                Err(BfRuntimeError::EndOfInput) => exists|n: nat, p: int|
                    run_for(commands@, old(self).input@, config_of(*old(self), 0), n)
                        == RunState::Failed(config_of(*final(self), p)),
                Err(BfRuntimeError::StepLimitExceeded) => exists|p: int|
                    run_for(commands@, old(self).input@, config_of(*old(self), 0), u64::MAX as nat)
                        == RunState::Running(config_of(*final(self), p)),
            },
    {
        let mut state = BfState { commands: copy_tokens(commands), program_counter: 0 };
        let n = state.commands.len();
        let ghost input0 = self.input@;
        let ghost c0 = config_of(*self, 0);
        let mut steps: u64 = 0;
        let ghost mut cur = c0;
        while state.program_counter < n
            invariant
                state.commands@ == commands@,
                n == commands@.len(),
                self.wf(),
                self.memory@.len() == old(self).memory@.len(),
                self.input@ == input0,
                input0 == old(self).input@,
                c0 == config_of(*old(self), 0),
                cur == config_of(*self, cur.pc),
                cur.pc == state.program_counter as int || (cur.pc > n && state.program_counter
                    == n),
                run_for(commands@, input0, c0, steps as nat) == run_for(
                    commands@,
                    input0,
                    cur,
                    0,
                ),
            decreases u64::MAX - steps,
        {
            proof {
                assert(cur.pc == state.program_counter as int);
                assert(run_for(commands@, input0, c0, steps as nat) == RunState::Running(cur));
            }
            if steps == u64::MAX {
                return Err(BfRuntimeError::StepLimitExceeded);
            }
            let pc = state.program_counter;
            let mut next_pc = pc + 1;
            let t = state.commands[pc];
            match t {
                BfToken::NotCommand(_) => {},
                BfToken::Increment(val) => {
                    let cell = self.memory[self.cursor];
                    self.memory[self.cursor] = cell.wrapping_add(val);
                    proof {
                        lemma_mod_near(cell + val, 256);
                    }
                },
                BfToken::Decrement(val) => {
                    let cell = self.memory[self.cursor];
                    self.memory[self.cursor] = cell.wrapping_sub(val);
                    proof {
                        lemma_mod_near(cell - val, 256);
                    }
                },
                BfToken::CursorLeft(val) => {
                    self.cursor = Self::wrapped_cursor(self.cursor, true, val, self.memory.len());
                },
                BfToken::CursorRight(val) => {
                    self.cursor = Self::wrapped_cursor(self.cursor, false, val, self.memory.len());
                },
                BfToken::LoopStart(to_end) => {
                    if self.memory[self.cursor] == 0 {
                        next_pc = if to_end < n {
                            to_end + 1
                        } else {
                            n
                        };
                    }
                },
                BfToken::LoopEnd(to_start) => {
                    if self.memory[self.cursor] != 0 {
                        next_pc = if to_start < n {
                            to_start + 1
                        } else {
                            n
                        };
                    }
                },
                BfToken::PrintChar => {
                    let cell = self.memory[self.cursor];
                    self.output.push(cell);
                },
                BfToken::InputChar => {
                    if self.input_pos < self.input.len() {
                        let b = self.input[self.input_pos];
                        self.memory[self.cursor] = b;
                        self.input_pos = self.input_pos + 1;
                    } else {
                        proof {
                            assert(step(commands@, input0, cur) is None);
                            lemma_run_for_extend(commands@, input0, c0, steps as nat);
                            assert(run_for(commands@, input0, c0, (steps + 1) as nat)
                                == RunState::Failed(cur));
                        }
                        return Err(BfRuntimeError::EndOfInput);
                    }
                },
            }
            state.program_counter = next_pc;
            proof {
                let stepped = step(commands@, input0, cur);
                let ghost spec_next_pc: int = match t {
                    BfToken::LoopStart(to_end) => if cur.memory[cur.cursor] == 0 {
                        to_end + 1
                    } else {
                        cur.pc + 1
                    },
                    BfToken::LoopEnd(to_start) => if cur.memory[cur.cursor] != 0 {
                        to_start + 1
                    } else {
                        cur.pc + 1
                    },
                    _ => cur.pc + 1,
                };
                lemma_run_for_extend(commands@, input0, c0, steps as nat);
                cur = config_of(*self, spec_next_pc);
                assert(stepped == Some(cur)) by {
                    assert(stepped->Some_0 =~= cur);
                }
                assert(run_for(commands@, input0, c0, (steps + 1) as nat) == run_for(
                    commands@,
                    input0,
                    cur,
                    0,
                ));
                assert(cur.pc == next_pc as int || (cur.pc > n && next_pc == n));
            }
            steps = steps + 1;
        }
        proof {
            assert(cur.pc >= n);
            assert(run_for(commands@, input0, c0, steps as nat) == RunState::Halted(cur));
        }
        Ok(())
    }
}

// ---------------------------------------------------------------------------
// The laws of wraparound
// ---------------------------------------------------------------------------

/// Law: cursor wraparound.  With the cursor at the left edge of a tape of
/// `len` cells, a right move of `len` cells returns to the left edge, and a
/// left move of one cell lands on the right edge.
pub proof fn lemma_cursor_wraparound(toks: Seq<BfToken>, input: Seq<u8>, c: BfConfig, len: usize)
    requires
        0 <= c.pc < toks.len(),
        c.memory.len() == len,
        len >= 1,
        c.cursor == 0,
    ensures
        toks[c.pc] == BfToken::CursorRight(len) ==> step(toks, input, c)->Some_0.cursor == 0,
        toks[c.pc] == BfToken::CursorLeft(1usize) ==> step(toks, input, c)->Some_0.cursor == len
            - 1,
{
    lemma_mod_near(len as int, len as int);
    lemma_mod_near(-1, len as int);
}

/// Law: cell wraparound.  Incrementing a cell holding 255 by one yields 0,
/// and decrementing a cell holding 0 by one yields 255.
pub proof fn lemma_cell_wraparound(toks: Seq<BfToken>, input: Seq<u8>, c: BfConfig)
    requires
        0 <= c.pc < toks.len(),
        0 <= c.cursor < c.memory.len(),
    ensures
        toks[c.pc] == BfToken::Increment(1u8) && c.memory[c.cursor] == 255 ==> step(
            toks,
            input,
            c,
        )->Some_0.memory[c.cursor] == 0,
        toks[c.pc] == BfToken::Decrement(1u8) && c.memory[c.cursor] == 0 ==> step(
            toks,
            input,
            c,
        )->Some_0.memory[c.cursor] == 255,
{
    lemma_mod_near(256, 256);
    lemma_mod_near(-1, 256);
}

impl Default for BfMachine {
    /// The conventional machine: a tape of thirty thousand cells and empty
    /// in-memory streams.
    fn default() -> (m: Self)
        ensures
            m.cursor == 0,
            m.memory@.len() == 30000,
            forall|i: int| 0 <= i < 30000 ==> m.memory@[i] == 0u8,
            m.input@.len() == 0,
            m.input_pos == 0,
            m.output@.len() == 0,
            m.wf(),
    {
        BfMachine::new(30000, Vec::new(), Vec::new())
    }
}

} // verus!
