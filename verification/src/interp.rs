//! Execution engine: walks the nested instruction tree against a fixed-size
//! tape of byte cells, consuming buffered input lines and collecting output
//! bytes, while counting executed instructions for an external rate monitor.
//!
//! The engine's behaviour is pinned by a fuel-indexed specification
//! interpreter, [`run_seq`]: [`Interpreter::main_loop`] produces exactly the
//! outcome that `run_seq` computes with the engine's loop budget, and by
//! [`lemma_run_seq_mono`] that outcome does not depend on the budget once
//! decided.

use vstd::prelude::*;

use crate::preproc::Token;
use std::sync::atomic::AtomicU64;
use std::sync::atomic::Ordering;
use std::sync::Arc;

verus! {

/// A fatal condition raised during execution; the whole run aborts.
#[derive(PartialEq, Eq, Structural, Debug, Clone, Copy)]
pub enum ExecError {
    /// The cursor was moved below 0 or past the end of the tape, or a cell
    /// was accessed on an empty tape.
    TapeBounds,
    /// A byte of input was required but the input source was exhausted.
    InputExhausted,
    /// The engine's loop-iteration budget ran out.  `main_loop` grants the
    /// largest expressible budget (one unit per loop entry or re-entry), so
    /// no feasible run ever sees this error; it exists so that the engine
    /// can be total without claiming to decide program termination.
    StepLimit,
}

/// The mathematical state of one interpreter run: the tape and cursor, the
/// pending raw input lines, the line-buffered input cache (consumed from its
/// end), the output bytes so far, and the executed-instruction count.
#[verifier::ext_equal]
pub ghost struct MachineState {
    pub cells: Seq<u8>,
    pub ptr: int,
    pub lines: Seq<Seq<u8>>,
    pub cache: Seq<u8>,
    pub output: Seq<u8>,
    pub count: nat,
}

/// Outcome of the specification interpreter: a normal end state, a fatal
/// error with the state at the moment of failure, or fuel exhaustion with
/// the state reached when the budget ran out.
pub ghost enum RunOutcome {
    Done(MachineState),
    Failed(ExecError, MachineState),
    Spin(MachineState),
}

/// Byte-cell addition, wrapping modulo 256.
pub open spec fn wrap_add(c: u8, n: u64) -> u8 {
    (((c + n) % 256) as u8)
}

/// Byte-cell subtraction, wrapping modulo 256.
pub open spec fn wrap_sub(c: u8, n: u64) -> u8 {
    ((((c - n) % 256 + 256) % 256) as u8)
}

/// The ASCII bytes of a line, in order; all other bytes are dropped.
pub open spec fn ascii_only(l: Seq<u8>) -> Seq<u8>
    decreases l.len(),
{
    if l.len() == 0 {
        Seq::empty()
    } else if l.last() < 128 {
        ascii_only(l.drop_last()).push(l.last())
    } else {
        ascii_only(l.drop_last())
    }
}

/// A raw input line without its trailing line terminator (`\n` or `\r\n`).
pub open spec fn strip_eol(l: Seq<u8>) -> Seq<u8> {
    let l1 = if l.len() > 0 && l.last() == 10 {
        l.drop_last()
    } else {
        l
    };
    if l1.len() > 0 && l1.last() == 13 {
        l1.drop_last()
    } else {
        l1
    }
}

/// What one raw input line contributes to the input cache.
pub open spec fn line_cache(l: Seq<u8>) -> Seq<u8> {
    ascii_only(strip_eol(l))
}

/// The pending lines after an input instruction made the cache nonempty if
/// it could: an empty cache consumes the next line, if any.
pub open spec fn refill_lines(lines: Seq<Seq<u8>>, cache: Seq<u8>) -> Seq<Seq<u8>> {
    if cache.len() > 0 {
        lines
    } else if lines.len() > 0 {
        lines.drop_first()
    } else {
        lines
    }
}

/// The input cache after an input instruction refilled it if it could.
pub open spec fn refill_cache(lines: Seq<Seq<u8>>, cache: Seq<u8>) -> Seq<u8> {
    if cache.len() > 0 {
        cache
    } else if lines.len() > 0 {
        line_cache(lines[0])
    } else {
        cache
    }
}

/// The state after one more executed instruction that changed nothing else.
pub open spec fn bump(s: MachineState) -> MachineState {
    MachineState { count: s.count + 1, ..s }
}

/// The state after moving the cursor right by `n`.
pub open spec fn move_fwd_st(s: MachineState, n: u64) -> MachineState {
    MachineState { ptr: s.ptr + n, count: s.count + 1, ..s }
}

/// The state after moving the cursor left by `n`.
pub open spec fn move_back_st(s: MachineState, n: u64) -> MachineState {
    MachineState { ptr: s.ptr - n, count: s.count + 1, ..s }
}

/// The state after writing `v` to the active cell.
pub open spec fn set_cell_st(s: MachineState, v: u8) -> MachineState {
    MachineState { cells: s.cells.update(s.ptr, v), count: s.count + 1, ..s }
}

/// The state after outputting the active cell.
pub open spec fn putch_st(s: MachineState) -> MachineState {
    MachineState { output: s.output.push(s.cells[s.ptr]), count: s.count + 1, ..s }
}

/// The state after a successful input instruction: the cache (refilled if
/// needed) loses its last byte, which lands in the active cell.
pub open spec fn getch_st(s: MachineState) -> MachineState {
    let l1 = refill_lines(s.lines, s.cache);
    let c1 = refill_cache(s.lines, s.cache);
    MachineState {
        cells: s.cells.update(s.ptr, c1.last()),
        lines: l1,
        cache: c1.drop_last(),
        count: s.count + 1,
        ..s
    }
}

/// The state at the moment input exhaustion is discovered: a line may
/// already have been consumed, but it contributed nothing to the cache.
pub open spec fn getch_fail_st(s: MachineState) -> MachineState {
    MachineState {
        lines: refill_lines(s.lines, s.cache),
        cache: refill_cache(s.lines, s.cache),
        ..s
    }
}

/// The specification interpreter: runs the token sequence `ts` from position
/// `i` in state `s`.  `fuel` bounds the number of loop (re-)entries; a run
/// that needs more returns `Spin` with the state it had reached, so a `Done`
/// or `Failed` outcome for *some* fuel is the meaning of the program.
///
/// A loop close with a nonzero active cell resets the position to the start
/// of its own sequence, re-executing the open-marker check; an open marker
/// over a zero cell ends the frame at once.
pub open spec fn run_seq(ts: Seq<Token>, i: int, s: MachineState, fuel: nat) -> RunOutcome
    decreases fuel, ts.len() - i,
{
    if i < 0 || i > ts.len() {
        RunOutcome::Spin(s)
    } else if i == ts.len() {
        RunOutcome::Done(s)
    } else {
        let in_bounds = 0 <= s.ptr < s.cells.len();
        match ts[i] {
            Token::MoveFwd(n) => {
                if s.ptr + n < s.cells.len() {
                    run_seq(ts, i + 1, move_fwd_st(s, n), fuel)
                } else {
                    RunOutcome::Failed(ExecError::TapeBounds, s)
                }
            },
            Token::MoveBack(n) => {
                if n <= s.ptr && s.ptr - n < s.cells.len() {
                    run_seq(ts, i + 1, move_back_st(s, n), fuel)
                } else {
                    RunOutcome::Failed(ExecError::TapeBounds, s)
                }
            },
            Token::Inc(n) => {
                if in_bounds {
                    run_seq(ts, i + 1, set_cell_st(s, wrap_add(s.cells[s.ptr], n)), fuel)
                } else {
                    RunOutcome::Failed(ExecError::TapeBounds, s)
                }
            },
            Token::Dec(n) => {
                if in_bounds {
                    run_seq(ts, i + 1, set_cell_st(s, wrap_sub(s.cells[s.ptr], n)), fuel)
                } else {
                    RunOutcome::Failed(ExecError::TapeBounds, s)
                }
            },
            Token::PutCh => {
                if in_bounds {
                    run_seq(ts, i + 1, putch_st(s), fuel)
                } else {
                    RunOutcome::Failed(ExecError::TapeBounds, s)
                }
            },
            Token::GetCh => {
                if !in_bounds {
                    RunOutcome::Failed(ExecError::TapeBounds, s)
                } else if refill_cache(s.lines, s.cache).len() == 0 {
                    RunOutcome::Failed(ExecError::InputExhausted, getch_fail_st(s))
                } else {
                    run_seq(ts, i + 1, getch_st(s), fuel)
                }
            },
            Token::LoopL => {
                if !in_bounds {
                    RunOutcome::Failed(ExecError::TapeBounds, s)
                } else if s.cells[s.ptr] == 0 {
                    RunOutcome::Done(bump(s))
                } else {
                    run_seq(ts, i + 1, bump(s), fuel)
                }
            },
            Token::LoopR => {
                if !in_bounds {
                    RunOutcome::Failed(ExecError::TapeBounds, s)
                } else if s.cells[s.ptr] == 0 {
                    run_seq(ts, i + 1, bump(s), fuel)
                } else if fuel == 0 {
                    RunOutcome::Spin(bump(s))
                } else {
                    run_seq(ts, 0, bump(s), (fuel - 1) as nat)
                }
            },
            Token::Loop(body) => {
                if fuel == 0 {
                    RunOutcome::Spin(s)
                } else {
                    match run_seq(body@, 0, s, (fuel - 1) as nat) {
                        RunOutcome::Done(s1) => run_seq(ts, i + 1, bump(s1), fuel),
                        RunOutcome::Failed(e, s1) => RunOutcome::Failed(e, s1),
                        RunOutcome::Spin(s1) => RunOutcome::Spin(s1),
                    }
                }
            },
        }
    }
}

/// More fuel never changes an outcome that was already decided: any `Done`
/// or `Failed` outcome of `run_seq` is independent of the fuel that reached
/// it, so the budget `main_loop` grants is canonical.
pub proof fn lemma_run_seq_mono(ts: Seq<Token>, i: int, s: MachineState, f1: nat, f2: nat)
    requires
        f1 <= f2,
        !(run_seq(ts, i, s, f1) is Spin),
    ensures
        run_seq(ts, i, s, f2) == run_seq(ts, i, s, f1),
    decreases f1, ts.len() - i,
{
    if i < 0 || i > ts.len() {
    } else if i == ts.len() {
    } else {
        let in_bounds = 0 <= s.ptr < s.cells.len();
        match ts[i] {
            Token::MoveFwd(n) => {
                if s.ptr + n < s.cells.len() {
                    lemma_run_seq_mono(ts, i + 1, move_fwd_st(s, n), f1, f2);
                }
            },
            Token::MoveBack(n) => {
                if n <= s.ptr && s.ptr - n < s.cells.len() {
                    lemma_run_seq_mono(ts, i + 1, move_back_st(s, n), f1, f2);
                }
            },
            Token::Inc(n) => {
                if in_bounds {
                    lemma_run_seq_mono(
                        ts,
                        i + 1,
                        set_cell_st(s, wrap_add(s.cells[s.ptr], n)),
                        f1,
                        f2,
                    );
                }
            },
            Token::Dec(n) => {
                if in_bounds {
                    lemma_run_seq_mono(
                        ts,
                        i + 1,
                        set_cell_st(s, wrap_sub(s.cells[s.ptr], n)),
                        f1,
                        f2,
                    );
                }
            },
            Token::PutCh => {
                if in_bounds {
                    lemma_run_seq_mono(ts, i + 1, putch_st(s), f1, f2);
                }
            },
            Token::GetCh => {
                if in_bounds && refill_cache(s.lines, s.cache).len() > 0 {
                    lemma_run_seq_mono(ts, i + 1, getch_st(s), f1, f2);
                }
            },
            Token::LoopL => {
                if in_bounds && s.cells[s.ptr] != 0 {
                    lemma_run_seq_mono(ts, i + 1, bump(s), f1, f2);
                }
            },
            Token::LoopR => {
                if in_bounds {
                    if s.cells[s.ptr] == 0 {
                        lemma_run_seq_mono(ts, i + 1, bump(s), f1, f2);
                    } else {
                        lemma_run_seq_mono(ts, 0, bump(s), (f1 - 1) as nat, (f2 - 1) as nat);
                    }
                }
            },
            Token::Loop(body) => {
                lemma_run_seq_mono(body@, 0, s, (f1 - 1) as nat, (f2 - 1) as nat);
                match run_seq(body@, 0, s, (f1 - 1) as nat) {
                    RunOutcome::Done(s1) => {
                        lemma_run_seq_mono(ts, i + 1, bump(s1), f1, f2);
                    },
                    RunOutcome::Failed(e, s1) => {},
                    RunOutcome::Spin(_) => {},
                }
            },
        }
    }
}

/// The tape never resizes: whatever state an outcome carries — normal,
/// failed, or out of budget — its tape has the length it started with.
pub proof fn lemma_run_seq_tape_len(ts: Seq<Token>, i: int, s: MachineState, f: nat)
    ensures
        match run_seq(ts, i, s, f) {
            RunOutcome::Done(s1) => s1.cells.len() == s.cells.len(),
            RunOutcome::Failed(e, s1) => s1.cells.len() == s.cells.len(),
            RunOutcome::Spin(s1) => s1.cells.len() == s.cells.len(),
        },
    decreases f, ts.len() - i,
{
    if i < 0 || i > ts.len() {
    } else if i == ts.len() {
    } else {
        let in_bounds = 0 <= s.ptr < s.cells.len();
        match ts[i] {
            Token::MoveFwd(n) => {
                if s.ptr + n < s.cells.len() {
                    lemma_run_seq_tape_len(ts, i + 1, move_fwd_st(s, n), f);
                }
            },
            Token::MoveBack(n) => {
                if n <= s.ptr && s.ptr - n < s.cells.len() {
                    lemma_run_seq_tape_len(ts, i + 1, move_back_st(s, n), f);
                }
            },
            Token::Inc(n) => {
                if in_bounds {
                    lemma_run_seq_tape_len(
                        ts,
                        i + 1,
                        set_cell_st(s, wrap_add(s.cells[s.ptr], n)),
                        f,
                    );
                }
            },
            Token::Dec(n) => {
                if in_bounds {
                    lemma_run_seq_tape_len(
                        ts,
                        i + 1,
                        set_cell_st(s, wrap_sub(s.cells[s.ptr], n)),
                        f,
                    );
                }
            },
            Token::PutCh => {
                if in_bounds {
                    lemma_run_seq_tape_len(ts, i + 1, putch_st(s), f);
                }
            },
            Token::GetCh => {
                if in_bounds && refill_cache(s.lines, s.cache).len() > 0 {
                    lemma_run_seq_tape_len(ts, i + 1, getch_st(s), f);
                }
            },
            Token::LoopL => {
                if in_bounds && s.cells[s.ptr] != 0 {
                    lemma_run_seq_tape_len(ts, i + 1, bump(s), f);
                }
            },
            Token::LoopR => {
                if in_bounds {
                    if s.cells[s.ptr] == 0 {
                        lemma_run_seq_tape_len(ts, i + 1, bump(s), f);
                    } else if f > 0 {
                        lemma_run_seq_tape_len(ts, 0, bump(s), (f - 1) as nat);
                    }
                }
            },
            Token::Loop(body) => {
                if f > 0 {
                    lemma_run_seq_tape_len(body@, 0, s, (f - 1) as nat);
                    match run_seq(body@, 0, s, (f - 1) as nat) {
                        RunOutcome::Done(m1) => {
                            lemma_run_seq_tape_len(ts, i + 1, bump(m1), f);
                        },
                        _ => {},
                    }
                }
            },
        }
    }
}

/// Equality of everything a program can observe: tape, cursor, pending
/// input, cache and output — all state but the executed-instruction count.
pub open spec fn obs_eq_state(s1: MachineState, s2: MachineState) -> bool {
    &&& s1.cells == s2.cells
    &&& s1.ptr == s2.ptr
    &&& s1.lines == s2.lines
    &&& s1.cache == s2.cache
    &&& s1.output == s2.output
}

/// Outcomes agree observably: normal completion in observably equal states,
/// the same error having produced the same output, or both out of fuel.
pub open spec fn obs_eq_out(o1: RunOutcome, o2: RunOutcome) -> bool {
    match (o1, o2) {
        (RunOutcome::Done(s1), RunOutcome::Done(s2)) => obs_eq_state(s1, s2),
        (RunOutcome::Failed(e1, s1), RunOutcome::Failed(e2, s2)) => e1 == e2 && s1.output
            == s2.output,
        (RunOutcome::Spin(_), RunOutcome::Spin(_)) => true,
        _ => false,
    }
}

/// The cursor is on the tape whenever the tape is nonempty.
pub open spec fn cursor_ok(s: MachineState) -> bool {
    s.cells.len() > 0 ==> 0 <= s.ptr < s.cells.len()
}

/// The instruction count influences nothing: runs from observably equal
/// states stay observably equal.
proof fn lemma_run_obs_congruence(ts: Seq<Token>, i: int, s1: MachineState, s2: MachineState, f: nat)
    requires
        obs_eq_state(s1, s2),
    ensures
        obs_eq_out(run_seq(ts, i, s1, f), run_seq(ts, i, s2, f)),
    decreases f, ts.len() - i,
{
    if i < 0 || i > ts.len() {
    } else if i == ts.len() {
    } else {
        let in_bounds = 0 <= s1.ptr < s1.cells.len();
        match ts[i] {
            Token::MoveFwd(n) => {
                if s1.ptr + n < s1.cells.len() {
                    lemma_run_obs_congruence(ts, i + 1, move_fwd_st(s1, n), move_fwd_st(s2, n), f);
                }
            },
            Token::MoveBack(n) => {
                if n <= s1.ptr && s1.ptr - n < s1.cells.len() {
                    lemma_run_obs_congruence(
                        ts,
                        i + 1,
                        move_back_st(s1, n),
                        move_back_st(s2, n),
                        f,
                    );
                }
            },
            Token::Inc(n) => {
                if in_bounds {
                    lemma_run_obs_congruence(
                        ts,
                        i + 1,
                        set_cell_st(s1, wrap_add(s1.cells[s1.ptr], n)),
                        set_cell_st(s2, wrap_add(s2.cells[s2.ptr], n)),
                        f,
                    );
                }
            },
            Token::Dec(n) => {
                if in_bounds {
                    lemma_run_obs_congruence(
                        ts,
                        i + 1,
                        set_cell_st(s1, wrap_sub(s1.cells[s1.ptr], n)),
                        set_cell_st(s2, wrap_sub(s2.cells[s2.ptr], n)),
                        f,
                    );
                }
            },
            Token::PutCh => {
                if in_bounds {
                    lemma_run_obs_congruence(ts, i + 1, putch_st(s1), putch_st(s2), f);
                }
            },
            Token::GetCh => {
                if in_bounds && refill_cache(s1.lines, s1.cache).len() > 0 {
                    lemma_run_obs_congruence(ts, i + 1, getch_st(s1), getch_st(s2), f);
                }
            },
            Token::LoopL => {
                if in_bounds && s1.cells[s1.ptr] != 0 {
                    lemma_run_obs_congruence(ts, i + 1, bump(s1), bump(s2), f);
                }
            },
            Token::LoopR => {
                if in_bounds {
                    if s1.cells[s1.ptr] == 0 {
                        lemma_run_obs_congruence(ts, i + 1, bump(s1), bump(s2), f);
                    } else if f > 0 {
                        lemma_run_obs_congruence(ts, 0, bump(s1), bump(s2), (f - 1) as nat);
                    }
                }
            },
            Token::Loop(body) => {
                if f > 0 {
                    lemma_run_obs_congruence(body@, 0, s1, s2, (f - 1) as nat);
                    match (run_seq(body@, 0, s1, (f - 1) as nat), run_seq(
                        body@,
                        0,
                        s2,
                        (f - 1) as nat,
                    )) {
                        (RunOutcome::Done(m1), RunOutcome::Done(m2)) => {
                            lemma_run_obs_congruence(ts, i + 1, bump(m1), bump(m2), f);
                        },
                        _ => {},
                    }
                }
            },
        }
    }
}

/// Execution keeps the cursor on the tape: a run that completes normally
/// from a state with the cursor in bounds ends with it in bounds.
proof fn lemma_run_cursor_ok(ts: Seq<Token>, i: int, s: MachineState, f: nat)
    requires
        cursor_ok(s),
    ensures
        (run_seq(ts, i, s, f) matches RunOutcome::Done(s1) ==> cursor_ok(s1)),
    decreases f, ts.len() - i,
{
    if i < 0 || i > ts.len() {
    } else if i == ts.len() {
    } else {
        let in_bounds = 0 <= s.ptr < s.cells.len();
        match ts[i] {
            Token::MoveFwd(n) => {
                if s.ptr + n < s.cells.len() {
                    lemma_run_cursor_ok(ts, i + 1, move_fwd_st(s, n), f);
                }
            },
            Token::MoveBack(n) => {
                if n <= s.ptr && s.ptr - n < s.cells.len() {
                    lemma_run_cursor_ok(ts, i + 1, move_back_st(s, n), f);
                }
            },
            Token::Inc(n) => {
                if in_bounds {
                    lemma_run_cursor_ok(ts, i + 1, set_cell_st(s, wrap_add(s.cells[s.ptr], n)), f);
                }
            },
            Token::Dec(n) => {
                if in_bounds {
                    lemma_run_cursor_ok(ts, i + 1, set_cell_st(s, wrap_sub(s.cells[s.ptr], n)), f);
                }
            },
            Token::PutCh => {
                if in_bounds {
                    lemma_run_cursor_ok(ts, i + 1, putch_st(s), f);
                }
            },
            Token::GetCh => {
                if in_bounds && refill_cache(s.lines, s.cache).len() > 0 {
                    lemma_run_cursor_ok(ts, i + 1, getch_st(s), f);
                }
            },
            Token::LoopL => {
                if in_bounds && s.cells[s.ptr] != 0 {
                    lemma_run_cursor_ok(ts, i + 1, bump(s), f);
                }
            },
            Token::LoopR => {
                if in_bounds {
                    if s.cells[s.ptr] == 0 {
                        lemma_run_cursor_ok(ts, i + 1, bump(s), f);
                    } else if f > 0 {
                        lemma_run_cursor_ok(ts, 0, bump(s), (f - 1) as nat);
                    }
                }
            },
            Token::Loop(body) => {
                if f > 0 {
                    lemma_run_cursor_ok(body@, 0, s, (f - 1) as nat);
                    match run_seq(body@, 0, s, (f - 1) as nat) {
                        RunOutcome::Done(m1) => {
                            lemma_run_cursor_ok(ts, i + 1, bump(m1), f);
                        },
                        _ => {},
                    }
                }
            },
        }
    }
}

/// Wrapping cell updates compose: applying two amounts one after the other
/// is applying their sum.
proof fn lemma_wrap_compose(c: u8, a: u64, b: u64)
    requires
        a + b <= u64::MAX,
    ensures
        wrap_add(wrap_add(c, a), b) == wrap_add(c, (a + b) as u64),
        wrap_sub(wrap_sub(c, a), b) == wrap_sub(c, (a + b) as u64),
{
    let w1 = wrap_add(c, a) as int;
    let q1 = (c + a) / 256;
    vstd::arithmetic::div_mod::lemma_fundamental_div_mod(c + a, 256);
    vstd::arithmetic::div_mod::lemma_mod_multiples_vanish(q1, w1 + b, 256);
    let v1 = wrap_sub(c, a) as int;
    let d = (c - a) % 256;
    let qd = (c - a) / 256;
    vstd::arithmetic::div_mod::lemma_fundamental_div_mod(c - a, 256);
    vstd::arithmetic::div_mod::lemma_mod_multiples_vanish(1, d, 256);
    // v1 differs from c - a by a multiple of 256, so subtracting b keeps the
    // same residue as c - (a + b).
    let k = (v1 - (c - a)) / 256;
    vstd::arithmetic::div_mod::lemma_fundamental_div_mod(v1 - (c - a), 256);
    assert(v1 == c - a + 256 * k) by {
        vstd::arithmetic::div_mod::lemma_mod_multiples_vanish(qd, d, 256);
    }
    vstd::arithmetic::div_mod::lemma_mod_multiples_vanish(k, c - a - b, 256);
}

/// The simulation behind [`lemma_pack_preserves_meaning`]: from any common
/// position, running the sequence with its last two foldable tokens merged
/// is observably the same as running it with them separate.
proof fn lemma_pack_sim(
    arr: Seq<crate::preproc::Token>,
    t: Token,
    j: int,
    s1: MachineState,
    s2: MachineState,
    f: nat,
)
    requires
        arr.len() > 0,
        crate::preproc::foldable_same(arr.last(), t),
        crate::preproc::token_count(arr.last()) + crate::preproc::token_count(t) <= u64::MAX,
        0 <= j <= arr.len() - 1,
        obs_eq_state(s1, s2),
        cursor_ok(s1),
    ensures
        obs_eq_out(
            run_seq(crate::preproc::spec_pack(arr, t), j, s1, f),
            run_seq(arr.push(t), j, s2, f),
        ),
    decreases f, arr.len() - j,
{
    let p = crate::preproc::spec_pack(arr, t);
    let u = arr.push(t);
    let m = crate::preproc::merge_tokens(arr.last(), t);
    assert(p =~= arr.drop_last().push(m));
    assert(p.len() == arr.len());
    let lp = p.len() as int;
    assert(p[lp - 1] == m);
    assert(u[lp - 1] == arr.last() && u[lp] == t);
    let len = s1.cells.len() as int;
    if j == lp - 1 {
        match (arr.last(), t) {
            (Token::MoveFwd(n2), Token::MoveFwd(n)) => {
                assert(m == Token::MoveFwd((n + n2) as u64));
                let big = (n + n2) as u64;
                let u_mid = move_fwd_st(s2, n2);
                if s1.ptr + n + n2 < len {
                    let p_next = move_fwd_st(s1, big);
                    assert(run_seq(p, j, s1, f) == run_seq(p, j + 1, p_next, f));
                    assert(run_seq(p, j + 1, p_next, f) == RunOutcome::Done(p_next));
                    let u_next = move_fwd_st(u_mid, n);
                    assert(run_seq(u, j, s2, f) == run_seq(u, j + 1, u_mid, f));
                    assert(run_seq(u, j + 1, u_mid, f) == run_seq(u, j + 2, u_next, f));
                    assert(run_seq(u, j + 2, u_next, f) == RunOutcome::Done(u_next));
                } else {
                    assert(run_seq(p, j, s1, f) == RunOutcome::Failed(ExecError::TapeBounds, s1));
                    if s2.ptr + n2 < len {
                        assert(run_seq(u, j, s2, f) == run_seq(u, j + 1, u_mid, f));
                        assert(run_seq(u, j + 1, u_mid, f) == RunOutcome::Failed(
                            ExecError::TapeBounds,
                            u_mid,
                        ));
                    } else {
                        assert(run_seq(u, j, s2, f) == RunOutcome::Failed(
                            ExecError::TapeBounds,
                            s2,
                        ));
                    }
                }
            },
            (Token::MoveBack(n2), Token::MoveBack(n)) => {
                assert(m == Token::MoveBack((n + n2) as u64));
                let big = (n + n2) as u64;
                let u_mid = move_back_st(s2, n2);
                if n + n2 <= s1.ptr && s1.ptr - n - n2 < len {
                    assert(s1.ptr < len);
                    let p_next = move_back_st(s1, big);
                    assert(run_seq(p, j, s1, f) == run_seq(p, j + 1, p_next, f));
                    assert(run_seq(p, j + 1, p_next, f) == RunOutcome::Done(p_next));
                    let u_next = move_back_st(u_mid, n);
                    assert(run_seq(u, j, s2, f) == run_seq(u, j + 1, u_mid, f));
                    assert(run_seq(u, j + 1, u_mid, f) == run_seq(u, j + 2, u_next, f));
                    assert(run_seq(u, j + 2, u_next, f) == RunOutcome::Done(u_next));
                } else {
                    assert(run_seq(p, j, s1, f) == RunOutcome::Failed(ExecError::TapeBounds, s1));
                    if n2 <= s2.ptr && s2.ptr - n2 < len {
                        assert(run_seq(u, j, s2, f) == run_seq(u, j + 1, u_mid, f));
                        assert(!(n <= u_mid.ptr && u_mid.ptr - n < len));
                        assert(run_seq(u, j + 1, u_mid, f) == RunOutcome::Failed(
                            ExecError::TapeBounds,
                            u_mid,
                        ));
                    } else {
                        assert(run_seq(u, j, s2, f) == RunOutcome::Failed(
                            ExecError::TapeBounds,
                            s2,
                        ));
                    }
                }
            },
            (Token::Inc(n2), Token::Inc(n)) => {
                assert(m == Token::Inc((n + n2) as u64));
                if 0 <= s1.ptr < len {
                    let c = s1.cells[s1.ptr];
                    lemma_wrap_compose(c, n2, n);
                    let w1 = wrap_add(c, n2);
                    let u_mid = set_cell_st(s2, w1);
                    assert(u_mid.cells[u_mid.ptr] == w1);
                    let u_next = set_cell_st(u_mid, wrap_add(w1, n));
                    assert(run_seq(u, j, s2, f) == run_seq(u, j + 1, u_mid, f));
                    assert(run_seq(u, j + 1, u_mid, f) == run_seq(u, j + 2, u_next, f));
                    assert(run_seq(u, j + 2, u_next, f) == RunOutcome::Done(u_next));
                    let p_next = set_cell_st(s1, wrap_add(c, (n + n2) as u64));
                    assert(run_seq(p, j, s1, f) == run_seq(p, j + 1, p_next, f));
                    assert(run_seq(p, j + 1, p_next, f) == RunOutcome::Done(p_next));
                    assert(u_next.cells =~= p_next.cells);
                } else {
                    assert(run_seq(p, j, s1, f) == RunOutcome::Failed(ExecError::TapeBounds, s1));
                    assert(run_seq(u, j, s2, f) == RunOutcome::Failed(ExecError::TapeBounds, s2));
                }
            },
            (Token::Dec(n2), Token::Dec(n)) => {
                assert(m == Token::Dec((n + n2) as u64));
                if 0 <= s1.ptr < len {
                    let c = s1.cells[s1.ptr];
                    lemma_wrap_compose(c, n2, n);
                    let w1 = wrap_sub(c, n2);
                    let u_mid = set_cell_st(s2, w1);
                    assert(u_mid.cells[u_mid.ptr] == w1);
                    let u_next = set_cell_st(u_mid, wrap_sub(w1, n));
                    assert(run_seq(u, j, s2, f) == run_seq(u, j + 1, u_mid, f));
                    assert(run_seq(u, j + 1, u_mid, f) == run_seq(u, j + 2, u_next, f));
                    assert(run_seq(u, j + 2, u_next, f) == RunOutcome::Done(u_next));
                    let p_next = set_cell_st(s1, wrap_sub(c, (n + n2) as u64));
                    assert(run_seq(p, j, s1, f) == run_seq(p, j + 1, p_next, f));
                    assert(run_seq(p, j + 1, p_next, f) == RunOutcome::Done(p_next));
                    assert(u_next.cells =~= p_next.cells);
                } else {
                    assert(run_seq(p, j, s1, f) == RunOutcome::Failed(ExecError::TapeBounds, s1));
                    assert(run_seq(u, j, s2, f) == RunOutcome::Failed(ExecError::TapeBounds, s2));
                }
            },
            _ => {
                assert(false);
            },
        }
    } else {
        assert(p[j] == arr[j] && u[j] == arr[j]);
        let in_bounds = 0 <= s1.ptr < len;
        match arr[j] {
            Token::MoveFwd(n) => {
                if s1.ptr + n < len {
                    lemma_pack_sim(arr, t, j + 1, move_fwd_st(s1, n), move_fwd_st(s2, n), f);
                }
            },
            Token::MoveBack(n) => {
                if n <= s1.ptr && s1.ptr - n < len {
                    lemma_pack_sim(arr, t, j + 1, move_back_st(s1, n), move_back_st(s2, n), f);
                }
            },
            Token::Inc(n) => {
                if in_bounds {
                    lemma_pack_sim(
                        arr,
                        t,
                        j + 1,
                        set_cell_st(s1, wrap_add(s1.cells[s1.ptr], n)),
                        set_cell_st(s2, wrap_add(s2.cells[s2.ptr], n)),
                        f,
                    );
                }
            },
            Token::Dec(n) => {
                if in_bounds {
                    lemma_pack_sim(
                        arr,
                        t,
                        j + 1,
                        set_cell_st(s1, wrap_sub(s1.cells[s1.ptr], n)),
                        set_cell_st(s2, wrap_sub(s2.cells[s2.ptr], n)),
                        f,
                    );
                }
            },
            Token::PutCh => {
                if in_bounds {
                    lemma_pack_sim(arr, t, j + 1, putch_st(s1), putch_st(s2), f);
                }
            },
            Token::GetCh => {
                if in_bounds && refill_cache(s1.lines, s1.cache).len() > 0 {
                    lemma_pack_sim(arr, t, j + 1, getch_st(s1), getch_st(s2), f);
                }
            },
            Token::LoopL => {
                if in_bounds && s1.cells[s1.ptr] != 0 {
                    lemma_pack_sim(arr, t, j + 1, bump(s1), bump(s2), f);
                }
            },
            Token::LoopR => {
                if in_bounds {
                    if s1.cells[s1.ptr] == 0 {
                        lemma_pack_sim(arr, t, j + 1, bump(s1), bump(s2), f);
                    } else if f > 0 {
                        lemma_pack_sim(arr, t, 0, bump(s1), bump(s2), (f - 1) as nat);
                    }
                }
            },
            Token::Loop(body) => {
                if f > 0 {
                    lemma_run_obs_congruence(body@, 0, s1, s2, (f - 1) as nat);
                    lemma_run_cursor_ok(body@, 0, s1, (f - 1) as nat);
                    match (run_seq(body@, 0, s1, (f - 1) as nat), run_seq(
                        body@,
                        0,
                        s2,
                        (f - 1) as nat,
                    )) {
                        (RunOutcome::Done(m1), RunOutcome::Done(m2)) => {
                            lemma_pack_sim(arr, t, j + 1, bump(m1), bump(m2), f);
                        },
                        _ => {},
                    }
                }
            },
        }
    }
}

/// Run-length folding is a pure optimization, not a semantic change: the
/// tokenizer folds by appending each token with `spec_pack`, and running a
/// sequence with the appended token folded in is observably identical —
/// same tape, cursor, input, output and errors — to running it with the
/// token kept separate.  Only the executed-instruction count differs, since
/// a folded token counts once.
pub proof fn lemma_pack_preserves_meaning(
    arr: Seq<crate::preproc::Token>,
    t: Token,
    s: MachineState,
    f: nat,
)
    requires
        crate::preproc::pack_ok(arr, t),
        cursor_ok(s),
    ensures
        obs_eq_out(
            run_seq(crate::preproc::spec_pack(arr, t), 0, s, f),
            run_seq(arr.push(t), 0, s, f),
        ),
{
    if arr.len() > 0 && crate::preproc::foldable_same(arr.last(), t) {
        lemma_pack_sim(arr, t, 0, s, s, f);
    } else {
        assert(crate::preproc::spec_pack(arr, t) == arr.push(t));
        lemma_run_obs_congruence(arr.push(t), 0, s, s, f);
    }
}

/// A loop whose governing cell is 0 on entry runs zero iterations: the body
/// frame performs only the open-marker check and ends with the tape, cursor,
/// pending input and output all unchanged.
pub proof fn lemma_loop_zero_entry(body: Seq<Token>, s: MachineState, fuel: nat)
    requires
        body.len() >= 1,
        body[0] == Token::LoopL,
        0 <= s.ptr < s.cells.len(),
        s.cells[s.ptr] == 0,
    ensures
        run_seq(body, 0, s, fuel) == RunOutcome::Done(bump(s)),
        bump(s).cells == s.cells,
        bump(s).ptr == s.ptr,
        bump(s).lines == s.lines,
        bump(s).cache == s.cache,
        bump(s).output == s.output,
{
}

/// A cell update wraps the same way whether the amount is reduced modulo
/// 256 first or not.
proof fn lemma_wrap_mod(c: u8, n: u64)
    ensures
        wrap_add(c, n) == wrap_add(c, (n % 256) as u64),
        wrap_sub(c, n) == wrap_sub(c, (n % 256) as u64),
{
    let q = n as int / 256;
    let r = n as int % 256;
    vstd::arithmetic::div_mod::lemma_fundamental_div_mod(n as int, 256);
    vstd::arithmetic::div_mod::lemma_mod_multiples_vanish(q, c + r, 256);
    vstd::arithmetic::div_mod::lemma_mod_multiples_vanish(-q, c - r, 256);
}

/// The views of a sequence of line buffers.
pub open spec fn lines_view(ls: Seq<Vec<u8>>) -> Seq<Seq<u8>> {
    ls.map_values(|l: Vec<u8>| l@)
}

/// The execution engine.  It owns the tape, the cursor, the instruction
/// tree, the queued raw input lines with the line-buffered cache, and the
/// collected output bytes.  The executed-instruction counter is buffered
/// locally and flushed in batches to a shared atomic that an external
/// monitor may read at any time.
pub struct Interpreter {
    pub cells: Vec<u8>,
    pub cell_ptr: usize,
    pub root_code: Vec<Token>,
    pub auto_flush_stdout: bool,
    pub input_lines: Vec<Vec<u8>>,
    pub next_line: usize,
    pub stdin_buffer: Vec<u8>,
    pub output: Vec<u8>,
    pub executed_instr_count_buf: u64,
    pub executed_instr_count: Arc<AtomicU64>,
    pub total_count: Ghost<nat>,
    pub published_count: Ghost<nat>,
}

impl Interpreter {
    /// The mathematical state this interpreter is in.
    pub open spec fn st(&self) -> MachineState {
        MachineState {
            cells: self.cells@,
            ptr: self.cell_ptr as int,
            lines: lines_view(self.input_lines@).skip(self.next_line as int),
            cache: self.stdin_buffer@,
            output: self.output@,
            count: self.total_count@,
        }
    }

    /// Internal well-formedness: the cursor is on the tape (or the tape is
    /// empty), queued lines are not over-consumed, the counter buffer is
    /// below its flush threshold, and no executed instruction is lost —
    /// every one is either already published to the shared atomic (the
    /// ghost ledger `published_count` is the sum of the batches handed to
    /// `fetch_add`) or still waiting in the local buffer.
    pub open spec fn wf(&self) -> bool {
        &&& self.next_line <= self.input_lines@.len()
        &&& (self.cells@.len() > 0 ==> self.cell_ptr < self.cells@.len())
        &&& (self.cells@.len() == 0 ==> self.cell_ptr == 0)
        &&& self.executed_instr_count_buf <= 100001
        &&& self.published_count@ + self.executed_instr_count_buf == self.total_count@
    }

    /// The program and output-flushing configuration, which execution never
    /// changes.
    pub open spec fn cfg(&self) -> (Seq<Token>, bool) {
        (self.root_code@, self.auto_flush_stdout)
    }

    /// Builds an interpreter over `code` with a zeroed tape of
    /// `cell_array_size` cells, the cursor at the midpoint, no queued input
    /// and no output; the instruction count, its local batch buffer and the
    /// fresh shared counter all start at 0.
    pub fn new(code: Vec<Token>, cell_array_size: usize, auto_flush_stdout: bool) -> (r:
        Interpreter)
        ensures
            r.wf(),
            r.root_code@ == code@,
            r.auto_flush_stdout == auto_flush_stdout,
            r.st().cells == Seq::new(cell_array_size as nat, |k: int| 0u8),
            r.st().ptr == cell_array_size as int / 2,
            r.st().lines == Seq::<Seq<u8>>::empty(),
            r.st().cache == Seq::<u8>::empty(),
            r.st().output == Seq::<u8>::empty(),
            r.st().count == 0,
            r.executed_instr_count_buf == 0,
    {
        let mut cells: Vec<u8> = Vec::new();
        let mut k: usize = 0;
        while k < cell_array_size
            invariant
                k <= cell_array_size,
                cells@.len() == k,
                forall|t: int| 0 <= t < k ==> cells@[t] == 0,
            decreases cell_array_size - k,
        {
            cells.push(0);
            k += 1;
        }
        proof {
            assert(cells@ =~= Seq::new(cell_array_size as nat, |t: int| 0u8));
        }
        let r = Interpreter {
            cells,
            cell_ptr: cell_array_size / 2,
            root_code: code,
            auto_flush_stdout,
            input_lines: Vec::new(),
            next_line: 0,
            stdin_buffer: Vec::new(),
            output: Vec::new(),
            executed_instr_count_buf: 0,
            executed_instr_count: Arc::new(AtomicU64::new(0)),
            total_count: Ghost(0nat),
            published_count: Ghost(0nat),
        };
        proof {
            assert(r.st().lines =~= Seq::<Seq<u8>>::empty());
        }
        r
    }

    /// Queues one raw input line (terminator included or not) for the input
    /// instruction to consume later.
    pub fn push_input_line(&mut self, line: Vec<u8>)
        requires
            old(self).wf(),
        ensures
            final(self).wf(),
            final(self).cfg() == old(self).cfg(),
            final(self).st() == (MachineState {
                lines: old(self).st().lines.push(line@),
                ..old(self).st()
            }),
    {
        let ghost l = line@;
        self.input_lines.push(line);
        proof {
            assert(lines_view(self.input_lines@) =~= lines_view(old(self).input_lines@).push(l));
            assert(lines_view(self.input_lines@).skip(self.next_line as int) =~= lines_view(
                old(self).input_lines@,
            ).skip(self.next_line as int).push(l));
        }
    }

    /// The value of the active cell.
    fn get_cell_value(&self) -> (v: u8)
        requires
            self.wf(),
            self.cells@.len() > 0,
        ensures
            v == self.st().cells[self.st().ptr],
    {
        self.cells[self.cell_ptr]
    }

    /// Overwrites the active cell.
    fn set_cell_value(&mut self, value: u8)
        requires
            old(self).wf(),
            old(self).cells@.len() > 0,
        ensures
            final(self).wf(),
            final(self).cfg() == old(self).cfg(),
            final(self).st() == (MachineState {
                cells: old(self).st().cells.update(old(self).st().ptr, value),
                ..old(self).st()
            }),
    {
        self.cells.set(self.cell_ptr, value);
    }

    /// Advances the cursor rightward; the caller has checked the bound.
    fn inc_cell_ptr(&mut self, value: usize)
        requires
            old(self).wf(),
            old(self).cell_ptr + value < old(self).cells@.len(),
        ensures
            final(self).wf(),
            final(self).cfg() == old(self).cfg(),
            final(self).st() == (MachineState {
                ptr: old(self).st().ptr + value,
                ..old(self).st()
            }),
    {
        let len = self.cells.len();
        assert(self.cell_ptr + value < len);
        self.cell_ptr += value;
    }

    /// Retreats the cursor leftward; the caller has checked the bound.
    fn dec_cell_ptr(&mut self, value: usize)
        requires
            old(self).wf(),
            value <= old(self).cell_ptr,
            old(self).cells@.len() > 0,
        ensures
            final(self).wf(),
            final(self).cfg() == old(self).cfg(),
            final(self).st() == (MachineState {
                ptr: old(self).st().ptr - value,
                ..old(self).st()
            }),
    {
        self.cell_ptr -= value;
    }

    /// Adds `value` to the active cell, wrapping modulo 256.
    fn inc_curr_cell(&mut self, value: u8)
        requires
            old(self).wf(),
            old(self).cells@.len() > 0,
        ensures
            final(self).wf(),
            final(self).cfg() == old(self).cfg(),
            final(self).st() == (MachineState {
                cells: old(self).st().cells.update(
                    old(self).st().ptr,
                    wrap_add(old(self).st().cells[old(self).st().ptr], value as u64),
                ),
                ..old(self).st()
            }),
    {
        let new_val = self.get_cell_value().wrapping_add(value);
        self.set_cell_value(new_val);
    }

    /// Subtracts `value` from the active cell, wrapping modulo 256.
    fn dec_curr_cell(&mut self, value: u8)
        requires
            old(self).wf(),
            old(self).cells@.len() > 0,
        ensures
            final(self).wf(),
            final(self).cfg() == old(self).cfg(),
            final(self).st() == (MachineState {
                cells: old(self).st().cells.update(
                    old(self).st().ptr,
                    wrap_sub(old(self).st().cells[old(self).st().ptr], value as u64),
                ),
                ..old(self).st()
            }),
    {
        let new_val = self.get_cell_value().wrapping_sub(value);
        self.set_cell_value(new_val);
    }

    /// Appends the active cell's value to the output bytes.  (When output
    /// auto-flush is configured, the surrounding program flushes its sink
    /// after each byte it forwards; the byte sequence itself is the same.)
    fn put_char(&mut self)
        requires
            old(self).wf(),
            old(self).cells@.len() > 0,
        ensures
            final(self).wf(),
            final(self).cfg() == old(self).cfg(),
            final(self).st() == (MachineState {
                output: old(self).st().output.push(
                    old(self).st().cells[old(self).st().ptr],
                ),
                count: old(self).st().count,
                ..old(self).st()
            }),
    {
        let chr = self.get_cell_value();
        self.output.push(chr);
    }

    /// Consumes one byte of input into the active cell.  When the cache is
    /// empty, the next queued raw line (if any) is consumed: its trailing
    /// line terminator is stripped, its ASCII bytes refill the cache, and
    /// bytes are then taken from the cache's end — so input arrives in
    /// reverse order within each line.  Fails when a byte is required but
    /// neither the cache nor the queued lines can supply one.
    fn get_char(&mut self) -> (r: Result<(), ExecError>)
        requires
            old(self).wf(),
            old(self).cells@.len() > 0,
        ensures
            final(self).wf(),
            final(self).cfg() == old(self).cfg(),
            match r {
                Ok(()) => refill_cache(old(self).st().lines, old(self).st().cache).len() > 0
                    && final(self).st() == (MachineState {
                    count: old(self).st().count,
                    ..getch_st(old(self).st())
                }),
                Err(e) => e == ExecError::InputExhausted && refill_cache(
                    old(self).st().lines,
                    old(self).st().cache,
                ).len() == 0 && final(self).st() == getch_fail_st(old(self).st()),
            },
    {
        let ghost s_old = self.st();
        if self.stdin_buffer.len() == 0 {
            if self.next_line < self.input_lines.len() {
                let ghost line = self.input_lines@[self.next_line as int]@;
                proof {
                    assert(s_old.lines[0] == line);
                }
                let line_len = self.input_lines[self.next_line].len();
                let mut end = line_len;
                if end > 0 && self.input_lines[self.next_line][end - 1] == 10 {
                    end -= 1;
                }
                if end > 0 && self.input_lines[self.next_line][end - 1] == 13 {
                    end -= 1;
                }
                proof {
                    assert(line.take(end as int) =~= strip_eol(line));
                }
                let mut j: usize = 0;
                while j < end
                    invariant
                        j <= end,
                        end <= line.len(),
                        self.wf(),
                        self.cells@.len() > 0,
                        self.next_line < self.input_lines@.len(),
                        line == self.input_lines@[self.next_line as int]@,
                        self.stdin_buffer@ == ascii_only(line.take(end as int).take(j as int)),
                        self.cells == old(self).cells,
                        self.cell_ptr == old(self).cell_ptr,
                        self.root_code == old(self).root_code,
                        self.auto_flush_stdout == old(self).auto_flush_stdout,
                        self.input_lines == old(self).input_lines,
                        self.next_line == old(self).next_line,
                        self.output == old(self).output,
                        self.executed_instr_count_buf == old(self).executed_instr_count_buf,
                        self.executed_instr_count == old(self).executed_instr_count,
                        self.total_count == old(self).total_count,
                    decreases end - j,
                {
                    let b = self.input_lines[self.next_line][j];
                    if b < 128 {
                        self.stdin_buffer.push(b);
                    }
                    proof {
                        let stripped = line.take(end as int);
                        assert(stripped.take(j + 1).drop_last() =~= stripped.take(j as int));
                        assert(stripped.take(j + 1).last() == line[j as int]);
                    }
                    j += 1;
                }
                self.next_line += 1;
                proof {
                    assert(line.take(end as int).take(end as int) =~= line.take(end as int));
                    assert(self.stdin_buffer@ == line_cache(line));
                    assert(lines_view(self.input_lines@).skip(self.next_line as int) =~= s_old
                        .lines.drop_first());
                }
            }
            if self.stdin_buffer.len() == 0 {
                proof {
                    assert(refill_cache(s_old.lines, s_old.cache).len() == 0);
                    assert(self.st() =~~= getch_fail_st(s_old));
                }
                return Err(ExecError::InputExhausted);
            }
        }
        proof {
            assert(self.stdin_buffer@ == refill_cache(s_old.lines, s_old.cache));
            assert(lines_view(self.input_lines@).skip(self.next_line as int) == refill_lines(
                s_old.lines,
                s_old.cache,
            ));
        }
        let b = match self.stdin_buffer.pop() {
            Some(v) => v,
            None => {
                proof {
                    assert(false);
                }
                0
            },
        };
        self.set_cell_value(b);
        proof {
            assert(self.st() =~~= (MachineState { count: s_old.count, ..getch_st(s_old) }));
        }
        Ok(())
    }

    /// Counts one executed instruction: buffers the increment locally and,
    /// past a threshold, adds the whole batch to the shared atomic counter
    /// in one step, keeping cross-thread synchronization rare.  The ghost
    /// ledger `published_count` grows by exactly the batch handed to
    /// `fetch_add`, so `wf` keeps published plus buffered equal to the true
    /// count.
    fn inc_executed_instr_count(&mut self)
        requires
            old(self).wf(),
        ensures
            final(self).wf(),
            final(self).cfg() == old(self).cfg(),
            final(self).st() == (bump(old(self).st())),
    {
        if self.executed_instr_count_buf > 100000 {
            let batch = self.executed_instr_count_buf + 1;
            let _ = self.executed_instr_count.fetch_add(batch, Ordering::SeqCst);
            self.executed_instr_count_buf = 0;
            proof {
                self.published_count@ = (self.published_count@ + batch) as nat;
            }
        } else {
            self.executed_instr_count_buf += 1;
        }
        proof {
            self.total_count@ = self.total_count@ + 1;
        }
    }

    /// Runs one instruction sequence (the whole program or one loop body) to
    /// completion, left to right, re-entering the same frame on loop
    /// iteration and recursing into a fresh frame for each nested `Loop`.
    /// `fuel` bounds loop entries and re-entries, exactly as in [`run_seq`].
    ///
    /// The result — normal completion, a fatal error, or an exhausted
    /// budget — is exactly the outcome the specification interpreter gives
    /// the sequence with that fuel.
    #[verifier::rlimit(100)]
    fn process(&mut self, instrs: &Vec<Token>, fuel: u64) -> (r: Result<(), ExecError>)
        requires
            old(self).wf(),
        ensures
            final(self).wf(),
            final(self).cfg() == old(self).cfg(),
            final(self).cells@.len() == old(self).cells@.len(),
            match r {
                Ok(()) => run_seq(instrs@, 0, old(self).st(), fuel as nat) == RunOutcome::Done(
                    final(self).st(),
                ),
                Err(ExecError::StepLimit) => run_seq(instrs@, 0, old(self).st(), fuel as nat)
                    == RunOutcome::Spin(final(self).st()),
                Err(e) => run_seq(instrs@, 0, old(self).st(), fuel as nat) == RunOutcome::Failed(
                    e,
                    final(self).st(),
                ),
            },
        decreases instrs@,
    {
        let ghost ts = instrs@;
        let ghost s0 = self.st();
        let mut i: usize = 0;
        let mut fuel_cur: u64 = fuel;
        while i < instrs.len()
            invariant
                self.wf(),
                i <= instrs.len(),
                ts == instrs@,
                self.cfg() == old(self).cfg(),
                self.cells@.len() == old(self).cells@.len(),
                run_seq(ts, 0, s0, fuel as nat) == run_seq(ts, i as int, self.st(), fuel_cur as nat),
                s0 == old(self).st(),
            decreases fuel_cur, instrs@.len() - i,
        {
            let ghost ii = i as int;
            let ghost s_b = self.st();
            let ghost fc = fuel_cur as nat;
            match &instrs[i] {
                Token::MoveFwd(n) => {
                    let n = *n;
                    let len = self.cells.len();
                    let room = (len - self.cell_ptr) as u64;
                    if n < room {
                        self.inc_cell_ptr(n as usize);
                        self.inc_executed_instr_count();
                        proof {
                            assert(self.st() =~~= move_fwd_st(s_b, n));
                            assert(run_seq(ts, ii, s_b, fc) == run_seq(ts, ii + 1, self.st(), fc));
                        }
                        i += 1;
                    } else {
                        proof {
                            assert(run_seq(ts, ii, s_b, fc) == RunOutcome::Failed(
                                ExecError::TapeBounds,
                                s_b,
                            ));
                        }
                        return Err(ExecError::TapeBounds);
                    }
                },
                Token::MoveBack(n) => {
                    let n = *n;
                    let len = self.cells.len();
                    if len > 0 && n <= self.cell_ptr as u64 {
                        self.dec_cell_ptr(n as usize);
                        self.inc_executed_instr_count();
                        proof {
                            assert(self.st() =~~= move_back_st(s_b, n));
                            assert(run_seq(ts, ii, s_b, fc) == run_seq(ts, ii + 1, self.st(), fc));
                        }
                        i += 1;
                    } else {
                        proof {
                            assert(run_seq(ts, ii, s_b, fc) == RunOutcome::Failed(
                                ExecError::TapeBounds,
                                s_b,
                            ));
                        }
                        return Err(ExecError::TapeBounds);
                    }
                },
                Token::Inc(n) => {
                    let n = *n;
                    if self.cells.len() > 0 {
                        self.inc_curr_cell((n % 256) as u8);
                        self.inc_executed_instr_count();
                        proof {
                            lemma_wrap_mod(s_b.cells[s_b.ptr], n);
                            assert(self.st() =~~= set_cell_st(
                                s_b,
                                wrap_add(s_b.cells[s_b.ptr], n),
                            ));
                            assert(run_seq(ts, ii, s_b, fc) == run_seq(ts, ii + 1, self.st(), fc));
                        }
                        i += 1;
                    } else {
                        proof {
                            assert(run_seq(ts, ii, s_b, fc) == RunOutcome::Failed(
                                ExecError::TapeBounds,
                                s_b,
                            ));
                        }
                        return Err(ExecError::TapeBounds);
                    }
                },
                Token::Dec(n) => {
                    let n = *n;
                    if self.cells.len() > 0 {
                        self.dec_curr_cell((n % 256) as u8);
                        self.inc_executed_instr_count();
                        proof {
                            lemma_wrap_mod(s_b.cells[s_b.ptr], n);
                            assert(self.st() =~~= set_cell_st(
                                s_b,
                                wrap_sub(s_b.cells[s_b.ptr], n),
                            ));
                            assert(run_seq(ts, ii, s_b, fc) == run_seq(ts, ii + 1, self.st(), fc));
                        }
                        i += 1;
                    } else {
                        proof {
                            assert(run_seq(ts, ii, s_b, fc) == RunOutcome::Failed(
                                ExecError::TapeBounds,
                                s_b,
                            ));
                        }
                        return Err(ExecError::TapeBounds);
                    }
                },
                Token::PutCh => {
                    if self.cells.len() > 0 {
                        self.put_char();
                        self.inc_executed_instr_count();
                        proof {
                            assert(self.st() =~~= putch_st(s_b));
                            assert(run_seq(ts, ii, s_b, fc) == run_seq(ts, ii + 1, self.st(), fc));
                        }
                        i += 1;
                    } else {
                        proof {
                            assert(run_seq(ts, ii, s_b, fc) == RunOutcome::Failed(
                                ExecError::TapeBounds,
                                s_b,
                            ));
                        }
                        return Err(ExecError::TapeBounds);
                    }
                },
                Token::GetCh => {
                    if self.cells.len() > 0 {
                        match self.get_char() {
                            Ok(()) => {
                                self.inc_executed_instr_count();
                                proof {
                                    assert(self.st() =~~= getch_st(s_b));
                                    assert(run_seq(ts, ii, s_b, fc) == run_seq(
                                        ts,
                                        ii + 1,
                                        self.st(),
                                        fc,
                                    ));
                                }
                                i += 1;
                            },
                            Err(e) => {
                                proof {
                                    assert(run_seq(ts, ii, s_b, fc) == RunOutcome::Failed(
                                        ExecError::InputExhausted,
                                        self.st(),
                                    ));
                                }
                                return Err(e);
                            },
                        }
                    } else {
                        proof {
                            assert(run_seq(ts, ii, s_b, fc) == RunOutcome::Failed(
                                ExecError::TapeBounds,
                                s_b,
                            ));
                        }
                        return Err(ExecError::TapeBounds);
                    }
                },
                Token::LoopL => {
                    if self.cells.len() > 0 {
                        let v = self.get_cell_value();
                        self.inc_executed_instr_count();
                        if v == 0 {
                            proof {
                                assert(self.st() =~~= bump(s_b));
                                assert(run_seq(ts, ii, s_b, fc) == RunOutcome::Done(self.st()));
                                assert(run_seq(ts, ts.len() as int, self.st(), fc)
                                    == RunOutcome::Done(self.st()));
                            }
                            i = instrs.len();
                        } else {
                            proof {
                                assert(self.st() =~~= bump(s_b));
                                assert(run_seq(ts, ii, s_b, fc) == run_seq(
                                    ts,
                                    ii + 1,
                                    self.st(),
                                    fc,
                                ));
                            }
                            i += 1;
                        }
                    } else {
                        proof {
                            assert(run_seq(ts, ii, s_b, fc) == RunOutcome::Failed(
                                ExecError::TapeBounds,
                                s_b,
                            ));
                        }
                        return Err(ExecError::TapeBounds);
                    }
                },
                Token::LoopR => {
                    if self.cells.len() > 0 {
                        let v = self.get_cell_value();
                        self.inc_executed_instr_count();
                        if v != 0 {
                            if fuel_cur == 0 {
                                proof {
                                    assert(self.st() =~~= bump(s_b));
                                    assert(run_seq(ts, ii, s_b, fc) == RunOutcome::Spin(
                                        self.st(),
                                    ));
                                }
                                return Err(ExecError::StepLimit);
                            }
                            fuel_cur -= 1;
                            proof {
                                assert(self.st() =~~= bump(s_b));
                                assert(run_seq(ts, ii, s_b, fc) == run_seq(
                                    ts,
                                    0,
                                    self.st(),
                                    fuel_cur as nat,
                                ));
                            }
                            i = 0;
                        } else {
                            proof {
                                assert(self.st() =~~= bump(s_b));
                                assert(run_seq(ts, ii, s_b, fc) == run_seq(
                                    ts,
                                    ii + 1,
                                    self.st(),
                                    fc,
                                ));
                            }
                            i += 1;
                        }
                    } else {
                        proof {
                            assert(run_seq(ts, ii, s_b, fc) == RunOutcome::Failed(
                                ExecError::TapeBounds,
                                s_b,
                            ));
                        }
                        return Err(ExecError::TapeBounds);
                    }
                },
                Token::Loop(inner_instr) => {
                    if fuel_cur == 0 {
                        proof {
                            assert(run_seq(ts, ii, s_b, fc) == RunOutcome::Spin(self.st()));
                        }
                        return Err(ExecError::StepLimit);
                    }
                    match self.process(inner_instr, fuel_cur - 1) {
                        Ok(()) => {
                            let ghost mid = self.st();
                            self.inc_executed_instr_count();
                            proof {
                                assert(self.st() =~~= bump(mid));
                                assert(run_seq(ts, ii, s_b, fc) == run_seq(
                                    ts,
                                    ii + 1,
                                    self.st(),
                                    fc,
                                ));
                            }
                            i += 1;
                        },
                        Err(e) => {
                            proof {
                                if e is StepLimit {
                                    assert(run_seq(ts, ii, s_b, fc) == RunOutcome::Spin(
                                        self.st(),
                                    ));
                                } else {
                                    assert(run_seq(ts, ii, s_b, fc) == RunOutcome::Failed(
                                        e,
                                        self.st(),
                                    ));
                                }
                            }
                            return Err(e);
                        },
                    }
                },
            }
        }
        proof {
            assert(run_seq(ts, instrs@.len() as int, self.st(), fuel_cur as nat)
                == RunOutcome::Done(self.st()));
        }
        Ok(())
    }

    /// Runs the whole program to completion against the tape, performing
    /// the buffered input/output effects and advancing the instruction
    /// counter.  The result is exactly the specification interpreter's
    /// outcome on the stored program, granted the largest expressible loop
    /// budget; the program itself is never changed.  By
    /// [`lemma_run_seq_mono`], any outcome other than `StepLimit` is the
    /// program's fuel-independent meaning.
    pub fn main_loop(&mut self) -> (r: Result<(), ExecError>)
        requires
            old(self).wf(),
        ensures
            final(self).wf(),
            final(self).cfg() == old(self).cfg(),
            final(self).cells@.len() == old(self).cells@.len(),
            match r {
                Ok(()) => run_seq(old(self).root_code@, 0, old(self).st(), u64::MAX as nat)
                    == RunOutcome::Done(final(self).st()),
                Err(ExecError::StepLimit) => run_seq(
                    old(self).root_code@,
                    0,
                    old(self).st(),
                    u64::MAX as nat,
                ) == RunOutcome::Spin(final(self).st()),
                Err(e) => run_seq(old(self).root_code@, 0, old(self).st(), u64::MAX as nat)
                    == RunOutcome::Failed(e, final(self).st()),
            },
    {
        let mut root_code: Vec<Token> = Vec::new();
        core::mem::swap(&mut root_code, &mut self.root_code);
        let r = self.process(&root_code, u64::MAX);
        core::mem::swap(&mut root_code, &mut self.root_code);
        r
    }
}

impl Default for Interpreter {
    /// An interpreter with an empty program and an empty tape.
    fn default() -> (r: Self)
        ensures
            r.wf(),
            r.root_code@ == Seq::<Token>::empty(),
            r.auto_flush_stdout == false,
            r.st().cells == Seq::<u8>::empty(),
            r.st().ptr == 0,
            r.st().lines == Seq::<Seq<u8>>::empty(),
            r.st().cache == Seq::<u8>::empty(),
            r.st().output == Seq::<u8>::empty(),
            r.st().count == 0,
            r.executed_instr_count_buf == 0,
    {
        let r = Interpreter::new(Vec::new(), 0, false);
        proof {
            assert(r.st().cells =~= Seq::<u8>::empty());
        }
        r
    }
}

} // verus!
