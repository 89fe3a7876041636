//! The machine that generated programs are written for, and the proof that
//! a generated program does on it what the interpreter does with the
//! source.
//!
//! The machine is flat: a tape of byte cells, a pointer register, and a
//! program of fragments that it walks through from the top. It is stated
//! here instruction by instruction, at the level at which the generator
//! chooses its code; nothing in this file is executable.

use vstd::prelude::*;
use crate::BFToken;
use crate::codegen::{
    code_fragment, fragments, instr_count, lemma_one_label_per_instruction, Fragment,
};
use crate::interp::{
    cell_down, cell_up, input_head, input_tail, ptr_left, ptr_right, run_from, Machine, RunStatus,
    Step,
};
use crate::nesting::{
    balanced, first_instr, lemma_balanced_begin_is_closed, lemma_balanced_end_has_begin,
    lemma_first_instr, lemma_first_instr_is, lemma_matching_close, lemma_matching_open,
    lemma_no_instr_left, matching_close, matching_open, token_at,
};

verus! {

/// Number of cells that the runtime preamble of a generated program sets
/// aside, and the number of values of its pointer register.
pub const TARGET_CELLS: usize = 65536;

/// The state of the target machine.
pub struct Target {
    /// Index of the fragment that runs next.
    pub at: int,
    /// The cells.
    pub cells: Seq<u8>,
    /// Index of the current cell.
    pub ptr: int,
}

/// Index of the label of place `n` in `prog`.
pub open spec fn label_index(prog: Seq<Fragment>, n: int) -> int {
    choose|k: int| 0 <= k < prog.len() && prog[k] == Fragment::Label(n)
}

impl Target {
    /// The machine as the preamble leaves it: at the top of the program,
    /// on blank cells.
    pub open spec fn start() -> Target {
        Target { at: 0, cells: Seq::new(TARGET_CELLS as nat, |i: int| 0u8), ptr: 0 }
    }

    /// The cell pointer is on the tape.
    pub open spec fn wf(self) -> bool {
        &&& self.cells.len() == TARGET_CELLS
        &&& 0 <= self.ptr < self.cells.len()
    }

    /// The value of the current cell.
    pub open spec fn cell(self) -> u8 {
        self.cells[self.ptr]
    }

    /// The machine with `value` in its current cell.
    pub open spec fn with_cell(self, value: u8) -> Target {
        Target { cells: self.cells.update(self.ptr, value), ..self }
    }

    /// The machine about to run fragment `at`.
    pub open spec fn goto(self, at: int) -> Target {
        Target { at, ..self }
    }

    /// The machine after its input routine returned: the current cell holds
    /// the byte that was read, or zero at the end of the input.
    pub open spec fn after_input(self, byte: Option<u8>) -> Target {
        self.with_cell(
            match byte {
                Some(b) => b,
                None => 0,
            },
        )
    }

    /// Runs one fragment of `prog`. A label does nothing. The code of an
    /// instruction moves the pointer, changes the current cell, or calls
    /// the output or the input routine; the breakpoint has no code. A
    /// branch tests the current cell and goes to its label or falls
    /// through. Below the last fragment lies the exit sequence.
    pub open spec fn step(self, prog: Seq<Fragment>) -> (Target, Step) {
        let on = self.goto(self.at + 1);
        if !(0 <= self.at < prog.len()) {
            (self, Step::Finished)
        } else {
            match prog[self.at] {
                Fragment::Label(_) => (on, Step::Ran),
                Fragment::Plain(BFToken::PtrIncr) => (
                    Target { ptr: ptr_right(self.ptr, self.cells.len() as int), ..on },
                    Step::Ran,
                ),
                Fragment::Plain(BFToken::PtrDecr) => (
                    Target { ptr: ptr_left(self.ptr, self.cells.len() as int), ..on },
                    Step::Ran,
                ),
                Fragment::Plain(BFToken::CellIncr) => (on.with_cell(cell_up(self.cell())), Step::Ran),
                Fragment::Plain(BFToken::CellDecr) => (
                    on.with_cell(cell_down(self.cell())),
                    Step::Ran,
                ),
                Fragment::Plain(BFToken::CellOut) => (on, Step::Output(self.cell())),
                Fragment::Plain(BFToken::CellIn) => (on, Step::Input),
                Fragment::Plain(_) => (on, Step::Ran),
                Fragment::BranchIfZero(n) => if self.cell() == 0 {
                    (self.goto(label_index(prog, n)), Step::Ran)
                } else {
                    (on, Step::Ran)
                },
                Fragment::BranchIfNonzero(n) => if self.cell() != 0 {
                    (self.goto(label_index(prog, n)), Step::Ran)
                } else {
                    (on, Step::Ran)
                },
            }
        }
    }
}

/// Runs `prog` on machine `t` for at most `steps` fragments, feeding it
/// `input` and appending what it writes to `output`: how the run ends and
/// all output.
pub open spec fn target_run(
    prog: Seq<Fragment>,
    t: Target,
    input: Seq<u8>,
    output: Seq<u8>,
    steps: nat,
) -> (RunStatus, Seq<u8>)
    decreases steps,
{
    if steps == 0 {
        (RunStatus::StepLimit, output)
    } else {
        let (next, step) = t.step(prog);
        let left = (steps - 1) as nat;
        match step {
            Step::Finished => (RunStatus::Finished, output),
            Step::Ran => target_run(prog, next, input, output, left),
            Step::Output(byte) => target_run(prog, next, input, output.push(byte), left),
            Step::Input => target_run(
                prog,
                next.after_input(input_head(input)),
                input_tail(input),
                output,
                left,
            ),
            Step::Breakpoint => (RunStatus::Breakpoint, output),
            Step::Unbalanced => (RunStatus::Unbalanced, output),
        }
    }
}

/// The interpreter's run of at most `steps` steps never moves the cell
/// pointer over an end of its tape.
pub open spec fn stays_on_tape(m: Machine, input: Seq<u8>, steps: nat) -> bool
    decreases steps,
{
    if steps == 0 {
        true
    } else {
        let (next, step) = m.step();
        let token = token_at(m.src, first_instr(m.src, m.pc));
        let left = (steps - 1) as nat;
        &&& token == Some(BFToken::PtrIncr) ==> m.ptr + 1 < m.cells.len()
        &&& token == Some(BFToken::PtrDecr) ==> m.ptr > 0
        &&& match step {
            Step::Ran | Step::Output(_) => stays_on_tape(next, input, left),
            Step::Input => stays_on_tape(
                next.after_input(input_head(input)),
                input_tail(input),
                left,
            ),
            _ => true,
        }
    }
}

/// Index, in the program generated for `src`, of the label at which the
/// code for the instructions from place `pc` on begins.
pub open spec fn place_index(src: Seq<u8>, pc: int) -> int {
    2 * (instr_count(src, 0) - instr_count(src, pc))
}

/// The interpreter `m` and the target machine `t` are at the same point of
/// the same computation: `t` stands at the label for the place of `m`, with
/// the same cell pointer, and its tape begins with the tape of `m`.
pub open spec fn related(src: Seq<u8>, m: Machine, t: Target) -> bool {
    &&& m.wf()
    &&& t.wf()
    &&& m.src == src
    &&& t.ptr == m.ptr
    &&& t.at == place_index(src, m.pc)
    &&& forall|c: int| 0 <= c < m.cells.len() ==> t.cells[c] == m.cells[c]
}

/// The fragments generated from place `pc` on are the tail of those
/// generated from an earlier place `s` on, but for the number of the first
/// label; and that too is the same where `pc` is a place that gets a label.
proof fn lemma_fragments_tail(src: Seq<u8>, s: int, pc: int)
    requires
        0 <= s <= pc <= src.len(),
    ensures
        ({
            let whole = fragments(src, s);
            let tail = fragments(src, pc);
            let d = 2 * (instr_count(src, s) - instr_count(src, pc));
            &&& d >= 0
            &&& whole.len() == d + tail.len()
            &&& whole[d] is Label
            &&& forall|j: int| 1 <= j < tail.len() ==> whole[d + j] == #[trigger] tail[j]
            &&& (pc == s || token_at(src, pc - 1) is Some) ==> whole[d] == Fragment::Label(pc)
        }),
    decreases src.len() - s,
{
    let i = first_instr(src, s);
    let whole = fragments(src, s);
    let tail = fragments(src, pc);
    lemma_first_instr(src, s);
    if token_at(src, i) is Some {
        let rest = fragments(src, i + 1);
        assert(whole =~= seq![Fragment::Label(s), code_fragment(src, i, token_at(src, i).unwrap())]
            + rest);
        if pc <= i {
            lemma_first_instr_is(src, pc, i);
            assert(tail =~= seq![Fragment::Label(pc), code_fragment(src, i, token_at(src, i).unwrap())]
                + rest);
            assert forall|j: int| 1 <= j < tail.len() implies whole[j] == #[trigger] tail[j] by {
                if j >= 2 {
                    assert(whole[j] == rest[j - 2]);
                    assert(tail[j] == rest[j - 2]);
                }
            }
            if pc > s {
                assert(token_at(src, pc - 1) is None);
            }
        } else {
            lemma_fragments_tail(src, i + 1, pc);
            let d = 2 * (instr_count(src, i + 1) - instr_count(src, pc));
            assert(whole[d + 2] == rest[d]);
            assert forall|j: int| 1 <= j < tail.len() implies whole[d + 2 + j] == #[trigger] tail[j] by {
                assert(whole[d + j + 2] == rest[d + j]);
            }
        }
    } else {
        lemma_no_instr_left(src, s, pc);
        if pc > s {
            assert(token_at(src, pc - 1) is None);
        }
    }
}

/// Where the interpreter has an instruction before it, the program holds a
/// label at the index of the place, then the code of that instruction, then
/// the label at the index of the place behind the instruction.
proof fn lemma_place_with_instr(src: Seq<u8>, pc: int)
    requires
        0 <= pc <= src.len(),
        token_at(src, first_instr(src, pc)) is Some,
    ensures
        ({
            let prog = fragments(src, 0);
            let k = place_index(src, pc);
            let i = first_instr(src, pc);
            &&& 0 <= k
            &&& k + 2 < prog.len()
            &&& prog[k] is Label
            &&& prog[k + 1] == code_fragment(src, i, token_at(src, i).unwrap())
            &&& place_index(src, i + 1) == k + 2
            &&& pc <= i < src.len()
        }),
{
    lemma_fragments_tail(src, 0, pc);
    lemma_first_instr(src, pc);
    let tail = fragments(src, pc);
    let i = first_instr(src, pc);
    let rest = fragments(src, i + 1);
    assert(tail =~= seq![Fragment::Label(pc), code_fragment(src, i, token_at(src, i).unwrap())]
        + rest);
    assert(rest.len() >= 1) by {
        lemma_fragments_tail(src, i + 1, i + 1);
    }
    assert(tail[1] == code_fragment(src, i, token_at(src, i).unwrap()));
}

/// Where the interpreter has no instruction left, the label at the index of
/// its place is the last fragment of the program.
proof fn lemma_place_at_end(src: Seq<u8>, pc: int)
    requires
        0 <= pc <= src.len(),
        token_at(src, first_instr(src, pc)) is None,
    ensures
        ({
            let prog = fragments(src, 0);
            let k = place_index(src, pc);
            &&& 0 <= k
            &&& k + 1 == prog.len()
            &&& prog[k] is Label
        }),
{
    lemma_fragments_tail(src, 0, pc);
}

/// A branch to the label of a place that has one arrives at the index of
/// that place.
proof fn lemma_label_index(src: Seq<u8>, n: int)
    requires
        0 <= n <= src.len(),
        n == 0 || token_at(src, n - 1) is Some,
    ensures
        label_index(fragments(src, 0), n) == place_index(src, n),
{
    let prog = fragments(src, 0);
    let k = place_index(src, n);
    lemma_fragments_tail(src, 0, n);
    assert(0 <= k < prog.len() && prog[k] == Fragment::Label(n));
    let found = label_index(prog, n);
    lemma_one_label_per_instruction(src);
    if found < k {
        assert(prog[found] matches Fragment::Label(a) ==> (prog[k] matches Fragment::Label(b) ==> a < b));
    } else if k < found {
        assert(prog[k] matches Fragment::Label(a) ==> (prog[found] matches Fragment::Label(b) ==> a < b));
    }
}

/// A run of the target machine that ends within `steps` fragments ends the
/// same way, with the same output, however many more it is allowed.
pub proof fn lemma_target_run_more_steps(
    prog: Seq<Fragment>,
    t: Target,
    input: Seq<u8>,
    output: Seq<u8>,
    steps: nat,
    more: nat,
)
    requires
        steps <= more,
        target_run(prog, t, input, output, steps).0 != RunStatus::StepLimit,
    ensures
        target_run(prog, t, input, output, more) == target_run(prog, t, input, output, steps),
    decreases steps,
{
    if steps > 0 {
        let (next, step) = t.step(prog);
        let left = (steps - 1) as nat;
        let more_left = (more - 1) as nat;
        match step {
            Step::Ran => {
                lemma_target_run_more_steps(prog, next, input, output, left, more_left);
            },
            Step::Output(byte) => {
                lemma_target_run_more_steps(prog, next, input, output.push(byte), left, more_left);
            },
            Step::Input => {
                lemma_target_run_more_steps(
                    prog,
                    next.after_input(input_head(input)),
                    input_tail(input),
                    output,
                    left,
                    more_left,
                );
            },
            _ => {},
        }
    }
}

/// At the label of a place the target machine does nothing and goes on to
/// the fragment behind it.
proof fn lemma_sim_label(src: Seq<u8>, m: Machine, t: Target)
    requires
        related(src, m, t),
    ensures
        t.step(fragments(src, 0)) == (t.goto(t.at + 1), Step::Ran),
{
    if token_at(src, first_instr(src, m.pc)) is Some {
        lemma_place_with_instr(src, m.pc);
    } else {
        lemma_place_at_end(src, m.pc);
    }
}

/// Where the interpreter finds no instruction, the target machine has come
/// to the end of the program.
proof fn lemma_sim_end(src: Seq<u8>, m: Machine, t: Target)
    requires
        related(src, m, t),
        token_at(src, first_instr(src, m.pc)) is None,
    ensures
        m.step().1 == Step::Finished,
        t.goto(t.at + 1).step(fragments(src, 0)).1 == Step::Finished,
{
    lemma_place_at_end(src, m.pc);
}

/// An instruction that is no bracket and no breakpoint does to the target
/// machine what it does to the interpreter, as long as the pointer stays
/// on the interpreter's tape.
proof fn lemma_sim_plain(src: Seq<u8>, m: Machine, t: Target)
    requires
        related(src, m, t),
        token_at(src, first_instr(src, m.pc)) is Some,
        token_at(src, first_instr(src, m.pc)) != Some(BFToken::JumpFwd),
        token_at(src, first_instr(src, m.pc)) != Some(BFToken::JumpBwd),
        token_at(src, first_instr(src, m.pc)) != Some(BFToken::Break),
        token_at(src, first_instr(src, m.pc)) == Some(BFToken::PtrIncr) ==> m.ptr + 1 < m.cells.len(),
        token_at(src, first_instr(src, m.pc)) == Some(BFToken::PtrDecr) ==> m.ptr > 0,
    ensures
        t.goto(t.at + 1).step(fragments(src, 0)).1 == m.step().1,
        related(src, m.step().0, t.goto(t.at + 1).step(fragments(src, 0)).0),
        forall|byte: Option<u8>|
            related(
                src,
                #[trigger] m.step().0.after_input(byte),
                t.goto(t.at + 1).step(fragments(src, 0)).0.after_input(byte),
            ),
{
    lemma_place_with_instr(src, m.pc);
}

/// A loop-begin takes both machines into the loop, or both behind the
/// loop-end that closes it. The interpreter gets there in two steps: to the
/// loop-end, and over it.
proof fn lemma_sim_begin(src: Seq<u8>, m: Machine, t: Target)
    requires
        balanced(src),
        related(src, m, t),
        token_at(src, first_instr(src, m.pc)) == Some(BFToken::JumpFwd),
    ensures
        t.goto(t.at + 1).step(fragments(src, 0)).1 == Step::Ran,
        m.step().1 == Step::Ran,
        m.cell() != 0 ==> related(src, m.step().0, t.goto(t.at + 1).step(fragments(src, 0)).0),
        m.cell() == 0 ==> m.step().0.step().1 == Step::Ran && related(
            src,
            m.step().0.step().0,
            t.goto(t.at + 1).step(fragments(src, 0)).0,
        ),
{
    let i = first_instr(src, m.pc);
    lemma_place_with_instr(src, m.pc);
    lemma_balanced_begin_is_closed(src, i);
    let c = matching_close(src, i + 1).unwrap();
    lemma_matching_close(src, i + 1, c);
    if m.cell() == 0 {
        let there = m.at(c);
        assert(m.step().0 == there);
        assert(first_instr(src, c) == c);
        lemma_matching_open(src, i, c);
        assert(there.step() == (m.at(c + 1), Step::Ran));
        lemma_label_index(src, c + 1);
    }
}

/// A loop-end takes both machines behind it, or both behind the loop-begin
/// that it closes. The interpreter gets there in two steps: to the
/// loop-begin, and over it.
proof fn lemma_sim_finish(src: Seq<u8>, m: Machine, t: Target)
    requires
        balanced(src),
        related(src, m, t),
        token_at(src, first_instr(src, m.pc)) == Some(BFToken::JumpBwd),
    ensures
        t.goto(t.at + 1).step(fragments(src, 0)).1 == Step::Ran,
        m.step().1 == Step::Ran,
        m.cell() == 0 ==> related(src, m.step().0, t.goto(t.at + 1).step(fragments(src, 0)).0),
        m.cell() != 0 ==> m.step().0.step().1 == Step::Ran && related(
            src,
            m.step().0.step().0,
            t.goto(t.at + 1).step(fragments(src, 0)).0,
        ),
{
    let i = first_instr(src, m.pc);
    lemma_place_with_instr(src, m.pc);
    lemma_balanced_end_has_begin(src, i);
    let p = matching_open(src, i).unwrap();
    if m.cell() != 0 {
        let there = m.at(p);
        assert(m.step().0 == there);
        assert(first_instr(src, p) == p);
        assert(there.step() == (m.at(p + 1), Step::Ran));
        lemma_label_index(src, p + 1);
    }
}

/// From related states the two machines run to the same end with the same
/// output; the target machine needs at most two fragments for each step of
/// the interpreter.
proof fn lemma_simulation(
    src: Seq<u8>,
    m: Machine,
    t: Target,
    input: Seq<u8>,
    output: Seq<u8>,
    steps: nat,
)
    requires
        balanced(src),
        related(src, m, t),
        run_from(m, input, output, steps).0 == RunStatus::Finished,
        stays_on_tape(m, input, steps),
    ensures
        target_run(fragments(src, 0), t, input, output, 2 * steps) == run_from(m, input, output, steps),
    decreases steps,
{
    let prog = fragments(src, 0);
    let token = token_at(src, first_instr(src, m.pc));
    let (m1, step) = m.step();
    let t1 = t.goto(t.at + 1);
    let (t2, code_step) = t1.step(prog);
    let left = (steps - 1) as nat;
    let twice = (2 * steps) as nat;
    let twice_left = (2 * steps - 2) as nat;
    lemma_sim_label(src, m, t);
    assert(target_run(prog, t, input, output, twice) == target_run(
        prog,
        t1,
        input,
        output,
        (twice - 1) as nat,
    ));
    match token {
        None => {
            lemma_sim_end(src, m, t);
        },
        Some(BFToken::Break) => {},
        Some(BFToken::JumpFwd) => {
            lemma_sim_begin(src, m, t);
            assert(target_run(prog, t1, input, output, (twice - 1) as nat) == target_run(
                prog,
                t2,
                input,
                output,
                twice_left,
            ));
            if m.cell() != 0 {
                lemma_simulation(src, m1, t2, input, output, left);
            } else {
                let m2 = m1.step().0;
                let rest = (steps - 2) as nat;
                assert(run_from(m1, input, output, left) == run_from(m2, input, output, rest));
                assert(stays_on_tape(m1, input, left));
                lemma_simulation(src, m2, t2, input, output, rest);
                lemma_target_run_more_steps(prog, t2, input, output, 2 * rest, twice_left);
            }
        },
        Some(BFToken::JumpBwd) => {
            lemma_sim_finish(src, m, t);
            assert(target_run(prog, t1, input, output, (twice - 1) as nat) == target_run(
                prog,
                t2,
                input,
                output,
                twice_left,
            ));
            if m.cell() == 0 {
                lemma_simulation(src, m1, t2, input, output, left);
            } else {
                let m2 = m1.step().0;
                let rest = (steps - 2) as nat;
                assert(run_from(m1, input, output, left) == run_from(m2, input, output, rest));
                assert(stays_on_tape(m1, input, left));
                lemma_simulation(src, m2, t2, input, output, rest);
                lemma_target_run_more_steps(prog, t2, input, output, 2 * rest, twice_left);
            }
        },
        Some(_) => {
            lemma_sim_plain(src, m, t);
            match step {
                Step::Output(byte) => {
                    lemma_simulation(src, m1, t2, input, output.push(byte), left);
                },
                Step::Input => {
                    let byte = input_head(input);
                    assert(related(src, m1.after_input(byte), t2.after_input(byte)));
                    lemma_simulation(
                        src,
                        m1.after_input(byte),
                        t2.after_input(byte),
                        input_tail(input),
                        output,
                        left,
                    );
                },
                _ => {
                    lemma_simulation(src, m1, t2, input, output, left);
                },
            }
        },
    }
}

/// The two engines agree. When the interpreter, given `input`, runs the
/// balanced program `src` to its end within `steps` steps and keeps its
/// cell pointer on its tape, then the target machine, given the same input,
/// runs the program generated for `src` to its end within twice as many
/// fragments and writes the same output.
pub proof fn lemma_engines_agree(src: Seq<u8>, input: Seq<u8>, steps: nat)
    requires
        balanced(src),
        run_from(Machine::start(src), input, Seq::<u8>::empty(), steps).0 == RunStatus::Finished,
        stays_on_tape(Machine::start(src), input, steps),
    ensures
        target_run(fragments(src, 0), Target::start(), input, Seq::<u8>::empty(), 2 * steps)
            == run_from(Machine::start(src), input, Seq::<u8>::empty(), steps),
{
    lemma_simulation(src, Machine::start(src), Target::start(), input, Seq::<u8>::empty(), steps);
}

} // verus!
