//! The interpreter: a machine of byte cells that runs source text one
//! instruction at a time.
//!
//! The machine never touches a stream itself. A step that needs the outside
//! world says so in its result, and the caller writes the byte or reads one
//! and hands it over. [`run_buf`] does this against buffers in memory.

use vstd::prelude::*;
use vstd::arithmetic::div_mod::{lemma_mod_add_multiples_vanish, lemma_mod_self_0, lemma_small_mod};
use crate::BFToken;
use crate::internals::TokenReader;
use crate::nesting::{
    balanced, depth_change, first_instr, lemma_balanced_begin_is_closed,
    lemma_balanced_end_has_begin, lemma_first_instr, lemma_matching_close, lemma_matching_open,
    lemma_open_loops_enter, lemma_open_loops_flat, lemma_open_loops_jump_to_close,
    lemma_open_loops_leave, lemma_open_loops_start, lemma_open_loops_stray_end, matching_close,
    matching_open, open_loops_at, token_at,
};

verus! {

/// Number of cells of the machine.
pub const CELL_COUNT: usize = 30000;

/// What one step of the machine asks of its caller.
#[derive(PartialEq, Eq, Structural, Debug, Clone, Copy)]
pub enum Step {
    /// No instruction was left. The run is complete.
    Finished,
    /// An instruction ran and needs nothing from outside.
    Ran,
    /// The program wrote this byte.
    Output(u8),
    /// The program wants a byte: read one and pass it to `store_input`.
    Input,
    /// The breakpoint instruction was reached. The machine stays before it.
    Breakpoint,
    /// A bracket that had to be resolved has no partner. The machine stays
    /// before it.
    Unbalanced,
}

impl Step {
    /// The step did not run its instruction, and none will ever run: the
    /// machine is left where it was.
    pub open spec fn is_fatal(self) -> bool {
        self == Step::Breakpoint || self == Step::Unbalanced
    }
}

/// The cell index to the right of `ptr` on a tape of `len` cells.
pub open spec fn ptr_right(ptr: int, len: int) -> int {
    if ptr + 1 == len {
        0
    } else {
        ptr + 1
    }
}

/// The cell index to the left of `ptr` on a tape of `len` cells.
pub open spec fn ptr_left(ptr: int, len: int) -> int {
    if ptr == 0 {
        len - 1
    } else {
        ptr - 1
    }
}

/// The value after `value` in a cell.
pub open spec fn cell_up(value: u8) -> u8 {
    if value == 255 {
        0
    } else {
        (value + 1) as u8
    }
}

/// The value before `value` in a cell.
pub open spec fn cell_down(value: u8) -> u8 {
    if value == 0 {
        255
    } else {
        (value - 1) as u8
    }
}

/// The observable state of the interpreter.
pub struct Machine {
    /// The source text.
    pub src: Seq<u8>,
    /// The reader's position in `src`.
    pub pc: int,
    /// The cells.
    pub cells: Seq<u8>,
    /// Index of the current cell.
    pub ptr: int,
}

impl Machine {
    /// The machine that is about to run `src`: at its start, on blank cells.
    pub open spec fn start(src: Seq<u8>) -> Machine {
        Machine { src, pc: 0, cells: Seq::new(CELL_COUNT as nat, |i: int| 0u8), ptr: 0 }
    }

    /// The reader is inside the text or at its end, and the cell pointer is
    /// on the tape.
    pub open spec fn wf(self) -> bool {
        &&& 0 <= self.pc <= self.src.len()
        &&& self.cells.len() == CELL_COUNT
        &&& 0 <= self.ptr < self.cells.len()
    }

    /// The value of the current cell.
    pub open spec fn cell(self) -> u8 {
        self.cells[self.ptr]
    }

    /// The machine with `value` in its current cell.
    pub open spec fn with_cell(self, value: u8) -> Machine {
        Machine { cells: self.cells.update(self.ptr, value), ..self }
    }

    /// The machine with its reader at `pc`.
    pub open spec fn at(self, pc: int) -> Machine {
        Machine { pc, ..self }
    }

    /// The machine after a byte was read for it, or after the input turned
    /// out to be at its end: the current cell holds the byte, or zero.
    pub open spec fn after_input(self, byte: Option<u8>) -> Machine {
        self.with_cell(
            match byte {
                Some(b) => b,
                None => 0,
            },
        )
    }

    /// Runs the instruction `token` found at index `i` of the text: the
    /// machine afterwards, and what the step asks of the caller.
    pub open spec fn exec_token(self, i: int, token: BFToken) -> (Machine, Step) {
        let on = self.at(i + 1);
        match token {
            BFToken::PtrIncr => (
                Machine { ptr: ptr_right(self.ptr, self.cells.len() as int), ..on },
                Step::Ran,
            ),
            BFToken::PtrDecr => (
                Machine { ptr: ptr_left(self.ptr, self.cells.len() as int), ..on },
                Step::Ran,
            ),
            BFToken::CellIncr => (on.with_cell(cell_up(self.cell())), Step::Ran),
            BFToken::CellDecr => (on.with_cell(cell_down(self.cell())), Step::Ran),
            BFToken::CellOut => (on, Step::Output(self.cell())),
            BFToken::CellIn => (on, Step::Input),
            BFToken::JumpFwd => if self.cell() != 0 {
                (on, Step::Ran)
            } else {
                match matching_close(self.src, i + 1) {
                    Some(m) => (self.at(m), Step::Ran),
                    None => (self, Step::Unbalanced),
                }
            },
            BFToken::JumpBwd => match matching_open(self.src, i) {
                Some(p) => if self.cell() != 0 {
                    (self.at(p), Step::Ran)
                } else {
                    (on, Step::Ran)
                },
                None => (self, Step::Unbalanced),
            },
            BFToken::Break => (self, Step::Breakpoint),
        }
    }

    /// One step: finds the next instruction and runs it.
    pub open spec fn step(self) -> (Machine, Step) {
        let i = first_instr(self.src, self.pc);
        match token_at(self.src, i) {
            Some(token) => self.exec_token(i, token),
            None => (self.at(i), Step::Finished),
        }
    }
}

/// A move of the cell pointer stays on the tape, whatever its length: right
/// of the last cell is the first, left of the first is the last, and the two
/// moves undo each other.
pub proof fn lemma_pointer_wraps(ptr: int, len: int)
    requires
        0 <= ptr < len,
    ensures
        0 <= ptr_right(ptr, len) < len,
        0 <= ptr_left(ptr, len) < len,
        ptr_right(len - 1, len) == 0,
        ptr_left(0, len) == len - 1,
        ptr_right(ptr, len) == (ptr + 1) % len,
        ptr_left(ptr, len) == (ptr + len - 1) % len,
        ptr_left(ptr_right(ptr, len), len) == ptr,
        ptr_right(ptr_left(ptr, len), len) == ptr,
{
    if ptr + 1 == len {
        lemma_mod_self_0(len);
    } else {
        lemma_small_mod((ptr + 1) as nat, len as nat);
    }
    if ptr == 0 {
        lemma_small_mod((len - 1) as nat, len as nat);
    } else {
        lemma_mod_add_multiples_vanish(ptr - 1, len);
        lemma_small_mod((ptr - 1) as nat, len as nat);
    }
}

/// Cell arithmetic is arithmetic modulo 256: above 255 comes 0, below 0
/// comes 255, and the two changes undo each other.
pub proof fn lemma_cell_wraps(value: u8)
    ensures
        cell_up(255) == 0,
        cell_down(0) == 255,
        cell_up(value) == (value + 1) % 256,
        cell_down(value) == (value + 255) % 256,
        cell_down(cell_up(value)) == value,
        cell_up(cell_down(value)) == value,
{
}

/// A step keeps the machine well-formed: the reader stays inside the text
/// and the cell pointer on the tape.
pub proof fn lemma_step_keeps_wf(m: Machine)
    requires
        m.wf(),
    ensures
        m.step().0.wf(),
        m.step().1.is_fatal() ==> m.step().0 == m,
{
    let i = first_instr(m.src, m.pc);
    lemma_first_instr(m.src, m.pc);
    match token_at(m.src, i) {
        Some(BFToken::JumpFwd) => {
            if m.cell() == 0 {
                if let Some(c) = matching_close(m.src, i + 1) {
                    lemma_matching_close(m.src, i + 1, c);
                }
            }
        },
        Some(BFToken::JumpBwd) => {
            if let Some(p) = matching_open(m.src, i) {
                lemma_matching_open(m.src, p, i);
            }
        },
        _ => {},
    }
}

/// On balanced text no step reports an unresolved bracket.
pub proof fn lemma_balanced_step_resolves(m: Machine)
    requires
        balanced(m.src),
    ensures
        m.step().1 != Step::Unbalanced,
        m.step().0.src == m.src,
{
    let i = first_instr(m.src, m.pc);
    match token_at(m.src, i) {
        Some(BFToken::JumpFwd) => {
            lemma_balanced_begin_is_closed(m.src, i);
        },
        Some(BFToken::JumpBwd) => {
            lemma_balanced_end_has_begin(m.src, i);
        },
        _ => {},
    }
}

/// The interpreter's state: a reader over the source, the cells with their
/// pointer, and the stack of loops that are open.
pub struct BFState<'a> {
    src: TokenReader<'a>,
    stack: Vec<usize>,
    cells: Vec<u8>,
    cell_ptr: usize,
}

impl<'a> View for BFState<'a> {
    type V = Machine;

    closed spec fn view(&self) -> Machine {
        Machine {
            src: self.src.source(),
            pc: self.src.program_counter as int,
            cells: self.cells@,
            ptr: self.cell_ptr as int,
        }
    }
}

impl<'a> BFState<'a> {
    /// The call stack: the places of the loop-begins that were entered and
    /// not yet left, innermost last.
    pub closed spec fn loop_stack(&self) -> Seq<usize> {
        self.stack@
    }

    /// The state is consistent: its view is well-formed, and the call stack
    /// holds exactly the loops that are open where the reader stands.
    pub open spec fn wf(&self) -> bool {
        &&& self@.wf()
        &&& open_loops_at(self@.src, self.loop_stack(), self@.pc)
    }

    /// A fresh machine at the start of `src`.
    pub fn new(src: &'a [u8]) -> (state: BFState<'a>)
        ensures
            state.wf(),
            state@ == Machine::start(src@),
            state.loop_stack() == Seq::<usize>::empty(),
    {
        let cells = vec![0u8; CELL_COUNT];
        proof {
            lemma_open_loops_start(src@);
            assert(cells@ =~= Seq::new(CELL_COUNT as nat, |i: int| 0u8));
        }
        BFState { src: TokenReader::new(src), stack: Vec::new(), cells, cell_ptr: 0 }
    }

    /// The value of the current cell.
    pub fn curr_cell(&self) -> (value: u8)
        requires
            self@.wf(),
        ensures
            value == self@.cell(),
    {
        self.cells[self.cell_ptr]
    }

    /// Index of the current cell.
    pub fn cell_ptr(&self) -> (ptr: usize)
        ensures
            ptr == self@.ptr,
    {
        self.cell_ptr
    }

    /// The reader's position in the source.
    pub fn program_counter(&self) -> (pc: usize)
        ensures
            pc == self@.pc,
    {
        self.src.program_counter
    }

    /// The current cell, to be written.
    fn curr_cell_mut(&mut self) -> (cell: &mut u8)
        requires
            old(self)@.wf(),
        ensures
            *cell == old(self)@.cell(),
            final(self)@ == old(self)@.with_cell(*final(cell)),
            final(self).stack == old(self).stack,
            final(self).src == old(self).src,
    {
        &mut self.cells[self.cell_ptr]
    }

    /// Completes an `Input` step: stores the byte that was read, or zero if
    /// the input was at its end.
    pub fn store_input(&mut self, byte: Option<u8>)
        requires
            old(self).wf(),
        ensures
            final(self).wf(),
            final(self)@ == old(self)@.after_input(byte),
    {
        let value = match byte {
            Some(b) => b,
            None => 0,
        };
        *self.curr_cell_mut() = value;
    }

    /// Runs `token`, which the reader has just yielded from the byte before
    /// its position. A fatal step changes nothing.
    fn run_token(&mut self, token: BFToken) -> (step: Step)
        requires
            old(self)@.wf(),
            old(self)@.pc >= 1,
            token_at(old(self)@.src, old(self)@.pc - 1) == Some(token),
            open_loops_at(old(self)@.src, old(self).loop_stack(), old(self)@.pc - 1),
        ensures
            step == old(self)@.exec_token(old(self)@.pc - 1, token).1,
            step.is_fatal() ==> final(self)@ == old(self)@ && final(self).stack@ == old(self).stack@,
            !step.is_fatal() ==> final(self).wf() && final(self)@ == old(self)@.exec_token(
                old(self)@.pc - 1,
                token,
            ).0,
    {
        let ghost src = self.src.source();
        let ghost i = self.src.program_counter - 1;
        let ghost loops = self.stack@;
        proof {
            if depth_change(src, i) == 0 {
                lemma_open_loops_flat(src, loops, i, i + 1);
            }
        }
        match token {
            BFToken::PtrIncr => {
                assert(self.cells.len() == 30000);
                self.cell_ptr = (self.cell_ptr + 1) % self.cells.len();
                Step::Ran
            },
            BFToken::PtrDecr => {
                self.cell_ptr = match self.cell_ptr {
                    0 => self.cells.len() - 1,
                    x => x - 1,
                };
                Step::Ran
            },
            BFToken::CellIncr => {
                *self.curr_cell_mut() = self.curr_cell().wrapping_add(1);
                Step::Ran
            },
            BFToken::CellDecr => {
                *self.curr_cell_mut() = self.curr_cell().wrapping_sub(1);
                Step::Ran
            },
            BFToken::CellOut => Step::Output(self.cells[self.cell_ptr]),
            BFToken::CellIn => Step::Input,
            BFToken::JumpFwd => {
                let begin = self.src.program_counter - 1;
                if self.cells[self.cell_ptr] == 0 {
                    match self.src.find_closing_brace() {
                        Some(end) => {
                            proof {
                                lemma_open_loops_jump_to_close(src, loops, i, end as int);
                            }
                            self.stack.push(begin);
                            self.src.program_counter = end;
                            Step::Ran
                        },
                        None => Step::Unbalanced,
                    }
                } else {
                    proof {
                        lemma_open_loops_enter(src, loops, i);
                    }
                    self.stack.push(begin);
                    Step::Ran
                }
            },
            BFToken::JumpBwd => {
                proof {
                    if loops.len() > 0 {
                        lemma_open_loops_leave(src, loops, i);
                    } else {
                        lemma_open_loops_stray_end(src, loops, i);
                    }
                }
                match self.stack.pop() {
                    Some(target) => {
                        if self.cells[self.cell_ptr] != 0 {
                            self.src.program_counter = target;
                        }
                        Step::Ran
                    },
                    None => Step::Unbalanced,
                }
            },
            BFToken::Break => Step::Breakpoint,
        }
    }

    /// Runs the next instruction of the source, if one is left, and says
    /// what it asks of the caller. After a fatal step the machine is where
    /// it was, so every later step is the same fatal step.
    pub fn run_next(&mut self) -> (step: Step)
        requires
            old(self).wf(),
        ensures
            final(self).wf(),
            (final(self)@, step) == old(self)@.step(),
    {
        let pc = self.src.program_counter;
        proof {
            lemma_first_instr(self.src.source(), pc as int);
            lemma_open_loops_flat(
                self.src.source(),
                self.stack@,
                pc as int,
                first_instr(self.src.source(), pc as int),
            );
        }
        match self.src.next() {
            Some(tok) => {
                let step = self.run_token(tok);
                match step {
                    Step::Breakpoint | Step::Unbalanced => {
                        self.src.program_counter = pc;
                    },
                    _ => {},
                }
                step
            },
            None => Step::Finished,
        }
    }
}

/// How a run over buffers in memory ended.
#[derive(PartialEq, Eq, Structural, Debug, Clone, Copy)]
pub enum RunStatus {
    /// The program ran to its end.
    Finished,
    /// The allowed number of steps was used up before the program ended.
    StepLimit,
    /// The program reached the breakpoint instruction.
    Breakpoint,
    /// A bracket that had to be resolved has no partner.
    Unbalanced,
}

/// The result of a run over buffers in memory.
#[derive(Debug, Clone)]
pub struct RunReport {
    /// How the run ended.
    pub status: RunStatus,
    /// Every byte that the program wrote, in order.
    pub output: Vec<u8>,
}

/// The byte that an `Input` step gets from `input`: its first byte, or
/// nothing when it is empty.
pub open spec fn input_head(input: Seq<u8>) -> Option<u8> {
    if input.len() > 0 {
        Some(input[0])
    } else {
        None
    }
}

/// What is left of `input` after an `Input` step.
pub open spec fn input_tail(input: Seq<u8>) -> Seq<u8> {
    if input.len() > 0 {
        input.drop_first()
    } else {
        input
    }
}

/// Runs machine `m` for at most `steps` steps, feeding it `input` and
/// appending what it writes to `output`: how the run ends and all output.
pub open spec fn run_from(m: Machine, input: Seq<u8>, output: Seq<u8>, steps: nat) -> (
    RunStatus,
    Seq<u8>,
)
    decreases steps,
{
    if steps == 0 {
        (RunStatus::StepLimit, output)
    } else {
        let (next, step) = m.step();
        let left = (steps - 1) as nat;
        match step {
            Step::Finished => (RunStatus::Finished, output),
            Step::Ran => run_from(next, input, output, left),
            Step::Output(byte) => run_from(next, input, output.push(byte), left),
            Step::Input => run_from(
                next.after_input(input_head(input)),
                input_tail(input),
                output,
                left,
            ),
            Step::Breakpoint => (RunStatus::Breakpoint, output),
            Step::Unbalanced => (RunStatus::Unbalanced, output),
        }
    }
}

/// Runs the program `buf` on a fresh machine, with `stdin` as its whole
/// input, for at most `max_steps` steps. Reading past the end of `stdin`
/// stores zero.
pub fn run_buf(stdin: &[u8], buf: &[u8], max_steps: usize) -> (report: RunReport)
    ensures
        (report.status, report.output@) == run_from(
            Machine::start(buf@),
            stdin@,
            Seq::<u8>::empty(),
            max_steps as nat,
        ),
{
    let mut state = BFState::new(buf);
    let mut output: Vec<u8> = Vec::new();
    let mut consumed: usize = 0;
    let mut left = max_steps;
    assert(stdin@.skip(0) =~= stdin@);
    assert(output@ =~= Seq::<u8>::empty());
    while left > 0
        invariant
            state.wf(),
            consumed <= stdin@.len(),
            run_from(state@, stdin@.skip(consumed as int), output@, left as nat) == run_from(
                Machine::start(buf@),
                stdin@,
                Seq::<u8>::empty(),
                max_steps as nat,
            ),
        decreases left,
    {
        let ghost rest = stdin@.skip(consumed as int);
        left -= 1;
        match state.run_next() {
            Step::Finished => {
                return RunReport { status: RunStatus::Finished, output };
            },
            Step::Ran => {},
            Step::Output(byte) => {
                output.push(byte);
            },
            Step::Input => {
                if consumed < stdin.len() {
                    state.store_input(Some(stdin[consumed]));
                    consumed += 1;
                    assert(stdin@.skip(consumed as int) =~= input_tail(rest));
                } else {
                    state.store_input(None);
                }
            },
            Step::Breakpoint => {
                return RunReport { status: RunStatus::Breakpoint, output };
            },
            Step::Unbalanced => {
                return RunReport { status: RunStatus::Unbalanced, output };
            },
        }
    }
    RunReport { status: RunStatus::StepLimit, output }
}

/// A run of balanced text never ends on an unresolved bracket.
pub proof fn lemma_balanced_run_resolves(m: Machine, input: Seq<u8>, output: Seq<u8>, steps: nat)
    requires
        balanced(m.src),
    ensures
        run_from(m, input, output, steps).0 != RunStatus::Unbalanced,
    decreases steps,
{
    if steps > 0 {
        let (next, step) = m.step();
        let left = (steps - 1) as nat;
        lemma_balanced_step_resolves(m);
        match step {
            Step::Ran => {
                lemma_balanced_run_resolves(next, input, output, left);
            },
            Step::Output(byte) => {
                lemma_balanced_run_resolves(next, input, output.push(byte), left);
            },
            Step::Input => {
                lemma_balanced_run_resolves(
                    next.after_input(input_head(input)),
                    input_tail(input),
                    output,
                    left,
                );
            },
            _ => {},
        }
    }
}

/// A run that ends within `steps` steps ends the same way, with the same
/// output, however many more steps it is allowed.
pub proof fn lemma_run_more_steps(
    m: Machine,
    input: Seq<u8>,
    output: Seq<u8>,
    steps: nat,
    more: nat,
)
    requires
        steps <= more,
        run_from(m, input, output, steps).0 != RunStatus::StepLimit,
    ensures
        run_from(m, input, output, more) == run_from(m, input, output, steps),
    decreases steps,
{
    if steps > 0 {
        let (next, step) = m.step();
        let left = (steps - 1) as nat;
        let more_left = (more - 1) as nat;
        match step {
            Step::Ran => {
                lemma_run_more_steps(next, input, output, left, more_left);
            },
            Step::Output(byte) => {
                lemma_run_more_steps(next, input, output.push(byte), left, more_left);
            },
            Step::Input => {
                lemma_run_more_steps(
                    next.after_input(input_head(input)),
                    input_tail(input),
                    output,
                    left,
                    more_left,
                );
            },
            _ => {},
        }
    }
}

} // verus!
