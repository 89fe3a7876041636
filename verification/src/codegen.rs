//! The code generator: source text to assembly text for a flat machine with
//! a pointer register and a mask register.
//!
//! Every place at which the lexer is asked for an instruction gets a label
//! named after that place, so a branch can name the place behind any
//! bracket.

use vstd::prelude::*;
use vstd::string::StringExecFns;
use crate::BFToken;
use crate::internals::TokenReader;
use crate::nesting::{
    balanced, first_instr, lemma_balanced_begin_is_closed,
    lemma_balanced_end_has_begin, lemma_first_instr, lemma_matching_close, lemma_open_loops_enter,
    lemma_open_loops_flat, lemma_open_loops_leave, lemma_open_loops_start,
    lemma_net_depth_split, lemma_open_loops_stray_end, matching_close, matching_open, net_depth,
    open_loops_at, token_at,
};

verus! {

/// The runtime preamble: storage for the cells, the two routines that read
/// and write one character, and the entry point.
pub const ASM_HEADER: &'static str = "
        .intel_syntax
        .data
        .comm cells, 65536
        #cells: .fill 65536, 1, 0
        .text
        .global main

        input:
        push %rax
        push %rbx
        push %rcx
        push %rdx

        call getchar

        pop %rdx
        pop %rcx
        pop %rbx
        pop %rax
        mov [cells+%eax], %rsi

        cmp %esi, -1
        jne input_ret
        movb [cells+%eax], 0

        input_ret:
        ret

        output:
        push %rax
        push %rbx
        push %rcx
        push %rdx

        mov %rdi, [cells+%eax]
        call putchar

        pop %rdx
        pop %rcx
        pop %rbx
        pop %rax
        ret

        main:

        mov %eax, 0
        mov %ecx, 0xFF

";

/// The exit sequence that ends every program.
pub const ASM_FOOTER: &'static str = "
        exit:
        mov %rbx, 0
        mov %rax, 1
        int 0x80
";

/// What names a label: this prefix, then the place in decimal.
pub const LABEL_PREFIX: &'static str = "bf_stmt_";

/// The test of the current cell that goes before a branch.
pub const TEST_CELL: &'static str = "test %ecx,[cells+%eax]\n";

/// The branch taken when the tested cell is zero; the label follows.
pub const BRANCH_IF_ZERO: &'static str = "jz ";

/// The branch taken when the tested cell is not zero; the label follows.
pub const BRANCH_IF_NONZERO: &'static str = "jnz ";

/// Why a source text cannot be compiled.
#[derive(PartialEq, Eq, Structural, Debug, Clone, Copy)]
pub enum CompileError {
    /// A loop-begin is never closed, or a loop-end closes nothing.
    UnbalancedBrackets,
}

/// One piece of a generated program.
pub enum Fragment {
    /// The label of a place in the source.
    Label(int),
    /// The code of an instruction that is no bracket.
    Plain(BFToken),
    /// For a loop-begin: branch to the label if the current cell is zero.
    BranchIfZero(int),
    /// For a loop-end: branch to the label if the current cell is not zero.
    BranchIfNonzero(int),
}

/// The character of the decimal digit `d`.
pub open spec fn digit_char(d: int) -> char {
    if d == 0 {
        '0'
    } else if d == 1 {
        '1'
    } else if d == 2 {
        '2'
    } else if d == 3 {
        '3'
    } else if d == 4 {
        '4'
    } else if d == 5 {
        '5'
    } else if d == 6 {
        '6'
    } else if d == 7 {
        '7'
    } else if d == 8 {
        '8'
    } else {
        '9'
    }
}

/// `n` in decimal, without leading zeros.
pub open spec fn decimal(n: nat) -> Seq<char>
    decreases n,
{
    if n < 10 {
        seq![digit_char(n as int)]
    } else {
        decimal(n / 10).push(digit_char((n % 10) as int))
    }
}

/// The number that a digit character stands for.
pub open spec fn digit_value(c: char) -> nat {
    if c == '0' {
        0
    } else if c == '1' {
        1
    } else if c == '2' {
        2
    } else if c == '3' {
        3
    } else if c == '4' {
        4
    } else if c == '5' {
        5
    } else if c == '6' {
        6
    } else if c == '7' {
        7
    } else if c == '8' {
        8
    } else {
        9
    }
}

/// The number that a text of decimal digits stands for.
pub open spec fn decimal_value(digits: Seq<char>) -> nat
    decreases digits.len(),
{
    if digits.len() == 0 {
        0
    } else {
        decimal_value(digits.drop_last()) * 10 + digit_value(digits.last())
    }
}

/// Reading back the decimal text of a number gives the number.
pub proof fn lemma_decimal_value(n: nat)
    ensures
        decimal_value(decimal(n)) == n,
    decreases n,
{
    if n < 10 {
        assert(decimal(n).drop_last() =~= Seq::<char>::empty());
        assert(decimal_value(decimal(n).drop_last()) == 0);
    } else {
        lemma_decimal_value(n / 10);
        assert(decimal(n).drop_last() =~= decimal(n / 10));
    }
}

/// Different places have different label names.
pub proof fn lemma_label_names_differ(a: int, b: int)
    requires
        0 <= a,
        0 <= b,
        label_name(a) == label_name(b),
    ensures
        a == b,
{
    let skip = LABEL_PREFIX@.len() as int;
    assert(label_name(a).skip(skip) =~= decimal(a as nat));
    assert(label_name(b).skip(skip) =~= decimal(b as nat));
    lemma_decimal_value(a as nat);
    lemma_decimal_value(b as nat);
}

/// The digit `d` as text.
fn digit_str(d: usize) -> (text: &'static str)
    requires
        d < 10,
    ensures
        text@ == seq![digit_char(d as int)],
{
    proof {
        reveal_strlit("0");
        reveal_strlit("1");
        reveal_strlit("2");
        reveal_strlit("3");
        reveal_strlit("4");
        reveal_strlit("5");
        reveal_strlit("6");
        reveal_strlit("7");
        reveal_strlit("8");
        reveal_strlit("9");
    }
    let text = match d {
        0 => "0",
        1 => "1",
        2 => "2",
        3 => "3",
        4 => "4",
        5 => "5",
        6 => "6",
        7 => "7",
        8 => "8",
        _ => "9",
    };
    assert(text@ =~= seq![digit_char(d as int)]);
    text
}

/// Appends `n` in decimal to `out`.
fn push_decimal(out: &mut String, n: usize)
    ensures
        final(out)@ == old(out)@ + decimal(n as nat),
    decreases n,
{
    if n >= 10 {
        push_decimal(out, n / 10);
    }
    out.append(digit_str(n % 10));
    assert(out@ =~= old(out)@ + decimal(n as nat));
}

/// The code of an instruction that is no bracket.
pub open spec fn plain_code(token: BFToken) -> Seq<char> {
    match token {
        BFToken::PtrIncr => "inc %ax\n"@,
        BFToken::PtrDecr => "dec %ax\n"@,
        BFToken::CellIncr => "incb [cells+%eax]\n"@,
        BFToken::CellDecr => "decb [cells+%eax]\n"@,
        BFToken::CellOut => "call output\n"@,
        BFToken::CellIn => "call input\n"@,
        _ => Seq::<char>::empty(),
    }
}

/// The name of the label of place `n`.
pub open spec fn label_name(n: int) -> Seq<char> {
    LABEL_PREFIX@ + decimal(n as nat)
}

/// The text of a fragment.
pub open spec fn render(fragment: Fragment) -> Seq<char> {
    match fragment {
        Fragment::Label(n) => label_name(n) + ":\n"@,
        Fragment::Plain(token) => plain_code(token),
        Fragment::BranchIfZero(n) => TEST_CELL@ + BRANCH_IF_ZERO@ + label_name(n) + "\n"@,
        Fragment::BranchIfNonzero(n) => TEST_CELL@ + BRANCH_IF_NONZERO@ + label_name(n) + "\n"@,
    }
}

/// The texts of `fragments`, one after the other.
pub open spec fn render_all(fragments: Seq<Fragment>) -> Seq<char>
    decreases fragments.len(),
{
    if fragments.len() == 0 {
        Seq::<char>::empty()
    } else {
        render(fragments.first()) + render_all(fragments.drop_first())
    }
}

/// Whether the bracket at index `i` has its partner. Holds of every byte
/// that is no bracket.
pub open spec fn resolves(src: Seq<u8>, i: int) -> bool {
    match token_at(src, i) {
        Some(BFToken::JumpFwd) => matching_close(src, i + 1) is Some,
        Some(BFToken::JumpBwd) => matching_open(src, i) is Some,
        _ => true,
    }
}

/// The code for the instruction `token` at index `i`. A loop-begin branches
/// to the place behind the loop-end that closes it, a loop-end to the place
/// behind the loop-begin that it closes.
pub open spec fn code_fragment(src: Seq<u8>, i: int, token: BFToken) -> Fragment {
    match token {
        BFToken::JumpFwd => Fragment::BranchIfZero(matching_close(src, i + 1).unwrap() + 1),
        BFToken::JumpBwd => Fragment::BranchIfNonzero(matching_open(src, i).unwrap() + 1),
        _ => Fragment::Plain(token),
    }
}

/// The fragments generated for the source from place `pc` on: for each
/// instruction the label of the place at which the lexer set out to find
/// it, then its code; at the end the label of the place at which the lexer
/// set out and found nothing.
pub open spec fn fragments(src: Seq<u8>, pc: int) -> Seq<Fragment>
    decreases src.len() - pc,
{
    let i = first_instr(src, pc);
    match token_at(src, i) {
        Some(token) => {
            proof {
                lemma_first_instr(src, pc);
            }
            seq![Fragment::Label(pc), code_fragment(src, i, token)] + fragments(src, i + 1)
        },
        None => seq![Fragment::Label(pc)],
    }
}

/// The whole generated program: preamble, fragments, exit sequence.
pub open spec fn document(src: Seq<u8>) -> Seq<char> {
    ASM_HEADER@ + render_all(fragments(src, 0)) + ASM_FOOTER@
}

/// The text of a label fragment.
fn label_string(n: usize) -> (text: String)
    ensures
        text@ == render(Fragment::Label(n as int)),
{
    let mut text = String::from_str(LABEL_PREFIX);
    push_decimal(&mut text, n);
    text.append(":\n");
    text
}

/// The text of a branch to the label of place `n`.
fn branch_string(if_zero: bool, n: usize) -> (text: String)
    ensures
        if_zero ==> text@ == render(Fragment::BranchIfZero(n as int)),
        !if_zero ==> text@ == render(Fragment::BranchIfNonzero(n as int)),
{
    let mut text = String::from_str(TEST_CELL);
    text.append(if if_zero { BRANCH_IF_ZERO } else { BRANCH_IF_NONZERO });
    text.append(LABEL_PREFIX);
    push_decimal(&mut text, n);
    text.append("\n");
    assert(if_zero ==> text@ =~= render(Fragment::BranchIfZero(n as int)));
    assert(!if_zero ==> text@ =~= render(Fragment::BranchIfNonzero(n as int)));
    text
}

/// The texts of `parts`, one after the other.
spec fn concat(parts: Seq<String>) -> Seq<char>
    decreases parts.len(),
{
    if parts.len() == 0 {
        Seq::<char>::empty()
    } else {
        concat(parts.drop_last()) + parts.last()@
    }
}

/// The observable state of the generator.
pub struct Generator {
    /// The source text.
    pub src: Seq<u8>,
    /// The reader's position in `src`.
    pub pc: int,
    /// All text generated so far.
    pub text: Seq<char>,
}

impl Generator {
    /// The generator that is about to compile `src`: at its start, with the
    /// preamble written.
    pub open spec fn start(src: Seq<u8>) -> Generator {
        Generator { src, pc: 0, text: ASM_HEADER@ }
    }

    /// The generator with `more` appended to its text.
    pub open spec fn emit(self, more: Seq<char>) -> Generator {
        Generator { text: self.text + more, ..self }
    }

    /// One step. With an instruction left whose brackets resolve, the label
    /// of the current place and the code of the instruction are appended,
    /// the reader moves behind the instruction, and the step reports
    /// `Ok(true)`. With none left nothing changes and it reports
    /// `Ok(false)`. At a bracket without partner nothing changes and it
    /// reports the error.
    pub open spec fn step(self) -> (Generator, Result<bool, CompileError>) {
        let i = first_instr(self.src, self.pc);
        match token_at(self.src, i) {
            Some(token) => if resolves(self.src, i) {
                (
                    Generator { pc: i + 1, ..self }.emit(render(Fragment::Label(self.pc))).emit(
                        render(code_fragment(self.src, i, token)),
                    ),
                    Ok(true),
                )
            } else {
                (self, Err(CompileError::UnbalancedBrackets))
            },
            None => (self, Ok(false)),
        }
    }

    /// The generator after the closing label and the exit sequence were
    /// appended.
    pub open spec fn finalized(self) -> Generator {
        self.emit(render(Fragment::Label(self.pc))).emit(ASM_FOOTER@)
    }
}

/// The generator's state: a reader over the source, the text fragments
/// written so far, and the stack of loops that are open.
pub struct BFCState<'a> {
    src: TokenReader<'a>,
    target: Vec<String>,
    stack: Vec<usize>,
}

impl<'a> View for BFCState<'a> {
    type V = Generator;

    closed spec fn view(&self) -> Generator {
        Generator {
            src: self.src.source(),
            pc: self.src.program_counter as int,
            text: concat(self.target@),
        }
    }
}

impl<'a> BFCState<'a> {
    /// The label stack: the places of the loop-begins that were compiled
    /// and whose loop-ends are still to come, innermost last.
    pub closed spec fn loop_stack(&self) -> Seq<usize> {
        self.stack@
    }

    /// The label stack holds exactly the loops that are open at `pc`, and
    /// each of them is closed further on.
    pub open spec fn tracks_loops_at(&self, pc: int) -> bool {
        &&& open_loops_at(self@.src, self.loop_stack(), pc)
        &&& forall|k: int|
            0 <= k < self.loop_stack().len() ==> matching_close(
                self@.src,
                #[trigger] self.loop_stack()[k] + 1,
            ) is Some
    }

    /// The state is consistent: the label stack holds exactly the loops
    /// that are open where the reader stands.
    pub open spec fn wf(&self) -> bool {
        self.tracks_loops_at(self@.pc)
    }

    /// A fresh generator at the start of `src`, with the preamble written.
    pub fn new(src: &'a [u8]) -> (state: BFCState<'a>)
        ensures
            state.wf(),
            state@ == Generator::start(src@),
            state.loop_stack() == Seq::<usize>::empty(),
    {
        let mut target: Vec<String> = Vec::new();
        target.push(Self::asm_header());
        proof {
            lemma_open_loops_start(src@);
            assert(target@.drop_last() =~= Seq::<String>::empty());
            assert(concat(Seq::<String>::empty()) =~= Seq::<char>::empty());
            assert(concat(target@) =~= ASM_HEADER@);
        }
        BFCState { src: TokenReader::new(src), target, stack: Vec::new() }
    }

    /// Appends one fragment of text.
    fn emit(&mut self, text: String)
        ensures
            final(self)@ == old(self)@.emit(text@),
            final(self).src == old(self).src,
            final(self).stack == old(self).stack,
    {
        let ghost before = self.target@;
        self.target.push(text);
        assert(self.target@.drop_last() =~= before);
    }

    /// Appends the closing label, named after the place at which the lexer
    /// stands, and the exit sequence.
    pub fn finalize(&mut self)
        ensures
            final(self)@ == old(self)@.finalized(),
    {
        self.emit(label_string(self.src.program_counter));
        self.emit(Self::asm_footer());
    }

    /// The runtime preamble.
    pub fn asm_header() -> (text: String)
        ensures
            text@ == ASM_HEADER@,
    {
        String::from_str(ASM_HEADER)
    }

    /// The exit sequence.
    pub fn asm_footer() -> (text: String)
        ensures
            text@ == ASM_FOOTER@,
    {
        String::from_str(ASM_FOOTER)
    }

    /// The code for `token`, which the reader has just yielded from the byte
    /// before its position. For a bracket this resolves its partner; where
    /// there is none, nothing changes.
    fn compile_token(&mut self, token: BFToken) -> (code: Result<String, CompileError>)
        requires
            old(self)@.pc >= 1,
            token_at(old(self)@.src, old(self)@.pc - 1) == Some(token),
            old(self).tracks_loops_at(old(self)@.pc - 1),
        ensures
            final(self)@ == old(self)@,
            match code {
                Ok(text) => {
                    &&& resolves(old(self)@.src, old(self)@.pc - 1)
                    &&& text@ == render(code_fragment(old(self)@.src, old(self)@.pc - 1, token))
                    &&& final(self).wf()
                },
                Err(e) => {
                    &&& !resolves(old(self)@.src, old(self)@.pc - 1)
                    &&& e == CompileError::UnbalancedBrackets
                    &&& final(self).stack@ == old(self).stack@
                },
            },
    {
        let ghost src = self.src.source();
        let ghost i = self.src.program_counter - 1;
        let ghost loops = self.stack@;
        proof {
            if token != BFToken::JumpFwd && token != BFToken::JumpBwd {
                lemma_open_loops_flat(src, loops, i, i + 1);
            }
        }
        match token {
            BFToken::PtrIncr => Ok(String::from_str("inc %ax\n")),
            BFToken::PtrDecr => Ok(String::from_str("dec %ax\n")),
            BFToken::CellIncr => Ok(String::from_str("incb [cells+%eax]\n")),
            BFToken::CellDecr => Ok(String::from_str("decb [cells+%eax]\n")),
            BFToken::CellOut => Ok(String::from_str("call output\n")),
            BFToken::CellIn => Ok(String::from_str("call input\n")),
            BFToken::JumpFwd => {
                let begin = self.src.program_counter - 1;
                match self.src.find_closing_brace() {
                    Some(end) => {
                        proof {
                            lemma_open_loops_enter(src, loops, i);
                            assert(src.len() == self.src.src.len());
                        }
                        self.stack.push(begin);
                        Ok(branch_string(true, end + 1))
                    },
                    None => Err(CompileError::UnbalancedBrackets),
                }
            },
            BFToken::JumpBwd => {
                proof {
                    if loops.len() > 0 {
                        lemma_open_loops_leave(src, loops, i);
                    } else {
                        lemma_open_loops_stray_end(src, loops, i);
                    }
                }
                match self.stack.pop() {
                    Some(begin) => Ok(branch_string(false, begin + 1)),
                    None => Err(CompileError::UnbalancedBrackets),
                }
            },
            BFToken::Break => Ok(String::new()),
        }
    }

    /// Compiles the next instruction of the source, if one is left: appends
    /// the label of the current place and the code of the instruction. Says
    /// whether there was one.
    pub fn compile_next(&mut self) -> (more: Result<bool, CompileError>)
        requires
            old(self).wf(),
        ensures
            final(self).wf(),
            (final(self)@, more) == old(self)@.step(),
    {
        let pc = self.src.program_counter;
        proof {
            lemma_first_instr(self.src.source(), pc as int);
            lemma_open_loops_flat(
                self.src.source(),
                self.stack@,
                pc as int,
                first_instr(self.src.source(), pc as int),
            );
        }
        match self.src.next() {
            Some(tok) => {
                match self.compile_token(tok) {
                    Ok(code) => {
                        self.emit(label_string(pc));
                        self.emit(code);
                        Ok(true)
                    },
                    Err(e) => {
                        self.src.program_counter = pc;
                        Err(e)
                    },
                }
            },
            None => {
                self.src.program_counter = pc;
                Ok(false)
            },
        }
    }

    /// All text generated so far, as one string.
    pub fn text(&self) -> (text: String)
        ensures
            text@ == self@.text,
    {
        let mut text = String::new();
        let mut k: usize = 0;
        assert(self.target@.take(0) =~= Seq::<String>::empty());
        while k < self.target.len()
            invariant
                k <= self.target@.len(),
                text@ == concat(self.target@.take(k as int)),
            decreases self.target@.len() - k,
        {
            text.append(self.target[k].as_str());
            assert(self.target@.take(k + 1).drop_last() =~= self.target@.take(k as int));
            k += 1;
        }
        assert(self.target@.take(k as int) =~= self.target@);
        text
    }

    /// When the generator has come through all instructions, the source is
    /// balanced: every bracket on the way had its partner, and no loop is
    /// left open.
    pub proof fn lemma_exhausted_is_balanced(&self)
        requires
            self.wf(),
            token_at(self@.src, first_instr(self@.src, self@.pc)) is None,
        ensures
            balanced(self@.src),
    {
        let src = self@.src;
        let len = src.len() as int;
        let loops = self.loop_stack();
        lemma_first_instr(src, self@.pc);
        lemma_open_loops_flat(src, loops, self@.pc, len);
        if loops.len() > 0 {
            let body = loops[0] + 1;
            let m = matching_close(src, body).unwrap();
            lemma_matching_close(src, body, m);
            lemma_net_depth_split(src, 0, body, m + 1);
            assert(net_depth(src, 0, body) == net_depth(src, 0, loops[0] as int) + 1);
            assert(net_depth(src, body, m + 1) == net_depth(src, body, m) - 1);
            assert(net_depth(src, 0, m + 1) > net_depth(src, 0, loops[0] as int));
        }
    }
}

/// Number of instructions at or behind place `pc`.
pub open spec fn instr_count(src: Seq<u8>, pc: int) -> nat
    decreases src.len() - pc,
{
    let i = first_instr(src, pc);
    match token_at(src, i) {
        Some(_) => {
            proof {
                lemma_first_instr(src, pc);
            }
            1 + instr_count(src, i + 1)
        },
        None => 0,
    }
}

/// How `fragments` unfolds at a place with an instruction left.
proof fn lemma_fragments_unfold(src: Seq<u8>, pc: int)
    requires
        0 <= pc,
        token_at(src, first_instr(src, pc)) is Some,
    ensures
        ({
            let i = first_instr(src, pc);
            let doc = fragments(src, pc);
            let rest = fragments(src, i + 1);
            &&& pc <= i < src.len()
            &&& doc.len() == rest.len() + 2
            &&& doc[0] == Fragment::Label(pc)
            &&& doc[1] == code_fragment(src, i, token_at(src, i).unwrap())
            &&& !(doc[1] is Label)
            &&& forall|k: int| 0 <= k < rest.len() ==> rest[k] == #[trigger] doc[k + 2]
            &&& forall|j: int| pc <= j < i ==> token_at(src, j) is None
        }),
{
    lemma_first_instr(src, pc);
}

/// The fragments alternate between label and code, and start and end with
/// a label.
proof fn lemma_fragments_shape(src: Seq<u8>, pc: int)
    requires
        0 <= pc,
    ensures
        fragments(src, pc).len() == 2 * instr_count(src, pc) + 1,
        fragments(src, pc)[0] == Fragment::Label(pc),
        forall|k: int|
            0 <= k < fragments(src, pc).len() ==> ((#[trigger] fragments(src, pc)[k]) is Label <==> k % 2
                == 0),
    decreases src.len() - pc,
{
    let i = first_instr(src, pc);
    let doc = fragments(src, pc);
    if token_at(src, i) is Some {
        lemma_fragments_unfold(src, pc);
        lemma_fragments_shape(src, i + 1);
        let rest = fragments(src, i + 1);
        assert forall|k: int| 0 <= k < doc.len() implies ((#[trigger] doc[k]) is Label <==> k % 2 == 0) by {
            if k >= 2 {
                assert(rest[k - 2] == doc[k - 2 + 2]);
            }
        }
    }
}

/// Every label names a place at or behind `pc`, and the places named grow
/// along the fragments.
proof fn lemma_fragments_labels_grow(src: Seq<u8>, pc: int)
    requires
        0 <= pc,
    ensures
        forall|k: int|
            0 <= k < fragments(src, pc).len() ==> (#[trigger] fragments(src, pc)[k] matches Fragment::Label(
                n,
            ) ==> n >= pc),
        forall|j: int, k: int|
            0 <= j < k < fragments(src, pc).len() ==> (#[trigger] fragments(src, pc)[j] matches Fragment::Label(
                a,
            ) ==> (#[trigger] fragments(src, pc)[k] matches Fragment::Label(b) ==> a < b)),
    decreases src.len() - pc,
{
    let i = first_instr(src, pc);
    let doc = fragments(src, pc);
    if token_at(src, i) is Some {
        lemma_fragments_unfold(src, pc);
        lemma_fragments_labels_grow(src, i + 1);
        let rest = fragments(src, i + 1);
        assert forall|k: int| 0 <= k < doc.len() implies (#[trigger] doc[k] matches Fragment::Label(n) ==> n
            >= pc) by {
            if k >= 2 {
                assert(rest[k - 2] == doc[k - 2 + 2]);
            }
        }
        assert forall|j: int, k: int| 0 <= j < k < doc.len() implies (#[trigger] doc[j] matches Fragment::Label(
            a,
        ) ==> (#[trigger] doc[k] matches Fragment::Label(b) ==> a < b)) by {
            if k >= 2 {
                assert(rest[k - 2] == doc[k - 2 + 2]);
                if j >= 2 {
                    assert(rest[j - 2] == doc[j - 2 + 2]);
                }
            }
        }
    }
}

/// A place has a label among the fragments from `pc` on exactly when it is
/// `pc` itself or lies just behind an instruction at or behind `pc`.
proof fn lemma_fragments_label_places(src: Seq<u8>, pc: int, x: int)
    requires
        0 <= pc,
    ensures
        fragments(src, pc).contains(Fragment::Label(x)) <==> (x == pc || (x > pc && token_at(src, x - 1) is Some)),
    decreases src.len() - pc,
{
    let i = first_instr(src, pc);
    let doc = fragments(src, pc);
    let wanted = Fragment::Label(x);
    if token_at(src, i) is Some {
        lemma_fragments_unfold(src, pc);
        lemma_fragments_label_places(src, i + 1, x);
        let rest = fragments(src, i + 1);
        if doc.contains(wanted) {
            let k = choose|k: int| 0 <= k < doc.len() && doc[k] == wanted;
            if k >= 2 {
                assert(rest[k - 2] == doc[k - 2 + 2]);
                assert(rest.contains(wanted));
            }
        }
        if rest.contains(wanted) {
            let k = choose|k: int| 0 <= k < rest.len() && rest[k] == wanted;
            assert(doc[k + 2] == wanted);
        }
        if x == pc {
            assert(doc[0] == wanted);
        }
        if pc < x <= i {
            assert(token_at(src, x - 1) is None);
        }
    } else {
        lemma_first_instr(src, pc);
        assert(doc[0] == Fragment::Label(pc));
        if x > pc && token_at(src, x - 1) is Some {
            assert(x - 1 < src.len());
            assert(token_at(src, x - 1) is None);
        }
    }
}

/// Every fragment that is no label is the code of an instruction at or
/// behind `pc`.
proof fn lemma_fragments_code(src: Seq<u8>, pc: int, k: int) -> (i: int)
    requires
        0 <= pc,
        0 <= k < fragments(src, pc).len(),
        !(fragments(src, pc)[k] is Label),
    ensures
        pc <= i,
        token_at(src, i) is Some,
        fragments(src, pc)[k] == code_fragment(src, i, token_at(src, i).unwrap()),
    decreases src.len() - pc,
{
    let at = first_instr(src, pc);
    let doc = fragments(src, pc);
    if token_at(src, at) is Some {
        lemma_fragments_unfold(src, pc);
        if k >= 2 {
            let rest = fragments(src, at + 1);
            assert(rest[k - 2] == doc[k - 2 + 2]);
            lemma_fragments_code(src, at + 1, k - 2)
        } else {
            at
        }
    } else {
        0
    }
}

/// A generated program holds one label for each instruction of its source
/// and one more at its end, each before the code it belongs to, and no two
/// of them name the same place.
pub proof fn lemma_one_label_per_instruction(src: Seq<u8>)
    ensures
        fragments(src, 0).len() == 2 * instr_count(src, 0) + 1,
        forall|k: int|
            0 <= k < fragments(src, 0).len() ==> ((#[trigger] fragments(src, 0)[k]) is Label <==> k % 2 == 0),
        forall|j: int, k: int|
            0 <= j < k < fragments(src, 0).len() ==> (#[trigger] fragments(src, 0)[j] matches Fragment::Label(
                a,
            ) ==> (#[trigger] fragments(src, 0)[k] matches Fragment::Label(b) ==> a < b)),
{
    lemma_fragments_shape(src, 0);
    lemma_fragments_labels_grow(src, 0);
}

/// The labelled places of a generated program are the start of the source
/// and the place behind each of its instructions.
pub proof fn lemma_labelled_places(src: Seq<u8>, x: int)
    ensures
        fragments(src, 0).contains(Fragment::Label(x)) <==> (x == 0 || (x > 0 && token_at(src, x - 1) is Some)),
{
    lemma_fragments_label_places(src, 0, x);
}

/// In the program generated for balanced source every branch names a label
/// that the program holds.
pub proof fn lemma_branch_targets_exist(src: Seq<u8>, k: int)
    requires
        balanced(src),
        0 <= k < fragments(src, 0).len(),
    ensures
        fragments(src, 0)[k] matches Fragment::BranchIfZero(n) ==> fragments(src, 0).contains(
            Fragment::Label(n),
        ),
        fragments(src, 0)[k] matches Fragment::BranchIfNonzero(n) ==> fragments(src, 0).contains(
            Fragment::Label(n),
        ),
{
    let doc = fragments(src, 0);
    if !(doc[k] is Label) {
        let i = lemma_fragments_code(src, 0, k);
        match doc[k] {
            Fragment::BranchIfZero(n) => {
                lemma_balanced_begin_is_closed(src, i);
                lemma_fragments_label_places(src, 0, n);
            },
            Fragment::BranchIfNonzero(n) => {
                lemma_balanced_end_has_begin(src, i);
                lemma_fragments_label_places(src, 0, n);
            },
            _ => {},
        }
    }
}

/// The text of two fragments and of what follows them.
proof fn lemma_render_all_two(first: Fragment, second: Fragment, rest: Seq<Fragment>)
    ensures
        render_all(seq![first, second] + rest) == render(first) + render(second) + render_all(rest),
{
    let all = seq![first, second] + rest;
    assert(all.drop_first() =~= seq![second] + rest);
    assert(all.drop_first().drop_first() =~= rest);
    assert(render_all(all) == render(first) + render_all(all.drop_first()));
    assert(render_all(all.drop_first()) == render(second) + render_all(rest));
    assert(render(first) + (render(second) + render_all(rest)) =~= render(first) + render(second)
        + render_all(rest));
}

/// The text of a single fragment.
proof fn lemma_render_all_one(only: Fragment)
    ensures
        render_all(seq![only]) == render(only),
{
    let all = seq![only];
    assert(all.drop_first() =~= Seq::<Fragment>::empty());
    assert(render_all(all) == render(only) + render_all(all.drop_first()));
    assert(render(only) + Seq::<char>::empty() =~= render(only));
}

/// Compiles the program `buf` to assembly text. The text is the preamble,
/// then for every instruction its label and its code, then the closing
/// label and the exit sequence. Source whose brackets do not balance is
/// refused.
pub fn compile_buf(buf: &[u8]) -> (result: Result<String, CompileError>)
    ensures
        balanced(buf@) ==> result is Ok && result.unwrap()@ == document(buf@),
        !balanced(buf@) ==> result == Err::<String, CompileError>(CompileError::UnbalancedBrackets),
{
    let mut state = BFCState::new(buf);
    let mut more = true;
    while more
        invariant
            state.wf(),
            state@.src == buf@,
            0 <= state@.pc <= buf@.len(),
            !more ==> token_at(buf@, first_instr(buf@, state@.pc)) is None,
            state@.text + render_all(fragments(buf@, state@.pc)) == ASM_HEADER@ + render_all(
                fragments(buf@, 0),
            ),
        decreases buf@.len() - state@.pc + if more { 1int } else { 0int },
    {
        let ghost before = state@;
        let ghost i = first_instr(buf@, before.pc);
        proof {
            lemma_first_instr(buf@, before.pc);
        }
        match state.compile_next() {
            Ok(found) => {
                more = found;
                proof {
                    if found {
                        let token = token_at(buf@, i).unwrap();
                        let label = Fragment::Label(before.pc);
                        let code = code_fragment(buf@, i, token);
                        let rest = fragments(buf@, i + 1);
                        lemma_render_all_two(label, code, rest);
                        assert(state@.text + render_all(rest) =~= before.text + (render(label)
                            + render(code) + render_all(rest)));
                    }
                }
            },
            Err(e) => {
                proof {
                    if balanced(buf@) {
                        if token_at(buf@, i) == Some(BFToken::JumpFwd) {
                            lemma_balanced_begin_is_closed(buf@, i);
                        } else {
                            lemma_balanced_end_has_begin(buf@, i);
                        }
                    }
                }
                return Err(e);
            },
        }
    }
    proof {
        state.lemma_exhausted_is_balanced();
        lemma_render_all_one(Fragment::Label(state@.pc));
    }
    state.finalize();
    let text = state.text();
    assert(text@ =~= document(buf@));
    Ok(text)
}

} // verus!
