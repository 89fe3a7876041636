//! A small toolchain for an eight-instruction tape language: a lexer with
//! bracket matching, an interpreter and an assembly generator, all verified.
//!
//! - [`BFToken`] is the instruction alphabet.
//! - [`nesting`] defines, in ghost code, where the instructions of a text
//!   are and which brackets belong together.
//! - [`internals`] holds the token reader that both engines lex with.
//! - [`interp`] is the interpreter, [`codegen`] the code generator.
//! - [`target`] states the machine that generated code runs on and proves
//!   that the two engines agree.

use vstd::prelude::*;

pub mod nesting;
pub mod internals;
pub mod interp;
pub mod codegen;
pub mod target;

verus! {

/// One instruction of the language.
#[derive(PartialEq, Eq, Structural, Debug, Clone, Copy)]
pub enum BFToken {
    /// `>`: move the cell pointer one cell to the right.
    PtrIncr,
    /// `<`: move the cell pointer one cell to the left.
    PtrDecr,
    /// `+`: add one to the current cell.
    CellIncr,
    /// `-`: take one from the current cell.
    CellDecr,
    /// `.`: write the current cell.
    CellOut,
    /// `,`: read a byte into the current cell.
    CellIn,
    /// `[`: loop-begin. Go behind the matching loop-end if the current cell
    /// is zero.
    JumpFwd,
    /// `]`: loop-end. Go back behind the matching loop-begin if the current
    /// cell is not zero.
    JumpBwd,
    /// The degree sign, U+00B0: breakpoint. Source bytes are taken as
    /// characters one by one, so this is the byte `0xB0`, which is also the
    /// last byte of the sign in UTF-8.
    Break,
}

impl BFToken {
    /// The instruction that a character stands for, if it stands for one.
    pub open spec fn spec_parse(chr: char) -> Option<BFToken> {
        if chr == '>' {
            Some(BFToken::PtrIncr)
        } else if chr == '<' {
            Some(BFToken::PtrDecr)
        } else if chr == '+' {
            Some(BFToken::CellIncr)
        } else if chr == '-' {
            Some(BFToken::CellDecr)
        } else if chr == '.' {
            Some(BFToken::CellOut)
        } else if chr == ',' {
            Some(BFToken::CellIn)
        } else if chr == '[' {
            Some(BFToken::JumpFwd)
        } else if chr == ']' {
            Some(BFToken::JumpBwd)
        } else if chr == '\u{b0}' {
            Some(BFToken::Break)
        } else {
            None
        }
    }

    /// Recognizes one character of source text.
    #[verifier::when_used_as_spec(spec_parse)]
    pub fn parse(chr: char) -> (tok: Option<BFToken>)
        ensures
            tok == Self::spec_parse(chr),
    {
        match chr {
            '>' => Some(BFToken::PtrIncr),
            '<' => Some(BFToken::PtrDecr),
            '+' => Some(BFToken::CellIncr),
            '-' => Some(BFToken::CellDecr),
            '.' => Some(BFToken::CellOut),
            ',' => Some(BFToken::CellIn),
            '[' => Some(BFToken::JumpFwd),
            ']' => Some(BFToken::JumpBwd),
            '\u{b0}' => Some(BFToken::Break),
            _ => None,
        }
    }
}

} // verus!
