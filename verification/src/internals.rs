//! The token reader: a cursor over source bytes that yields one instruction
//! at a time and can look ahead for the end of a loop.

use vstd::prelude::*;
use crate::BFToken;
use crate::nesting::{closes_at, depth_change, first_instr, lemma_first_instr, lemma_matching_close, lemma_net_depth_bound, lemma_net_depth_flat, matching_close, net_depth, token_at};

verus! {

/// A cursor over a borrowed source buffer.
///
/// `program_counter` counts bytes, not instructions, and is plain data: an
/// engine may read it to remember a place and write it to jump there. Any
/// value is acceptable; at or beyond the end of the buffer the reader simply
/// has nothing more to yield.
#[derive(Clone, Copy)]
pub struct TokenReader<'a> {
    pub src: &'a [u8],
    pub program_counter: usize,
}

impl<'a> TokenReader<'a> {
    /// The bytes that the reader walks over.
    pub open spec fn source(&self) -> Seq<u8> {
        self.src@
    }

    /// A reader at the start of `src`.
    pub fn new(src: &'a [u8]) -> (reader: TokenReader<'a>)
        ensures
            reader.source() == src@,
            reader.program_counter == 0,
    {
        TokenReader { src, program_counter: 0 }
    }

    /// Takes the byte under the cursor as a character and steps over it.
    fn read_next(&mut self) -> (chr: Option<char>)
        ensures
            final(self).src == old(self).src,
            old(self).program_counter < old(self).source().len() ==> {
                &&& chr == Some(old(self).source()[old(self).program_counter as int] as char)
                &&& final(self).program_counter == old(self).program_counter + 1
            },
            old(self).program_counter >= old(self).source().len() ==> {
                &&& chr is None
                &&& final(self).program_counter == old(self).program_counter
            },
    {
        if self.program_counter < self.src.len() {
            let byte = self.src[self.program_counter];
            self.program_counter += 1;
            Some(byte as char)
        } else {
            None
        }
    }

    /// Yields the next instruction and leaves the cursor one past its byte,
    /// skipping every inert byte on the way. With no instruction left it
    /// yields `None` and leaves the cursor at the end of the buffer (or where
    /// it was, if that was already beyond the end).
    pub fn next(&mut self) -> (tok: Option<BFToken>)
        ensures
            final(self).src == old(self).src,
            tok == token_at(
                old(self).source(),
                first_instr(old(self).source(), old(self).program_counter as int),
            ),
            final(self).program_counter == first_instr(
                old(self).source(),
                old(self).program_counter as int,
            ) + if tok is Some { 1int } else { 0int },
    {
        loop
            invariant
                self.src == old(self).src,
                old(self).program_counter <= self.program_counter,
                first_instr(self.source(), self.program_counter as int) == first_instr(
                    old(self).source(),
                    old(self).program_counter as int,
                ),
            decreases self.source().len() - self.program_counter,
        {
            let token = match self.read_next() {
                Some(chr) => Some(BFToken::parse(chr)),
                None => None,
            };
            match token {
                Some(Some(tok)) => {
                    return Some(tok);
                },
                Some(None) => {},
                None => {
                    return None;
                },
            }
        }
    }

    /// Looks ahead for the loop-end that closes the loop whose body starts
    /// at the cursor, and reports its index. The cursor is where it was when
    /// the call returns, whether or not a match was found.
    pub fn find_closing_brace(&mut self) -> (found: Option<usize>)
        ensures
            *final(self) == *old(self),
            match found {
                Some(m) => {
                    &&& closes_at(old(self).source(), old(self).program_counter as int, m as int)
                    &&& matching_close(old(self).source(), old(self).program_counter as int) == Some(
                        m as int,
                    )
                },
                None => {
                    &&& forall|m: int| !closes_at(old(self).source(), old(self).program_counter as int, m)
                    &&& matching_close(old(self).source(), old(self).program_counter as int) is None
                },
            },
    {
        let pc = self.program_counter;
        // Loops opened inside the body and not yet closed: one less than
        // the nesting depth counted from the loop-begin before the cursor.
        let mut nested: usize = 0;
        let ghost src = self.source();
        loop
            invariant
                self.src == old(self).src,
                src == old(self).source(),
                pc == old(self).program_counter,
                pc <= self.program_counter,
                self.program_counter <= src.len() || self.program_counter == pc,
                nested == net_depth(src, pc as int, self.program_counter as int),
                forall|j: int| pc <= j <= self.program_counter ==> net_depth(src, pc as int, j) >= 0,
            decreases src.len() + 1 - self.program_counter,
        {
            let ghost at = self.program_counter as int;
            let ghost i = first_instr(src, at);
            proof {
                lemma_first_instr(src, at);
                lemma_net_depth_bound(src, pc as int, at);
                if at <= src.len() {
                    assert forall|j: int| at <= j <= i implies net_depth(src, pc as int, j) == nested by {
                        lemma_net_depth_flat(src, pc as int, at, j);
                    }
                    assert(net_depth(src, pc as int, i + 1) == net_depth(src, pc as int, i) + depth_change(
                        src,
                        i,
                    ));
                }
            }
            match self.next() {
                Some(BFToken::JumpFwd) => {
                    nested += 1;
                },
                Some(BFToken::JumpBwd) => {
                    if nested == 0 {
                        let pos = self.program_counter;
                        self.program_counter = pc;
                        proof {
                            lemma_matching_close(src, pc as int, pos - 1);
                        }
                        return Some(pos - 1);
                    }
                    nested -= 1;
                },
                Some(_) => {},
                None => {
                    self.program_counter = pc;
                    proof {
                        assert forall|m: int| !closes_at(src, pc as int, m) by {
                            if closes_at(src, pc as int, m) {
                                assert(net_depth(src, pc as int, m + 1) >= 0);
                            }
                        }
                    }
                    return None;
                },
            }
        }
    }
}

} // verus!
