//! The structure of source text: where its instructions are and how its
//! loop brackets pair up.
//!
//! Everything here is ghost code, definitions and lemmas; the executable
//! lexer and the two engines state their contracts over these definitions.

use vstd::prelude::*;
use crate::BFToken;

verus! {

/// The instruction that byte `i` of `src` stands for; `None` for an inert
/// byte and for an index outside the text.
pub open spec fn token_at(src: Seq<u8>, i: int) -> Option<BFToken> {
    if 0 <= i < src.len() {
        BFToken::spec_parse(src[i] as char)
    } else {
        None
    }
}

/// Index of the first instruction at or after `from`. When no instruction is
/// left this is the end of the text, or `from` itself if that lies beyond it.
pub open spec fn first_instr(src: Seq<u8>, from: int) -> int
    decreases src.len() - from,
{
    if from < 0 || from >= src.len() || token_at(src, from) is Some {
        from
    } else {
        first_instr(src, from + 1)
    }
}

/// What byte `i` adds to the nesting depth: one for a loop-begin, minus one
/// for a loop-end, nothing otherwise.
pub open spec fn depth_change(src: Seq<u8>, i: int) -> int {
    match token_at(src, i) {
        Some(BFToken::JumpFwd) => 1,
        Some(BFToken::JumpBwd) => -1,
        _ => 0,
    }
}

/// Loop-begins minus loop-ends among the bytes `from .. to`.
pub open spec fn net_depth(src: Seq<u8>, from: int, to: int) -> int
    decreases to - from,
{
    if to <= from {
        0
    } else {
        net_depth(src, from, to - 1) + depth_change(src, to - 1)
    }
}

/// Byte `m` is the loop-end that closes a loop whose body starts at `from`:
/// the brackets in `from .. m` cancel out, and no loop-end before `m` closes
/// more than was opened since `from`.
pub open spec fn closes_at(src: Seq<u8>, from: int, m: int) -> bool {
    &&& 0 <= from <= m < src.len()
    &&& token_at(src, m) == Some(BFToken::JumpBwd)
    &&& net_depth(src, from, m) == 0
    &&& forall|j: int| from <= j <= m ==> net_depth(src, from, j) >= 0
}

/// The loop-end that closes a loop whose body starts at `from`, if the text
/// has one.
pub open spec fn matching_close(src: Seq<u8>, from: int) -> Option<int> {
    if exists|m: int| closes_at(src, from, m) {
        Some(choose|m: int| closes_at(src, from, m))
    } else {
        None
    }
}

/// Bytes `p` and `m` are a loop-begin and the loop-end that closes it.
pub open spec fn is_pair(src: Seq<u8>, p: int, m: int) -> bool {
    &&& token_at(src, p) == Some(BFToken::JumpFwd)
    &&& closes_at(src, p + 1, m)
}

/// The loop-begin that the loop-end at `m` closes, if the text has one.
pub open spec fn matching_open(src: Seq<u8>, m: int) -> Option<int> {
    if exists|p: int| is_pair(src, p, m) {
        Some(choose|p: int| is_pair(src, p, m))
    } else {
        None
    }
}

/// Every loop-end closes an earlier loop-begin, and every loop-begin is
/// closed.
pub open spec fn balanced(src: Seq<u8>) -> bool {
    &&& net_depth(src, 0, src.len() as int) == 0
    &&& forall|j: int| 0 <= j <= src.len() ==> net_depth(src, 0, j) >= 0
}

/// `first_instr` skips inert bytes only, and stops at an instruction or at
/// the end of the text.
pub proof fn lemma_first_instr(src: Seq<u8>, from: int)
    requires
        0 <= from,
    ensures
        from <= first_instr(src, from),
        from <= src.len() ==> first_instr(src, from) <= src.len(),
        from > src.len() ==> first_instr(src, from) == from,
        first_instr(src, from) < src.len() ==> token_at(src, first_instr(src, from)) is Some,
        forall|j: int| from <= j < first_instr(src, from) ==> token_at(src, j) is None,
    decreases src.len() - from,
{
    if from < src.len() && token_at(src, from) is None {
        lemma_first_instr(src, from + 1);
    }
}

/// The first instruction at or after `from` is the instruction that only
/// inert bytes separate from `from`.
pub proof fn lemma_first_instr_is(src: Seq<u8>, from: int, i: int)
    requires
        0 <= from <= i,
        token_at(src, i) is Some,
        forall|j: int| from <= j < i ==> token_at(src, j) is None,
    ensures
        first_instr(src, from) == i,
{
    lemma_first_instr(src, from);
    let f = first_instr(src, from);
    if f < i {
        assert(token_at(src, f) is None);
    } else if i < f {
        assert(token_at(src, i) is None);
    }
}

/// Where no instruction is left, none is left further on.
pub proof fn lemma_no_instr_left(src: Seq<u8>, from: int, later: int)
    requires
        0 <= from <= later,
        token_at(src, first_instr(src, from)) is None,
    ensures
        token_at(src, first_instr(src, later)) is None,
{
    lemma_first_instr(src, from);
    lemma_first_instr(src, later);
    let f = first_instr(src, later);
    if f < src.len() {
        assert(token_at(src, f) is None);
    }
}

/// The net depth of a stretch is the sum of the net depths of its two parts.
pub proof fn lemma_net_depth_split(src: Seq<u8>, from: int, mid: int, to: int)
    requires
        from <= mid <= to,
    ensures
        net_depth(src, from, to) == net_depth(src, from, mid) + net_depth(src, mid, to),
    decreases to - mid,
{
    if mid < to {
        lemma_net_depth_split(src, from, mid, to - 1);
    }
}

/// A stretch cannot open or close more loops than it has bytes.
pub proof fn lemma_net_depth_bound(src: Seq<u8>, from: int, to: int)
    requires
        from <= to,
    ensures
        from - to <= net_depth(src, from, to) <= to - from,
    decreases to - from,
{
    if from < to {
        lemma_net_depth_bound(src, from, to - 1);
    }
}

/// A stretch without loop brackets leaves the depth as it was.
pub proof fn lemma_net_depth_flat(src: Seq<u8>, from: int, a: int, b: int)
    requires
        from <= a <= b,
        forall|j: int| a <= j < b ==> depth_change(src, j) == 0,
    ensures
        net_depth(src, from, b) == net_depth(src, from, a),
    decreases b - a,
{
    if a < b {
        lemma_net_depth_flat(src, from, a, b - 1);
    }
}

/// A loop body has at most one closing loop-end.
pub proof fn lemma_close_unique(src: Seq<u8>, from: int, m1: int, m2: int)
    requires
        closes_at(src, from, m1),
        closes_at(src, from, m2),
    ensures
        m1 == m2,
{
    if m1 < m2 {
        assert(net_depth(src, from, m1 + 1) >= 0);
    } else if m2 < m1 {
        assert(net_depth(src, from, m2 + 1) >= 0);
    }
}

/// A loop-end closes at most one loop-begin.
pub proof fn lemma_open_unique(src: Seq<u8>, one: int, other: int, m: int)
    requires
        is_pair(src, one, m),
        is_pair(src, other, m),
    ensures
        one == other,
{
    if one < other {
        lemma_net_depth_split(src, one + 1, other + 1, m);
        assert(net_depth(src, one + 1, other + 1) == net_depth(src, one + 1, other) + 1);
    } else if other < one {
        lemma_net_depth_split(src, other + 1, one + 1, m);
        assert(net_depth(src, other + 1, one + 1) == net_depth(src, other + 1, one) + 1);
    }
}

/// `matching_close` is `Some(m)` exactly for the one `m` that closes the
/// body.
pub proof fn lemma_matching_close(src: Seq<u8>, from: int, m: int)
    ensures
        closes_at(src, from, m) <==> matching_close(src, from) == Some(m),
{
    if closes_at(src, from, m) {
        let c = choose|c: int| closes_at(src, from, c);
        lemma_close_unique(src, from, m, c);
    }
}

/// `matching_open` is `Some(p)` exactly for the one loop-begin `p` that the
/// loop-end closes.
pub proof fn lemma_matching_open(src: Seq<u8>, p: int, m: int)
    ensures
        is_pair(src, p, m) <==> matching_open(src, m) == Some(p),
{
    if is_pair(src, p, m) {
        let c = choose|c: int| is_pair(src, c, m);
        lemma_open_unique(src, p, c, m);
    }
}

/// Walks right from `at` to the first loop-end that closes more than was
/// opened since `from`, given that the depth does fall below zero by `low`.
proof fn lemma_first_close(src: Seq<u8>, from: int, at: int, low: int) -> (m: int)
    requires
        0 <= from <= at <= low <= src.len(),
        forall|j: int| from <= j <= at ==> net_depth(src, from, j) >= 0,
        net_depth(src, from, low) < 0,
    ensures
        closes_at(src, from, m),
        m < low,
    decreases low - at,
{
    assert(net_depth(src, from, at) >= 0);
    assert(net_depth(src, from, at + 1) == net_depth(src, from, at) + depth_change(src, at));
    if net_depth(src, from, at + 1) < 0 {
        at
    } else {
        lemma_first_close(src, from, at + 1, low)
    }
}

/// A loop body lacks a closing loop-end exactly when the rest of the text,
/// read from the start of the body, never closes more loops than it opened.
pub proof fn lemma_no_close_iff(src: Seq<u8>, from: int)
    requires
        0 <= from <= src.len(),
    ensures
        matching_close(src, from) is None <==> forall|j: int|
            from <= j <= src.len() ==> net_depth(src, from, j) >= 0,
{
    if forall|j: int| from <= j <= src.len() ==> net_depth(src, from, j) >= 0 {
        assert forall|m: int| !closes_at(src, from, m) by {
            if closes_at(src, from, m) {
                assert(net_depth(src, from, m + 1) >= 0);
            }
        }
    } else {
        let low = choose|j: int| from <= j <= src.len() && net_depth(src, from, j) < 0;
        let m = lemma_first_close(src, from, from, low);
    }
}

/// In balanced text every loop-begin is closed: the loop-end found for it
/// lies behind it, and the brackets strictly between the two cancel out.
pub proof fn lemma_balanced_begin_is_closed(src: Seq<u8>, p: int)
    requires
        balanced(src),
        token_at(src, p) == Some(BFToken::JumpFwd),
    ensures
        matching_close(src, p + 1) is Some,
        p < matching_close(src, p + 1).unwrap() < src.len(),
        token_at(src, matching_close(src, p + 1).unwrap()) == Some(BFToken::JumpBwd),
        net_depth(src, p + 1, matching_close(src, p + 1).unwrap()) == 0,
{
    let len = src.len() as int;
    lemma_net_depth_split(src, 0, p + 1, len);
    assert(net_depth(src, 0, p + 1) == net_depth(src, 0, p) + 1);
    let m = lemma_first_close(src, p + 1, p + 1, len);
    lemma_matching_close(src, p + 1, m);
}

/// In balanced text every loop-end closes a loop-begin that lies before it.
pub proof fn lemma_balanced_end_has_begin(src: Seq<u8>, m: int)
    requires
        balanced(src),
        token_at(src, m) == Some(BFToken::JumpBwd),
    ensures
        matching_open(src, m) is Some,
        0 <= matching_open(src, m).unwrap() < m,
        is_pair(src, matching_open(src, m).unwrap(), m),
{
    assert(net_depth(src, 0, m + 1) == net_depth(src, 0, m) - 1);
    let p = lemma_last_begin(src, m, m);
    lemma_matching_open(src, p, m);
}

/// Walks left from `at` to the loop-begin that the text before `m` leaves
/// open innermost, given that some loop is open at `m`.
proof fn lemma_last_begin(src: Seq<u8>, m: int, at: int) -> (p: int)
    requires
        0 <= at <= m < src.len(),
        token_at(src, m) == Some(BFToken::JumpBwd),
        net_depth(src, 0, m) > 0,
        forall|j: int| at <= j <= m ==> net_depth(src, 0, j) >= net_depth(src, 0, m),
    ensures
        0 <= p < at,
        is_pair(src, p, m),
    decreases at,
{
    assert(net_depth(src, 0, at) >= net_depth(src, 0, m));
    if net_depth(src, 0, at - 1) < net_depth(src, 0, m) {
        let p = at - 1;
        assert(net_depth(src, 0, at) == net_depth(src, 0, p) + depth_change(src, p));
        assert forall|j: int| at <= j <= m implies net_depth(src, at, j) >= 0 by {
            lemma_net_depth_split(src, 0, at, j);
        }
        lemma_net_depth_split(src, 0, at, m);
        p
    } else {
        lemma_last_begin(src, m, at - 1)
    }
}

/// Walks left from `at` to the last place where no loop is open, given that
/// a loop is open everywhere behind `at`.
proof fn lemma_last_ground(src: Seq<u8>, at: int) -> (p: int)
    requires
        0 <= at < src.len(),
        forall|j: int| at < j <= src.len() ==> net_depth(src, 0, j) > 0,
    ensures
        0 <= p <= at,
        net_depth(src, 0, p) == 0,
        token_at(src, p) == Some(BFToken::JumpFwd),
        forall|j: int| p < j <= src.len() ==> net_depth(src, 0, j) > 0,
    decreases at,
{
    assert(net_depth(src, 0, at + 1) == net_depth(src, 0, at) + depth_change(src, at));
    if net_depth(src, 0, at) <= 0 {
        at
    } else {
        lemma_last_ground(src, at - 1)
    }
}

/// Text with more loop-begins than loop-ends holds a loop-begin that is
/// never closed: the search for its loop-end finds none.
pub proof fn lemma_surplus_begin_is_open(src: Seq<u8>)
    requires
        net_depth(src, 0, src.len() as int) > 0,
    ensures
        exists|p: int|
            0 <= p < src.len() && token_at(src, p) == Some(BFToken::JumpFwd) && matching_close(
                src,
                p + 1,
            ) is None,
{
    let len = src.len() as int;
    let p = lemma_last_ground(src, len - 1);
    let body = p + 1;
    assert(net_depth(src, 0, body) == 1);
    assert forall|j: int| body <= j <= len implies net_depth(src, body, j) >= 0 by {
        lemma_net_depth_split(src, 0, body, j);
    }
    lemma_no_close_iff(src, body);
    assert(token_at(src, p) == Some(BFToken::JumpFwd) && matching_close(src, p + 1) is None);
}

/// `stack` lists, innermost last, the loops that are open at `pc`: the
/// loop-begins before `pc` that nothing before `pc` closes. It also says that
/// no loop-end before `pc` is without a loop-begin.
pub open spec fn open_loops_at(src: Seq<u8>, stack: Seq<usize>, pc: int) -> bool {
    &&& 0 <= pc <= src.len()
    &&& net_depth(src, 0, pc) == stack.len()
    &&& forall|j: int| 0 <= j <= pc ==> net_depth(src, 0, j) >= 0
    &&& forall|k: int|
        0 <= k < stack.len() ==> {
            &&& (#[trigger] stack[k]) < pc
            &&& token_at(src, stack[k] as int) == Some(BFToken::JumpFwd)
            &&& net_depth(src, 0, stack[k] as int) == k
        }
    &&& forall|k: int, j: int|
        0 <= k < stack.len() && stack[k] < j <= pc ==> #[trigger] net_depth(src, 0, j) > #[trigger] net_depth(
            src,
            0,
            stack[k] as int,
        )
}

/// The loops open at a place are determined by the text before it.
pub proof fn lemma_open_loops_unique(src: Seq<u8>, one: Seq<usize>, other: Seq<usize>, pc: int)
    requires
        open_loops_at(src, one, pc),
        open_loops_at(src, other, pc),
    ensures
        one == other,
{
    assert forall|k: int| 0 <= k < one.len() implies one[k] == other[k] by {
        if one[k] < other[k] {
            assert(net_depth(src, 0, other[k] as int) > net_depth(src, 0, one[k] as int));
        } else if other[k] < one[k] {
            assert(net_depth(src, 0, one[k] as int) > net_depth(src, 0, other[k] as int));
        }
    }
    assert(one =~= other);
}

/// At the start of the text no loop is open.
pub proof fn lemma_open_loops_start(src: Seq<u8>)
    ensures
        open_loops_at(src, Seq::<usize>::empty(), 0),
{
}

/// Moving over bytes that are no loop brackets leaves the open loops as
/// they are.
pub proof fn lemma_open_loops_flat(src: Seq<u8>, stack: Seq<usize>, pc: int, to: int)
    requires
        open_loops_at(src, stack, pc),
        pc <= to <= src.len(),
        forall|j: int| pc <= j < to ==> depth_change(src, j) == 0,
    ensures
        open_loops_at(src, stack, to),
{
    assert forall|j: int| pc <= j <= to implies net_depth(src, 0, j) == net_depth(src, 0, pc) by {
        lemma_net_depth_flat(src, 0, pc, j);
    }
}

/// Stepping over a loop-begin opens its loop.
pub proof fn lemma_open_loops_enter(src: Seq<u8>, stack: Seq<usize>, p: int)
    requires
        open_loops_at(src, stack, p),
        token_at(src, p) == Some(BFToken::JumpFwd),
        p <= usize::MAX,
    ensures
        open_loops_at(src, stack.push(p as usize), p + 1),
{
    assert(net_depth(src, 0, p + 1) == net_depth(src, 0, p) + 1);
}

/// Jumping from a loop-begin to the loop-end that closes it leaves that
/// loop open, innermost, and every loop around it as it was.
pub proof fn lemma_open_loops_jump_to_close(src: Seq<u8>, stack: Seq<usize>, p: int, m: int)
    requires
        open_loops_at(src, stack, p),
        is_pair(src, p, m),
        p <= usize::MAX,
    ensures
        open_loops_at(src, stack.push(p as usize), m),
{
    let body = p + 1;
    assert(net_depth(src, 0, body) == net_depth(src, 0, p) + 1);
    lemma_open_loops_enter(src, stack, p);
    assert forall|j: int| body <= j <= m implies net_depth(src, 0, j) == net_depth(src, 0, body)
        + net_depth(src, body, j) by {
        lemma_net_depth_split(src, 0, body, j);
    }
}

/// At a loop-end with a loop open, the innermost open loop is the one that
/// the loop-end closes. Past the loop-end, and back at its loop-begin, the
/// loops around it are the open ones.
pub proof fn lemma_open_loops_leave(src: Seq<u8>, stack: Seq<usize>, m: int)
    requires
        open_loops_at(src, stack, m),
        token_at(src, m) == Some(BFToken::JumpBwd),
        stack.len() > 0,
    ensures
        matching_open(src, m) == Some(stack.last() as int),
        open_loops_at(src, stack.drop_last(), m + 1),
        open_loops_at(src, stack.drop_last(), stack.last() as int),
{
    let p = stack.last() as int;
    let body = p + 1;
    let rest = stack.drop_last();
    let top = stack.len() - 1;
    assert(stack[top] == p);
    assert(net_depth(src, 0, body) == net_depth(src, 0, p) + 1);
    assert(net_depth(src, 0, m + 1) == net_depth(src, 0, m) - 1);
    assert forall|j: int| body <= j <= m implies net_depth(src, body, j) >= 0 by {
        lemma_net_depth_split(src, 0, body, j);
    }
    lemma_net_depth_split(src, 0, body, m);
    assert(is_pair(src, p, m));
    lemma_matching_open(src, p, m);
    assert forall|k: int| 0 <= k < rest.len() implies (#[trigger] rest[k]) < p by {
        assert(rest[k] == stack[k]);
        if stack[k] > p {
            assert(net_depth(src, 0, stack[k] as int) > net_depth(src, 0, stack[top] as int));
        }
    }
    assert forall|k: int, j: int| 0 <= k < rest.len() && rest[k] < j <= m + 1 implies #[trigger] net_depth(
        src,
        0,
        j,
    ) > #[trigger] net_depth(src, 0, rest[k] as int) by {
        assert(rest[k] == stack[k]);
    }
}

/// At a loop-end with no loop open, the loop-end closes no loop-begin.
pub proof fn lemma_open_loops_stray_end(src: Seq<u8>, stack: Seq<usize>, m: int)
    requires
        open_loops_at(src, stack, m),
        token_at(src, m) == Some(BFToken::JumpBwd),
        stack.len() == 0,
    ensures
        matching_open(src, m) is None,
{
    assert forall|p: int| !is_pair(src, p, m) by {
        if is_pair(src, p, m) {
            let body = p + 1;
            lemma_net_depth_split(src, 0, body, m);
            assert(net_depth(src, 0, body) == net_depth(src, 0, p) + 1);
            assert(net_depth(src, 0, p) >= 0);
        }
    }
}

} // verus!
