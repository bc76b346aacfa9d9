//! Program text and the nesting of its brackets.
//!
//! A program is a sequence of bytes. Only the nesting of `[` and `]`
//! gives it structure; this module states that structure over
//! the running nesting depth, without reference to any scanning order.

use vstd::prelude::*;

verus! {

/// `>`: move the tape pointer one cell to the right.
pub const MOVE_RIGHT: u8 = 62;

/// `<`: move the tape pointer one cell to the left.
pub const MOVE_LEFT: u8 = 60;

/// `+`: add one to the current cell.
pub const INCREMENT: u8 = 43;

/// `-`: take one from the current cell.
pub const DECREMENT: u8 = 45;

/// `.`: hand the current cell to the caller.
pub const OUTPUT: u8 = 46;

/// `[`: skip the loop body if the current cell is zero.
pub const LOOP_OPEN: u8 = 91;

/// `]`: repeat the loop body if the current cell is not zero.
pub const LOOP_CLOSE: u8 = 93;

/// `#`: the comment marker. It does nothing, like every byte that is
/// not one of the seven instructions.
pub const COMMENT: u8 = 35;

/// Whether `b` is one of the seven instructions. Every other byte
/// does nothing.
pub open spec fn is_instruction(b: u8) -> bool {
    ||| b == MOVE_RIGHT
    ||| b == MOVE_LEFT
    ||| b == INCREMENT
    ||| b == DECREMENT
    ||| b == OUTPUT
    ||| b == LOOP_OPEN
    ||| b == LOOP_CLOSE
}

/// Whether `b` is one of the two bracket instructions.
pub open spec fn is_bracket(b: u8) -> bool {
    b == LOOP_OPEN || b == LOOP_CLOSE
}

/// What one byte adds to the nesting depth.
pub open spec fn weight(b: u8) -> int {
    if b == LOOP_OPEN {
        1
    } else if b == LOOP_CLOSE {
        -1
    } else {
        0
    }
}

/// The nesting depth in front of position `i`: the number of `[` among
/// the first `i` bytes less the number of `]` among them.
pub open spec fn depth(code: Seq<u8>, i: int) -> int
    decreases i,
{
    if i <= 0 {
        0
    } else {
        depth(code, i - 1) + weight(code[i - 1])
    }
}

/// A text is accepted as a program when no `]` comes without an open
/// `[` in front of it: the depth never falls below zero. Loops may
/// still be open at the end of the text.
pub open spec fn accepts(code: Seq<u8>) -> bool {
    forall|i: int| 0 <= i <= code.len() ==> depth(code, i) >= 0
}

/// A text is balanced when it is accepted and leaves no loop open.
pub open spec fn balanced(code: Seq<u8>) -> bool {
    accepts(code) && depth(code, code.len() as int) == 0
}

/// Whether the `[` at `open` and the `]` at `close` belong together:
/// the depth behind `close` is back at what it was in front of `open`,
/// for the first time.
pub open spec fn is_pair(code: Seq<u8>, open: int, close: int) -> bool {
    &&& 0 <= open < close < code.len()
    &&& code[open] == LOOP_OPEN
    &&& code[close] == LOOP_CLOSE
    &&& depth(code, close + 1) == depth(code, open)
    &&& forall|k: int| open < k <= close ==> depth(code, k) > depth(code, open)
}

/// The position of the `]` that closes the `[` at `open`, if the text
/// holds one.
pub open spec fn close_of(code: Seq<u8>, open: int) -> Option<int> {
    if exists|close: int| is_pair(code, open, close) {
        Some(choose|close: int| is_pair(code, open, close))
    } else {
        None
    }
}

/// The position of the `[` that the `]` at `close` closes, if the text
/// holds one.
pub open spec fn open_of(code: Seq<u8>, close: int) -> Option<int> {
    if exists|open: int| is_pair(code, open, close) {
        Some(choose|open: int| is_pair(code, open, close))
    } else {
        None
    }
}

/// The other end of the loop that the bracket at `at` belongs to.
/// `None` for a `[` that is still open, for a `]` that closes nothing,
/// and for every byte that is no bracket.
pub open spec fn partner(code: Seq<u8>, at: int) -> Option<int> {
    if !(0 <= at < code.len()) {
        None
    } else if code[at] == LOOP_OPEN {
        close_of(code, at)
    } else if code[at] == LOOP_CLOSE {
        open_of(code, at)
    } else {
        None
    }
}

/// Whether the `[` at `at` is still open after the first `upto` bytes,
/// with `level` open loops around it.
pub open spec fn open_at(code: Seq<u8>, upto: int, at: int, level: int) -> bool {
    &&& 0 <= at < upto <= code.len()
    &&& code[at] == LOOP_OPEN
    &&& depth(code, at) == level
    &&& forall|k: int| at < k <= upto ==> depth(code, k) > level
}

/// A `[` has at most one closing partner.
pub proof fn lemma_close_unique(code: Seq<u8>, open: int, c1: int, c2: int)
    requires
        is_pair(code, open, c1),
        is_pair(code, open, c2),
    ensures
        c1 == c2,
{
    if c1 < c2 {
        assert(depth(code, c1 + 1) > depth(code, open));
    } else if c2 < c1 {
        assert(depth(code, c2 + 1) > depth(code, open));
    }
}

/// A `]` has at most one opening partner.
pub proof fn lemma_open_unique(code: Seq<u8>, o1: int, o2: int, close: int)
    requires
        is_pair(code, o1, close),
        is_pair(code, o2, close),
    ensures
        o1 == o2,
{
    if o1 < o2 {
        assert(depth(code, o2) > depth(code, o1));
    } else if o2 < o1 {
        assert(depth(code, o1) > depth(code, o2));
    }
}

/// Both ends of a pair name each other as partner.
pub proof fn lemma_pair_partners(code: Seq<u8>, open: int, close: int)
    requires
        is_pair(code, open, close),
    ensures
        close_of(code, open) == Some(close),
        open_of(code, close) == Some(open),
        partner(code, open) == Some(close),
        partner(code, close) == Some(open),
{
    let c = choose|c: int| is_pair(code, open, c);
    lemma_close_unique(code, open, c, close);
    let o = choose|o: int| is_pair(code, o, close);
    lemma_open_unique(code, o, open, close);
}

/// Finds the `[` that the `]` at `close` closes, looking back from
/// `from`, where the depth has not yet come down to `level`, the
/// depth behind `close`.
proof fn lemma_find_open(code: Seq<u8>, close: int, from: int) -> (open: int)
    requires
        0 <= from < close < code.len(),
        code[close] == LOOP_CLOSE,
        depth(code, close + 1) >= 0,
        forall|k: int| from < k <= close ==> #[trigger] depth(code, k) > depth(code, close + 1),
    ensures
        is_pair(code, open, close),
    decreases from,
{
    if depth(code, from) <= depth(code, close + 1) {
        assert(depth(code, from + 1) > depth(code, close + 1));
        from
    } else {
        lemma_find_open(code, close, from - 1)
    }
}

/// Finds the `]` that closes the `[` at `open`, looking on from
/// `from`, in a text that ends no deeper than `open` stands.
proof fn lemma_find_close(code: Seq<u8>, open: int, from: int) -> (close: int)
    requires
        0 <= open < from <= code.len(),
        code[open] == LOOP_OPEN,
        depth(code, code.len() as int) <= depth(code, open),
        forall|k: int| open < k < from ==> #[trigger] depth(code, k) > depth(code, open),
    ensures
        is_pair(code, open, close),
    decreases code.len() - from,
{
    if depth(code, from) <= depth(code, open) {
        assert(depth(code, open + 1) > depth(code, open));
        assert(depth(code, from - 1) > depth(code, open));
        from - 1
    } else {
        lemma_find_close(code, open, from + 1)
    }
}

/// Finds a `[` that nothing closes, looking back from `from`, in an
/// accepted text that leaves a loop open.
proof fn lemma_find_unclosed(code: Seq<u8>, from: int) -> (open: int)
    requires
        accepts(code),
        0 <= from < code.len(),
        forall|k: int| from < k <= code.len() ==> #[trigger] depth(code, k) > 0,
    ensures
        0 <= open < code.len(),
        code[open] == LOOP_OPEN,
        close_of(code, open) is None,
    decreases from,
{
    assert(depth(code, from) >= 0);
    if depth(code, from) == 0 {
        assert(depth(code, from + 1) > 0);
        assert forall|close: int| !is_pair(code, from, close) by {
            if is_pair(code, from, close) {
                assert(depth(code, close + 1) > 0);
            }
        }
        from
    } else {
        lemma_find_unclosed(code, from - 1)
    }
}

/// Where every `]` has a partner, the depth in front of `at` is not
/// below zero.
proof fn lemma_depth_of_paired(code: Seq<u8>, at: int)
    requires
        0 <= at <= code.len(),
        forall|close: int|
            0 <= close < code.len() && #[trigger] code[close] == LOOP_CLOSE ==> open_of(
                code,
                close,
            ) is Some,
    ensures
        depth(code, at) >= 0,
    decreases at,
{
    if at > 0 {
        lemma_depth_of_paired(code, at - 1);
        if code[at - 1] == LOOP_CLOSE {
            let open = open_of(code, at - 1).unwrap();
            assert(is_pair(code, open, at - 1));
            lemma_depth_of_paired(code, open);
        }
    }
}

/// A text is accepted exactly when each `]` in it closes a `[`: the
/// texts that are not accepted are those that hold a `]` with no open
/// `[` in front of it.
pub proof fn lemma_accepts_closes_paired(code: Seq<u8>)
    ensures
        accepts(code) <==> forall|close: int|
            0 <= close < code.len() && #[trigger] code[close] == LOOP_CLOSE ==> open_of(
                code,
                close,
            ) is Some,
{
    if accepts(code) {
        assert forall|close: int|
            0 <= close < code.len() && #[trigger] code[close] == LOOP_CLOSE implies open_of(
            code,
            close,
        ) is Some by {
            assert(depth(code, close + 1) >= 0);
            assert(depth(code, 0) == 0);
            let open = lemma_find_open(code, close, close - 1);
        }
    }
    if forall|close: int|
        0 <= close < code.len() && #[trigger] code[close] == LOOP_CLOSE ==> open_of(
            code,
            close,
        ) is Some {
        assert forall|i: int| 0 <= i <= code.len() implies depth(code, i) >= 0 by {
            lemma_depth_of_paired(code, i);
        }
    }
}

/// A text is balanced exactly when each bracket in it has a partner.
pub proof fn lemma_balanced_all_paired(code: Seq<u8>)
    ensures
        balanced(code) <==> forall|at: int|
            0 <= at < code.len() && is_bracket(#[trigger] code[at]) ==> partner(code, at) is Some,
{
    lemma_accepts_closes_paired(code);
    let len = code.len() as int;
    if balanced(code) {
        assert forall|at: int| 0 <= at < len && is_bracket(#[trigger] code[at]) implies partner(
            code,
            at,
        ) is Some by {
            if code[at] == LOOP_OPEN {
                assert(depth(code, at) >= 0);
                let close = lemma_find_close(code, at, at + 1);
            }
        }
    }
    if forall|at: int|
        0 <= at < len && is_bracket(#[trigger] code[at]) ==> partner(code, at) is Some {
        assert forall|close: int|
            0 <= close < len && #[trigger] code[close] == LOOP_CLOSE implies open_of(
            code,
            close,
        ) is Some by {
            assert(is_bracket(code[close]));
            assert(partner(code, close) is Some);
        }
        assert(accepts(code));
        if depth(code, len) != 0 {
            assert(depth(code, len) >= 0);
            assert(depth(code, 0) == 0);
            let open = lemma_find_unclosed(code, len - 1);
            assert(is_bracket(code[open]));
            assert(partner(code, open) is Some);
        }
    }
}

/// The depth in front of a position depends only on the bytes in
/// front of it.
pub proof fn lemma_depth_prefix(a: Seq<u8>, b: Seq<u8>, i: int)
    requires
        0 <= i <= a.len(),
        i <= b.len(),
        forall|k: int| 0 <= k < i ==> a[k] == b[k],
    ensures
        depth(a, i) == depth(b, i),
    decreases i,
{
    if i > 0 {
        lemma_depth_prefix(a, b, i - 1);
    }
}

/// Whether two positions are a pair depends only on the bytes up to
/// the second.
pub proof fn lemma_pair_prefix(a: Seq<u8>, b: Seq<u8>, open: int, close: int)
    requires
        close < a.len() <= b.len(),
        forall|k: int| 0 <= k < a.len() ==> a[k] == b[k],
    ensures
        is_pair(a, open, close) == is_pair(b, open, close),
{
    assert forall|k: int| 0 <= k <= a.len() implies #[trigger] depth(a, k) == depth(b, k) by {
        lemma_depth_prefix(a, b, k);
    }
    assert forall|k: int| 0 <= k <= a.len() implies depth(a, k) == #[trigger] depth(b, k) by {
        lemma_depth_prefix(a, b, k);
    }
}

/// A text without brackets has depth zero throughout.
pub proof fn lemma_depth_plain(code: Seq<u8>, i: int)
    requires
        0 <= i <= code.len(),
        forall|k: int| 0 <= k < code.len() ==> !is_bracket(#[trigger] code[k]),
    ensures
        depth(code, i) == 0,
    decreases i,
{
    if i > 0 {
        lemma_depth_plain(code, i - 1);
        assert(!is_bracket(code[i - 1]));
    }
}

/// Behind a first text, the depth of a second one adds to the depth
/// that the first one ends with.
pub proof fn lemma_depth_concat(a: Seq<u8>, b: Seq<u8>, i: int)
    requires
        0 <= i <= b.len(),
    ensures
        depth(a + b, a.len() + i) == depth(a, a.len() as int) + depth(b, i),
    decreases i,
{
    if i == 0 {
        lemma_depth_prefix(a + b, a, a.len() as int);
    } else {
        lemma_depth_concat(a, b, i - 1);
        assert((a + b)[a.len() + i - 1] == b[i - 1]);
    }
}

/// A text made of two is accepted exactly when the first is accepted
/// and the second never closes more loops than it and the first have
/// left open.
pub proof fn lemma_accepts_concat(a: Seq<u8>, b: Seq<u8>)
    ensures
        accepts(a + b) <==> accepts(a) && forall|i: int|
            0 <= i <= b.len() ==> depth(a, a.len() as int) + #[trigger] depth(b, i) >= 0,
{
    let ab = a + b;
    assert forall|i: int| 0 <= i <= a.len() implies depth(ab, i) == #[trigger] depth(a, i) by {
        lemma_depth_prefix(ab, a, i);
    }
    assert forall|i: int| 0 <= i <= b.len() implies depth(ab, a.len() + i) == depth(
        a,
        a.len() as int,
    ) + #[trigger] depth(b, i) by {
        lemma_depth_concat(a, b, i);
    }
    if accepts(ab) {
        assert forall|i: int| 0 <= i <= a.len() implies depth(a, i) >= 0 by {
            assert(depth(ab, i) >= 0);
        }
        assert forall|i: int| 0 <= i <= b.len() implies depth(a, a.len() as int) + #[trigger] depth(
            b,
            i,
        ) >= 0 by {
            assert(depth(ab, a.len() + i) >= 0);
        }
    }
    if accepts(a) && forall|i: int|
        0 <= i <= b.len() ==> depth(a, a.len() as int) + #[trigger] depth(b, i) >= 0 {
        assert forall|i: int| 0 <= i <= ab.len() implies depth(ab, i) >= 0 by {
            if i <= a.len() {
                assert(depth(a, i) >= 0);
            } else {
                let j = i - a.len();
                assert(depth(a, a.len() as int) + depth(b, j) >= 0);
                assert(depth(ab, a.len() + j) == depth(a, a.len() as int) + depth(b, j));
            }
        }
    }
}

} // verus!
