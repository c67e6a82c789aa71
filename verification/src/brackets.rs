//! Nesting depth of loop brackets and the pairing that it induces.

use vstd::prelude::*;

verus! {

/// What one character adds to the nesting depth.
pub open spec fn weight(c: char) -> int {
    if c == '[' {
        1
    } else if c == ']' {
        -1
    } else {
        0
    }
}

/// What the character at `at` adds to the nesting depth; positions outside
/// the text add nothing.
pub open spec fn weight_at(text: Seq<char>, at: int) -> int {
    if 0 <= at < text.len() {
        weight(text[at])
    } else {
        0
    }
}

/// The opening brackets minus the closing brackets among the positions
/// `from <= k < to` of `text`.
pub open spec fn depth(text: Seq<char>, from: int, to: int) -> int
    decreases to - from,
{
    if from >= to {
        0
    } else {
        depth(text, from, to - 1) + weight_at(text, to - 1)
    }
}

/// The depth over the positions after `index` up to and including `last`.
pub open spec fn depth_after(text: Seq<char>, index: int, last: int) -> int {
    depth(text, index + 1, last + 1)
}

/// `close` is the first position after `index` at which the text that
/// follows `index` has closed more loops than it opened.
pub open spec fn closes(text: Seq<char>, index: int, close: int) -> bool {
    &&& index < close < text.len()
    &&& depth_after(text, index, close) < 0
    &&& forall|k: int| index < k < close ==> #[trigger] depth_after(text, index, k) >= 0
}

/// `open` is the last position before `index` from which the text up to
/// `index` has opened more loops than it closed.
pub open spec fn opens(text: Seq<char>, index: int, open: int) -> bool {
    &&& 0 <= open < index
    &&& depth(text, open, index) > 0
    &&& forall|k: int| open < k < index ==> #[trigger] depth(text, k, index) <= 0
}

/// The position that closes a loop opened at `index`, if there is one.
pub open spec fn closing_bracket(text: Seq<char>, index: int) -> Option<int> {
    if exists|close: int| closes(text, index, close) {
        Some(choose|close: int| closes(text, index, close))
    } else {
        None
    }
}

/// The position that opens a loop closed at `index`, if there is one.
pub open spec fn opening_bracket(text: Seq<char>, index: int) -> Option<int> {
    if exists|open: int| opens(text, index, open) {
        Some(choose|open: int| opens(text, index, open))
    } else {
        None
    }
}

/// The bracket at `index` of `text` has no partner.
pub open spec fn unmatched(text: Seq<char>, index: int) -> bool {
    &&& 0 <= index < text.len()
    &&& {
        ||| text[index] == '[' && closing_bracket(text, index) is None
        ||| text[index] == ']' && opening_bracket(text, index) is None
    }
}

/// The bracket at `index` of `text` is the first that has no partner.
pub open spec fn first_unmatched(text: Seq<char>, index: int) -> bool {
    &&& unmatched(text, index)
    &&& forall|k: int| 0 <= k < index ==> !unmatched(text, k)
}

/// Every bracket of `text` has a partner.
pub open spec fn balanced(text: Seq<char>) -> bool {
    forall|index: int| !unmatched(text, index)
}

/// No part of `text` that starts at its beginning closes more loops than
/// it opens, and the whole text closes as many as it opens.
pub open spec fn well_nested(text: Seq<char>) -> bool {
    &&& depth(text, 0, text.len() as int) == 0
    &&& forall|k: int| 0 <= k <= text.len() ==> #[trigger] depth(text, 0, k) >= 0
}

/// The depth over a range is the sum of the depths over its two parts.
pub proof fn lemma_depth_split(text: Seq<char>, from: int, mid: int, to: int)
    requires
        from <= mid <= to,
    ensures
        depth(text, from, to) == depth(text, from, mid) + depth(text, mid, to),
    decreases to - mid,
{
    if mid < to {
        lemma_depth_split(text, from, mid, to - 1);
    }
}

/// Positions beyond the end of the text leave the depth unchanged.
pub proof fn lemma_depth_outside(text: Seq<char>, from: int, to: int)
    requires
        text.len() <= from,
    ensures
        depth(text, from, to) == 0,
    decreases to - from,
{
    if from < to {
        lemma_depth_outside(text, from, to - 1);
    }
}

/// A range holds no more brackets than positions.
pub proof fn lemma_depth_bounds(text: Seq<char>, from: int, to: int)
    requires
        from <= to,
    ensures
        from - to <= depth(text, from, to) <= to - from,
    decreases to - from,
{
    if from < to {
        lemma_depth_bounds(text, from, to - 1);
    }
}

/// At most one position closes the loop opened at `index`.
pub proof fn lemma_closes_unique(text: Seq<char>, index: int, a: int, b: int)
    requires
        closes(text, index, a),
        closes(text, index, b),
    ensures
        a == b,
{
    if a < b {
        assert(depth_after(text, index, a) >= 0);
    } else if b < a {
        assert(depth_after(text, index, b) >= 0);
    }
}

/// At most one position opens the loop closed at `index`.
pub proof fn lemma_opens_unique(text: Seq<char>, index: int, a: int, b: int)
    requires
        opens(text, index, a),
        opens(text, index, b),
    ensures
        a == b,
{
    if a < b {
        assert(depth(text, b, index) <= 0);
    } else if b < a {
        assert(depth(text, a, index) <= 0);
    }
}

/// Pairing is symmetric, forward: the bracket that closes a loop opened by
/// `[` at `index` has that `[` as the bracket that opens it.
pub proof fn lemma_closing_pairs_back(text: Seq<char>, index: int, close: int)
    requires
        0 <= index,
        text[index] == '[',
        closes(text, index, close),
    ensures
        text[close] == ']',
        opens(text, close, index),
{
    if close > index + 1 {
        assert(depth_after(text, index, close - 1) >= 0);
    }
    assert(depth(text, index + 1, close) == 0);
    lemma_depth_split(text, index, index + 1, close);
    assert(depth(text, index, index + 1) == depth(text, index, index) + weight_at(text, index));
    assert forall|k: int| index < k < close implies #[trigger] depth(text, k, close) <= 0 by {
        lemma_depth_split(text, index + 1, k, close);
        if k > index + 1 {
            assert(depth_after(text, index, k - 1) >= 0);
        }
    }
}

/// Pairing is symmetric, backward: the bracket that opens a loop closed by
/// `]` at `index` has that `]` as the bracket that closes it.
pub proof fn lemma_opening_pairs_forth(text: Seq<char>, index: int, open: int)
    requires
        index < text.len(),
        text[index] == ']',
        opens(text, index, open),
    ensures
        text[open] == '[',
        closes(text, open, index),
{
    lemma_depth_split(text, open, open + 1, index);
    assert(depth(text, open, open + 1) == depth(text, open, open) + weight_at(text, open));
    if open + 1 < index {
        assert(depth(text, open + 1, index) <= 0);
    }
    assert(depth(text, open + 1, index) == 0);
    assert forall|k: int| open < k < index implies #[trigger] depth_after(text, open, k)
        >= 0 by {
        lemma_depth_split(text, open + 1, k + 1, index);
        if k + 1 < index {
            assert(depth(text, k + 1, index) <= 0);
        }
    }
}

/// Where the text after `index` has closed more loops than it opened by
/// `last`, some position closes the loop opened at `index`.
proof fn lemma_some_position_closes(text: Seq<char>, index: int, last: int)
    requires
        index < last < text.len(),
        depth_after(text, index, last) < 0,
    ensures
        exists|close: int| closes(text, index, close),
    decreases last - index,
{
    if forall|k: int| index < k < last ==> #[trigger] depth_after(text, index, k) >= 0 {
        assert(closes(text, index, last));
    } else {
        let k = choose|k: int| index < k < last && depth_after(text, index, k) < 0;
        lemma_some_position_closes(text, index, k);
    }
}

/// Where the text from `first` up to `index` has opened more loops than it
/// closed, some position opens the loop closed at `index`.
proof fn lemma_some_position_opens(text: Seq<char>, index: int, first: int)
    requires
        0 <= first < index,
        depth(text, first, index) > 0,
    ensures
        exists|open: int| opens(text, index, open),
    decreases index - first,
{
    if forall|k: int| first < k < index ==> #[trigger] depth(text, k, index) <= 0 {
        assert(opens(text, index, first));
    } else {
        let k = choose|k: int| first < k < index && depth(text, k, index) > 0;
        lemma_some_position_opens(text, index, k);
    }
}

/// In a text whose brackets all have partners, no part that starts at the
/// beginning and ends at or before `end` closes more loops than it opens.
proof fn lemma_balanced_prefixes(text: Seq<char>, end: int)
    requires
        balanced(text),
        0 <= end <= text.len(),
    ensures
        forall|k: int| 0 <= k <= end ==> #[trigger] depth(text, 0, k) >= 0,
    decreases end,
{
    if end > 0 {
        lemma_balanced_prefixes(text, end - 1);
        if depth(text, 0, end) < 0 {
            let at = end - 1;
            assert(depth(text, 0, at) >= 0);
            assert(text[at] == ']');
            assert(!unmatched(text, at));
            let open = opening_bracket(text, at).unwrap();
            assert(opens(text, at, open));
            lemma_depth_split(text, 0, open, at);
            assert(depth(text, 0, open) >= 0);
        }
    }
}

/// In a text whose brackets all have partners, no part that starts at or
/// after `start` and ends at the end opens more loops than it closes.
proof fn lemma_balanced_suffixes(text: Seq<char>, start: int)
    requires
        balanced(text),
        0 <= start <= text.len(),
    ensures
        forall|k: int| start <= k <= text.len() ==> #[trigger] depth(text, k, text.len() as int)
            <= 0,
    decreases text.len() - start,
{
    let len = text.len() as int;
    if start < len {
        lemma_balanced_suffixes(text, start + 1);
        lemma_depth_split(text, start, start + 1, len);
        assert(depth(text, start, start + 1) == depth(text, start, start) + weight_at(
            text,
            start,
        ));
        if depth(text, start, len) > 0 {
            assert(depth(text, start + 1, len) <= 0);
            assert(text[start] == '[');
            assert(!unmatched(text, start));
            let close = closing_bracket(text, start).unwrap();
            assert(closes(text, start, close));
            lemma_depth_split(text, start + 1, close + 1, len);
            assert(depth(text, close + 1, len) <= 0);
        }
    }
}

/// Every bracket has a partner exactly in a text that is well nested in
/// the usual sense: no beginning of it closes more loops than it opens,
/// and the whole closes as many as it opens.
pub proof fn lemma_balanced_is_well_nested(text: Seq<char>)
    ensures
        balanced(text) <==> well_nested(text),
{
    let len = text.len() as int;
    if balanced(text) {
        lemma_balanced_prefixes(text, len);
        lemma_balanced_suffixes(text, 0);
        assert(depth(text, 0, len) >= 0);
        assert(depth(text, 0, len) <= 0);
    }
    if well_nested(text) {
        assert forall|index: int| !unmatched(text, index) by {
            if 0 <= index < len {
                lemma_depth_split(text, 0, index, len);
                lemma_depth_split(text, index, index + 1, len);
                assert(depth(text, index, index + 1) == depth(text, index, index) + weight_at(
                    text,
                    index,
                ));
                assert(depth(text, 0, index) >= 0);
                assert(depth(text, 0, index + 1) >= 0);
                lemma_depth_split(text, 0, index, index + 1);
                if text[index] == '[' {
                    assert(depth(text, index + 1, len) < 0);
                    assert(depth_after(text, index, len - 1) < 0);
                    lemma_some_position_closes(text, index, len - 1);
                } else if text[index] == ']' {
                    assert(depth(text, 0, index) > 0);
                    lemma_some_position_opens(text, index, 0);
                }
            }
        }
    }
}

} // verus!
