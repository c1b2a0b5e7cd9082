//! Mapping of (line, column) coordinates to linear byte offsets.

use vstd::prelude::*;

verus! {

/// A zero-based (line, column) coordinate as supplied by editing events.
/// `line` counts newline-delimited segments; `character` counts bytes from
/// the start of that line.
#[derive(Clone, Copy, PartialEq, Eq, Structural, Debug)]
pub struct Position {
    pub line: usize,
    pub character: usize,
}

/// The byte offset at which line number `line` starts, scanning from index
/// `i` with `line` lines still to skip. Each line is terminated by a newline
/// byte (10). If fewer than `line` newlines remain, the result is one past
/// the buffer length, so that the clamped offset lands exactly at the end.
pub open spec fn line_start_from(text: Seq<u8>, i: int, line: nat) -> int
    recommends
        0 <= i <= text.len(),
    decreases line, text.len() - i,
{
    if line == 0 {
        i
    } else if i >= text.len() {
        text.len() as int + 1
    } else if text[i] == 10 {
        line_start_from(text, i + 1, (line - 1) as nat)
    } else {
        line_start_from(text, i + 1, line)
    }
}

/// The linear offset a position denotes: the start offset of its line plus
/// its column, clamped to the buffer length so that a stale or out-of-range
/// position never yields an out-of-bounds offset.
pub open spec fn offset_spec(text: Seq<u8>, p: Position) -> int {
    let raw = line_start_from(text, 0, p.line as nat) + p.character;
    if raw > text.len() {
        text.len() as int
    } else {
        raw
    }
}

/// A mapped offset never exceeds the buffer length.
pub proof fn lemma_offset_clamped(text: Seq<u8>, p: Position)
    ensures
        offset_spec(text, p) <= text.len(),
{
}

proof fn lemma_line_start_nonneg(text: Seq<u8>, i: int, line: nat)
    requires
        0 <= i <= text.len(),
    ensures
        line_start_from(text, i, line) >= i,
    decreases line, text.len() - i,
{
    if line == 0 {
    } else if i >= text.len() {
    } else if text[i] == 10 {
        lemma_line_start_nonneg(text, i + 1, (line - 1) as nat);
    } else {
        lemma_line_start_nonneg(text, i + 1, line);
    }
}

/// A mapped offset is never negative.
pub proof fn lemma_offset_nonneg(text: Seq<u8>, p: Position)
    ensures
        0 <= offset_spec(text, p),
{
    lemma_line_start_nonneg(text, 0, p.line as nat);
}

/// Maps a position to a linear offset into `text`: the sum of the lengths
/// (newline included) of the lines before `p.line`, plus `p.character`,
/// clamped to the buffer length. Total: out-of-range positions clamp rather
/// than fail.
pub fn offset_of(text: &Vec<u8>, p: Position) -> (r: usize)
    ensures
        r == offset_spec(text@, p),
        r <= text@.len(),
{
    let mut i: usize = 0;
    let mut remaining: usize = p.line;
    while remaining > 0 && i < text.len()
        invariant
            0 <= i <= text@.len(),
            line_start_from(text@, 0, p.line as nat) == line_start_from(
                text@,
                i as int,
                remaining as nat,
            ),
        decreases text@.len() - i,
    {
        if text[i] == 10 {
            remaining = remaining - 1;
        }
        i = i + 1;
    }
    if remaining > 0 {
        // fewer newlines than the requested line: the offset clamps to the end
        return text.len();
    }
    let rest = text.len() - i;
    if p.character > rest {
        text.len()
    } else {
        i + p.character
    }
}

} // verus!
