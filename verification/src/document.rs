//! The document state store: owns the single tracked buffer and applies
//! full and ranged edits to it.

use vstd::prelude::*;
use crate::completion::{candidates_spec, complete, views_of};
use crate::position::{Position, offset_spec, offset_of};

verus! {

/// Why an edit could not be applied.
#[derive(Clone, Copy, PartialEq, Eq, Structural, Debug)]
pub enum EditError {
    /// The edit's mapped end offset precedes its mapped start offset.
    InvalidRange,
}

/// An instruction to replace either the whole buffer or a sub-range of it.
pub enum Edit {
    /// Replace the whole buffer with `text`.
    Full { text: Vec<u8> },
    /// Replace the half-open range `[start, end)`, with both endpoints given
    /// as (line, column) coordinates resolved against the current buffer.
    Ranged { start: Position, end: Position, text: Vec<u8> },
}

/// The buffer with `[start, end)` replaced by `repl`.
pub open spec fn replace_range_spec(text: Seq<u8>, start: int, end: int, repl: Seq<u8>) -> Seq<u8>
    recommends
        0 <= start <= end <= text.len(),
{
    text.subrange(0, start) + repl + text.subrange(end, text.len() as int)
}

/// The buffer a ranged edit leaves behind, or `None` when the mapped end
/// offset precedes the mapped start offset (the edit is rejected and the
/// buffer kept as it was).
pub open spec fn ranged_result(text: Seq<u8>, start: Position, end: Position, repl: Seq<u8>) -> Option<
    Seq<u8>,
> {
    let s = offset_spec(text, start);
    let e = offset_spec(text, end);
    if e < s {
        None
    } else {
        Some(replace_range_spec(text, s, e, repl))
    }
}

/// The buffer one edit leaves behind, or `None` for a rejected edit.
pub open spec fn edit_result(text: Seq<u8>, e: Edit) -> Option<Seq<u8>> {
    match e {
        Edit::Full { text: t } => Some(t@),
        Edit::Ranged { start, end, text: t } => ranged_result(text, start, end, t@),
    }
}

/// The buffer a batch of edits leaves behind, applied strictly in order,
/// each edit resolved against the buffer the previous one produced. The
/// flag is true when every edit applied; a rejected edit stops the batch,
/// leaving the buffer as the edits before it left it.
pub open spec fn apply_batch(text: Seq<u8>, edits: Seq<Edit>) -> (Seq<u8>, bool)
    decreases edits.len(),
{
    if edits.len() == 0 {
        (text, true)
    } else {
        match edit_result(text, edits[0]) {
            Some(t2) => apply_batch(t2, edits.drop_first()),
            None => (text, false),
        }
    }
}

/// Copies a byte vector element by element.
fn copy_bytes(src: &Vec<u8>) -> (r: Vec<u8>)
    ensures
        r@ == src@,
{
    let mut out: Vec<u8> = Vec::new();
    let mut i: usize = 0;
    while i < src.len()
        invariant
            0 <= i <= src@.len(),
            out@ == src@.subrange(0, i as int),
        decreases src@.len() - i,
    {
        out.push(src[i]);
        assert(out@ =~= src@.subrange(0, i + 1 as int));
        i = i + 1;
    }
    assert(out@ =~= src@);
    out
}

/// Owns the text of the single tracked document.
#[derive(Debug)]
pub struct DocumentStore {
    text: Vec<u8>,
}

impl View for DocumentStore {
    type V = Seq<u8>;

    closed spec fn view(&self) -> Seq<u8> {
        self.text@
    }
}

impl DocumentStore {
    /// The store starts with an empty buffer.
    pub fn new() -> (r: DocumentStore)
        ensures
            r@ == Seq::<u8>::empty(),
    {
        DocumentStore { text: Vec::new() }
    }

    /// Unconditionally overwrites the buffer, as a document-open event or a
    /// change event without a range demands.
    pub fn replace_all(&mut self, new_text: Vec<u8>)
        ensures
            final(self)@ == new_text@,
    {
        self.text = new_text;
    }

    /// Returns a copy of the current buffer. With no intervening edit,
    /// repeated calls return identical text: the result is pinned to the
    /// buffer's current value.
    pub fn snapshot(&self) -> (r: Vec<u8>)
        ensures
            r@ == self@,
    {
        copy_bytes(&self.text)
    }

    /// Maps `start` and `end` against the current buffer and replaces the
    /// half-open byte range `[start, end)` with `replacement`. An inverted
    /// range (mapped end before mapped start) is rejected with
    /// `EditError::InvalidRange` and leaves the buffer unchanged.
    pub fn apply_ranged_edit(&mut self, start: Position, end: Position, replacement: &Vec<u8>) -> (r:
        Result<(), EditError>)
        ensures
            r is Ok <==> ranged_result(old(self)@, start, end, replacement@) is Some,
            r is Ok ==> final(self)@ == ranged_result(old(self)@, start, end, replacement@)->Some_0,
            r is Err ==> final(self)@ == old(self)@ && r == Err::<(), EditError>(
                EditError::InvalidRange,
            ),
    {
        let s = offset_of(&self.text, start);
        let e = offset_of(&self.text, end);
        if e < s {
            return Err(EditError::InvalidRange);
        }
        let mut out: Vec<u8> = Vec::new();
        let mut i: usize = 0;
        while i < s
            invariant
                0 <= i <= s,
                s <= e <= self.text@.len(),
                out@ == self.text@.subrange(0, i as int),
            decreases s - i,
        {
            out.push(self.text[i]);
            assert(out@ =~= self.text@.subrange(0, i + 1 as int));
            i = i + 1;
        }
        let mut j: usize = 0;
        while j < replacement.len()
            invariant
                0 <= j <= replacement@.len(),
                s <= e <= self.text@.len(),
                out@ == self.text@.subrange(0, s as int) + replacement@.subrange(0, j as int),
            decreases replacement@.len() - j,
        {
            out.push(replacement[j]);
            assert(out@ =~= self.text@.subrange(0, s as int) + replacement@.subrange(
                0,
                j + 1 as int,
            ));
            j = j + 1;
        }
        assert(replacement@.subrange(0, replacement@.len() as int) =~= replacement@);
        let mut k: usize = e;
        while k < self.text.len()
            invariant
                e <= k <= self.text@.len(),
                s <= e <= self.text@.len(),
                out@ == self.text@.subrange(0, s as int) + replacement@ + self.text@.subrange(
                    e as int,
                    k as int,
                ),
            decreases self.text@.len() - k,
        {
            out.push(self.text[k]);
            assert(out@ =~= self.text@.subrange(0, s as int) + replacement@ + self.text@.subrange(
                e as int,
                k + 1 as int,
            ));
            k = k + 1;
        }
        self.text = out;
        Ok(())
    }

    /// Applies one edit: a full edit overwrites the buffer, a ranged edit
    /// goes through `apply_ranged_edit`.
    pub fn apply_edit(&mut self, edit: &Edit) -> (r: Result<(), EditError>)
        ensures
            r is Ok <==> edit_result(old(self)@, *edit) is Some,
            r is Ok ==> final(self)@ == edit_result(old(self)@, *edit)->Some_0,
            r is Err ==> final(self)@ == old(self)@ && r == Err::<(), EditError>(
                EditError::InvalidRange,
            ),
    {
        match edit {
            Edit::Full { text } => {
                self.replace_all(copy_bytes(text));
                Ok(())
            },
            Edit::Ranged { start, end, text } => self.apply_ranged_edit(*start, *end, text),
        }
    }

    /// Applies a change notification's edits strictly in order; each edit's
    /// positions are resolved against the buffer the previous edit left
    /// behind. A rejected edit stops the batch and is reported; the edits
    /// before it stay applied and the buffer is not corrupted.
    pub fn apply_edits(&mut self, edits: &Vec<Edit>) -> (r: Result<(), EditError>)
        ensures
            final(self)@ == apply_batch(old(self)@, edits@).0,
            r is Ok <==> apply_batch(old(self)@, edits@).1,
            r is Err ==> r == Err::<(), EditError>(EditError::InvalidRange),
    {
        proof {
            assert(edits@.skip(0) =~= edits@);
        }
        let mut i: usize = 0;
        while i < edits.len()
            invariant
                0 <= i <= edits@.len(),
                apply_batch(old(self)@, edits@) == apply_batch(self@, edits@.skip(i as int)),
            decreases edits@.len() - i,
        {
            let ghost pre = self@;
            let r = self.apply_edit(&edits[i]);
            proof {
                assert(edits@.skip(i as int)[0] == edits@[i as int]);
                assert(edits@.skip(i as int).drop_first() =~= edits@.skip(i + 1 as int));
            }
            match r {
                Ok(()) => {},
                Err(e) => {
                    proof {
                        assert(apply_batch(pre, edits@.skip(i as int)) == (pre, false));
                    }
                    return Err(e);
                },
            }
            i = i + 1;
        }
        proof {
            assert(edits@.skip(edits@.len() as int) =~= Seq::<Edit>::empty());
        }
        Ok(())
    }

    /// Answers a completion request: reads a snapshot of the buffer and
    /// derives the candidate list from it and the cursor position.
    pub fn completion_candidates(&self, cursor: Position) -> (r: Vec<Vec<u8>>)
        ensures
            views_of(r@) == candidates_spec(self@, cursor),
    {
        let snap = self.snapshot();
        complete(&snap, cursor)
    }
}

/// Snapshot is idempotent: two snapshot results taken from the same buffer
/// value, with no intervening edit, hold identical text, since each result
/// is pinned to the buffer's value.
pub proof fn lemma_snapshot_idempotent(buffer: Seq<u8>, first: Seq<u8>, second: Seq<u8>)
    requires
        first == buffer,
        second == buffer,
    ensures
        first == second,
{
}

/// Sequential edit application composes: a batch of two edits leaves the
/// buffer that results from applying the first edit, then applying the
/// second against the buffer the first produced.
pub proof fn lemma_sequential_edits(text: Seq<u8>, e1: Edit, e2: Edit)
    requires
        edit_result(text, e1) is Some,
        edit_result(edit_result(text, e1)->Some_0, e2) is Some,
    ensures
        apply_batch(text, seq![e1, e2]).0 == edit_result(edit_result(text, e1)->Some_0, e2)->Some_0,
        apply_batch(text, seq![e1, e2]).1,
{
    reveal_with_fuel(apply_batch, 3);
    let es = seq![e1, e2];
    assert(es[0] == e1);
    assert(es.drop_first() =~= seq![e2]);
    let t1 = edit_result(text, e1)->Some_0;
    let t2 = edit_result(t1, e2)->Some_0;
    assert(seq![e2][0] == e2);
    assert(seq![e2].drop_first() =~= Seq::<Edit>::empty());
    assert(apply_batch(t2, Seq::<Edit>::empty()) == (t2, true));
    assert(apply_batch(t1, seq![e2]) == (t2, true));
    assert(apply_batch(text, es) == apply_batch(t1, es.drop_first()));
}

} // verus!
