//! The completion engine: tokenizes the buffer on whitespace and ASCII
//! punctuation and returns the distinct tokens other than the word under
//! the cursor, in order of first occurrence.

use vstd::prelude::*;
use crate::position::{Position, offset_spec, offset_of};

verus! {

/// A byte that separates tokens: ASCII whitespace (tab through carriage
/// return, and space) or ASCII punctuation.
pub open spec fn is_sep_spec(b: u8) -> bool {
    b == 32 || (9 <= b && b <= 13) || (33 <= b && b <= 47) || (58 <= b && b <= 64) || (91 <= b && b
        <= 96) || (123 <= b && b <= 126)
}

/// Decides whether a byte separates tokens.
pub fn is_sep(b: u8) -> (r: bool)
    ensures
        r == is_sep_spec(b),
{
    b == 32 || (9 <= b && b <= 13) || (33 <= b && b <= 47) || (58 <= b && b <= 64) || (91 <= b && b
        <= 96) || (123 <= b && b <= 126)
}

/// The start of the word that ends at offset `end`: the nearest offset at or
/// below `end` that sits at the buffer start or right after a separator.
pub open spec fn word_start(text: Seq<u8>, end: int) -> int
    recommends
        0 <= end <= text.len(),
    decreases end,
{
    if end <= 0 {
        0
    } else if is_sep_spec(text[end - 1]) {
        end
    } else {
        word_start(text, end - 1)
    }
}

/// The word the cursor sits at the end of: the bytes between the nearest
/// separator (or the buffer start) and the cursor's mapped offset.
pub open spec fn current_word_spec(text: Seq<u8>, cursor: Position) -> Seq<u8> {
    let end = offset_spec(text, cursor);
    text.subrange(word_start(text, end), end)
}

/// The end of the token that starts at or covers offset `i`: the nearest
/// separator offset at or above `i`, or the buffer length.
pub open spec fn token_end(text: Seq<u8>, i: int) -> int
    recommends
        0 <= i <= text.len(),
    decreases text.len() - i,
{
    if i < 0 || i >= text.len() {
        text.len() as int
    } else if is_sep_spec(text[i]) {
        i
    } else {
        token_end(text, i + 1)
    }
}

/// The token end lies between `i` and the buffer length, and strictly after
/// `i` when a token byte stands at `i`.
pub proof fn lemma_token_end_bounds(text: Seq<u8>, i: int)
    requires
        0 <= i <= text.len(),
    ensures
        i <= token_end(text, i) <= text.len(),
        i < text.len() && !is_sep_spec(text[i]) ==> i + 1 <= token_end(text, i),
    decreases text.len() - i,
{
    if i < text.len() && !is_sep_spec(text[i]) {
        lemma_token_end_bounds(text, i + 1);
    }
}

/// The tokens of `text` from offset `i` on, in order: each token is a
/// maximal run of non-separator bytes. Empty tokens do not arise: runs of
/// consecutive separators are skipped.
pub open spec fn tokens_from(text: Seq<u8>, i: int) -> Seq<Seq<u8>>
    recommends
        0 <= i <= text.len(),
    decreases text.len() - i,
    via tokens_from_dec
{
    if i < 0 || i >= text.len() {
        Seq::empty()
    } else if is_sep_spec(text[i]) {
        tokens_from(text, i + 1)
    } else {
        seq![text.subrange(i, token_end(text, i))] + tokens_from(text, token_end(text, i))
    }
}

#[via_fn]
proof fn tokens_from_dec(text: Seq<u8>, i: int) {
    if 0 <= i < text.len() && !is_sep_spec(text[i]) {
        lemma_token_end_bounds(text, i);
    }
}

/// Deduplicates a token list, keeping each token's first occurrence and
/// dropping every token equal to `excl`.
pub open spec fn dedup_excluding(toks: Seq<Seq<u8>>, excl: Seq<u8>) -> Seq<Seq<u8>>
    decreases toks.len(),
{
    if toks.len() == 0 {
        Seq::empty()
    } else {
        let prev = dedup_excluding(toks.drop_last(), excl);
        if toks.last() == excl || prev.contains(toks.last()) {
            prev
        } else {
            prev.push(toks.last())
        }
    }
}

/// The completion candidates for a cursor position: the buffer's distinct
/// tokens, in order of first occurrence, without the word under the cursor.
pub open spec fn candidates_spec(text: Seq<u8>, cursor: Position) -> Seq<Seq<u8>> {
    dedup_excluding(tokens_from(text, 0), current_word_spec(text, cursor))
}

/// The byte sequences a list of byte vectors holds.
pub open spec fn views_of(vs: Seq<Vec<u8>>) -> Seq<Seq<u8>> {
    vs.map_values(|v: Vec<u8>| v@)
}

/// No two entries of the sequence are equal.
pub open spec fn distinct_seq(s: Seq<Seq<u8>>) -> bool {
    forall|i: int, j: int| 0 <= i < j < s.len() ==> s[i] != s[j]
}

/// Compares two byte vectors element by element.
fn bytes_eq(a: &Vec<u8>, b: &Vec<u8>) -> (r: bool)
    ensures
        r == (a@ == b@),
{
    if a.len() != b.len() {
        return false;
    }
    let mut i: usize = 0;
    while i < a.len()
        invariant
            0 <= i <= a@.len(),
            a@.len() == b@.len(),
            forall|j: int| 0 <= j < i ==> a@[j] == b@[j],
        decreases a@.len() - i,
    {
        if a[i] != b[i] {
            return false;
        }
        i = i + 1;
    }
    assert(a@ =~= b@);
    true
}

/// Decides whether the list already holds a vector with the bytes of `t`.
fn contains_bytes(v: &Vec<Vec<u8>>, t: &Vec<u8>) -> (r: bool)
    ensures
        r == views_of(v@).contains(t@),
{
    let mut j: usize = 0;
    while j < v.len()
        invariant
            0 <= j <= v@.len(),
            forall|m: int| 0 <= m < j ==> v@[m]@ != t@,
        decreases v@.len() - j,
    {
        if bytes_eq(&v[j], t) {
            assert(views_of(v@)[j as int] == t@);
            assert(views_of(v@).contains(t@));
            return true;
        }
        j = j + 1;
    }
    assert(!views_of(v@).contains(t@)) by {
        assert forall|m: int| 0 <= m < views_of(v@).len() implies views_of(v@)[m] != t@ by {
            assert(views_of(v@)[m] == v@[m]@);
        }
    }
    false
}

/// Returns the completion candidates for `cursor` against `text`: the
/// buffer's distinct tokens in order of first occurrence, excluding exactly
/// the tokens equal to the word the cursor sits at the end of. An
/// out-of-range cursor clamps to the buffer end; an empty buffer yields no
/// candidates.
pub fn complete(text: &Vec<u8>, cursor: Position) -> (r: Vec<Vec<u8>>)
    ensures
        views_of(r@) == candidates_spec(text@, cursor),
{
    let end = offset_of(text, cursor);
    let mut start: usize = end;
    while start > 0 && !is_sep(text[start - 1])
        invariant
            0 <= start <= end <= text@.len(),
            word_start(text@, end as int) == word_start(text@, start as int),
        decreases start,
    {
        start = start - 1;
    }
    assert(word_start(text@, end as int) == start as int);
    let mut cur: Vec<u8> = Vec::new();
    let mut ci: usize = start;
    while ci < end
        invariant
            start <= ci <= end <= text@.len(),
            cur@ == text@.subrange(start as int, ci as int),
        decreases end - ci,
    {
        cur.push(text[ci]);
        assert(cur@ =~= text@.subrange(start as int, ci + 1 as int));
        ci = ci + 1;
    }
    assert(cur@ == current_word_spec(text@, cursor));

    let ghost all_toks = tokens_from(text@, 0);
    let ghost mut done: Seq<Seq<u8>> = Seq::empty();
    let mut result: Vec<Vec<u8>> = Vec::new();
    proof {
        assert(done + tokens_from(text@, 0) =~= tokens_from(text@, 0));
        assert(views_of(result@) =~= dedup_excluding(done, cur@));
    }
    let mut i: usize = 0;
    while i < text.len()
        invariant
            0 <= i <= text@.len(),
            all_toks == tokens_from(text@, 0),
            all_toks == done + tokens_from(text@, i as int),
            views_of(result@) == dedup_excluding(done, cur@),
            cur@ == current_word_spec(text@, cursor),
        decreases text@.len() - i,
    {
        if is_sep(text[i]) {
            i = i + 1;
        } else {
            let mut k: usize = i + 1;
            while k < text.len() && !is_sep(text[k])
                invariant
                    i < k <= text@.len(),
                    i < text@.len() && !is_sep_spec(text@[i as int]),
                    token_end(text@, i as int) == token_end(text@, k as int),
                decreases text@.len() - k,
            {
                k = k + 1;
            }
            assert(token_end(text@, i as int) == k as int);
            let mut tok: Vec<u8> = Vec::new();
            let mut t: usize = i;
            while t < k
                invariant
                    i <= t <= k <= text@.len(),
                    tok@ == text@.subrange(i as int, t as int),
                decreases k - t,
            {
                tok.push(text[t]);
                assert(tok@ =~= text@.subrange(i as int, t + 1 as int));
                t = t + 1;
            }
            let ghost tokview = tok@;
            proof {
                assert(tokens_from(text@, i as int) == seq![tokview] + tokens_from(
                    text@,
                    k as int,
                ));
                assert(done.push(tokview).drop_last() =~= done);
                assert(done.push(tokview).last() == tokview);
            }
            let is_cur = bytes_eq(&tok, &cur);
            let already = contains_bytes(&result, &tok);
            if !is_cur && !already {
                let ghost old_result = result@;
                result.push(tok);
                proof {
                    assert(views_of(result@) =~= views_of(old_result).push(tokview));
                }
            }
            proof {
                let ghost old_done = done;
                done = done.push(tokview);
                assert(old_done + (seq![tokview] + tokens_from(text@, k as int)) =~= done
                    + tokens_from(text@, k as int));
                assert(views_of(result@) == dedup_excluding(done, cur@));
            }
            i = k;
        }
    }
    proof {
        assert(tokens_from(text@, text@.len() as int) =~= Seq::<Seq<u8>>::empty());
        assert(done + Seq::<Seq<u8>>::empty() =~= done);
    }
    result
}

proof fn lemma_dedup_excluding_props(toks: Seq<Seq<u8>>, excl: Seq<u8>)
    ensures
        forall|t: Seq<u8>|
            #[trigger] dedup_excluding(toks, excl).contains(t) <==> (toks.contains(t) && t
                != excl),
        distinct_seq(dedup_excluding(toks, excl)),
    decreases toks.len(),
{
    broadcast use vstd::seq_lib::group_seq_properties;

    if toks.len() == 0 {
    } else {
        lemma_dedup_excluding_props(toks.drop_last(), excl);
        let prev = dedup_excluding(toks.drop_last(), excl);
        let last = toks.last();
        assert forall|t: Seq<u8>| #[trigger] toks.contains(t) implies (toks.drop_last().contains(t)
            || t == last) by {
            let idx = choose|idx: int| 0 <= idx < toks.len() && toks[idx] == t;
            if idx < toks.len() - 1 {
                assert(toks.drop_last()[idx] == t);
                assert(toks.drop_last().contains(t));
            }
        }
        assert forall|t: Seq<u8>| toks.drop_last().contains(t) || t == last implies #[trigger] toks.contains(
            t,
        ) by {
            if toks.drop_last().contains(t) {
                let idx = choose|idx: int| 0 <= idx < toks.drop_last().len() && toks.drop_last()[idx]
                    == t;
                assert(toks[idx] == t);
            } else {
                assert(toks[toks.len() - 1] == t);
            }
        }
        if last == excl || prev.contains(last) {
        } else {
            assert forall|t: Seq<u8>| #[trigger] prev.push(last).contains(t) implies (prev.contains(
                t,
            ) || t == last) by {
                let idx = choose|idx: int| 0 <= idx < prev.push(last).len() && prev.push(last)[idx]
                    == t;
                if idx < prev.len() {
                    assert(prev[idx] == t);
                }
            }
            assert(distinct_seq(prev.push(last))) by {
                assert forall|x: int, y: int| 0 <= x < y < prev.push(last).len() implies prev.push(
                    last,
                )[x] != prev.push(last)[y] by {
                    if y < prev.len() {
                        assert(prev[x] != prev[y]);
                    } else {
                        assert(prev.contains(prev[x]));
                    }
                }
            }
        }
    }
}

/// Completion excludes only the exact current word: a byte sequence is a
/// candidate if and only if it is a token of the buffer and differs from
/// the word under the cursor, and no candidate appears twice.
pub proof fn lemma_candidates_exact(text: Seq<u8>, cursor: Position)
    ensures
        forall|t: Seq<u8>|
            #[trigger] candidates_spec(text, cursor).contains(t) <==> (tokens_from(
                text,
                0,
            ).contains(t) && t != current_word_spec(text, cursor)),
        distinct_seq(candidates_spec(text, cursor)),
{
    lemma_dedup_excluding_props(tokens_from(text, 0), current_word_spec(text, cursor));
}

} // verus!
