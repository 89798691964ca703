//! What the similarities of a group have from `decay`.
//!
//! The library does not know how a distance decays into a similarity: the
//! caller brings that. It does know which fraction each cell was made from.
//! So whatever the caller's `decay` promises of its results holds of the
//! cells, and these are the forms of it that matter.

use crate::metrics::decayed;
use crate::normalized::{lemma_normalized_zero, Ratio};
use crate::triangular::{lemma_packed_index_onto, Triangular};
use vstd::prelude::*;

verus! {

/// What holds of every result of `decay` holds of every cell kept.
pub proof fn lemma_cells_within<S, D: Fn(Ratio) -> S>(
    sims: Triangular<S>,
    words: Seq<(String, String)>,
    decay: D,
    within: spec_fn(S) -> bool,
)
    requires
        decayed(sims, words, decay),
        forall|r: Ratio, s: S| r.wf() && call_ensures(decay, (r,), s) ==> within(s),
    ensures
        forall|k: int| 0 <= k < sims@.len() ==> within(#[trigger] sims@[k]),
{
    assert forall|k: int| 0 <= k < sims@.len() implies within(#[trigger] sims@[k]) by {
        let cell = lemma_packed_index_onto(sims.order(), k as nat);
        assert(sims@[k] == sims.at(cell.0 as int, cell.1 as int));
    }
}

/// Where `decay` gives `one` for the distance zero and for no other, a pair
/// has the similarity `one` exactly where its two transcriptions are equal.
/// So every word has the similarity `one` to itself.
pub proof fn lemma_one_where_equal<S, D: Fn(Ratio) -> S>(
    sims: Triangular<S>,
    words: Seq<(String, String)>,
    decay: D,
    one: S,
    i: int,
    j: int,
)
    requires
        decayed(sims, words, decay),
        0 <= i < words.len(),
        0 <= j < words.len(),
        forall|r: Ratio, s: S|
            r.wf() && call_ensures(decay, (r,), s) ==> (s == one <==> r.num == 0),
    ensures
        sims.at(i, j) == one <==> words[i].1@ == words[j].1@,
        sims.at(i, i) == one,
{
    lemma_normalized_zero(words[i].1@, words[j].1@);
    lemma_normalized_zero(words[i].1@, words[i].1@);
}

/// Where `decay` gives one result for one distance, the similarity of two
/// words hangs on their transcriptions alone: not on where in the group they
/// stand, on which of them comes first, or on what else the group holds.
pub proof fn lemma_similarity_of_transcriptions<S, D: Fn(Ratio) -> S>(
    sims: Triangular<S>,
    words: Seq<(String, String)>,
    others: Triangular<S>,
    other_words: Seq<(String, String)>,
    decay: D,
    i: int,
    j: int,
    k: int,
    l: int,
)
    requires
        decayed(sims, words, decay),
        decayed(others, other_words, decay),
        0 <= i < words.len(),
        0 <= j < words.len(),
        0 <= k < other_words.len(),
        0 <= l < other_words.len(),
        words[i].1@ == other_words[k].1@,
        words[j].1@ == other_words[l].1@,
        forall|r: Ratio, s: S, t: S|
            call_ensures(decay, (r,), s) && call_ensures(decay, (r,), t) ==> s == t,
    ensures
        sims.at(i, j) == others.at(k, l),
        sims.at(i, j) == others.at(l, k),
{
    others.lemma_at_symmetric(k, l);
}

} // verus!
