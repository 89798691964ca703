//! From the distances of one language to its confusion table.
//!
//! The steps here fix which cells are read, in which order, and where each
//! result goes. The arithmetic on the similarity values themselves is handed
//! in by the caller, so the steps hold for whatever number type the values
//! are kept in. What follows where that arithmetic is exact is shown in
//! [`crate::exact`].

use crate::normalized::{lemma_normalized_unique, normalized, Ratio};
use crate::pairwise::distances;
use crate::triangular::{
    lemma_packed_index_onto, lemma_pair_index_in_range, pair_index, Triangular,
};
use vstd::prelude::*;

verus! {

/// Row `i` of the full symmetric table that `sims` stands for: the value of
/// the pair `{i, k}` for every `k`, in order.
pub open spec fn table_row<S>(sims: Triangular<S>, i: int) -> Seq<S> {
    Seq::new(sims.order(), |k: int| sims.at(i, k))
}

/// Whether `partials` are the running totals of adding `terms` to `zero` one
/// after the other, from the first to the last, each step one call of `plus`.
pub open spec fn running_totals<S, F: Fn(S, S) -> S>(
    plus: F,
    zero: S,
    terms: Seq<S>,
    partials: Seq<S>,
) -> bool {
    &&& partials.len() == terms.len() + 1
    &&& partials[0] == zero
    &&& forall|k: int|
        0 <= k < terms.len() ==> call_ensures(plus, (partials[k], #[trigger] terms[k]), partials[k + 1])
}

/// Whether `total` can come out when `terms` are added to `zero` one after the
/// other, from the first to the last, each time by one call of `plus`.
pub open spec fn accumulates<S, F: Fn(S, S) -> S>(plus: F, zero: S, terms: Seq<S>, total: S) -> bool {
    exists|partials: Seq<S>| #[trigger]
        running_totals(plus, zero, terms, partials) && partials.last() == total
}

/// Whether `sims` holds, for each two words of the group, a result of `decay`
/// on the normalised distance between their transcriptions. The fraction that
/// `decay` is handed is that distance term by term: its numerator is twice
/// the edit distance.
pub open spec fn decayed<S, D: Fn(Ratio) -> S>(
    sims: Triangular<S>,
    words: Seq<(String, String)>,
    decay: D,
) -> bool {
    &&& sims.wf()
    &&& sims.order() == words.len()
    &&& forall|i: int, j: int|
        0 <= i < words.len() && 0 <= j < words.len() ==> {
            &&& call_ensures(decay, (normalized(words[i].1@, words[j].1@),), #[trigger] sims.at(i, j))
            &&& normalized(words[i].1@, words[j].1@).is_normalized(words[i].1@, words[j].1@)
        }
}

/// The similarity of every pair: `decay` applied to each normalised distance,
/// cell by cell, the layout kept.
pub fn similarities<S, F: Fn(Ratio) -> S>(table: &Triangular<Ratio>, decay: F) -> (sims: Triangular<S>)
    requires
        forall|k: int| 0 <= k < table@.len() ==> call_requires(decay, (#[trigger] table@[k],)),
    ensures
        sims.wf(),
        sims.order() == table.order(),
        forall|k: int| 0 <= k < table@.len() ==> call_ensures(decay, (table@[k],), #[trigger] sims@[k]),
        forall|i: int, j: int|
            0 <= i < table.order() && 0 <= j < table.order() ==> call_ensures(
                decay,
                (table.at(i, j),),
                #[trigger] sims.at(i, j),
            ),
{
    let n: usize = table.rows();
    let cells = table.as_cells();
    let mut out: Vec<S> = Vec::new();
    let mut k: usize = 0;
    while k < cells.len()
        invariant
            cells@ == table@,
            forall|m: int| 0 <= m < cells@.len() ==> call_requires(decay, (#[trigger] cells@[m],)),
            k <= cells@.len(),
            out@.len() == k,
            forall|m: int| 0 <= m < k ==> call_ensures(decay, (cells@[m],), #[trigger] out@[m]),
        decreases cells@.len() - k,
    {
        out.push(decay(cells[k]));
        k += 1;
    }
    let sims = Triangular::from_cells(n, out).unwrap();
    proof {
        assert forall|i: int, j: int|
            0 <= i < table.order() && 0 <= j < table.order() implies call_ensures(
            decay,
            (table.at(i, j),),
            #[trigger] sims.at(i, j),
        ) by {
            lemma_pair_index_in_range(table.order(), i as nat, j as nat);
        }
    }
    sims
}

/// The normalisation total of every item: its similarity to each item of the
/// group, itself included, added up in the order of the group, starting from
/// `zero`. A pair of two different items so counts towards both of them, an
/// item's pair with itself once.
pub fn norms<S: Copy, F: Fn(S, S) -> S>(sims: &Triangular<S>, zero: S, plus: F) -> (totals: Vec<S>)
    requires
        forall|total: S, k: int|
            0 <= k < sims@.len() ==> #[trigger] call_requires(plus, (total, sims@[k])),
    ensures
        totals@.len() == sims.order(),
        forall|i: int|
            0 <= i < sims.order() ==> accumulates(
                plus,
                zero,
                table_row(*sims, i),
                #[trigger] totals@[i],
            ),
{
    let n: usize = sims.rows();
    let mut totals: Vec<S> = Vec::new();
    let mut i: usize = 0;
    while i < n
        invariant
            n == sims.order(),
            sims.wf(),
            forall|total: S, k: int|
                0 <= k < sims@.len() ==> #[trigger] call_requires(plus, (total, sims@[k])),
            i <= n,
            totals@.len() == i,
            forall|r: int|
                0 <= r < i ==> accumulates(plus, zero, table_row(*sims, r), #[trigger] totals@[r]),
        decreases n - i,
    {
        let ghost row = table_row(*sims, i as int);
        let ghost mut partials: Seq<S> = seq![zero];
        let mut acc: S = zero;
        let mut k: usize = 0;
        while k < n
            invariant
                n == sims.order(),
                sims.wf(),
                forall|total: S, k: int|
                    0 <= k < sims@.len() ==> #[trigger] call_requires(plus, (total, sims@[k])),
                i < n,
                k <= n,
                row == table_row(*sims, i as int),
                running_totals(plus, zero, row.take(k as int), partials),
                partials.last() == acc,
            decreases n - k,
        {
            let cell: S = *sims.get(i, k).unwrap();
            proof {
                lemma_pair_index_in_range(n as nat, i as nat, k as nat);
            }
            acc = plus(acc, cell);
            proof {
                partials = partials.push(acc);
            }
            k += 1;
        }
        assert(row.take(n as int) =~= row);
        totals.push(acc);
        i += 1;
    }
    totals
}

/// Similarities and normalisation totals of a group of words, given as pairs
/// of written form and transcription: the similarity of each two words is
/// `decay` of the normalised distance between their transcriptions, and the
/// total of a word adds up its similarities to all the words of the group.
///
/// The fraction that `decay` is handed for a pair is the normalised distance
/// term by term, so it is zero for equal transcriptions and for no others.
/// What the similarities have from `decay` is shown in [`crate::decay`].
pub fn distances_norms<S: Copy, D: Fn(Ratio) -> S, P: Fn(S, S) -> S>(
    words: &Vec<(String, String)>,
    decay: D,
    zero: S,
    plus: P,
) -> (built: (Triangular<S>, Vec<S>))
    requires
        forall|r: Ratio| r.wf() ==> call_requires(decay, (r,)),
        forall|total: S, s: S| call_requires(plus, (total, s)),
    ensures
        decayed(built.0, words@, decay),
        built.1@.len() == words@.len(),
        forall|i: int|
            0 <= i < words@.len() ==> accumulates(
                plus,
                zero,
                table_row(built.0, i),
                #[trigger] built.1@[i],
            ),
{
    let table = distances(words);
    proof {
        assert forall|k: int| 0 <= k < table@.len() implies call_requires(
            decay,
            (#[trigger] table@[k],),
        ) by {
            let cell = lemma_packed_index_onto(table.order(), k as nat);
            let ratio = table.at(cell.0 as int, cell.1 as int);
            assert(ratio.wf());
        }
    }
    let sims = similarities(&table, decay);
    let totals = norms(&sims, zero, plus);
    proof {
        assert forall|i: int, j: int| 0 <= i < words@.len() && 0 <= j < words@.len() implies {
            &&& call_ensures(
                decay,
                (normalized(words@[i].1@, words@[j].1@),),
                #[trigger] sims.at(i, j),
            )
            &&& normalized(words@[i].1@, words@[j].1@).is_normalized(words@[i].1@, words@[j].1@)
        } by {
            lemma_normalized_unique(table.at(i, j), words@[i].1@, words@[j].1@);
        }
    }
    (sims, totals)
}

/// The confusion table of a group: for row `i` and column `j`, `scale` applied
/// to the similarity of the pair `{i, j}`, the normalisation total of the
/// *column* `j`, and the size of the group.
///
/// Two cells that mirror each other are made from the same similarity but
/// from different totals, so the table need not be symmetric.
/// There is no table where `totals` does not hold one total per item.
pub fn lexical_metrics<S: Copy, F: Fn(S, S, usize) -> S>(
    sims: &Triangular<S>,
    totals: &Vec<S>,
    scale: F,
) -> (metric: Option<Vec<Vec<S>>>)
    requires
        forall|k: int, j: int|
            0 <= k < sims@.len() && 0 <= j < totals@.len() ==> #[trigger] call_requires(
                scale,
                (sims@[k], totals@[j], sims.rows()),
            ),
    ensures
        metric is Some <==> totals@.len() == sims.order(),
        metric matches Some(m) ==> {
            &&& m@.len() == sims.order()
            &&& forall|i: int| 0 <= i < sims.order() ==> (#[trigger] m@[i])@.len() == sims.order()
            &&& forall|i: int, j: int|
                0 <= i < sims.order() && 0 <= j < sims.order() ==> call_ensures(
                    scale,
                    (sims.at(i, j), totals@[j], sims.rows()),
                    #[trigger] m@[i]@[j],
                )
        },
{
    let n: usize = sims.rows();
    if totals.len() != n {
        return None;
    }
    let mut m: Vec<Vec<S>> = Vec::new();
    let mut i: usize = 0;
    while i < n
        invariant
            n == sims.order(),
            n == totals@.len(),
            sims.wf(),
            forall|k: int, j: int|
                0 <= k < sims@.len() && 0 <= j < totals@.len() ==> #[trigger] call_requires(
                    scale,
                    (sims@[k], totals@[j], n),
                ),
            i <= n,
            m@.len() == i,
            forall|r: int| 0 <= r < i ==> (#[trigger] m@[r])@.len() == n,
            forall|r: int, c: int|
                0 <= r < i && 0 <= c < n ==> call_ensures(
                    scale,
                    (sims.at(r, c), totals@[c], n),
                    #[trigger] m@[r]@[c],
                ),
        decreases n - i,
    {
        let mut row: Vec<S> = Vec::new();
        let mut j: usize = 0;
        while j < n
            invariant
                n == sims.order(),
                n == totals@.len(),
                sims.wf(),
                forall|k: int, j: int|
                    0 <= k < sims@.len() && 0 <= j < totals@.len() ==> #[trigger] call_requires(
                        scale,
                        (sims@[k], totals@[j], n),
                    ),
                i < n,
                j <= n,
                row@.len() == j,
                forall|c: int|
                    0 <= c < j ==> call_ensures(
                        scale,
                        (sims.at(i as int, c), totals@[c], n),
                        #[trigger] row@[c],
                    ),
            decreases n - j,
        {
            let cell: S = *sims.get(i, j).unwrap();
            proof {
                lemma_pair_index_in_range(n as nat, i as nat, j as nat);
            }
            row.push(scale(cell, totals[j], n));
            j += 1;
        }
        m.push(row);
        i += 1;
    }
    Some(m)
}

} // verus!
