//! The normalisation totals under exact arithmetic.
//!
//! Where adding two values loses nothing, the totals of a group add up to
//! twice the sum of the similarities kept less the sum of the diagonal. Under
//! rounding arithmetic this holds only as far as the rounding lets it.

use crate::decay::lemma_similarity_of_transcriptions;
use crate::metrics::{accumulates, decayed, running_totals, table_row};
use crate::normalized::Ratio;
use crate::triangular::{
    lemma_packed_index_in_range, lemma_pair_index_in_range, lemma_triangle_step, packed_index,
    pair_index, triangle, Triangular,
};
use vstd::prelude::*;

verus! {

/// The values added up.
pub open spec fn sum(values: Seq<int>) -> int
    decreases values.len(),
{
    if values.len() == 0 {
        0
    } else {
        sum(values.drop_last()) + values.last()
    }
}

/// The cells of the diagonal: the value of each item's pair with itself.
pub open spec fn diagonal<S>(sims: Triangular<S>) -> Seq<S> {
    Seq::new(sims.order(), |i: int| sims.at(i, i))
}

/// Row `i` of the full table of `m` rows that the packed `cells` stand for.
pub open spec fn full_row(cells: Seq<int>, m: nat, i: int) -> Seq<int> {
    Seq::new(m, |k: int| cells[pair_index(i as nat, k as nat) as int])
}

/// The sum of every row of the full table of `m` rows.
pub open spec fn row_sums(cells: Seq<int>, m: nat) -> Seq<int> {
    Seq::new(m, |i: int| sum(full_row(cells, m, i)))
}

/// The diagonal of the full table of `m` rows.
pub open spec fn diagonal_cells(cells: Seq<int>, m: nat) -> Seq<int> {
    Seq::new(m, |i: int| cells[packed_index(i as nat, i as nat) as int])
}

/// One value more adds that value to the sum.
proof fn lemma_sum_push(values: Seq<int>, x: int)
    ensures
        sum(values.push(x)) == sum(values) + x,
{
    assert(values.push(x).drop_last() =~= values);
}

/// The sum of two sequences joined is the sum of their sums.
proof fn lemma_sum_concat(a: Seq<int>, b: Seq<int>)
    ensures
        sum(a + b) == sum(a) + sum(b),
    decreases b.len(),
{
    if b.len() > 0 {
        assert((a + b).drop_last() =~= a + b.drop_last());
        lemma_sum_concat(a, b.drop_last());
    }
}

/// Sequences added term by term add up to the sum of their sums.
proof fn lemma_sum_pointwise(a: Seq<int>, b: Seq<int>, c: Seq<int>)
    requires
        a.len() == b.len(),
        a.len() == c.len(),
        forall|k: int| 0 <= k < c.len() ==> c[k] == a[k] + b[k],
    ensures
        sum(c) == sum(a) + sum(b),
    decreases c.len(),
{
    if c.len() > 0 {
        lemma_sum_pointwise(a.drop_last(), b.drop_last(), c.drop_last());
    }
}

/// In exact arithmetic the row sums of a symmetric table add up to twice the
/// sum of its packed cells less the sum of its diagonal.
pub proof fn lemma_row_sums(cells: Seq<int>, m: nat)
    requires
        triangle(m) <= cells.len(),
    ensures
        sum(row_sums(cells, m)) == 2 * sum(cells.take(triangle(m) as int)) - sum(
            diagonal_cells(cells, m),
        ),
    decreases m,
{
    if m == 0 {
        assert(m * (m + 1) == 0) by (nonlinear_arith)
            requires
                m == 0,
        ;
    } else {
        let n = (m - 1) as nat;
        lemma_triangle_step(n);
        lemma_row_sums(cells, n);
        let stored = cells.subrange(triangle(n) as int, triangle(m) as int);
        let corner = cells[packed_index(n, n) as int];
        let side = stored.take(n as int);
        // The packed cells grow by the new row.
        assert(cells.take(triangle(m) as int) =~= cells.take(triangle(n) as int) + stored);
        lemma_sum_concat(cells.take(triangle(n) as int), stored);
        // The new row is its cells left of the diagonal, then the corner.
        lemma_sum_push(side, corner);
        // The diagonal grows by the corner.
        assert(diagonal_cells(cells, m) =~= diagonal_cells(cells, n).push(corner));
        lemma_sum_push(diagonal_cells(cells, n), corner);
        // Each earlier row grows by its cell in the new row.
        let grown = Seq::new(n, |i: int| sum(full_row(cells, m, i)));
        assert forall|i: int| 0 <= i < n implies grown[i] == row_sums(cells, n)[i] + side[i] by {
            assert(full_row(cells, m, i) =~= full_row(cells, n, i).push(side[i]));
            lemma_sum_push(full_row(cells, n, i), side[i]);
        }
        lemma_sum_pointwise(row_sums(cells, n), side, grown);
        // The new row of the full table is the new row of the packed cells.
        assert(full_row(cells, m, n as int) =~= stored);
        assert(row_sums(cells, m) =~= grown.push(sum(stored)));
        lemma_sum_push(grown, sum(stored));
    }
}

/// Where `plus` adds exactly, what is accumulated is worth the start and all
/// the terms together.
pub proof fn lemma_accumulates_exactly<S, F: Fn(S, S) -> S>(
    plus: F,
    zero: S,
    terms: Seq<S>,
    total: S,
    value: spec_fn(S) -> int,
)
    requires
        accumulates(plus, zero, terms, total),
        forall|x: S, y: S, z: S| call_ensures(plus, (x, y), z) ==> value(z) == value(x) + value(y),
    ensures
        value(total) == value(zero) + sum(terms.map_values(value)),
{
    let partials = choose|partials: Seq<S>| #[trigger]
        running_totals(plus, zero, terms, partials) && partials.last() == total;
    lemma_running_totals_exactly(plus, zero, terms, partials, value, terms.len());
    assert(terms.take(terms.len() as int) =~= terms);
}

/// Where `plus` adds exactly, each running total is worth the start and the
/// terms added so far.
proof fn lemma_running_totals_exactly<S, F: Fn(S, S) -> S>(
    plus: F,
    zero: S,
    terms: Seq<S>,
    partials: Seq<S>,
    value: spec_fn(S) -> int,
    k: nat,
)
    requires
        running_totals(plus, zero, terms, partials),
        forall|x: S, y: S, z: S| call_ensures(plus, (x, y), z) ==> value(z) == value(x) + value(y),
        k <= terms.len(),
    ensures
        value(partials[k as int]) == value(zero) + sum(terms.take(k as int).map_values(value)),
    decreases k,
{
    if k > 0 {
        let j = (k - 1) as int;
        lemma_running_totals_exactly(plus, zero, terms, partials, value, (k - 1) as nat);
        assert(terms.take(k as int).map_values(value) =~= terms.take(j).map_values(value).push(
            value(terms[j]),
        ));
        lemma_sum_push(terms.take(j).map_values(value), value(terms[j]));
    }
}

/// Where `plus` adds exactly and `zero` is worth nothing, the normalisation
/// totals of a group add up to twice the sum of the values kept less the sum
/// of the diagonal: every pair of two different items is counted for both of
/// them, and every item's pair with itself once.
pub proof fn lemma_totals_count_pairs_twice<S, F: Fn(S, S) -> S>(
    sims: Triangular<S>,
    zero: S,
    plus: F,
    totals: Seq<S>,
    value: spec_fn(S) -> int,
)
    requires
        sims.wf(),
        totals.len() == sims.order(),
        forall|i: int|
            0 <= i < sims.order() ==> accumulates(plus, zero, table_row(sims, i), #[trigger] totals[i]),
        value(zero) == 0,
        forall|x: S, y: S, z: S| call_ensures(plus, (x, y), z) ==> value(z) == value(x) + value(y),
    ensures
        sum(totals.map_values(value)) == 2 * sum(sims@.map_values(value)) - sum(
            diagonal(sims).map_values(value),
        ),
{
    let n = sims.order();
    let cells = sims@.map_values(value);
    lemma_row_sums(cells, n);
    assert(cells.take(triangle(n) as int) =~= cells);
    assert forall|i: int| 0 <= i < n implies #[trigger] totals.map_values(value)[i] == row_sums(
        cells,
        n,
    )[i] by {
        lemma_accumulates_exactly(plus, zero, table_row(sims, i), totals[i], value);
        assert forall|k: int| 0 <= k < n implies #[trigger] table_row(sims, i).map_values(value)[k]
            == full_row(cells, n, i)[k] by {
            lemma_pair_index_in_range(n, i as nat, k as nat);
        }
        assert(table_row(sims, i).map_values(value) =~= full_row(cells, n, i));
    }
    assert(totals.map_values(value) =~= row_sums(cells, n));
    assert forall|i: int| 0 <= i < n implies #[trigger] diagonal(sims).map_values(value)[i]
        == diagonal_cells(cells, n)[i] by {
        lemma_packed_index_in_range(n, i as nat, i as nat);
    }
    assert(diagonal(sims).map_values(value) =~= diagonal_cells(cells, n));
}

/// Two cells of the confusion table that mirror each other are scaled from
/// one similarity. So where `scale` divides exactly, in that a scaled value
/// `times` the total it was scaled by gives back the `share` that similarity
/// and group size alone decide, the cross products of the two cells agree,
/// though the cells themselves need not.
pub proof fn lemma_cross_products_agree<S, F: Fn(S, S, usize) -> S, V>(
    sims: Triangular<S>,
    totals: Seq<S>,
    scale: F,
    i: int,
    j: int,
    cell: S,
    mirror: S,
    times: spec_fn(S, S) -> V,
    share: spec_fn(S, usize) -> V,
)
    requires
        call_ensures(scale, (sims.at(i, j), totals[j], sims.rows()), cell),
        call_ensures(scale, (sims.at(j, i), totals[i], sims.rows()), mirror),
        forall|s: S, t: S, n: usize, r: S|
            call_ensures(scale, (s, t, n), r) ==> times(r, t) == share(s, n),
    ensures
        times(cell, totals[j]) == times(mirror, totals[i]),
{
    sims.lemma_at_symmetric(i, j);
}

/// Turning a sequence round leaves its sum as it is.
proof fn lemma_sum_reverse(values: Seq<int>)
    ensures
        sum(values.reverse()) == sum(values),
    decreases values.len(),
{
    if values.len() > 0 {
        let shorter = values.drop_last();
        let first = seq![values.last()];
        lemma_sum_reverse(shorter);
        assert(values.reverse() =~= first + shorter.reverse());
        lemma_sum_concat(first, shorter.reverse());
        assert(first =~= Seq::<int>::empty().push(values.last()));
        lemma_sum_push(Seq::<int>::empty(), values.last());
    }
}

/// A group read in the opposite order has the same similarities and the same
/// totals, each where its word now stands: a pair's similarity and a word's
/// total do not hang on the order of the group. This holds where `decay`
/// gives one result for one distance and, for the totals, where `plus` adds
/// exactly.
pub proof fn lemma_reversed_group<S, D: Fn(Ratio) -> S, P: Fn(S, S) -> S>(
    sims: Triangular<S>,
    words: Seq<(String, String)>,
    totals: Seq<S>,
    others: Triangular<S>,
    other_words: Seq<(String, String)>,
    other_totals: Seq<S>,
    decay: D,
    zero: S,
    plus: P,
    value: spec_fn(S) -> int,
)
    requires
        decayed(sims, words, decay),
        decayed(others, other_words, decay),
        other_words.len() == words.len(),
        forall|i: int|
            0 <= i < words.len() ==> (#[trigger] other_words[i]).1@ == words[words.len() - 1 - i].1@,
        totals.len() == words.len(),
        other_totals.len() == words.len(),
        forall|i: int|
            0 <= i < words.len() ==> accumulates(plus, zero, table_row(sims, i), #[trigger] totals[i]),
        forall|i: int|
            0 <= i < words.len() ==> accumulates(
                plus,
                zero,
                table_row(others, i),
                #[trigger] other_totals[i],
            ),
        forall|r: Ratio, s: S, t: S|
            call_ensures(decay, (r,), s) && call_ensures(decay, (r,), t) ==> s == t,
        forall|x: S, y: S, z: S| call_ensures(plus, (x, y), z) ==> value(z) == value(x) + value(y),
    ensures
        forall|i: int, j: int|
            0 <= i < words.len() && 0 <= j < words.len() ==> #[trigger] others.at(i, j) == sims.at(
                words.len() - 1 - i,
                words.len() - 1 - j,
            ),
        forall|i: int|
            0 <= i < words.len() ==> value(#[trigger] other_totals[i]) == value(
                totals[words.len() - 1 - i],
            ),
{
    let n = words.len() as int;
    assert forall|i: int, j: int| 0 <= i < n && 0 <= j < n implies #[trigger] others.at(i, j)
        == sims.at(n - 1 - i, n - 1 - j) by {
        lemma_similarity_of_transcriptions(
            others,
            other_words,
            sims,
            words,
            decay,
            i,
            j,
            n - 1 - i,
            n - 1 - j,
        );
    }
    assert forall|i: int| 0 <= i < n implies value(#[trigger] other_totals[i]) == value(
        totals[n - 1 - i],
    ) by {
        let row = table_row(sims, n - 1 - i).map_values(value);
        lemma_accumulates_exactly(plus, zero, table_row(others, i), other_totals[i], value);
        lemma_accumulates_exactly(plus, zero, table_row(sims, n - 1 - i), totals[n - 1 - i], value);
        assert(table_row(others, i).map_values(value) =~= row.reverse());
        lemma_sum_reverse(row);
    }
}

} // verus!
