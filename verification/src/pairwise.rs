//! The normalised distances between all the words of one language.

use crate::levenshtein::chars_of;
use crate::normalized::{lemma_normalized_symmetric, normalized_distance, Ratio};
use crate::triangular::{
    lemma_packed_index_in_range, lemma_triangle_step, packed_index, triangle, Triangular,
};
use vstd::prelude::*;

verus! {

/// The transcription of each word, as a sequence of characters.
spec fn transcriptions(words: Seq<(String, String)>) -> Seq<Seq<char>> {
    Seq::new(words.len(), |k: int| words[k].1@)
}

/// Whether the first `rows` full rows of `cells`, and the first `extra` cells
/// of the row after them, hold the normalised distances between the sequences
/// of `group` that their positions stand for.
spec fn filled(cells: Seq<Ratio>, group: Seq<Seq<char>>, rows: nat, extra: nat) -> bool {
    forall|r: nat, c: nat|
        c <= r && (r < rows || (r == rows && c < extra)) ==> (#[trigger] cells[packed_index(
            r,
            c,
        ) as int]).is_normalized(group[r as int], group[c as int])
}

/// Splits the transcription of every word into its characters.
fn split_transcriptions(words: &Vec<(String, String)>) -> (group: Vec<Vec<char>>)
    ensures
        group@.len() == words@.len(),
        forall|k: int| 0 <= k < words@.len() ==> (#[trigger] group@[k])@ == words@[k].1@,
{
    let mut group: Vec<Vec<char>> = Vec::new();
    let mut k: usize = 0;
    while k < words.len()
        invariant
            k <= words@.len(),
            group@.len() == k,
            forall|m: int| 0 <= m < k ==> (#[trigger] group@[m])@ == words@[m].1@,
        decreases words@.len() - k,
    {
        group.push(chars_of(words[k].1.as_str()));
        k += 1;
    }
    group
}

/// The normalised distance between the transcriptions of every two words of a
/// group, the words given as pairs of written form and transcription.
///
/// The table has one row per word, in the order of `words`. Each pair is
/// worked out once, the later word against the earlier, and stands for both
/// orders.
pub fn distances(words: &Vec<(String, String)>) -> (table: Triangular<Ratio>)
    ensures
        table.wf(),
        table.order() == words@.len(),
        forall|i: int, j: int|
            0 <= i < words@.len() && 0 <= j < words@.len() ==> (#[trigger] table.at(
                i,
                j,
            )).is_normalized(words@[i].1@, words@[j].1@),
{
    let n: usize = words.len();
    let group = split_transcriptions(words);
    let ghost seqs: Seq<Seq<char>> = transcriptions(words@);
    let mut cells: Vec<Ratio> = Vec::new();
    let mut i: usize = 0;
    while i < n
        invariant
            n == words@.len(),
            group@.len() == n,
            seqs == transcriptions(words@),
            forall|k: int| 0 <= k < n ==> (#[trigger] group@[k])@ == seqs[k],
            i <= n,
            cells@.len() == triangle(i as nat),
            filled(cells@, seqs, i as nat, 0),
        decreases n - i,
    {
        let mut j: usize = 0;
        while j <= i
            invariant
                n == words@.len(),
                group@.len() == n,
                forall|k: int| 0 <= k < n ==> (#[trigger] group@[k])@ == seqs[k],
                i < n,
                j <= i + 1,
                cells@.len() == triangle(i as nat) + j,
                filled(cells@, seqs, i as nat, j as nat),
            decreases i + 1 - j,
        {
            let cell = normalized_distance(group[i].as_slice(), group[j].as_slice());
            cells.push(cell);
            proof {
                assert forall|r: nat, c: nat|
                    c <= r && (r < i || (r == i && c < j + 1)) implies (#[trigger] cells@[packed_index(
                    r,
                    c,
                ) as int]).is_normalized(seqs[r as int], seqs[c as int]) by {
                    if r < i {
                        lemma_packed_index_in_range(i as nat, r, c);
                    }
                }
            }
            j += 1;
        }
        proof {
            lemma_triangle_step(i as nat);
        }
        i += 1;
    }
    let table = Triangular::from_cells(n, cells).unwrap();
    proof {
        assert forall|i: int, j: int| 0 <= i < n && 0 <= j < n implies (#[trigger] table.at(
            i,
            j,
        )).is_normalized(words@[i].1@, words@[j].1@) by {
            if i < j {
                lemma_normalized_symmetric(seqs[j], seqs[i]);
                assert(table@[packed_index(j as nat, i as nat) as int].is_normalized(
                    seqs[j],
                    seqs[i],
                ));
            } else {
                assert(table@[packed_index(i as nat, j as nat) as int].is_normalized(
                    seqs[i],
                    seqs[j],
                ));
            }
        }
    }
    table
}

} // verus!
