//! Unweighted edit distance between two character sequences.

use vstd::prelude::*;

verus! {

/// The smallest of three numbers.
pub open spec fn min3(x: nat, y: nat, z: nat) -> nat {
    if x <= y && x <= z {
        x
    } else if y <= z {
        y
    } else {
        z
    }
}

/// The larger of two lengths.
pub open spec fn longer(x: nat, y: nat) -> nat {
    if x >= y {
        x
    } else {
        y
    }
}

/// What it costs to put `y` where `x` stood: nothing if they are the same
/// character, one otherwise.
pub open spec fn substitution_cost(x: char, y: char) -> nat {
    if x == y {
        0
    } else {
        1
    }
}

/// The edit distance between `a` and `b`: the least number of insertions,
/// deletions and substitutions of single characters that turn `a` into `b`.
///
/// Against an empty sequence the distance is the other one's length. Otherwise
/// the last character of `a` is deleted, or the last of `b` inserted, or the one
/// put in place of the other, whichever is cheapest. That this is the length
/// of the shortest run of edits from `a` to `b` is shown in
/// [`crate::scripts`].
pub open spec fn distance(a: Seq<char>, b: Seq<char>) -> nat
    decreases a.len() + b.len(),
{
    if a.len() == 0 {
        b.len()
    } else if b.len() == 0 {
        a.len()
    } else {
        min3(
            distance(a.drop_last(), b) + 1,
            distance(a, b.drop_last()) + 1,
            distance(a.drop_last(), b.drop_last()) + substitution_cost(a.last(), b.last()),
        )
    }
}

/// A sequence is at distance zero from itself.
pub proof fn lemma_distance_identity(s: Seq<char>)
    ensures
        distance(s, s) == 0,
    decreases s.len(),
{
    if s.len() > 0 {
        lemma_distance_identity(s.drop_last());
    }
}

/// The distance never exceeds the length of the longer sequence.
pub proof fn lemma_distance_upper_bound(a: Seq<char>, b: Seq<char>)
    ensures
        distance(a, b) <= longer(a.len(), b.len()),
    decreases a.len() + b.len(),
{
    if a.len() > 0 && b.len() > 0 {
        lemma_distance_upper_bound(a.drop_last(), b.drop_last());
    }
}

/// The distance is the same in both directions.
pub proof fn lemma_distance_symmetric(a: Seq<char>, b: Seq<char>)
    ensures
        distance(a, b) == distance(b, a),
    decreases a.len() + b.len(),
{
    if a.len() > 0 && b.len() > 0 {
        lemma_distance_symmetric(a.drop_last(), b);
        lemma_distance_symmetric(a, b.drop_last());
        lemma_distance_symmetric(a.drop_last(), b.drop_last());
    }
}

/// The distance is at least the difference of the two lengths.
pub proof fn lemma_distance_lower_bound(a: Seq<char>, b: Seq<char>)
    ensures
        distance(a, b) >= a.len() - b.len(),
        distance(a, b) >= b.len() - a.len(),
    decreases a.len() + b.len(),
{
    if a.len() > 0 && b.len() > 0 {
        lemma_distance_lower_bound(a.drop_last(), b);
        lemma_distance_lower_bound(a, b.drop_last());
        lemma_distance_lower_bound(a.drop_last(), b.drop_last());
    }
}

/// Only a sequence itself is at distance zero from it.
pub proof fn lemma_distance_zero(a: Seq<char>, b: Seq<char>)
    ensures
        distance(a, b) == 0 <==> a == b,
    decreases a.len() + b.len(),
{
    if a == b {
        lemma_distance_identity(a);
    } else if distance(a, b) == 0 {
        lemma_distance_lower_bound(a, b);
        if a.len() == 0 {
            assert(a =~= b);
        } else {
            lemma_distance_zero(a.drop_last(), b.drop_last());
            assert(a =~= a.drop_last().push(a.last()));
            assert(b =~= b.drop_last().push(b.last()));
        }
    }
}

/// The triangle inequality: going from `a` to `c` directly is never dearer
/// than going by way of `b`.
pub proof fn lemma_distance_triangle(a: Seq<char>, b: Seq<char>, c: Seq<char>)
    ensures
        distance(a, c) <= distance(a, b) + distance(b, c),
    decreases a.len() + b.len() + c.len(),
{
    if a.len() == 0 {
        lemma_distance_lower_bound(b, c);
    } else if c.len() == 0 {
        lemma_distance_lower_bound(a, b);
    } else if b.len() == 0 {
        lemma_distance_upper_bound(a, c);
    } else {
        let a1 = a.drop_last();
        let b1 = b.drop_last();
        let c1 = c.drop_last();
        lemma_distance_triangle(a1, b, c);
        lemma_distance_triangle(a, b1, c);
        lemma_distance_triangle(a, b, c1);
        lemma_distance_triangle(a, b1, c1);
        lemma_distance_triangle(a1, b1, c);
        lemma_distance_triangle(a1, b1, c1);
    }
}

/// One cell of the table of distances between prefixes, from its three
/// neighbours.
proof fn lemma_prefix_step(a: Seq<char>, b: Seq<char>, i: int, j: int)
    requires
        0 <= i < a.len(),
        0 <= j < b.len(),
    ensures
        distance(a.take(i + 1), b.take(j + 1)) == min3(
            distance(a.take(i), b.take(j + 1)) + 1,
            distance(a.take(i + 1), b.take(j)) + 1,
            distance(a.take(i), b.take(j)) + substitution_cost(a[i], b[j]),
        ),
{
    assert(a.take(i + 1).drop_last() =~= a.take(i));
    assert(b.take(j + 1).drop_last() =~= b.take(j));
}

/// Whether two slices hold the same characters.
fn identical(a: &[char], b: &[char]) -> (same: bool)
    ensures
        same == (a@ == b@),
{
    if a.len() != b.len() {
        return false;
    }
    let mut k: usize = 0;
    while k < a.len()
        invariant
            a.len() == b.len(),
            k <= a.len(),
            a@.take(k as int) == b@.take(k as int),
        decreases a.len() - k,
    {
        if a[k] != b[k] {
            return false;
        }
        k += 1;
    }
    assert(a@ =~= a@.take(k as int));
    assert(b@ =~= b@.take(k as int));
    true
}

/// The edit distance between two character slices.
///
/// Identical slices are answered at once. Otherwise the table of distances
/// between prefixes is filled row by row, of which only the last finished row
/// and the one being written are kept.
pub fn edit_distance(a: &[char], b: &[char]) -> (dist: usize)
    ensures
        dist == distance(a@, b@),
{
    if identical(a, b) {
        proof {
            lemma_distance_identity(a@);
        }
        return 0;
    }
    let n: usize = b.len();
    let mut v1: Vec<usize> = Vec::new();
    let mut k: usize = 0;
    while k < n
        invariant
            k <= n,
            v1@.len() == k,
            forall|c: int| 0 <= c < k ==> v1@[c] == c,
        decreases n - k,
    {
        v1.push(k);
        k += 1;
    }
    v1.push(n);
    // A row has one cell more than `b` has characters. The row's length is a
    // `usize`, so that number is in range from here on.
    let width: usize = v1.len();
    let mut v2: Vec<usize> = vec![0; width];
    let mut i: usize = 0;
    while i < a.len()
        invariant
            n == b.len(),
            n < usize::MAX,
            v1@.len() == n + 1,
            v2@.len() == n + 1,
            i <= a.len(),
            forall|c: int|
                0 <= c <= n ==> v1@[c] == distance(a@.take(i as int), #[trigger] b@.take(c)),
        decreases a.len() - i,
    {
        v2[0] = i + 1;
        let mut j: usize = 0;
        while j < n
            invariant
                n == b.len(),
                n < usize::MAX,
                v1@.len() == n + 1,
                v2@.len() == n + 1,
                i < a.len(),
                j <= n,
                forall|c: int|
                    0 <= c <= n ==> v1@[c] == distance(a@.take(i as int), #[trigger] b@.take(c)),
                forall|c: int|
                    0 <= c <= j ==> v2@[c] == distance(a@.take(i + 1), #[trigger] b@.take(c)),
            decreases n - j,
        {
            proof {
                lemma_prefix_step(a@, b@, i as int, j as int);
                lemma_distance_upper_bound(a@.take(i as int), b@.take(j as int));
                lemma_distance_upper_bound(a@.take(i as int), b@.take(j + 1));
            }
            let cost: usize = if a[i] == b[j] {
                0
            } else {
                1
            };
            // The two gap moves cost the same, so the cheaper neighbour is
            // picked before the step is added: the sum then stays in range.
            let gap: usize = if v2[j] < v1[j + 1] {
                v2[j] + 1
            } else {
                v1[j + 1] + 1
            };
            let diagonal: usize = v1[j] + cost;
            v2[j + 1] = if gap < diagonal {
                gap
            } else {
                diagonal
            };
            j += 1;
        }
        std::mem::swap(&mut v1, &mut v2);
        i += 1;
    }
    assert(a@.take(i as int) =~= a@);
    assert(b@.take(n as int) =~= b@);
    v1[n]
}

/// The characters of a string, in order.
pub fn chars_of(s: &str) -> (chars: Vec<char>)
    ensures
        chars@ == s@,
{
    let mut chars: Vec<char> = Vec::new();
    for c in it: s.chars()
        invariant
            chars@ == it.seq().take(it.index()),
            it.seq() == s@,
    {
        chars.push(c);
    }
    chars
}

/// The edit distance between two strings, counted in characters.
pub fn d(w1: &str, w2: &str) -> (dist: usize)
    ensures
        dist == distance(w1@, w2@),
{
    let a = chars_of(w1);
    let b = chars_of(w2);
    edit_distance(a.as_slice(), b.as_slice())
}

} // verus!
