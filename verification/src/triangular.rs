//! Packed storage for a symmetric table: only the cells on and below the
//! diagonal are kept, row after row, in one flat vector.

use vstd::prelude::*;

verus! {

/// Number of cells on and below the diagonal of an `n` by `n` table.
pub open spec fn triangle(n: nat) -> nat {
    n * (n + 1) / 2
}

/// Position of cell `(i, j)` in the flat vector, for `j <= i`.
pub open spec fn packed_index(i: nat, j: nat) -> nat {
    triangle(i) + j
}

/// Position of the cell that stands for the unordered pair `{i, j}`: the
/// larger of the two picks the row, the smaller the column.
pub open spec fn pair_index(i: nat, j: nat) -> nat {
    if i < j {
        packed_index(j, i)
    } else {
        packed_index(i, j)
    }
}

/// A row of `n + 1` cells follows the first `n` rows.
pub proof fn lemma_triangle_step(n: nat)
    ensures
        triangle(n + 1) == triangle(n) + n + 1,
{
    assert((n + 1) * (n + 2) == n * (n + 1) + 2 * (n + 1)) by (nonlinear_arith);
}

/// More rows never hold fewer cells.
pub proof fn lemma_triangle_monotonic(m: nat, n: nat)
    requires
        m <= n,
    ensures
        triangle(m) <= triangle(n),
    decreases n - m,
{
    if m < n {
        lemma_triangle_step(m);
        lemma_triangle_monotonic(m + 1, n);
    }
}

/// Every cell on or below the diagonal has a position inside the vector.
pub proof fn lemma_packed_index_in_range(n: nat, i: nat, j: nat)
    requires
        j <= i < n,
    ensures
        packed_index(i, j) < triangle(n),
{
    lemma_triangle_step(i);
    lemma_triangle_monotonic(i + 1, n);
}

/// No two cells on or below the diagonal share a position.
pub proof fn lemma_packed_index_injective(i: nat, j: nat, k: nat, l: nat)
    requires
        j <= i,
        l <= k,
        packed_index(i, j) == packed_index(k, l),
    ensures
        i == k,
        j == l,
{
    if i < k {
        lemma_triangle_step(i);
        lemma_triangle_monotonic(i + 1, k);
    } else if k < i {
        lemma_triangle_step(k);
        lemma_triangle_monotonic(k + 1, i);
    }
}

/// Every position inside the vector belongs to a cell on or below the
/// diagonal.
pub proof fn lemma_packed_index_onto(n: nat, p: nat) -> (cell: (nat, nat))
    requires
        p < triangle(n),
    ensures
        cell.1 <= cell.0 < n,
        packed_index(cell.0, cell.1) == p,
    decreases n,
{
    assert(n > 0);
    let m = (n - 1) as nat;
    lemma_triangle_step(m);
    if p >= triangle(m) {
        (m, (p - triangle(m)) as nat)
    } else {
        lemma_packed_index_onto(m, p)
    }
}

/// The position of a pair does not depend on the order in which its two
/// members are given.
pub proof fn lemma_pair_index_symmetric(i: nat, j: nat)
    ensures
        pair_index(i, j) == pair_index(j, i),
{
}

/// Two pairs that share a position have the same two members: a cell is read
/// for its own pair, in either order, and for no other.
pub proof fn lemma_pair_index_injective(i: nat, j: nat, k: nat, l: nat)
    requires
        pair_index(i, j) == pair_index(k, l),
    ensures
        (i == k && j == l) || (i == l && j == k),
{
    let (r1, c1) = if i < j {
        (j, i)
    } else {
        (i, j)
    };
    let (r2, c2) = if k < l {
        (l, k)
    } else {
        (k, l)
    };
    lemma_packed_index_injective(r1, c1, r2, c2);
}

/// The position of a pair of members of a table of `n` rows lies inside the
/// vector.
pub proof fn lemma_pair_index_in_range(n: nat, i: nat, j: nat)
    requires
        i < n,
        j < n,
    ensures
        pair_index(i, j) < triangle(n),
{
    if i < j {
        lemma_packed_index_in_range(n, j, i);
    } else {
        lemma_packed_index_in_range(n, i, j);
    }
}

/// The number of cells that `n` rows take, in a type that always holds it.
fn wide_triangle(n: usize) -> (cells: u128)
    ensures
        cells == triangle(n as nat),
{
    let wide: u128 = n as u128;
    assert(wide * (wide + 1) <= 0xffff_ffff_ffff_ffff * 0x1_0000_0000_0000_0000) by (nonlinear_arith)
        requires
            wide <= 0xffff_ffff_ffff_ffff,
    ;
    wide * (wide + 1) / 2
}

/// The number of cells that `n` rows take, or `None` where it does not fit.
pub fn triangle_of(n: usize) -> (cells: Option<usize>)
    ensures
        cells is Some <==> triangle(n as nat) <= usize::MAX,
        cells matches Some(t) ==> t == triangle(n as nat),
{
    let t: u128 = wide_triangle(n);
    if t <= usize::MAX as u128 {
        Some(t as usize)
    } else {
        None
    }
}

/// A symmetric `n` by `n` table in packed form.
///
/// Row `i` holds the cells `(i, 0)` to `(i, i)`; the rows follow each other in
/// one vector of `triangle(n)` cells. A cell above the diagonal is read from
/// its mirror image below it.
#[derive(Debug)]
pub struct Triangular<T> {
    n: usize,
    cells: Vec<T>,
}

impl<T> View for Triangular<T> {
    type V = Seq<T>;

    /// The cells in storage order.
    closed spec fn view(&self) -> Seq<T> {
        self.cells@
    }
}

impl<T> Triangular<T> {
    /// The vector holds exactly the cells of the rows.
    #[verifier::type_invariant]
    spec fn well_formed(&self) -> bool {
        self.cells@.len() == triangle(self.n as nat)
    }

    /// Number of rows, as the machine holds it.
    pub closed spec fn spec_rows(&self) -> usize {
        self.n
    }

    /// Number of rows, which is also the number of columns.
    pub open spec fn order(&self) -> nat {
        self.spec_rows() as nat
    }

    /// Whether the table holds exactly the cells of its rows. Every table
    /// that the functions of this type hand out does.
    pub open spec fn wf(&self) -> bool {
        self@.len() == triangle(self.order())
    }

    /// The value kept for the pair `{i, j}`.
    pub open spec fn at(&self, i: int, j: int) -> T {
        self@[pair_index(i as nat, j as nat) as int]
    }

    /// The table is symmetric: a pair has one value, whichever of its two
    /// members is named first.
    pub proof fn lemma_at_symmetric(self, i: int, j: int)
        ensures
            self.at(i, j) == self.at(j, i),
    {
    }

    /// The table without rows.
    pub fn new() -> (t: Self)
        ensures
            t.order() == 0,
            t@ == Seq::<T>::empty(),
            t.wf(),
    {
        Triangular { n: 0, cells: Vec::new() }
    }

    /// Takes `cells` as the packed form of a table of `n` rows. The vector
    /// must hold exactly the cells of `n` rows; otherwise there is no such
    /// table.
    pub fn from_cells(n: usize, cells: Vec<T>) -> (t: Option<Self>)
        ensures
            t is Some <==> cells@.len() == triangle(n as nat),
            t matches Some(table) ==> table.order() == n && table@ == cells@ && table.wf(),
    {
        let have: usize = cells.len();
        match triangle_of(n) {
            Some(len) => {
                if have == len {
                    Some(Triangular { n, cells })
                } else {
                    None
                }
            },
            None => None,
        }
    }

    /// Number of rows.
    #[verifier::when_used_as_spec(spec_rows)]
    pub fn rows(&self) -> (n: usize)
        ensures
            n == self.spec_rows(),
            self.wf(),
    {
        proof {
            use_type_invariant(self);
        }
        self.n
    }

    /// Number of cells kept.
    pub fn len(&self) -> (len: usize)
        ensures
            len == self@.len(),
            self.wf(),
    {
        proof {
            use_type_invariant(self);
        }
        self.cells.len()
    }

    /// The cells in storage order.
    pub fn as_cells(&self) -> (cells: &Vec<T>)
        ensures
            cells@ == self@,
            self.wf(),
    {
        proof {
            use_type_invariant(self);
        }
        &self.cells
    }

    /// The value kept for the pair `{i, j}`, whichever of the two is given
    /// first; `None` where one of them is not a row of the table.
    pub fn get(&self, i: usize, j: usize) -> (cell: Option<&T>)
        ensures
            cell is Some <==> i < self.order() && j < self.order(),
            cell matches Some(value) ==> *value == self.at(i as int, j as int),
    {
        proof {
            use_type_invariant(self);
        }
        if i >= self.n || j >= self.n {
            return None;
        }
        let (row, col) = if i < j {
            (j, i)
        } else {
            (i, j)
        };
        proof {
            lemma_packed_index_in_range(self.n as nat, row as nat, col as nat);
        }
        let total: usize = self.cells.len();
        let start: u128 = wide_triangle(row);
        assert(start + col < total);
        let position: usize = (start + col as u128) as usize;
        Some(&self.cells[position])
    }
}

} // verus!
