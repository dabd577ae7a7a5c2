//! The adjacency matrix of a sum graph, stored by its anti-diagonals.

use crate::number::is_prime;
use crate::sequence::{contains, increasing};
use crate::sieve::{gen_primes_upto_n, primes_below};
use vstd::prelude::*;

pub mod bipartite;
pub mod search;

verus! {

/// A Hankel matrix is a matrix whose entries along a parallel to the main
/// anti-diagonal are equal, so that an entry depends only on the sum of its row
/// and its column. For an `n` by `n` matrix the `2n - 1` entries of the first row
/// and the last column describe the whole matrix.
///
/// It is used as the adjacency matrix of a graph on the vertices `1..=n` in which
/// two vertices are joined exactly if their sum belongs to a given sequence.
#[derive(Debug)]
pub struct Hankel {
    /// The `2n - 1` anti-diagonals, each one 0 or 1.
    diagonals: Vec<u8>,
    /// The order `n` of the matrix.
    pub size: usize,
}

impl View for Hankel {
    type V = Seq<u8>;

    /// The entries of the anti-diagonals: entry `k` is shared by all cells whose
    /// row and column, counted from 0, add up to `k`.
    closed spec fn view(&self) -> Seq<u8> {
        self.diagonals@
    }
}

/// The sum of the entries `d[from..to]`.
pub open spec fn window_sum(d: Seq<u8>, from: int, to: int) -> int
    decreases to - from,
{
    if to <= from {
        0
    } else {
        window_sum(d, from, to - 1) + d[to - 1]
    }
}

/// A window of entries that are 0 or 1 sums to at most its length.
pub proof fn lemma_window_sum_bounds(d: Seq<u8>, from: int, to: int)
    requires
        0 <= from <= to <= d.len(),
        forall|k: int| 0 <= k < d.len() ==> d[k] <= 1,
    ensures
        0 <= window_sum(d, from, to) <= to - from,
    decreases to - from,
{
    if from < to {
        lemma_window_sum_bounds(d, from, to - 1);
    }
}

/// Moving a window one entry to the right adds the entry that comes in and takes
/// away the entry that falls out.
pub proof fn lemma_window_sum_slides(d: Seq<u8>, from: int, to: int)
    requires
        from < to,
    ensures
        window_sum(d, from + 1, to + 1) == window_sum(d, from, to) + d[to] - d[from],
    decreases to - from,
{
    if from + 1 < to {
        lemma_window_sum_slides(d, from, to - 1);
    } else {
        reveal_with_fuel(window_sum, 2);
    }
}

/// The sum of the first `cols` entries of row `v` is the sum of the window of
/// `cols` anti-diagonals from `v - 1` on.
pub proof fn lemma_row_is_window(mat: Hankel, v: int, cols: int)
    requires
        0 <= cols,
    ensures
        mat.row_sum(v, cols) == window_sum(mat@, v - 1, v - 1 + cols),
    decreases cols,
{
    if cols > 0 {
        lemma_row_is_window(mat, v, cols - 1);
    }
}

impl Hankel {
    /// The order of the matrix: the number of vertices of the graph.
    pub closed spec fn order(&self) -> nat {
        self.size as nat
    }

    /// The matrix is well formed: it has `2 * order - 1` anti-diagonals, each 0 or 1,
    /// and twice its order is a machine integer.
    pub open spec fn wf(&self) -> bool {
        &&& self.order() >= 1
        &&& 2 * self.order() <= usize::MAX
        &&& self@.len() == 2 * self.order() - 1
        &&& forall|k: int| 0 <= k < self@.len() ==> self@[k] <= 1
    }

    /// `v` is a vertex of the graph.
    pub open spec fn has_vertex(&self, v: int) -> bool {
        1 <= v <= self.order()
    }

    /// All members of `p` are vertices of the graph.
    pub open spec fn has_vertices(&self, p: Seq<usize>) -> bool {
        forall|i: int| 0 <= i < p.len() ==> self.has_vertex(#[trigger] p[i] as int)
    }

    /// The entry in `row` and `col`, both counted from 1.
    pub open spec fn entry(&self, row: int, col: int) -> u8 {
        self@[row + col - 2]
    }

    /// The vertices `a` and `b` are joined by an edge.
    pub open spec fn adjacent(&self, a: int, b: int) -> bool {
        self.entry(a, b) != 0
    }

    /// The member of `p` at index `i` is joined to the one behind it.
    pub open spec fn joined(&self, p: Seq<usize>, i: int) -> bool {
        self.adjacent(p[i] as int, p[i + 1] as int)
    }

    /// Every member of `p` is joined to the next one.
    pub open spec fn is_path(&self, p: Seq<usize>) -> bool {
        forall|i: int| 0 <= i < p.len() - 1 ==> #[trigger] self.joined(p, i)
    }

    /// `p` is a path whose last member is joined to the first one.
    pub open spec fn is_cycle(&self, p: Seq<usize>) -> bool {
        &&& p.len() >= 1
        &&& self.is_path(p)
        &&& self.adjacent(p[0] as int, p[p.len() - 1] as int)
    }

    /// The sum of the first `cols` entries of row `v`.
    pub open spec fn row_sum(&self, v: int, cols: int) -> int
        decreases cols,
    {
        if cols <= 0 {
            0
        } else {
            self.row_sum(v, cols - 1) + self.entry(v, cols)
        }
    }

    /// The number of vertices that `v` is joined to, a loop at `v` counted once:
    /// the sum of row `v` of the matrix.
    pub open spec fn degree(&self, v: int) -> int {
        self.row_sum(v, self.order() as int)
    }

    /// Two vertices are joined exactly if their sum occurs in `witness`.
    pub open spec fn is_sum_graph(&self, witness: Seq<usize>) -> bool {
        forall|k: int|
            0 <= k < self@.len() ==> #[trigger] self@[k] == if witness.contains((k + 2) as usize) {
                1u8
            } else {
                0u8
            }
    }

    /// Two vertices are joined exactly if their sum is odd and occurs in `witness`.
    pub open spec fn is_odd_sum_graph(&self, witness: Seq<usize>) -> bool {
        forall|k: int|
            0 <= k < self@.len() ==> #[trigger] self@[k] == if k % 2 == 1 && witness.contains(
                (k + 2) as usize,
            ) {
                1u8
            } else {
                0u8
            }
    }

    /// Two vertices are joined exactly if their sum is an odd prime.
    pub open spec fn is_prime_sum_graph(&self) -> bool {
        forall|k: int|
            0 <= k < self@.len() ==> #[trigger] self@[k] == if k % 2 == 1 && is_prime(k + 2) {
                1u8
            } else {
                0u8
            }
    }

    /// Generates the Hankel matrix of the prime-sum graph of order `n`.
    ///
    /// Two vertices are joined exactly if their sum is odd and occurs in `primes`,
    /// which should hold the primes up to `2n - 1`. Without `primes` they are
    /// generated, and two vertices are joined exactly if their sum is an odd prime.
    pub fn prime_sum_matrix(n: usize, primes: Option<&[usize]>) -> (mat: Self)
        requires
            n >= 1,
            2 * n <= usize::MAX,
            primes matches Some(p) ==> increasing(p@),
        ensures
            mat.wf(),
            mat.order() == n,
            primes matches Some(p) ==> mat.is_odd_sum_graph(p@),
            primes is None ==> mat.is_prime_sum_graph(),
    {
        let mut diagonals: Vec<u8> = vec![0u8; 2 * n - 1];
        let mut i: usize = 1;  // index 0 is zero
        let generated: Vec<usize> = match primes {
            Some(_) => Vec::new(),
            None => gen_primes_upto_n(2 * n - 1),
        };
        let p: &[usize] = match primes {
            Some(p) => p,
            None => generated.as_slice(),
        };
        while i < 2 * n - 1
            invariant
                n >= 1,
                2 * n <= usize::MAX,
                increasing(p@),
                diagonals@.len() == 2 * n - 1,
                i % 2 == 1,
                forall|k: int|
                    0 <= k < i && k < diagonals@.len() ==> #[trigger] diagonals@[k] == if k % 2 == 1
                        && p@.contains((k + 2) as usize) {
                        1u8
                    } else {
                        0u8
                    },
                forall|k: int| i <= k < diagonals@.len() ==> diagonals@[k] == 0,
            decreases 2 * n - 1 - i,
        {
            if contains(p, i + 2) {
                diagonals[i] = 1;
            }
            i += 2;  // skip over the even numbers
        }
        let mat = Self { diagonals, size: n };
        proof {
            if primes is None {
                lemma_enough_primes(mat, p@, 2 * n);
            }
        }
        mat
    }

    /// Generates the Hankel matrix of order `n` of the graph in which two vertices
    /// are joined exactly if their sum occurs in `sequence`.
    ///
    /// Rows and columns are counted from 1: the top left corner of the matrix is
    /// the entry (1, 1).
    pub fn from_sequence(n: usize, sequence: &[usize]) -> (mat: Self)
        requires
            n >= 1,
            2 * n <= usize::MAX,
            increasing(sequence@),
        ensures
            mat.wf(),
            mat.order() == n,
            mat.is_sum_graph(sequence@),
    {
        let mut diagonals: Vec<u8> = vec![0u8; 2 * n - 1];
        let mut i: usize = 0;
        while i < 2 * n - 1
            invariant
                n >= 1,
                2 * n <= usize::MAX,
                increasing(sequence@),
                diagonals@.len() == 2 * n - 1,
                i <= 2 * n - 1,
                forall|k: int|
                    0 <= k < i ==> #[trigger] diagonals@[k] == if sequence@.contains(
                        (k + 2) as usize,
                    ) {
                        1u8
                    } else {
                        0u8
                    },
                forall|k: int| i <= k < diagonals@.len() ==> diagonals@[k] == 0,
            decreases 2 * n - 1 - i,
        {
            if contains(sequence, i + 2) {
                diagonals[i] = 1;
            }
            i += 1;
        }
        Self { diagonals, size: n }
    }

    /// Gets the entry of the matrix in `row` and `col`, both counted from 1.
    pub fn get(&self, row: usize, col: usize) -> (bit: u8)
        requires
            self.wf(),
            2 <= row + col <= 2 * self.order(),
        ensures
            bit == self.entry(row as int, col as int),
            bit <= 1,
    {
        self.diagonals[row + col - 2]
    }

    /// Gets the entry of the matrix in `row` and `col`, both counted from 0.
    pub fn get_0_based(&self, row: usize, col: usize) -> (bit: u8)
        requires
            self.wf(),
            row + col <= 2 * self.order() - 2,
        ensures
            bit == self@[row + col],
            bit == self.entry(row + 1, col + 1),
            bit <= 1,
    {
        self.diagonals[row + col]
    }

    /// Checks whether each vertex of `path` is joined to the next one.
    ///
    /// A path of fewer than two vertices has no pair to check and is valid.
    pub fn valid_path(&self, path: &[usize]) -> (valid: bool)
        requires
            self.wf(),
            self.has_vertices(path@),
        ensures
            valid == self.is_path(path@),
    {
        if path.len() == 0 {
            return true;
        }
        let mut i: usize = 0;
        while i < path.len() - 1
            invariant
                self.wf(),
                self.has_vertices(path@),
                path@.len() >= 1,
                forall|j: int| 0 <= j < i ==> #[trigger] self.joined(path@, j),
            decreases path@.len() - i,
        {
            assert(self.has_vertex(path@[i as int] as int));
            assert(self.has_vertex(path@[i + 1] as int));
            if self.get(path[i], path[i + 1]) == 0 {
                assert(!self.joined(path@, i as int));
                return false;
            }
            i += 1;
        }
        true
    }

    /// Checks whether `cycle` is a valid path whose last vertex is joined to the first.
    pub fn valid_cycle(&self, cycle: &[usize]) -> (valid: bool)
        requires
            self.wf(),
            self.has_vertices(cycle@),
            cycle@.len() >= 1,
        ensures
            valid == self.is_cycle(cycle@),
            valid == (self.is_path(cycle@) && self.adjacent(
                cycle@[0] as int,
                cycle@[cycle@.len() - 1] as int,
            )),
    {
        if !self.valid_path(cycle) {
            return false;
        }
        assert(self.has_vertex(cycle@[0] as int));
        assert(self.has_vertex(cycle@[cycle@.len() - 1] as int));
        self.get(cycle[0], cycle[cycle.len() - 1]) != 0
    }

    /// Returns the degrees of all the vertices of the graph, that of vertex `v` at
    /// index `v - 1`.
    ///
    /// The degrees are recalculated at every call, each from the one before it.
    pub fn vertex_degrees(&self) -> (degrees: Vec<usize>)
        requires
            self.wf(),
        ensures
            degrees@.len() == self.order(),
            forall|i: int| 0 <= i < self.order() ==> #[trigger] degrees@[i] == self.degree(i + 1),
    {
        let n = self.size;
        let mut degrees: Vec<usize> = Vec::with_capacity(n);
        let mut first: usize = self.diagonals[0] as usize;
        let mut sum: usize = first;
        proof {
            reveal_with_fuel(window_sum, 2);
        }
        // the degree of the first vertex
        let mut i: usize = 1;
        while i < n
            invariant
                self.wf(),
                n == self.size,
                1 <= i <= n,
                sum == window_sum(self@, 0, i as int),
            decreases n - i,
        {
            proof {
                lemma_window_sum_bounds(self@, 0, i as int);
            }
            sum += self.diagonals[i] as usize;
            i += 1;
        }
        proof {
            lemma_row_is_window(*self, 1, n as int);
        }
        degrees.push(sum);
        // the degree of vertex i + 1 is the sum of the n anti-diagonals from i on
        while i < self.diagonals.len()
            invariant
                self.wf(),
                n == self.size,
                n <= i <= self@.len(),
                degrees@.len() == i - n + 1,
                first == self@[i - n],
                sum == window_sum(self@, i - n, i as int),
                forall|j: int| 0 <= j < degrees@.len() ==> #[trigger] degrees@[j] == self.degree(j + 1),
            decreases self@.len() - i,
        {
            proof {
                lemma_window_sum_bounds(self@, i - n, i as int);
                lemma_window_sum_bounds(self@, i - n + 1, i + 1);
                lemma_window_sum_slides(self@, i - n, i as int);
                lemma_row_is_window(*self, i - n + 2, n as int);
            }
            sum += self.diagonals[i] as usize;
            sum -= first;
            first = self.diagonals[i - n + 1] as usize;
            degrees.push(sum);
            i += 1;
        }
        degrees
    }
}

/// A matrix marked from all the primes below `limit`, where `limit` is at least
/// twice the order, is the matrix of the prime-sum graph.
pub proof fn lemma_enough_primes(mat: Hankel, primes: Seq<usize>, limit: int)
    requires
        mat.wf(),
        mat.is_odd_sum_graph(primes),
        primes_below(primes, limit),
        limit >= 2 * mat.order(),
    ensures
        mat.is_prime_sum_graph(),
{
    assert forall|k: int| 0 <= k < mat@.len() implies #[trigger] mat@[k] == if k % 2 == 1
        && is_prime(k + 2) {
        1u8
    } else {
        0u8
    } by {
        let s = (k + 2) as usize;
        assert(primes.contains(s) <==> is_prime(s as int) && s < limit);
    }
}

/// The matrix is symmetric: an entry does not change when its row and column are
/// exchanged.
pub proof fn lemma_symmetric(mat: Hankel, i: int, j: int)
    ensures
        mat.entry(i, j) == mat.entry(j, i),
        mat.adjacent(i, j) == mat.adjacent(j, i),
{
}

/// A vertex of a sum graph carries a loop exactly if its double occurs in the
/// sequence that the graph was built from.
pub proof fn lemma_loops(mat: Hankel, witness: Seq<usize>, v: int)
    requires
        mat.wf(),
        mat.is_sum_graph(witness),
        mat.has_vertex(v),
    ensures
        mat.adjacent(v, v) <==> witness.contains((2 * v) as usize),
{
    assert(mat@[2 * v - 2] == mat.entry(v, v));
}

/// No vertex of an odd-sum graph carries a loop.
pub proof fn lemma_no_loops(mat: Hankel, witness: Seq<usize>, v: int)
    requires
        mat.wf(),
        mat.is_odd_sum_graph(witness),
        mat.has_vertex(v),
    ensures
        !mat.adjacent(v, v),
{
    assert(mat@[2 * v - 2] == mat.entry(v, v));
}

/// The two ways of building a matrix agree on a sequence of odd numbers.
pub proof fn lemma_constructions_agree(plain: Hankel, odd: Hankel, witness: Seq<usize>)
    requires
        plain.wf(),
        odd.wf(),
        plain.order() == odd.order(),
        plain.is_sum_graph(witness),
        odd.is_odd_sum_graph(witness),
        forall|i: int| 0 <= i < witness.len() ==> witness[i] % 2 == 1,
    ensures
        plain@ == odd@,
{
    assert forall|k: int| 0 <= k < plain@.len() implies plain@[k] == odd@[k] by {
        let s = (k + 2) as usize;
        if witness.contains(s) {
            let i = choose|i: int| 0 <= i < witness.len() && witness[i] == s;
            assert(witness[i] % 2 == 1);
        }
    }
    assert(plain@ =~= odd@);
}

} // verus!
