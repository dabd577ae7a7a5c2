//! A Hamiltonian path of the prime-sum graph in closed form.
//!
//! The graph of order `2h` has the odd vertices `x_j = 2j - 1` and the even
//! vertices `y_k = 2h - 2(k - 1)`, for `j` and `k` in `1..=h`. Given two primes
//! `p1` and `p2`, the path goes from `x_j` to the `y_k` with `k = j - (p1 - 1) / 2`
//! and from `y_k` to the `x_j` with `j = k + (p2 - 1) / 2`, both modulo `h`.

use vstd::prelude::*;

pub mod theorem;

verus! {

/// The odd vertex with index `j`.
pub open spec fn odd_vertex(j: int) -> int {
    2 * j - 1
}

/// The even vertex with index `k` in the graph of order `2 * h`.
pub open spec fn even_vertex(h: int, k: int) -> int {
    2 * h - 2 * (k - 1)
}

/// The index of the odd vertex `x`.
pub open spec fn odd_index(x: int) -> int {
    (x + 1) / 2
}

/// The index of the even vertex `y` in the graph of order `2 * h`.
pub open spec fn even_index(h: int, y: int) -> int {
    h - y / 2 + 1
}

/// The member of `1..=h` that is congruent to a remainder `r` modulo `h`.
pub open spec fn wrapped(h: int, r: int) -> int {
    if r == 0 {
        h
    } else {
        r
    }
}

/// What a [`HamiltonianPath`] holds.
pub struct PathState {
    /// Half the first prime, rounded down.
    pub difference1: int,
    /// Half the second prime, rounded down.
    pub difference2: int,
    /// Half the order of the graph.
    pub half_size: int,
    /// The vertex that was yielded last, or 0 before the first.
    pub current: int,
}

impl PathState {
    /// The state in which every step can be computed in machine integers.
    pub open spec fn wf(self) -> bool {
        &&& 1 <= self.half_size
        &&& 0 <= self.difference1 <= self.half_size
        &&& 0 <= self.difference2
        &&& 2 * self.half_size + self.difference2 <= usize::MAX
        &&& 0 <= self.current <= 2 * self.half_size
    }

    /// The even vertex that follows the odd vertex `x`.
    pub open spec fn after_odd(self, x: int) -> int {
        let j = odd_index(x);
        let k = wrapped(self.half_size, (j + self.half_size - self.difference1) % self.half_size);
        even_vertex(self.half_size, k)
    }

    /// The odd vertex that follows the even vertex `y`.
    pub open spec fn after_even(self, y: int) -> int {
        let k = even_index(self.half_size, y);
        let j = wrapped(self.half_size, (k + self.difference2) % self.half_size);
        odd_vertex(j)
    }

    /// The vertex that follows `v`.
    pub open spec fn successor(self, v: int) -> int {
        if v % 2 == 1 {
            self.after_odd(v)
        } else {
            self.after_even(v)
        }
    }

    /// The vertex that is yielded next: vertex 1 at first, then the successor of
    /// the current vertex until that is vertex 1 again.
    pub open spec fn upcoming(self) -> Option<int> {
        if self.current == 0 {
            Some(1)
        } else if self.successor(self.current) == 1 {
            None
        } else {
            Some(self.successor(self.current))
        }
    }

    /// The state after the next vertex was asked for.
    pub open spec fn advanced(self) -> PathState {
        match self.upcoming() {
            Some(v) => PathState { current: v, ..self },
            None => self,
        }
    }

    /// The vertices that are yielded from this state on, `limit` of them at most.
    pub open spec fn yields(self, limit: nat) -> Seq<int>
        decreases limit,
    {
        if limit == 0 {
            Seq::empty()
        } else {
            match self.upcoming() {
                Some(v) => seq![v] + self.advanced().yields((limit - 1) as nat),
                None => Seq::empty(),
            }
        }
    }
}

/// An iterator over a Hamiltonian path in the prime-sum graph of a given order.
pub struct HamiltonianPath {
    difference1: usize,
    difference2: usize,
    /// Half the size of the graph.
    half_size: usize,
    /// The current vertex in the path.
    current: usize,
}

impl View for HamiltonianPath {
    type V = PathState;

    closed spec fn view(&self) -> PathState {
        PathState {
            difference1: self.difference1 as int,
            difference2: self.difference2 as int,
            half_size: self.half_size as int,
            current: self.current as int,
        }
    }
}

/// The vertices of `v` as integers.
pub open spec fn as_ints(v: Seq<usize>) -> Seq<int> {
    v.map_values(|x: usize| x as int)
}

/// A well-formed state stays well formed when the next vertex is asked for.
pub proof fn lemma_advanced_wf(s: PathState)
    requires
        s.wf(),
    ensures
        s.advanced().wf(),
        s.upcoming() matches Some(v) ==> 1 <= v <= 2 * s.half_size,
{
    let h = s.half_size;
    if s.current != 0 {
        if s.current % 2 == 1 {
            let j = odd_index(s.current);
            let r = (j + h - s.difference1) % h;
            assert(0 <= r < h) by (nonlinear_arith)
                requires
                    r == (j + h - s.difference1) % h,
                    h >= 1,
            ;
        } else {
            let k = even_index(h, s.current);
            let r = (k + s.difference2) % h;
            assert(0 <= r < h) by (nonlinear_arith)
                requires
                    r == (k + s.difference2) % h,
                    h >= 1,
            ;
        }
    }
}

impl HamiltonianPath {
    /// Makes the path for the graph of `2 * half_size` vertices.
    ///
    /// The two primes should be such that `prime1 + 2 * half_size` and
    /// `prime2 + 2 * half_size` are both prime, and such that
    /// `(prime2 - prime1) / 2` is coprime to `half_size`.
    pub fn new(prime1: usize, prime2: usize, half_size: usize) -> (path: Self)
        requires
            prime1 >= 1,
            prime2 >= 1,
        ensures
            path@ == (PathState {
                difference1: (prime1 - 1) / 2,
                difference2: (prime2 - 1) / 2,
                half_size: half_size as int,
                current: 0,
            }),
    {
        Self {
            difference1: (prime1 - 1) / 2,
            difference2: (prime2 - 1) / 2,
            half_size,
            current: 0,
        }
    }

    /// The odd vertex with index `j`.
    pub fn x_j(&self, j: usize) -> (x: usize)
        requires
            1 <= j,
            2 * j <= usize::MAX,
        ensures
            x == odd_vertex(j as int),
    {
        2 * j - 1
    }

    /// The even vertex with index `k`.
    pub fn y_k(&self, k: usize) -> (y: usize)
        requires
            1 <= k <= self@.half_size + 1,
            2 * self@.half_size <= usize::MAX,
        ensures
            y == even_vertex(self@.half_size, k as int),
    {
        2 * self.half_size - 2 * (k - 1)
    }

    /// The index of the odd vertex `x_j`.
    pub fn j_from_x_j(&self, x_j: usize) -> (j: usize)
        requires
            x_j < usize::MAX,
        ensures
            j == odd_index(x_j as int),
    {
        (x_j + 1) / 2
    }

    /// The index of the even vertex `y_k`.
    pub fn k_from_y_k(&self, y_k: usize) -> (k: usize)
        requires
            y_k / 2 <= self@.half_size,
            self@.half_size - y_k / 2 < usize::MAX,
        ensures
            k == even_index(self@.half_size, y_k as int),
    {
        self.half_size - y_k / 2 + 1
    }

    /// Yields the next vertex of the path, or `None` when the path is back at
    /// vertex 1.
    pub fn next(&mut self) -> (vertex: Option<usize>)
        requires
            old(self)@.wf(),
        ensures
            final(self)@ == old(self)@.advanced(),
            final(self)@.wf(),
            match vertex {
                Some(v) => old(self)@.upcoming() == Some(v as int),
                None => old(self)@.upcoming() is None,
            },
    {
        proof {
            lemma_advanced_wf(self@);
        }
        if self.current == 0 {
            // the path always starts with vertex 1
            self.current = 1;
            return Some(1);
        }
        let is_odd = self.current % 2 == 1;
        if is_odd {
            let j = self.j_from_x_j(self.current);
            // half_size is added so that the difference is not negative
            let mut k = (j + self.half_size - self.difference1) % self.half_size;
            if k == 0 {
                k = self.half_size;
            }
            let y_k = self.y_k(k);
            if y_k == 1 {
                // back at the first vertex
                return None;
            }
            self.current = y_k;
            Some(y_k)
        } else {
            let k = self.k_from_y_k(self.current);
            let mut j = (k + self.difference2) % self.half_size;
            if j == 0 {
                j = self.half_size;
            }
            let x_j = self.x_j(j);
            if x_j == 1 {
                // back at the first vertex
                return None;
            }
            self.current = x_j;
            Some(x_j)
        }
    }

    /// The bounds on the number of vertices that are still to come.
    pub fn size_hint(&self) -> (bounds: (usize, Option<usize>))
        requires
            2 * self@.half_size <= usize::MAX,
        ensures
            bounds.0 == 0,
            bounds.1 == Some((2 * self@.half_size) as usize),
    {
        (0, Some(self.half_size * 2))
    }

    /// Collects the vertices that are still to come, up to the number of vertices
    /// of the graph.
    pub fn collect(self) -> (vertices: Vec<usize>)
        requires
            self@.wf(),
        ensures
            as_ints(vertices@) == self@.yields((2 * self@.half_size) as nat),
    {
        let mut path = self;
        let limit: usize = 2 * path.half_size;
        let mut vertices: Vec<usize> = Vec::new();
        let ghost start = path@;
        proof {
            assert(as_ints(vertices@) =~= Seq::<int>::empty());
        }
        while vertices.len() < limit
            invariant
                path@.wf(),
                limit == 2 * start.half_size,
                vertices@.len() <= limit,
                as_ints(vertices@) + path@.yields((limit - vertices@.len()) as nat) == start.yields(
                    limit as nat,
                ),
            ensures
                as_ints(vertices@) == start.yields(limit as nat),
            decreases limit - vertices@.len(),
        {
            let ghost before = path@;
            let ghost had = vertices@;
            match path.next() {
                Some(v) => {
                    vertices.push(v);
                    proof {
                        let rest = path@.yields((limit - vertices@.len()) as nat);
                        assert(as_ints(vertices@) =~= as_ints(had) + seq![v as int]);
                        assert(as_ints(vertices@) + rest =~= as_ints(had) + (seq![v as int]
                            + rest));
                    }
                },
                None => {
                    proof {
                        assert(as_ints(vertices@) + Seq::<int>::empty() =~= as_ints(vertices@));
                    }
                    break ;
                },
            }
        }
        proof {
            if vertices@.len() == limit {
                assert(as_ints(vertices@) + Seq::<int>::empty() =~= as_ints(vertices@));
            }
        }
        vertices
    }

    /// Counts the vertices that are still to come, up to the number of vertices of
    /// the graph.
    pub fn count(self) -> (n: usize)
        requires
            self@.wf(),
        ensures
            n == self@.yields((2 * self@.half_size) as nat).len(),
    {
        let vertices = self.collect();
        proof {
            assert(as_ints(vertices@).len() == vertices@.len());
        }
        vertices.len()
    }
}

/// An index is found again from its vertex.
pub proof fn lemma_index_of_vertex(h: int, i: int)
    ensures
        odd_index(odd_vertex(i)) == i,
        even_index(h, even_vertex(h, i)) == i,
{
}

} // verus!
