//! Hamiltonian cycles in prime-sum graphs.
//!
//! A prime-sum graph of order `n` has the vertices `1..=n`; two vertices are
//! joined when their sum belongs to a given increasing sequence of integers,
//! canonically the primes. Its adjacency matrix is a Hankel matrix, so `2n - 1`
//! entries describe it. The crate offers that matrix, a backtracking search
//! for Hamiltonian cycles in it, and a closed-form Hamiltonian path built from
//! two primes.

pub mod driver;
pub mod hankel;
pub mod number;
pub mod path;
pub mod quadruplet;
pub mod sequence;
pub mod sieve;

pub use driver::{
    starting_order, test_for_cycles, test_for_cycles_naive, Misconfiguration, SearchError,
};
pub use hankel::Hankel;
pub use number::gcd;
pub use path::HamiltonianPath;
pub use quadruplet::find_prime_quadruplet;
pub use sieve::gen_primes_upto_n;
