use prime_sum::{gen_primes_upto_n, Hankel};

fn is_permutation(path: &[usize]) -> bool {
    let mut seen = vec![false; path.len() + 1];
    for &v in path {
        if v == 0 || v > path.len() || seen[v] {
            return false;
        }
        seen[v] = true;
    }
    true
}

#[test]
fn finds_the_first_cycle_of_order_six() {
    let mat = Hankel::prime_sum_matrix(6, None);
    assert_eq!(mat.is_hamiltonian(), Some(vec![1, 6, 5, 2, 3, 4]));
}

#[test]
fn found_cycles_are_valid() {
    let primes = gen_primes_upto_n(200);
    for n in (2..=60).step_by(2) {
        let mat = Hankel::prime_sum_matrix(n, Some(&primes));
        let cycle = mat.is_hamiltonian().unwrap();
        assert_eq!(cycle.len(), n);
        assert_eq!(cycle[0], 1);
        assert!(mat.valid_cycle(&cycle));
        assert!(is_permutation(&cycle));
    }
}

#[test]
fn odd_orders_have_no_cycle() {
    for n in [1, 3, 5, 7, 9, 11] {
        let mat = Hankel::prime_sum_matrix(n, None);
        assert_eq!(mat.is_hamiltonian(), None);
    }
}

#[test]
fn order_two() {
    let mat = Hankel::prime_sum_matrix(2, None);
    assert_eq!(mat.is_hamiltonian(), Some(vec![1, 2]));
    let bare = Hankel::from_sequence(2, &[5]);
    assert_eq!(bare.is_hamiltonian(), None);
}

#[test]
fn search_at_the_last_position_only_closes() {
    let mat = Hankel::prime_sum_matrix(6, None);
    let mut path = vec![1, 4, 3, 2, 5, 6];
    assert!(mat.hamiltonian_cycle(&mut path, 6));
    assert_eq!(path, vec![1, 4, 3, 2, 5, 6]);
    let mut open = vec![1, 2, 3, 4, 6, 5];
    assert!(!mat.hamiltonian_cycle(&mut open, 6));
    assert_eq!(open, vec![1, 2, 3, 4, 6, 5]);
}

#[test]
fn start_of_the_path_is_kept() {
    let mat = Hankel::prime_sum_matrix(6, None);
    let mut path = vec![1, 4, 3, 0, 0, 0];
    assert!(mat.hamiltonian_cycle(&mut path, 3));
    assert_eq!(path, vec![1, 4, 3, 2, 5, 6]);
    assert!(mat.valid_cycle(&path));
}

#[test]
fn failed_search_clears_what_it_reached() {
    // 1 - 2 - 5 cannot be closed: 6 and then 3 or 4 would have to follow
    let mat = Hankel::prime_sum_matrix(6, None);
    let mut path = vec![1, 2, 5, 9, 9, 9, 7];
    assert!(!mat.hamiltonian_cycle(&mut path, 3));
    assert_eq!(path[..3], [1, 2, 5]);
    assert_eq!(path[3], 0);
    assert_eq!(path[6], 7);
    for &v in &path[3..6] {
        assert!(v == 0 || v == 9);
    }
}

#[test]
fn nothing_fits_nothing_is_cleared() {
    let mat = Hankel::from_sequence(4, &[3]);
    let mut path = vec![1, 2, 8, 8];
    assert!(!mat.hamiltonian_cycle(&mut path, 2));
    assert_eq!(path, vec![1, 2, 8, 8]);
    let mut path = vec![1, 8, 8, 8];
    assert!(!mat.hamiltonian_cycle(&mut path, 1));
    assert_eq!(path, vec![1, 0, 8, 8]);
}

#[test]
fn longer_buffer_keeps_its_tail() {
    let mat = Hankel::prime_sum_matrix(4, None);
    let mut path = vec![1, 0, 0, 0, 42, 43];
    assert!(mat.hamiltonian_cycle(&mut path, 1));
    assert_eq!(path, vec![1, 4, 3, 2, 42, 43]);
}

#[test]
fn cycle_grows_with_the_graph() {
    let primes = gen_primes_upto_n(400);
    let mut path = Hankel::prime_sum_matrix(12, Some(&primes)).is_hamiltonian().unwrap();
    let mut n = 12;
    while n < 100 {
        n += 2;
        path.resize(n, 0);
        let mat = Hankel::prime_sum_matrix(n, Some(&primes));
        let kept: Vec<usize> = path[..n - 6].to_vec();
        if !mat.hamiltonian_cycle(&mut path, n - 6) {
            assert!(mat.hamiltonian_cycle(&mut path, 1));
        } else {
            assert_eq!(path[..n - 6], kept[..]);
        }
        assert!(mat.valid_cycle(&path));
        assert!(is_permutation(&path));
    }
}
