use prime_sum::{find_prime_quadruplet, gcd, gen_primes_upto_n, HamiltonianPath, Hankel};

#[test]
fn indexing_correct() {
    let test = HamiltonianPath::new(3, 17, 10);
    for i in 1..=10 {
        assert_eq!(i, test.j_from_x_j(test.x_j(i)));
        assert_eq!(i, test.k_from_y_k(test.y_k(i)));
    }
}

#[test]
fn path_length() {
    let test = HamiltonianPath::new(3, 17, 10);
    assert_eq!(test.count(), 20);
}

#[test]
fn prime_quadruplet() {
    assert_eq!(find_prime_quadruplet(10, None), Some((3, 17)));
}

#[test]
fn first_100() {
    let primes = gen_primes_upto_n(200);
    for half_size in 2..50 {
        let (p1, p2) = match find_prime_quadruplet(half_size, Some(&primes)) {
            Some(t) => t,
            None => panic!(),
        };
        let path = HamiltonianPath::new(p1, p2, half_size);
        assert_eq!(path.count(), half_size * 2);
    }
}

#[test]
fn vertex_formulas() {
    let path = HamiltonianPath::new(3, 17, 10);
    assert_eq!(path.x_j(1), 1);
    assert_eq!(path.x_j(10), 19);
    assert_eq!(path.y_k(1), 20);
    assert_eq!(path.y_k(10), 2);
    assert_eq!(path.j_from_x_j(19), 10);
    assert_eq!(path.k_from_y_k(2), 10);
    assert_eq!(path.size_hint(), (0, Some(20)));
}

#[test]
fn path_for_3_and_17() {
    let path = HamiltonianPath::new(3, 17, 10);
    assert_eq!(
        path.collect(),
        vec![1, 2, 15, 8, 9, 14, 3, 20, 17, 6, 11, 12, 5, 18, 19, 4, 13, 10, 7, 16]
    );
}

#[test]
fn path_for_3_and_17_is_a_permutation() {
    let mut vertices = HamiltonianPath::new(3, 17, 10).collect();
    assert_eq!(vertices.len(), 20);
    vertices.sort();
    let all: Vec<usize> = (1..=20).collect();
    assert_eq!(vertices, all);
}

#[test]
fn count_goes_on_from_where_the_path_is() {
    let mut path = HamiltonianPath::new(3, 17, 10);
    assert_eq!(path.next(), Some(1));
    assert_eq!(path.next(), Some(2));
    assert_eq!(path.next(), Some(15));
    assert_eq!(path.count(), 17);
}

#[test]
fn path_without_coprime_difference_is_short() {
    // (13 - 3) / 2 = 5 is not coprime to 10: the path is back at vertex 1 early
    let vertices = HamiltonianPath::new(3, 13, 10).collect();
    assert_eq!(vertices, vec![1, 2, 11, 12]);
}

#[test]
fn next_steps_through_the_path() {
    let mut path = HamiltonianPath::new(3, 17, 10);
    assert_eq!(path.next(), Some(1));
    // j = 1, k = (1 + 10 - 1) mod 10 = 0, taken as 10, y = 20 - 18
    assert_eq!(path.next(), Some(2));
    // k = 10 - 1 + 1 = 10, j = (10 + 8) mod 10 = 8, x = 2 * 8 - 1
    assert_eq!(path.next(), Some(15));
    // j = 8, k = (8 + 10 - 1) mod 10 = 7, y = 20 - 12
    assert_eq!(path.next(), Some(8));
    let mut rest = 4;
    while let Some(v) = path.next() {
        assert!(v >= 1 && v <= 20);
        rest += 1;
    }
    assert_eq!(rest, 20);
    assert_eq!(path.next(), None);
}

#[test]
fn path_is_a_permutation_and_a_path_of_the_graph() {
    let primes = gen_primes_upto_n(400);
    for half_size in 2..100 {
        let (p1, p2) = find_prime_quadruplet(half_size, Some(&primes)).unwrap();
        let vertices = HamiltonianPath::new(p1, p2, half_size).collect();
        assert_eq!(vertices.len(), 2 * half_size);
        assert_eq!(vertices[0], 1);
        let mut sorted = vertices.clone();
        sorted.sort();
        let all: Vec<usize> = (1..=2 * half_size).collect();
        assert_eq!(sorted, all);
        let mat = Hankel::prime_sum_matrix(2 * half_size, Some(&primes));
        assert!(mat.valid_path(&vertices));
    }
}

#[test]
fn pairs_are_pairs_and_come_first() {
    let primes = gen_primes_upto_n(400);
    let is_prime = |n: usize| primes.binary_search(&n).is_ok();
    for h in 2..100 {
        let (p1, p2) = find_prime_quadruplet(h, Some(&primes)).unwrap();
        assert!(p1 < p2 && p2 <= 2 * h);
        assert!(p1 == 1 || is_prime(p1));
        assert!(is_prime(p2));
        assert!(is_prime(p1 + 2 * h));
        assert!(is_prime(p2 + 2 * h));
        assert_eq!(gcd((p2 - p1) / 2, h), 1);
        for q1 in 1..=p1 {
            if !(q1 == 1 || is_prime(q1)) || !is_prime(q1 + 2 * h) {
                continue;
            }
            let stop = if q1 == p1 { p2 } else { 2 * h + 1 };
            for q2 in (q1 + 1)..stop {
                let pair = is_prime(q2) && is_prime(q2 + 2 * h) && gcd((q2 - q1) / 2, h) == 1;
                assert!(!pair);
            }
        }
        assert_eq!(find_prime_quadruplet(h, None), Some((p1, p2)));
    }
}

#[test]
fn one_may_be_the_first_prime() {
    // 1 + 6 = 7 and 5 + 6 = 11 are prime, gcd(2, 3) = 1
    assert_eq!(find_prime_quadruplet(3, None), Some((1, 5)));
    assert_eq!(find_prime_quadruplet(2, None), Some((1, 3)));
}

#[test]
fn no_pair_in_a_short_list() {
    assert_eq!(find_prime_quadruplet(10, Some(&[2, 3, 5, 7, 11, 13, 17, 19])), None);
    assert_eq!(find_prime_quadruplet(10, Some(&[])), None);
    // 3 + 20 and 17 + 20 occur, nothing else is needed
    assert_eq!(find_prime_quadruplet(10, Some(&[3, 17, 23, 37])), Some((3, 17)));
}

#[test]
fn greatest_common_divisors() {
    assert_eq!(gcd(0, 0), 0);
    assert_eq!(gcd(0, 7), 7);
    assert_eq!(gcd(7, 0), 7);
    assert_eq!(gcd(12, 18), 6);
    assert_eq!(gcd(18, 12), 6);
    assert_eq!(gcd(17, 5), 1);
    assert_eq!(gcd(9, 9), 9);
    assert_eq!(gcd(1, 1000), 1);
}

#[test]
fn primes_up_to_a_bound() {
    assert_eq!(gen_primes_upto_n(0), Vec::<usize>::new());
    assert_eq!(gen_primes_upto_n(1), Vec::<usize>::new());
    assert_eq!(gen_primes_upto_n(2), vec![2]);
    assert_eq!(gen_primes_upto_n(30), vec![2, 3, 5, 7, 11, 13, 17, 19, 23, 29]);
    assert_eq!(gen_primes_upto_n(31), vec![2, 3, 5, 7, 11, 13, 17, 19, 23, 29, 31]);
    assert_eq!(gen_primes_upto_n(1000).len(), 168);
}
