use prime_sum::{gen_primes_upto_n, Hankel};

#[test]
fn correct_access() {
    let mat = Hankel::from_sequence(5, &[4, 6, 8]);
    assert_eq!(mat.vertex_degrees(), vec![2, 2, 3, 2, 2]);
    assert!(!mat.valid_path(&[1, 3, 5, 2, 4]));
    assert_eq!(mat.get_0_based(0, 0), 0);
    assert_eq!(mat.get_0_based(1, 1), 1);
    assert_eq!(mat.get_0_based(2, 4), 1);
}

#[test]
fn hamilton() {
    let mat = Hankel::from_sequence(7, &[4, 7, 8]);
    assert!(mat.valid_path(&[7, 1, 6, 2, 5, 3, 4]));
    assert!(!mat.valid_cycle(&[7, 1, 6, 2, 5, 3, 4]));
}

#[test]
fn size_is_kept() {
    assert_eq!(Hankel::from_sequence(5, &[4, 6, 8]).size, 5);
    assert_eq!(Hankel::prime_sum_matrix(6, None).size, 6);
}

#[test]
fn prime_sum_matrix_of_order_six() {
    let primes = vec![2, 3, 5, 7, 11];
    let mat = Hankel::prime_sum_matrix(6, Some(&primes));
    let expected: [[u8; 6]; 6] = [
        [0, 1, 0, 1, 0, 1],
        [1, 0, 1, 0, 1, 0],
        [0, 1, 0, 1, 0, 0],
        [1, 0, 1, 0, 0, 0],
        [0, 1, 0, 0, 0, 1],
        [1, 0, 0, 0, 1, 0],
    ];
    for row in 0..6 {
        for col in 0..6 {
            assert_eq!(mat.get_0_based(row, col), expected[row][col]);
            assert_eq!(mat.get(row + 1, col + 1), expected[row][col]);
        }
    }
    assert_eq!(mat.vertex_degrees(), vec![3, 3, 2, 2, 2, 2]);
}

#[test]
fn generated_primes_give_the_same_matrix() {
    for n in 1..40 {
        let primes = gen_primes_upto_n(2 * n - 1);
        let given = Hankel::prime_sum_matrix(n, Some(&primes));
        let generated = Hankel::prime_sum_matrix(n, None);
        for row in 1..=n {
            for col in 1..=n {
                assert_eq!(given.get(row, col), generated.get(row, col));
            }
        }
    }
}

#[test]
fn matrix_is_symmetric() {
    let primes = gen_primes_upto_n(100);
    for n in 1..30 {
        let mat = Hankel::prime_sum_matrix(n, Some(&primes));
        let plain = Hankel::from_sequence(n, &primes);
        for i in 1..=n {
            for j in 1..=n {
                assert_eq!(mat.get(i, j), mat.get(j, i));
                assert_eq!(plain.get(i, j), plain.get(j, i));
                assert_eq!(mat.get(i, j), mat.get_0_based(i - 1, j - 1));
            }
        }
    }
}

#[test]
fn loops_come_from_the_sequence_only() {
    // 2 occurs in the sequence: vertex 1 is joined to itself
    let plain = Hankel::from_sequence(4, &[2, 3, 5, 7]);
    assert_eq!(plain.get(1, 1), 1);
    assert_eq!(plain.get(2, 2), 0);
    assert_eq!(plain.get(1, 2), 1);
    // the prime-sum matrix leaves out the even sums
    let odd = Hankel::prime_sum_matrix(4, Some(&[2, 3, 5, 7]));
    for v in 1..=4 {
        assert_eq!(odd.get(v, v), 0);
    }
    assert_eq!(odd.get(1, 2), 1);
}

#[test]
fn both_constructions_agree_on_odd_sequences() {
    let odd: Vec<usize> = vec![3, 5, 7, 9, 11, 13, 17, 19];
    for n in 1..12 {
        let plain = Hankel::from_sequence(n, &odd);
        let skipping = Hankel::prime_sum_matrix(n, Some(&odd));
        for row in 0..n {
            for col in 0..n {
                assert_eq!(plain.get_0_based(row, col), skipping.get_0_based(row, col));
            }
        }
    }
}

#[test]
fn even_members_count_for_from_sequence_only() {
    let seq = [4, 6, 8];
    let plain = Hankel::from_sequence(5, &seq);
    let odd = Hankel::prime_sum_matrix(5, Some(&seq));
    assert_eq!(plain.get(1, 3), 1);
    assert_eq!(odd.get(1, 3), 0);
    assert_eq!(odd.vertex_degrees(), vec![0, 0, 0, 0, 0]);
}

#[test]
fn degrees_equal_row_sums() {
    let primes = gen_primes_upto_n(200);
    for n in 1..60 {
        for mat in [Hankel::prime_sum_matrix(n, Some(&primes)), Hankel::from_sequence(n, &primes)] {
            let degrees = mat.vertex_degrees();
            assert_eq!(degrees.len(), n);
            for v in 1..=n {
                let mut sum = 0;
                for w in 1..=n {
                    sum += mat.get(v, w) as usize;
                }
                assert_eq!(degrees[v - 1], sum);
            }
        }
    }
}

#[test]
fn order_one() {
    let mat = Hankel::from_sequence(1, &[2]);
    assert_eq!(mat.vertex_degrees(), vec![1]);
    assert!(mat.valid_cycle(&[1]));
    let mat = Hankel::from_sequence(1, &[3]);
    assert_eq!(mat.vertex_degrees(), vec![0]);
    assert!(mat.valid_path(&[1]));
    assert!(!mat.valid_cycle(&[1]));
}

#[test]
fn short_paths_are_valid() {
    let mat = Hankel::from_sequence(5, &[4, 6, 8]);
    assert!(mat.valid_path(&[]));
    assert!(mat.valid_path(&[3]));
    assert!(mat.valid_path(&[1, 3]));
    assert!(!mat.valid_path(&[1, 2]));
}

#[test]
fn cycle_is_closed_path() {
    let mat = Hankel::prime_sum_matrix(6, None);
    // 1 - 2 - 3 - 4 - 1 closes (4 + 1 = 5), 1 - 2 - 3 does not (3 + 1 = 4)
    assert!(mat.valid_path(&[1, 2, 3, 4]));
    assert!(mat.valid_cycle(&[1, 2, 3, 4]));
    assert!(mat.valid_path(&[1, 2, 3]));
    assert!(!mat.valid_cycle(&[1, 2, 3]));
    let cycle = [1, 4, 3, 2, 5, 6];
    assert!(mat.valid_cycle(&cycle));
    for at in 0..cycle.len() {
        for other in 1..=6 {
            let mut changed = cycle;
            changed[at] = other;
            let closed = mat.get(changed[0], changed[5]) != 0;
            assert_eq!(mat.valid_cycle(&changed), mat.valid_path(&changed) && closed);
        }
    }
    // one vertex changed: 1 - 4 - 3 - 2 - 5 - 4 has the edge 5 - 4 but 4 + 1 closes; 3 for 4 does not
    assert!(!mat.valid_cycle(&[1, 4, 3, 2, 5, 5]));
    assert!(!mat.valid_cycle(&[1, 4, 5, 2, 5, 6]));
}
