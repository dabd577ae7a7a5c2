use prime_sum::{
    find_prime_quadruplet, gen_primes_upto_n, starting_order, test_for_cycles,
    test_for_cycles_naive, Hankel, Misconfiguration, SearchError,
};

/// The first of the given orders whose graph has no Hamiltonian cycle.
fn first_without_cycle(orders: &[usize], primes: &[usize]) -> Option<usize> {
    orders
        .iter()
        .copied()
        .find(|&n| Hankel::prime_sum_matrix(n, Some(primes)).is_hamiltonian().is_none())
}

#[test]
fn cycles_up_to_sixty() {
    let primes = gen_primes_upto_n(2 * 60 - 1);
    assert_eq!(test_for_cycles(60, 12, 2, 0, 0, &primes), Ok(()));
    assert_eq!(test_for_cycles(60, 12, 2, 0, 2, &primes), Ok(()));
    assert_eq!(test_for_cycles(60, 12, 2, 0, 3, &primes), Ok(()));
}

#[test]
fn cycles_for_several_workers() {
    let primes = gen_primes_upto_n(2 * 80 - 1);
    for worker in 0..4 {
        assert_eq!(test_for_cycles(80, 12, 8, 2 * worker, 0, &primes), Ok(()));
    }
}

#[test]
fn nothing_to_test_above_the_maximum() {
    let primes = gen_primes_upto_n(100);
    // the first cycle is made all the same
    assert_eq!(test_for_cycles(10, 12, 2, 0, 0, &primes), Ok(()));
    assert_eq!(
        test_for_cycles(10, 12, 2, 0, 0, &[3, 5]),
        Err(SearchError::ExhaustedSearch { size: 12 })
    );
    assert_eq!(test_for_cycles_naive(10, 12, 2, 0, &primes), Ok(()));
}

#[test]
fn no_cycle_at_the_start() {
    assert_eq!(
        test_for_cycles(20, 12, 2, 0, 0, &[3, 5, 7]),
        Err(SearchError::ExhaustedSearch { size: 12 })
    );
    // an odd order has no cycle
    let primes = gen_primes_upto_n(100);
    assert_eq!(
        test_for_cycles(20, 12, 2, 1, 0, &primes),
        Err(SearchError::ExhaustedSearch { size: 13 })
    );
}

#[test]
fn search_ends_where_the_primes_end() {
    for bound in [23, 29] {
        let primes = gen_primes_upto_n(bound);
        let orders: Vec<usize> = (12..=30).step_by(2).collect();
        let expected = match first_without_cycle(&orders, &primes) {
            Some(size) => Err(SearchError::ExhaustedSearch { size }),
            None => Ok(()),
        };
        assert_eq!(test_for_cycles(30, 12, 2, 0, 0, &primes), expected);
        assert!(expected.is_err());
        // with a divisor that leads nowhere the search cannot start again, wherever
        // the end of a cycle cannot be made anew
        if let Err(SearchError::ExhaustedSearch { size }) = expected {
            if size > 12 {
                match test_for_cycles(30, 12, 2, 0, 1, &primes) {
                    Err(SearchError::ConfigurationError {
                        reason: Misconfiguration::RetryNotEarlier { size: stopped },
                    }) => assert!(12 < stopped && stopped <= size),
                    other => panic!("{:?}", other),
                }
            }
        }
    }
}

#[test]
fn misconfigured_searches() {
    let primes = gen_primes_upto_n(100);
    assert_eq!(
        test_for_cycles(20, 0, 2, 0, 0, &primes),
        Err(SearchError::ConfigurationError { reason: Misconfiguration::EmptyGraph })
    );
    assert_eq!(
        test_for_cycles(20, 12, 0, 0, 0, &primes),
        Err(SearchError::ConfigurationError { reason: Misconfiguration::ZeroIncrement })
    );
    assert_eq!(
        test_for_cycles(20, 6, 2, 0, 0, &primes),
        Err(SearchError::ConfigurationError {
            reason: Misconfiguration::OrderTooSmall { size: 6 }
        })
    );
    // eight workers look back over 16 vertices
    assert_eq!(
        test_for_cycles(40, 16, 16, 0, 0, &primes),
        Err(SearchError::ConfigurationError {
            reason: Misconfiguration::OrderTooSmall { size: 16 }
        })
    );
    assert_eq!(
        test_for_cycles_naive(20, 2, 2, 0, &primes),
        Err(SearchError::ConfigurationError {
            reason: Misconfiguration::OrderTooSmall { size: 2 }
        })
    );
    assert_eq!(
        test_for_cycles_naive(20, 4, 0, 0, &primes),
        Err(SearchError::ConfigurationError { reason: Misconfiguration::ZeroIncrement })
    );
}

#[test]
fn pairs_up_to_a_hundred() {
    let primes = gen_primes_upto_n(199);
    assert_eq!(test_for_cycles_naive(100, 4, 2, 0, &primes), Ok(()));
    assert_eq!(test_for_cycles_naive(100, 12, 6, 4, &primes), Ok(()));
}

#[test]
fn pairs_end_where_the_primes_end() {
    let primes = gen_primes_upto_n(40);
    let mut expected = Ok(());
    for size in (4..=100).step_by(2) {
        if find_prime_quadruplet(size / 2, Some(&primes)).is_none() {
            expected = Err(SearchError::NoPrimePairFound { size });
            break;
        }
    }
    assert!(expected.is_err());
    assert_eq!(test_for_cycles_naive(100, 4, 2, 0, &primes), expected);
}

#[test]
fn starting_orders() {
    assert_eq!(starting_order(None, 1), Ok(12));
    assert_eq!(starting_order(None, 6), Ok(12));
    assert_eq!(starting_order(None, 7), Ok(14));
    assert_eq!(starting_order(Some(20), 4), Ok(20));
    assert_eq!(starting_order(Some(8), 4), Ok(8));
    assert_eq!(starting_order(Some(6), 4), Err(Misconfiguration::TooManyThreads));
    assert_eq!(starting_order(Some(7), 4), Err(Misconfiguration::TooManyThreads));
    assert_eq!(starting_order(Some(21), 4), Err(Misconfiguration::OddStart));
    assert_eq!(starting_order(Some(0), 0), Ok(0));
}
