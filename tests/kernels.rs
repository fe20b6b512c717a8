use worker_pool::partition::partition;
use worker_pool::primes::sieve_of_eratosthenes;
use worker_pool::workload::heavy_computation;

#[test]
fn heavy_computation_of_zero_is_zero() {
    assert_eq!(heavy_computation(0), 0);
}

#[test]
fn heavy_computation_exact_values() {
    assert_eq!(heavy_computation(1), 499_500);
    assert_eq!(heavy_computation(3), 1_498_500);
    assert_eq!(heavy_computation(100), 49_950_000);
}

#[test]
fn heavy_computation_wraps_modulo_two_to_the_64() {
    let n = u64::MAX as usize;
    assert_eq!(heavy_computation(n), u64::MAX - 499_500 + 1);
}

#[test]
fn partition_places_pivot() {
    let mut v = vec![3, 1, 2];
    let p = partition(&mut v);
    assert_eq!(p, 1);
    assert_eq!(v, vec![1, 2, 3]);
}

#[test]
fn partition_single_item() {
    let mut v = vec![42];
    assert_eq!(partition(&mut v), 0);
    assert_eq!(v, vec![42]);
}

#[test]
fn partition_all_equal_puts_pivot_last() {
    let mut v = vec![5, 5, 5, 5];
    assert_eq!(partition(&mut v), 3);
    assert_eq!(v, vec![5, 5, 5, 5]);
}

#[test]
fn partition_larger_input_splits_around_pivot() {
    let mut v = vec![9, -4, 7, 0, 12, -8, 3, 5];
    let p = partition(&mut v);
    assert_eq!(v[p], 5);
    assert!(v[..p].iter().all(|&x| x <= 5));
    assert!(v[p + 1..].iter().all(|&x| x > 5));
    let mut sorted = v.clone();
    sorted.sort();
    assert_eq!(sorted, vec![-8, -4, 0, 3, 5, 7, 9, 12]);
}

#[test]
fn sieve_small_limits() {
    assert_eq!(sieve_of_eratosthenes(0), Vec::<usize>::new());
    assert_eq!(sieve_of_eratosthenes(1), Vec::<usize>::new());
    assert_eq!(sieve_of_eratosthenes(2), vec![2]);
    assert_eq!(sieve_of_eratosthenes(4), vec![2, 3]);
}

#[test]
fn sieve_up_to_thirty() {
    assert_eq!(
        sieve_of_eratosthenes(30),
        vec![2, 3, 5, 7, 11, 13, 17, 19, 23, 29]
    );
}

#[test]
fn sieve_includes_prime_limit_and_squares_are_removed() {
    let p = sieve_of_eratosthenes(49);
    assert_eq!(*p.last().unwrap(), 47);
    assert!(!p.contains(&49));
    let q = sieve_of_eratosthenes(53);
    assert_eq!(*q.last().unwrap(), 53);
}

#[test]
fn sieve_counts_primes_below_a_million() {
    assert_eq!(sieve_of_eratosthenes(1_000_000).len(), 78_498);
}
