use dotmax::progress::styles::numbertheory::{
    digital_root, digital_root_cycle, farey_fractions, gcd, is_prime, pascal_next_row,
    phi_convergents, prime_counts, recaman, sieve_composites, spiral_fibs, stopping_time,
    checked_stopping_time, totient,
};

#[test]
fn is_prime_small_values() {
    let primes: Vec<u64> = (0..50).filter(|&n| is_prime(n)).collect();
    assert_eq!(primes, vec![2, 3, 5, 7, 11, 13, 17, 19, 23, 29, 31, 37, 41, 43, 47]);
}

#[test]
fn is_prime_larger_values() {
    assert!(is_prime(7919));
    assert!(!is_prime(7917));
    assert!(is_prime(1_000_000_007));
    assert!(!is_prime(1_000_000_007 * 3));
    assert!(!is_prime(u64::MAX));
}

#[test]
fn sieve_matches_trial_division() {
    let composite = sieve_composites(200);
    assert_eq!(composite.len(), 201);
    for k in 0..=200u64 {
        assert_eq!(composite[k as usize], !is_prime(k));
    }
    assert_eq!(sieve_composites(0), vec![true]);
    assert_eq!(sieve_composites(1), vec![true, true]);
}

#[test]
fn prime_counts_values() {
    let pi = prime_counts(30);
    assert_eq!(pi.len(), 31);
    assert_eq!(pi[0], 0);
    assert_eq!(pi[1], 0);
    assert_eq!(pi[2], 1);
    assert_eq!(pi[10], 4);
    assert_eq!(pi[30], 10);
}

#[test]
fn gcd_values() {
    assert_eq!(gcd(12, 18), 6);
    assert_eq!(gcd(18, 12), 6);
    assert_eq!(gcd(7, 13), 1);
    assert_eq!(gcd(0, 9), 9);
    assert_eq!(gcd(9, 0), 9);
    assert_eq!(gcd(0, 0), 0);
}

#[test]
fn digital_root_values() {
    assert_eq!(digital_root(0), 9);
    assert_eq!(digital_root(9), 9);
    assert_eq!(digital_root(10), 1);
    assert_eq!(digital_root(38), 2);
    assert_eq!(digital_root(81), 9);
}

#[test]
fn digital_root_cycles() {
    assert_eq!(digital_root_cycle(1), vec![1, 2, 3, 4, 5, 6, 7, 8, 9]);
    assert_eq!(digital_root_cycle(2), vec![2, 4, 6, 8, 1, 3, 5, 7, 9]);
    assert_eq!(digital_root_cycle(3), vec![3, 6, 9]);
    assert_eq!(digital_root_cycle(6), vec![6, 3, 9]);
    assert_eq!(digital_root_cycle(9), vec![9]);
}

#[test]
fn collatz_stopping_times() {
    assert_eq!(stopping_time(1), 0);
    assert_eq!(stopping_time(2), 1);
    assert_eq!(stopping_time(6), 8);
    assert_eq!(stopping_time(27), 111);
    assert_eq!(stopping_time(0), 10_000);
}

#[test]
fn pascal_rows_mod_two_give_sierpinski() {
    let mut row = vec![0u64; 8];
    row[0] = 1;
    for _ in 0..4 {
        pascal_next_row(&mut row, 2);
    }
    assert_eq!(row, vec![1, 0, 0, 0, 1, 0, 0, 0]);
    pascal_next_row(&mut row, 2);
    assert_eq!(row, vec![1, 1, 0, 0, 1, 1, 0, 0]);
}

#[test]
fn pascal_rows_mod_five() {
    let mut row = vec![0u64; 6];
    row[0] = 1;
    for _ in 0..5 {
        pascal_next_row(&mut row, 5);
    }
    assert_eq!(row, vec![1, 0, 0, 0, 0, 1]);
    let mut row = vec![0u64; 5];
    row[0] = 1;
    for _ in 0..4 {
        pascal_next_row(&mut row, 1000);
    }
    assert_eq!(row, vec![1, 4, 6, 4, 1]);
}

#[test]
fn spiral_fibs_stop_at_dimension() {
    assert_eq!(spiral_fibs(1), vec![1, 1]);
    assert_eq!(spiral_fibs(6), vec![1, 1, 2, 3, 5, 8]);
    assert_eq!(spiral_fibs(8), vec![1, 1, 2, 3, 5, 8]);
    let long = spiral_fibs(1_000_000);
    assert_eq!(long.len(), 21);
    assert_eq!(long[20], 10946);
}

#[test]
fn phi_convergents_values() {
    assert_eq!(phi_convergents(4), vec![(1, 1), (1, 2), (2, 3), (3, 5)]);
    assert_eq!(phi_convergents(0), vec![]);
    let all = phi_convergents(40);
    assert_eq!(all.len(), 29);
    assert_eq!(all[28], (514229, 832040));
}

#[test]
fn recaman_terms() {
    assert_eq!(
        recaman(20),
        vec![0, 1, 3, 6, 2, 7, 13, 20, 12, 21, 11, 22, 10, 23, 9, 24, 8, 25, 43, 62]
    );
    assert_eq!(recaman(0), vec![0]);
    assert_eq!(recaman(1), vec![0]);
}

#[test]
fn farey_sequence_of_order_five() {
    assert_eq!(
        farey_fractions(5),
        vec![
            (0, 1),
            (1, 5),
            (1, 4),
            (1, 3),
            (2, 5),
            (1, 2),
            (3, 5),
            (2, 3),
            (3, 4),
            (4, 5),
            (1, 1)
        ]
    );
    assert_eq!(farey_fractions(1), vec![(0, 1), (1, 1)]);
    assert_eq!(farey_fractions(0), vec![]);
}

#[test]
fn totient_values() {
    assert_eq!(totient(0), 0);
    assert_eq!(totient(1), 1);
    assert_eq!(totient(12), 4);
    assert_eq!(totient(36), 12);
    assert_eq!(totient(1000), 400);
    assert_eq!(totient(2310), 480);
}

#[test]
fn totient_of_a_prime_is_one_less() {
    for p in [2usize, 3, 5, 7, 97, 7919] {
        assert_eq!(totient(p), p - 1);
    }
}

#[test]
fn checked_stopping_times() {
    assert_eq!(checked_stopping_time(1), Some(0));
    assert_eq!(checked_stopping_time(6), Some(8));
    assert_eq!(checked_stopping_time(27), Some(111));
    assert_eq!(checked_stopping_time(97), Some(118));
    assert_eq!(checked_stopping_time(27), Some(stopping_time(27)));
}

#[test]
fn checked_stopping_time_reports_overflow() {
    assert_eq!(checked_stopping_time(u64::MAX), None);
    assert_eq!(checked_stopping_time(u64::MAX - 1), None);
}

#[test]
fn convergents_alternate_around_the_limit() {
    let conv = phi_convergents(20);
    for k in 0..conv.len() - 1 {
        let (p0, q0) = conv[k];
        let (p1, q1) = conv[k + 1];
        let cross = (p1 * q0) as i64 - (p0 * q1) as i64;
        assert_eq!(cross, if k % 2 == 0 { -1 } else { 1 });
    }
}

#[test]
fn recaman_steps_jump_by_their_index() {
    let seq = recaman(40);
    for n in 1..seq.len() {
        let (a, b) = (seq[n - 1] as i64, seq[n] as i64);
        assert!(b == a - n as i64 || b == a + n as i64);
    }
}
