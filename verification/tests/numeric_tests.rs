use algolib::dsu::potential_dsu::PotentialDSU;
use algolib::intalgo::divisors;
use algolib::intalgo::eratos::SieveEratos;
use algolib::intalgo::is_prime::is_prime;
use algolib::seqalgo::rhash::{RHash, BASE, HASH};
use algolib::seqalgo::{compressed, next_pos};

#[test]
fn sieve_primality() {
    let s = SieveEratos::build(100);
    let primes_under_20 = [2usize, 3, 5, 7, 11, 13, 17, 19];
    for p in 0..=20 {
        assert_eq!(s.is_prime(p), primes_under_20.contains(&p));
    }
    assert!(s.is_prime(97));
    assert!(!s.is_prime(91));
    assert!(!s.is_prime(0));
    assert!(!s.is_prime(1));
}

#[test]
fn sieve_prime_list() {
    let s = SieveEratos::build(50);
    let ps = s.primes(30);
    assert_eq!(ps, vec![2, 3, 5, 7, 11, 13, 17, 19, 23, 29]);
    let none = s.primes(1);
    assert!(none.is_empty());
}

#[test]
fn divisors_values() {
    assert_eq!(divisors(1), vec![1]);
    assert_eq!(divisors(12), vec![1, 2, 3, 4, 6, 12]);
    assert_eq!(divisors(36), vec![1, 2, 3, 4, 6, 9, 12, 18, 36]);
    assert_eq!(divisors(17), vec![1, 17]);
}

#[test]
fn potential_dsu_tracks_differences() {
    // potentials over the additive group of u64 (wrapping)
    let mut dsu = PotentialDSU::<u64>::new(5);
    assert_eq!(dsu.count(), 5);
    assert!(dsu.unite(0, 1, &3));
    assert!(dsu.unite(1, 2, &4));
    assert_eq!(dsu.potential(0, 1), Some(3));
    assert_eq!(dsu.potential(0, 2), Some(7));
    assert_eq!(dsu.potential(2, 0), Some(7u64.wrapping_neg()));
    assert_eq!(dsu.potential(0, 4), None);
    // a consistent re-union of the same pair reports agreement
    assert!(dsu.unite(0, 2, &7));
    // an inconsistent one reports the mismatch
    assert!(!dsu.unite(0, 2, &8));
    assert_eq!(dsu.count(), 3);
    assert_eq!(dsu.size(1), 3);
}

#[test]
fn miller_rabin_primality() {
    assert!(!is_prime(0));
    assert!(!is_prime(1));
    assert!(is_prime(2));
    assert!(is_prime(3));
    assert!(!is_prime(4));
    assert!(is_prime(61));
    assert!(!is_prime(1_000_000_007u64 * 3));
    assert!(is_prime(1_000_000_007));
    assert!(is_prime(998_244_353));
    // beyond the small-witness threshold
    assert!(is_prime(18_446_744_073_709_551_557));
    assert!(!is_prime(18_446_744_073_709_551_555));
    assert!(!is_prime(4_759_123_141));
    // strong pseudoprime to base 2 alone, caught by the full set
    assert!(!is_prime(2_047));
}

#[test]
fn next_positions_table() {
    let table = next_pos(b"abcab", b'a', b'd');
    assert_eq!(table.len(), 5);
    assert_eq!(table[0], vec![0, 1, 2]);
    assert_eq!(table[1], vec![3, 1, 2]);
    assert_eq!(table[2], vec![3, 4, 2]);
    assert_eq!(table[3], vec![3, 4, 5]);
    assert_eq!(table[4], vec![5, 4, 5]);
}

#[test]
fn coordinate_compression() {
    assert_eq!(compressed(&[30, 10, 20, 10]), vec![2, 0, 1, 0]);
    assert_eq!(compressed(&[5]), vec![0]);
    assert_eq!(compressed(&[]), Vec::<usize>::new());
    assert_eq!(compressed(&[-1, -1, -1]), vec![0, 0, 0]);
    assert_eq!(compressed(&[1, 2, 3, 4]), vec![0, 1, 2, 3]);
}

#[test]
fn rolling_hash_blocks() {
    let data: Vec<u64> = vec![5, 7, 5, 7, 11];
    let h = RHash::from_vec(&data);
    // empty blocks hash to zero
    assert_eq!(h.range_hash(0, 0), 0);
    assert_eq!(h.range_hash(3, 3), 0);
    // singleton blocks are the shifted element
    assert_eq!(h.range_hash(0, 1), 6);
    assert_eq!(h.range_hash(4, 5), 12);
    // equal blocks hash equally
    assert_eq!(h.range_hash(0, 2), h.range_hash(2, 4));
    assert_ne!(h.range_hash(0, 2), h.range_hash(1, 3));
    // a two-element block matches the polynomial directly
    let expect = ((6u128 * BASE as u128 + 8) % HASH as u128) as u64;
    assert_eq!(h.range_hash(0, 2), expect);
}
