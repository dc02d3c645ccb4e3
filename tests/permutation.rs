use feistel_permutation::{DefaultBuildHasher, HashOracle, Permutation, WordHasher};
use std::hash::{BuildHasher, Hasher};
use xxhash_rust::xxh64::{Xxh64, Xxh64Builder};

struct XxhOracle(Xxh64Builder);

struct XxhWords(Xxh64);

impl WordHasher for XxhWords {
    fn write_u64(&mut self, word: u64) {
        Hasher::write_u64(&mut self.0, word)
    }

    fn finish(&self) -> u64 {
        Hasher::finish(&self.0)
    }
}

impl HashOracle for XxhOracle {
    type Hasher = XxhWords;

    fn build_hasher(&self) -> XxhWords {
        XxhWords(BuildHasher::build_hasher(&self.0))
    }
}

fn triangular_variance(a: f64, b: f64, c: f64) -> f64 {
    (a * a + b * b + c * c - a * b - a * c - b * c) / 18.0
}

fn triangular_sd(a: f64, b: f64, c: f64) -> f64 {
    triangular_variance(a, b, c).sqrt()
}

fn values<B: HashOracle>(perm: &Permutation<B>, n: u64) -> Vec<u64> {
    (0..n).map(|i| perm.get(i)).collect()
}

#[test]
fn test_1() {
    let n = 1000;
    let nf = n as f64;
    let bob = XxhOracle(Xxh64Builder::new(19));
    let perm = Permutation::new(n, 19, bob);
    let mut xs = Vec::new();
    for i in 0..n {
        let x = perm.get(i);
        xs.push(x);
    }

    // Check the permutation is random.
    let mut sx: f64 = 0.0;
    let mut sx2: f64 = 0.0;
    for i in 0..n as usize {
        let d = (xs[i] as f64) - (i as f64);
        sx += d;
        sx2 += d * d;
    }
    let m_bar = sx / nf;
    assert_eq!(m_bar, 0.0);
    let v_bar = sx2 / nf - m_bar * m_bar;
    let sd_bar = v_bar.sqrt();
    let sd = triangular_sd(-nf, nf, 0.0);
    let std_error = sd / nf.sqrt();
    assert!((sd_bar - sd).abs() < std_error);

    xs.sort();
    for i in 0..n {
        assert_eq!(xs[i as usize], i);
    }
}

#[test]
fn permutation_test_2() {
    let n = 1000000;
    let seed = 29;
    let perm = Permutation::new(n, seed, DefaultBuildHasher::new());
    let mut it = perm.range(100, 200);
    while let Some(j) = it.next() {
        println!("{}", j);
    }
    let mut it = perm.iter();
    let mut taken = 0;
    while taken < 10 {
        match it.next() {
            Some(j) => println!("{}", j),
            None => break,
        }
        taken += 1;
    }
}

#[test]
fn default_oracle_sorts_to_the_domain_and_repeats() {
    let n = 1000;
    let perm = Permutation::new(n, 19, DefaultBuildHasher::new());
    let xs = values(&perm, n);
    let mut sorted = xs.clone();
    sorted.sort();
    assert_eq!(sorted, (0..n).collect::<Vec<u64>>());
    let again = Permutation::new(n, 19, DefaultBuildHasher::new());
    assert_eq!(values(&again, n), xs);
}

#[test]
fn bijection_for_many_sizes() {
    for n in 1..=130u64 {
        let perm = Permutation::new(n, 7, DefaultBuildHasher::new());
        let mut xs = values(&perm, n);
        xs.sort();
        assert_eq!(xs, (0..n).collect::<Vec<u64>>());
    }
}

#[test]
fn different_seeds_give_different_permutations() {
    let n = 1000;
    let a = Permutation::new(n, 1, DefaultBuildHasher::new());
    let b = Permutation::new(n, 2, DefaultBuildHasher::new());
    assert_ne!(values(&a, n), values(&b, n));
}

#[test]
fn permutation_is_not_the_identity() {
    let n = 1000;
    let perm = Permutation::new(n, 19, DefaultBuildHasher::new());
    assert_ne!(values(&perm, n), (0..n).collect::<Vec<u64>>());
}

#[test]
fn one_element_domain_is_trivial() {
    let perm = Permutation::new(1, 12345, DefaultBuildHasher::new());
    assert_eq!(perm.get(0), 0);
    let mut it = perm.iter();
    assert_eq!(it.next(), Some(0));
    assert_eq!(it.next(), None);
}

#[test]
fn empty_range_yields_nothing() {
    let perm = Permutation::new(50, 3, DefaultBuildHasher::new());
    for k in [0u64, 17, 50] {
        let mut it = perm.range(k, k);
        assert_eq!(it.next(), None);
        assert_eq!(it.next(), None);
    }
}

#[test]
fn range_matches_get_and_the_full_iteration() {
    let n = 300;
    let perm = Permutation::new(n, 29, DefaultBuildHasher::new());
    let mut all = Vec::new();
    let mut it = perm.iter();
    while let Some(v) = it.next() {
        all.push(v);
    }
    assert_eq!(all, values(&perm, n));
    let mut part = Vec::new();
    let mut it = perm.range(100, 200);
    while let Some(v) = it.next() {
        part.push(v);
    }
    assert_eq!(part.len(), 100);
    assert_eq!(part[..], all[100..200]);
}

#[test]
fn owned_iterators_match_the_borrowed_ones() {
    let n = 200;
    let perm = Permutation::new(n, 5, DefaultBuildHasher::new());
    let expected = values(&perm, n);
    let mut it = Permutation::new(n, 5, DefaultBuildHasher::new()).into_iter();
    let mut got = Vec::new();
    while let Some(v) = it.next() {
        got.push(v);
    }
    assert_eq!(got, expected);
    let mut it = perm.into_range(10, 20);
    let mut got = Vec::new();
    while let Some(v) = it.next() {
        got.push(v);
    }
    assert_eq!(got[..], expected[10..20]);
}

#[test]
fn largest_domain() {
    let perm = Permutation::new(u64::MAX, 11, DefaultBuildHasher::new());
    let a = perm.get(0);
    let b = perm.get(1);
    assert!(a < u64::MAX && b < u64::MAX);
    assert_ne!(a, b);
}

#[test]
fn power_of_two_domain() {
    let n = 256;
    let perm = Permutation::new(n, 42, DefaultBuildHasher::new());
    let mut xs = values(&perm, n);
    xs.sort();
    assert_eq!(xs, (0..n).collect::<Vec<u64>>());
}
