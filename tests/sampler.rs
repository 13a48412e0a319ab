use rand_pcg::Mcg128Xsl64;
use tsp_sa_meta::sampler::{partner_of, propose_move};

#[test]
fn partner_wraps_round_the_cycle() {
    assert_eq!(partner_of(0, 1, 5), 1);
    assert_eq!(partner_of(3, 1, 5), 4);
    assert_eq!(partner_of(4, 1, 5), 0);
    assert_eq!(partner_of(4, 4, 5), 3);
    assert_eq!(partner_of(2, 3, 5), 0);
    assert_eq!(partner_of(1, 1, 2), 0);
}

#[test]
fn proposals_are_two_distinct_positions() {
    let mut rng = Mcg128Xsl64::new(12345);
    for n in 2..12usize {
        for _ in 0..200 {
            let (a, b) = propose_move(&mut rng, n);
            assert!(a < n);
            assert!(b < n);
            assert_ne!(a, b);
        }
    }
}

#[test]
fn proposals_are_reproducible() {
    let mut r1 = Mcg128Xsl64::new(99);
    let mut r2 = Mcg128Xsl64::new(99);
    for _ in 0..100 {
        assert_eq!(propose_move(&mut r1, 9), propose_move(&mut r2, 9));
    }
}

#[test]
fn proposals_vary() {
    let mut rng = Mcg128Xsl64::new(5);
    let mut seen = std::collections::HashSet::new();
    for _ in 0..500 {
        seen.insert(propose_move(&mut rng, 5));
    }
    assert_eq!(seen.len(), 20);
}
