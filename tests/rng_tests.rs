use neon_graph::rng::Lcg;

#[test]
fn draws_match_the_linear_congruential_step() {
    let mut rng = Lcg::new(42);
    assert_eq!(rng.next_u32(), 3922296602);
    assert_eq!(rng.next_u32(), 2719453511);
    assert_eq!(rng.next_u32(), 1957965596);
}

#[test]
fn even_seed_is_forced_odd() {
    let mut even = Lcg::new(0);
    let mut odd = Lcg::new(1);
    assert_eq!(even.next_u32(), 1817669548);
    assert_eq!(odd.next_u32(), 1817669548);
}

#[test]
fn same_seed_gives_same_stream() {
    let mut a = Lcg::new(20250909);
    let mut b = Lcg::new(20250909);
    for _ in 0..1000 {
        assert_eq!(a.next_u32(), b.next_u32());
    }
}

#[test]
fn pick_usize_reduces_by_remainder() {
    let mut a = Lcg::new(42);
    let mut b = Lcg::new(42);
    for n in [1usize, 2, 7, 10, 1000] {
        assert_eq!(a.pick_usize(n), (b.next_u32() as usize) % n);
    }
}

#[test]
fn pick_usize_of_zero_is_zero() {
    let mut rng = Lcg::new(5);
    for _ in 0..10 {
        assert_eq!(rng.pick_usize(0), 0);
    }
}

#[test]
fn pick_pair_takes_two_draws() {
    let mut rng = Lcg::new(7);
    assert_eq!(rng.pick_pair(10), (6, 3));
    assert_eq!(rng.pick_pair(10), (6, 7));
    assert_eq!(rng.pick_pair(10), (0, 9));
    assert_eq!(rng.pick_pair(10), (8, 9));
}

#[test]
fn pick_pair_repairs_a_self_pair() {
    // seed 12 draws the same id twice below 4; the second moves on by one, wrapping
    let mut rng = Lcg::new(12);
    assert_eq!(rng.pick_pair(4), (3, 0));
}
