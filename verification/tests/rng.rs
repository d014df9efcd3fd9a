use ant_mania::rng::FastRng;

#[test]
fn seeded_with_one_first_draw_is_fixed() {
    let mut rng = FastRng::new(1);
    assert_eq!(rng.next_u32(), 270369);
}

#[test]
fn seeded_with_one_range_five_is_four() {
    let mut rng = FastRng::new(1);
    assert_eq!(rng.next_range(5), 4);
}

#[test]
fn zero_seed_is_remapped_to_one() {
    let rng = FastRng::new(0);
    assert_eq!(rng.state, 1);
    let mut a = FastRng::new(0);
    let mut b = FastRng::new(1);
    assert_eq!(a.next_u32(), b.next_u32());
}

#[test]
fn range_zero_is_degenerate() {
    let mut rng = FastRng::new(7);
    let before = rng.state;
    assert_eq!(rng.next_range(0), 0);
    assert_eq!(rng.state, before);
}

#[test]
fn range_draws_stay_below_the_bound() {
    let mut rng = FastRng::new(99);
    for _ in 0..1000 {
        let v = rng.next_range(7);
        assert!(v < 7);
    }
}

#[test]
fn same_seed_same_stream() {
    let mut a = FastRng::new(123456789);
    let mut b = FastRng::new(123456789);
    for _ in 0..100 {
        assert_eq!(a.next_u32(), b.next_u32());
    }
}

#[test]
fn xorshift_walk_matches_by_hand() {
    // 1 -> 8193 after the left-13 stage, unchanged by right-17, 270369 after left-5
    let mut rng = FastRng::new(1);
    let first = rng.next_u32();
    assert_eq!(first, 270369);
    assert_eq!(rng.state, 270369);
}
