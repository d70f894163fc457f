use online_placement::graphs::{IndexErr, Torus};
use online_placement::migration::{CoinFlip, MoveToMin, PageMigration};

#[test]
fn move_to_min_charges_the_access_until_the_buffer_fills() {
    let mut m = MoveToMin::new(Torus::<3>::new(4), 0, 3);
    assert_eq!(m.read(63), Ok(3));
    assert_eq!(m.page(), 0);
    assert_eq!(m.read(42), Ok(6));
    assert_eq!(m.page(), 0);
}

#[test]
fn move_to_min_moves_on_the_dth_request() {
    let mut m = MoveToMin::new(Torus::<3>::new(4), 0, 2);
    assert_eq!(m.read(63), Ok(3));
    assert_eq!(m.read(63), Ok(3 + 2 * 3));
    assert_eq!(m.page(), 63);
    assert_eq!(m.read(63), Ok(0));
    assert_eq!(m.read(63), Ok(0));
    assert_eq!(m.page(), 63);
}

#[test]
fn move_to_min_colocated_requests_cost_nothing() {
    let mut m = MoveToMin::new(Torus::<3>::new(4), 5, 4);
    for _ in 0..4 {
        assert_eq!(m.read(5), Ok(0));
        assert_eq!(m.page(), 5);
    }
    let mut cube = MoveToMin::new(Torus::<6>::new(2), 17, 1);
    assert_eq!(cube.read(17), Ok(0));
    assert_eq!(cube.page(), 17);
}

#[test]
fn move_to_min_breaks_ties_by_the_lowest_index() {
    let mut m = MoveToMin::new(Torus::<1>::new(4), 3, 2);
    assert_eq!(m.read(1), Ok(2));
    assert_eq!(m.find_min(), 1);
    assert_eq!(m.read(2), Ok(1 + 2 * 2));
    assert_eq!(m.page(), 1);

    let mut all_tied = MoveToMin::new(Torus::<1>::new(4), 2, 2);
    assert_eq!(all_tied.read(0), Ok(2));
    assert_eq!(all_tied.read(2), Ok(0 + 2 * 2));
    assert_eq!(all_tied.page(), 0);
}

#[test]
fn move_to_min_with_threshold_one_follows_every_request() {
    let mut m = MoveToMin::new(Torus::<6>::new(2), 0, 1);
    assert_eq!(m.read(0b111), Ok(3 + 3));
    assert_eq!(m.page(), 0b111);
    assert_eq!(m.read(0b110), Ok(1 + 1));
    assert_eq!(m.page(), 0b110);
}

#[test]
fn move_to_min_with_threshold_zero_never_moves() {
    let mut m = MoveToMin::new(Torus::<1>::new(8), 0, 0);
    for _ in 0..5 {
        assert_eq!(m.read(4), Ok(4));
        assert_eq!(m.page(), 0);
    }
}

#[test]
fn move_to_min_rejects_a_source_out_of_range() {
    let mut m = MoveToMin::new(Torus::<3>::new(4), 0, 2);
    assert_eq!(m.read(64), Err(IndexErr::InvalidIndex));
    assert_eq!(m.page(), 0);
    assert_eq!(m.read(1), Ok(1));
    assert_eq!(m.read(1), Ok(1 + 2));
    assert_eq!(m.page(), 1);
}

#[test]
fn move_to_min_with_the_copy_out_of_range_always_fails() {
    let mut m = MoveToMin::new(Torus::<1>::new(4), 9, 1);
    assert_eq!(m.read(0), Err(IndexErr::InvalidIndex));
    assert_eq!(m.read(3), Err(IndexErr::InvalidIndex));
    assert_eq!(m.page(), 9);
}

#[test]
fn migrate_charges_d_times_the_way() {
    let mut m = MoveToMin::new(Torus::<3>::new(4), 0, 7);
    assert_eq!(m.migrate(42), Ok(7 * 6));
    assert_eq!(m.page(), 42);
    assert_eq!(m.migrate(64), Err(IndexErr::InvalidIndex));
    assert_eq!(m.page(), 42);
    let mut c = CoinFlip::new(Torus::<3>::new(4), 0, 7);
    assert_eq!(c.migrate(63), Ok(7 * 3));
    assert_eq!(c.page(), 63);
    assert_eq!(c.migrate(64), Err(IndexErr::InvalidIndex));
    assert_eq!(c.page(), 63);
}

#[test]
fn coin_flip_settles_either_way() {
    let mut c = CoinFlip::new(Torus::<3>::new(4), 0, 5);
    assert_eq!(c.settle(63, false), Ok(3));
    assert_eq!(c.page(), 0);
    assert_eq!(c.settle(63, true), Ok(3 + 5 * 3));
    assert_eq!(c.page(), 63);
    assert_eq!(c.settle(63, true), Ok(0));
    assert_eq!(c.settle(64, true), Err(IndexErr::InvalidIndex));
    assert_eq!(c.page(), 63);
}

#[test]
fn coin_flip_read_stays_or_moves_to_the_source() {
    let mut c = CoinFlip::new(Torus::<6>::new(2), 0, 3);
    for step in 0..2000usize {
        let source = (step * 37 + 11) % 64;
        let before = c.page();
        let way = (before ^ source).count_ones() as usize;
        let cost = c.read(source).unwrap();
        if c.page() == before && before != source {
            assert_eq!(cost, way);
        } else {
            assert_eq!(c.page(), source);
            assert_eq!(cost, way + 3 * way);
        }
    }
    assert_eq!(c.read(64), Err(IndexErr::InvalidIndex));
}

#[test]
fn coin_flip_with_threshold_one_moves_half_the_time() {
    let trials = 20000usize;
    let mut moved = 0usize;
    for _ in 0..trials {
        let mut c = CoinFlip::new(Torus::<1>::new(2), 0, 1);
        let cost = c.read(1).unwrap();
        if c.page() == 1 {
            assert_eq!(cost, 2);
            moved += 1;
        } else {
            assert_eq!(cost, 1);
        }
    }
    let rate = moved as f64 / trials as f64;
    assert!(rate > 0.45 && rate < 0.55);
}

#[test]
fn coin_flip_with_threshold_four_moves_an_eighth_of_the_time() {
    let trials = 40000usize;
    let mut moved = 0usize;
    for _ in 0..trials {
        let mut c = CoinFlip::new(Torus::<1>::new(2), 0, 4);
        c.read(1).unwrap();
        if c.page() == 1 {
            moved += 1;
        }
    }
    let rate = moved as f64 / trials as f64;
    assert!(rate > 0.105 && rate < 0.145);
}

#[test]
fn coin_flip_with_threshold_zero_always_moves_for_free() {
    let mut c = CoinFlip::new(Torus::<3>::new(4), 0, 0);
    assert_eq!(c.read(42), Ok(6));
    assert_eq!(c.page(), 42);
    assert_eq!(c.read(0), Ok(6));
    assert_eq!(c.page(), 0);
}
