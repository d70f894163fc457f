use online_placement::allocation::{Count, PageAllocation, ACTIVE, COLD, PINNED};
use online_placement::graphs::IndexErr;

#[test]
fn count_starts_with_one_pinned_replica() {
    let c = Count::new(4, 2, 3);
    assert_eq!(c.no_pages(), 1);
    assert!(c.pages.contains(&2));
    assert_eq!(c.states, vec![COLD, COLD, PINNED, COLD]);
    assert_eq!(c.counters, vec![0, 0, 0, 0]);
}

#[test]
fn count_two_writes_and_a_read() {
    let mut c = Count::new(4, 0, 2);
    assert_eq!(c.write(1), Ok(1));
    assert_eq!(c.states, vec![PINNED, COLD, COLD, COLD]);
    assert_eq!(c.counters[1], 1);
    assert_eq!(c.write(1), Ok(1));
    assert_eq!(c.states, vec![COLD, ACTIVE, COLD, COLD]);
    assert_eq!(c.counters[1], 2);
    assert_eq!(c.no_pages(), 1);
    assert!(c.pages.contains(&1));
    assert_eq!(c.read(1), Ok(0));
    assert_eq!(c.write(1), Ok(0));
}

#[test]
fn count_promotes_on_the_dth_read() {
    let d = 5usize;
    let mut c = Count::new(8, 0, d);
    for k in 1..d {
        assert_eq!(c.read(3), Ok(1));
        assert_eq!(c.states[3], COLD);
        assert_eq!(c.counters[3], k);
        assert!(!c.pages.contains(&3));
        assert_eq!(c.no_pages(), 1);
    }
    assert_eq!(c.read(3), Ok(1));
    assert_eq!(c.states[3], ACTIVE);
    assert_eq!(c.counters[3], d);
    assert!(c.pages.contains(&3));
    assert_eq!(c.states[0], COLD);
    assert!(!c.pages.contains(&0));
    assert_eq!(c.no_pages(), 1);
    for _ in 0..3 {
        assert_eq!(c.read(3), Ok(0));
        assert_eq!(c.states[3], ACTIVE);
        assert_eq!(c.counters[3], d);
    }
}

#[test]
fn count_read_of_a_holder_is_free() {
    let mut c = Count::new(4, 1, 2);
    assert_eq!(c.read(1), Ok(0));
    assert_eq!(c.states, vec![COLD, PINNED, COLD, COLD]);
    assert_eq!(c.counters, vec![0, 0, 0, 0]);
}

#[test]
fn count_write_charges_every_other_replica() {
    let mut c = Count::new(4, 0, 1);
    assert_eq!(c.read(1), Ok(1));
    assert_eq!(c.states, vec![COLD, ACTIVE, COLD, COLD]);
    assert_eq!(c.read(2), Ok(1));
    assert_eq!(c.states, vec![COLD, ACTIVE, ACTIVE, COLD]);
    assert_eq!(c.no_pages(), 2);
    assert_eq!(c.write(3), Ok(2));
    assert_eq!(c.states, vec![COLD, COLD, COLD, ACTIVE]);
    assert_eq!(c.counters, vec![0, 0, 0, 1]);
    assert_eq!(c.no_pages(), 1);
    assert_eq!(c.write(3), Ok(0));
}

#[test]
fn count_write_by_a_holder_spares_its_own_replica() {
    let mut c = Count::new(4, 0, 2);
    c.read(1).unwrap();
    c.read(1).unwrap();
    c.read(2).unwrap();
    c.read(2).unwrap();
    assert_eq!(c.states, vec![COLD, ACTIVE, ACTIVE, COLD]);
    assert_eq!(c.write(1), Ok(1));
    assert_eq!(c.counters, vec![0, 2, 1, 0]);
    assert_eq!(c.write(1), Ok(1));
    assert_eq!(c.states, vec![COLD, ACTIVE, COLD, COLD]);
    assert_eq!(c.counters, vec![0, 2, 0, 0]);
    assert_eq!(c.no_pages(), 1);
}

#[test]
fn count_consolidation_keeps_the_last_pinned_replica() {
    let mut c = Count::new(4, 0, 3);
    for _ in 0..3 {
        c.read(1).unwrap();
    }
    for _ in 0..3 {
        c.read(2).unwrap();
    }
    assert_eq!(c.states, vec![COLD, ACTIVE, ACTIVE, COLD]);
    assert_eq!(c.write(0), Ok(2));
    assert_eq!(c.write(3), Ok(2));
    assert_eq!(c.counters, vec![1, 1, 1, 1]);
    assert_eq!(c.write(0), Ok(2));
    assert_eq!(c.states, vec![COLD, COLD, PINNED, COLD]);
    assert_eq!(c.counters, vec![2, 0, 0, 1]);
    assert_eq!(c.no_pages(), 1);
    assert!(c.pages.contains(&2));
}

#[test]
fn count_home_replica_is_shed_once_another_exists() {
    let mut c = Count::new(3, 0, 1);
    assert_eq!(c.read(0), Ok(0));
    assert_eq!(c.read(2), Ok(1));
    assert_eq!(c.states, vec![COLD, COLD, ACTIVE]);
    assert_eq!(c.read(0), Ok(1));
    assert_eq!(c.states, vec![ACTIVE, COLD, ACTIVE]);
}

#[test]
fn count_rejects_a_source_out_of_range() {
    let mut c = Count::new(4, 0, 2);
    assert_eq!(c.read(4), Err(IndexErr::InvalidIndex));
    assert_eq!(c.write(4), Err(IndexErr::InvalidIndex));
    assert_eq!(c.write(usize::MAX), Err(IndexErr::InvalidIndex));
    assert_eq!(c.states, vec![PINNED, COLD, COLD, COLD]);
    assert_eq!(c.counters, vec![0, 0, 0, 0]);
    assert_eq!(c.no_pages(), 1);
}

#[test]
fn count_always_keeps_a_replica() {
    for d in 1..5usize {
        let mut c = Count::new(6, 3, d);
        let mut seed = 12345usize + d;
        for _ in 0..3000 {
            seed = seed.wrapping_mul(6364136223846793005).wrapping_add(1442695040888963407);
            let source = (seed >> 33) % 6;
            let before = c.no_pages();
            let held = c.pages.contains(&source);
            if (seed >> 20) % 3 == 0 {
                let cost = c.write(source).unwrap();
                assert_eq!(cost, if held { before - 1 } else { before });
            } else {
                let cost = c.read(source).unwrap();
                assert_eq!(cost, if held { 0 } else { 1 });
            }
            assert!(c.no_pages() >= 1);
            for i in 0..6 {
                assert_eq!(c.pages.contains(&i), c.states[i] != COLD);
            }
        }
    }
}

#[test]
fn count_with_threshold_zero_never_promotes() {
    let mut c = Count::new(3, 0, 0);
    for k in 1..10usize {
        assert_eq!(c.read(1), Ok(1));
        assert_eq!(c.counters[1], k);
    }
    assert_eq!(c.write(2), Ok(1));
    assert_eq!(c.states, vec![PINNED, COLD, COLD]);
}

#[test]
fn drop_pages_sheds_pinned_replicas_in_order() {
    let mut c = Count::new(4, 0, 2);
    c.states = vec![PINNED, PINNED, COLD, PINNED];
    c.pages.insert(1);
    c.pages.insert(3);
    c.drop_pages();
    assert_eq!(c.states, vec![COLD, COLD, COLD, PINNED]);
    assert_eq!(c.no_pages(), 1);
    assert!(c.pages.contains(&3));
}
