use online_placement::paging::{position, CacheStrategy, FIFO, FWF, LFU, LRU, RAND, RMA};

fn costs<C: CacheStrategy<usize>>(cache: &mut C, pages: &[usize]) -> Vec<usize> {
    pages.iter().map(|&p| cache.access(p)).collect()
}

#[test]
fn position_finds_the_first_slot() {
    let v = vec![4, 7, 4, 9];
    assert_eq!(position(&v, 4), Some(0));
    assert_eq!(position(&v, 9), Some(3));
    assert_eq!(position(&v, 5), None);
    assert_eq!(position(&Vec::new(), 0), None);
}

#[test]
fn empty_slots_hold_page_zero() {
    assert_eq!(FIFO::new(2).access(0), 0);
    assert_eq!(FWF::new(2).access(0), 0);
    assert_eq!(LRU::new(2).access(0), 0);
    assert_eq!(LFU::new(2).access(0), 0);
    assert_eq!(RAND::new(2).access(0), 0);
    assert_eq!(RMA::new(2).access(0), 0);
}

#[test]
fn fifo_evicts_in_the_order_of_arrival() {
    let mut c = FIFO::new(3);
    assert_eq!(costs(&mut c, &[1, 2, 3, 1, 4, 1, 2, 5, 3]), vec![1, 1, 1, 0, 1, 1, 1, 1, 1]);
    let mut d = FIFO::new(2);
    assert_eq!(costs(&mut d, &[1, 2, 1, 3, 1, 2]), vec![1, 1, 0, 1, 1, 1]);
}

#[test]
fn fwf_flushes_when_full() {
    let mut c = FWF::new(3);
    assert_eq!(costs(&mut c, &[1, 2, 3, 1, 4, 1, 2, 3, 4]), vec![1, 1, 1, 0, 1, 1, 1, 1, 1]);
    let mut d = FWF::new(2);
    assert_eq!(costs(&mut d, &[1, 2, 3, 2, 3, 0]), vec![1, 1, 1, 1, 0, 1]);
}

#[test]
fn lru_evicts_the_least_recently_used() {
    let mut c = LRU::new(3);
    assert_eq!(costs(&mut c, &[1, 2, 3, 1, 4, 2, 1, 3]), vec![1, 1, 1, 0, 1, 1, 0, 1]);
    let mut d = LRU::new(1);
    assert_eq!(costs(&mut d, &[5, 5, 6, 5]), vec![1, 0, 1, 1]);
}

#[test]
fn lfu_evicts_the_least_frequently_used() {
    let mut c = LFU::new(2);
    assert_eq!(costs(&mut c, &[1, 1, 2, 3, 1, 2, 3, 3, 3, 1]), vec![1, 0, 1, 1, 0, 1, 1, 0, 0, 0]);
    let mut d = LFU::new(2);
    assert_eq!(costs(&mut d, &[100, 7, 100]), vec![1, 1, 0]);
}

#[test]
fn rand_fills_then_overwrites_one_slot() {
    let mut c = RAND::new(3);
    assert_eq!(costs(&mut c, &[1, 2, 3, 1, 2, 3]), vec![1, 1, 1, 0, 0, 0]);
    for page in 4..200usize {
        assert_eq!(c.access(page), 1);
        assert_eq!(c.access(page), 0);
    }
    let mut kept = 0;
    for page in 1..4usize {
        if c.access(page) == 0 {
            kept += 1;
        }
    }
    assert!(kept <= 2);
}

#[test]
fn rand_access_at_overwrites_the_given_slot() {
    let mut c = RAND::new(3);
    assert_eq!(c.access_at(1, 0), 1);
    assert_eq!(c.access_at(2, 0), 1);
    assert_eq!(c.access_at(3, 0), 1);
    assert_eq!(c.access_at(4, 1), 1);
    assert_eq!(c.access_at(2, 1), 1);
    assert_eq!(c.access_at(1, 0), 0);
    assert_eq!(c.access_at(3, 0), 0);
    assert_eq!(c.access_at(4, 0), 1);
    assert_eq!(c.access_at(1, 0), 1);
}

#[test]
fn rma_access_at_overwrites_the_ranked_unmarked_slot() {
    let mut c = RMA::new(3);
    assert_eq!(c.access_at(1, 2), 1);
    assert_eq!(c.access_at(2, 0), 1);
    assert_eq!(c.access_at(0, 0), 0);
    assert_eq!(c.access_at(1, 0), 0);
    assert_eq!(c.access_at(3, 1), 1);
    assert_eq!(c.access_at(2, 0), 0);
    assert_eq!(c.access_at(3, 0), 0);
    assert_eq!(c.access_at(0, 0), 1);
    assert_eq!(c.access_at(1, 0), 1);
    assert_eq!(c.access_at(3, 0), 0);
    assert_eq!(c.access_at(2, 0), 1);
    assert_eq!(c.access_at(0, 0), 1);
    assert_eq!(c.access_at(1, 0), 1);
    assert_eq!(c.access_at(2, 0), 0);
    assert_eq!(c.access_at(3, 0), 1);
}

#[test]
fn rma_never_evicts_a_marked_page() {
    let mut c = RMA::new(4);
    for round in 0..200usize {
        let page = 10 + round;
        assert_eq!(c.access(page), 1);
        assert_eq!(c.access(page), 0);
    }
    let mut c = RMA::new(2);
    assert_eq!(c.access(1), 1);
    assert_eq!(c.access(2), 1);
    assert_eq!(c.access(1), 0);
    assert_eq!(c.access(2), 0);
    assert_eq!(c.access(3), 1);
    assert_eq!(c.access(3), 0);
}
