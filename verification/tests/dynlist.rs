use online_placement::dynlist::{Dynlist, FCList, MTFList, SimpleList, TPList};

fn costs<L: Dynlist<u32>>(list: &mut L, items: &[u32]) -> Vec<usize> {
    items.iter().map(|&t| list.access(t)).collect()
}

#[test]
fn simple_list_keeps_the_order_of_arrival() {
    let mut l = SimpleList::new();
    assert_eq!(costs(&mut l, &[5, 6, 7, 7, 5, 6, 8, 8]), vec![1, 2, 3, 3, 1, 2, 4, 4]);
}

#[test]
fn mtf_list_moves_a_found_item_to_the_front() {
    let mut l = MTFList::new();
    assert_eq!(costs(&mut l, &[5, 6, 7, 7, 7, 5, 6, 8, 5]), vec![1, 2, 3, 3, 1, 2, 3, 4, 2]);
}

#[test]
fn tp_list_moves_a_found_item_one_place_forward() {
    let mut l = TPList::new();
    assert_eq!(costs(&mut l, &[5, 6, 7, 7, 7, 7, 5, 6]), vec![1, 2, 3, 3, 2, 1, 2, 3]);
}

#[test]
fn fc_list_orders_by_the_number_of_accesses() {
    let mut l = FCList::new();
    assert_eq!(costs(&mut l, &[5, 6, 7, 7, 7, 6, 6, 6, 5]), vec![1, 2, 3, 3, 1, 3, 2, 2, 3]);
}

#[test]
fn lists_of_strings() {
    let mut l = MTFList::new();
    assert_eq!(l.access(String::from("a")), 1);
    assert_eq!(l.access(String::from("b")), 2);
    assert_eq!(l.access(String::from("b")), 2);
    assert_eq!(l.access(String::from("b")), 1);
    assert_eq!(l.access(String::from("a")), 2);
}
