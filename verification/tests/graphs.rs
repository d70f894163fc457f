use online_placement::graphs::{digits_in_base, IndexErr, MetricGraph, Torus};

fn ring(a: usize, b: usize, len: usize) -> usize {
    let k = if a >= b { a - b } else { b - a };
    k.min(len - k)
}

#[test]
fn torus_size_is_length_to_the_dimension() {
    assert_eq!(Torus::<3>::new(4).size(), 64);
    assert_eq!(Torus::<6>::new(2).size(), 64);
    assert_eq!(Torus::<1>::new(10).size(), 10);
    assert_eq!(Torus::<0>::new(7).size(), 1);
    assert_eq!(Torus::<2>::new(0).size(), 0);
    assert_eq!(Torus::<3>::new(4).length(), 4);
}

#[test]
fn torus_distance_sums_ring_distances_of_digits() {
    let t = Torus::<3>::new(4);
    assert_eq!(t.distance(0, 63), Ok(3));
    assert_eq!(t.distance(0, 42), Ok(6));
    assert_eq!(t.distance(0, 1), Ok(1));
    assert_eq!(t.distance(0, 16), Ok(1));
    assert_eq!(t.distance(5, 5), Ok(0));
    assert_eq!(t.distance(21, 63), Ok(6));
    assert_eq!(t.distance(27, 2), Ok(4));
}

#[test]
fn torus_rejects_addresses_out_of_range() {
    let t = Torus::<3>::new(4);
    assert_eq!(t.distance(64, 0), Err(IndexErr::InvalidIndex));
    assert_eq!(t.distance(0, 64), Err(IndexErr::InvalidIndex));
    assert_eq!(t.distance(usize::MAX, usize::MAX), Err(IndexErr::InvalidIndex));
    assert_eq!(t.distance(63, 63), Ok(0));
    let empty = Torus::<2>::new(0);
    assert_eq!(empty.distance(0, 0), Err(IndexErr::InvalidIndex));
    let point = Torus::<0>::new(0);
    assert_eq!(point.distance(0, 0), Ok(0));
    assert_eq!(point.distance(0, 1), Err(IndexErr::InvalidIndex));
}

#[test]
fn torus_distance_is_a_metric() {
    let t = Torus::<2>::new(5);
    let n = t.size();
    assert_eq!(n, 25);
    for x in 0..n {
        assert_eq!(t.distance(x, x), Ok(0));
        for y in 0..n {
            let xy = t.distance(x, y).unwrap();
            assert_eq!(xy, t.distance(y, x).unwrap());
            assert_eq!(xy == 0, x == y);
            assert!(xy <= 2 * (5 / 2));
            for z in 0..n {
                assert!(xy <= t.distance(x, z).unwrap() + t.distance(z, y).unwrap());
            }
        }
    }
}

#[test]
fn hypercube_distance_is_hamming_distance() {
    let cube = Torus::<6>::new(2);
    for x in 0..64usize {
        for y in 0..64usize {
            assert_eq!(cube.distance(x, y), Ok((x ^ y).count_ones() as usize));
        }
    }
    assert_eq!(cube.distance(0b101010, 0b010101), Ok(6));
    assert_eq!(cube.distance(0b111000, 0b110000), Ok(1));
}

#[test]
fn one_axis_torus_is_a_ring() {
    let t = Torus::<1>::new(10);
    for x in 0..10usize {
        for y in 0..10usize {
            assert_eq!(t.distance(x, y), Ok(ring(x, y, 10)));
        }
    }
    assert_eq!(t.distance(1, 9), Ok(2));
    assert_eq!(t.distance(0, 5), Ok(5));
    assert_eq!(t.distance(2, 6), Ok(4));
}

#[test]
fn torus_with_a_long_side() {
    let t = Torus::<1>::new(usize::MAX);
    assert_eq!(t.size(), usize::MAX);
    assert_eq!(t.distance(0, usize::MAX - 1), Ok(1));
    assert_eq!(t.distance(usize::MAX - 1, 0), Ok(1));
    assert_eq!(t.distance(0, usize::MAX / 2), Ok(usize::MAX / 2));
}

#[test]
fn digits_come_most_significant_first() {
    assert_eq!(digits_in_base(27, 4, 3), vec![1, 2, 3]);
    assert_eq!(digits_in_base(5, 2, 6), vec![0, 0, 0, 1, 0, 1]);
    assert_eq!(digits_in_base(70, 4, 3), vec![0, 1, 2]);
    assert_eq!(digits_in_base(0, 10, 2), vec![0, 0]);
    assert_eq!(digits_in_base(9, 10, 1), vec![9]);
    assert_eq!(digits_in_base(12345, 10, 5), vec![1, 2, 3, 4, 5]);
    assert_eq!(digits_in_base(12345, 7, 0), Vec::<usize>::new());
    assert_eq!(digits_in_base(9, 0, 0), Vec::<usize>::new());
}
