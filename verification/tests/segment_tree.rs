use procon_lib::structure::segment_tree::{calc_lenexp2, SegmentTree};
use procon_lib::traits::math::group::Additive;
use procon_lib::traits::math::monoid::{Max, Min};

#[test]
fn segment_tree_1() {
    let mut st = SegmentTree::from_array(&vec![Min((1i64 << 31) - 1); 3]);
    st.update(0, Min(1));
    st.update(1, Min(2));
    st.update(2, Min(3));
    println!("{:?}", st);
    assert_eq!(st.query(0..3).0, 1);
    assert_eq!(st.query(0..=2).0, 1);
    assert_eq!(st.query(1..3).0, 2);
}

#[test]
fn segment_tree_2() {
    let mut st = SegmentTree::from_array(&vec![Min((1i64 << 31) - 1); 1]);
    assert_eq!(st.query(0..1).0, (1i64 << 31) - 1);
    st.update(0, Min(5));
    assert_eq!(st.query(0..1).0, 5);
}

#[test]
fn segment_tree_min_scenario() {
    let mut st = SegmentTree::from_array(&[Min(i64::MAX), Min(i64::MAX), Min(i64::MAX)]);
    st.update(0, Min(1));
    st.update(1, Min(2));
    st.update(2, Min(3));
    assert_eq!(st.query(0..3).0, 1);
    assert_eq!(st.query(1..3).0, 2);
}

#[test]
fn segment_tree_built_from_values() {
    let values: Vec<Additive<i64>> = (1..=6).map(Additive).collect();
    let st = SegmentTree::from_array(&values);
    for i in 0..6 {
        assert_eq!(st.query(i..i + 1).0, values[i].0);
    }
    assert_eq!(st.query(..).0, 21);
    assert_eq!(st.query(0..6).0, 21);
    assert_eq!(st.query(1..4).0, 9);
    assert_eq!(st.query(2..=4).0, 12);
    assert_eq!(st.query(4..).0, 11);
    assert_eq!(st.query(..2).0, 3);
}

#[test]
fn segment_tree_empty_and_inverted_ranges() {
    let st = SegmentTree::from_array(&[Max(4), Max(9), Max(2)]);
    assert_eq!(st.query(2..2).0, i32::MIN);
    assert_eq!(st.query(2..1).0, i32::MIN);
    assert_eq!(st.query(5..7).0, i32::MIN);
    assert_eq!(st.query(1..100).0, 9);
}

#[test]
fn segment_tree_update_leaves_the_rest() {
    let mut st = SegmentTree::from_array(&[Additive(5i32), Additive(4), Additive(1), Additive(3), Additive(2)]);
    st.update(2, Additive(10));
    assert_eq!(st.query(2..3).0, 10);
    assert_eq!(st.query(0..2).0, 9);
    assert_eq!(st.query(3..5).0, 5);
    assert_eq!(st.query(..).0, 24);
}

#[test]
fn segment_tree_without_elements() {
    let st = SegmentTree::<Min<u8>>::from_array(&[]);
    assert_eq!(st.query(..).0, u8::MAX);
}

#[test]
fn capacity_is_the_next_power_of_two() {
    assert_eq!(calc_lenexp2(0), 1);
    assert_eq!(calc_lenexp2(1), 1);
    assert_eq!(calc_lenexp2(2), 2);
    assert_eq!(calc_lenexp2(3), 4);
    assert_eq!(calc_lenexp2(4), 4);
    assert_eq!(calc_lenexp2(5), 8);
    assert_eq!(calc_lenexp2(1000), 1024);
}

#[test]
fn queries_agree_with_the_direct_fold() {
    let mut seed: u64 = 0x9e37_79b9_7f4a_7c15;
    let mut next = move |bound: u64| {
        seed ^= seed << 13;
        seed ^= seed >> 7;
        seed ^= seed << 17;
        seed % bound
    };
    for _ in 0..50 {
        let n = 1 + next(20) as usize;
        let mut values: Vec<i64> = (0..n).map(|_| next(1000) as i64 - 500).collect();
        let mut st = SegmentTree::from_array(&values.iter().map(|&v| Min(v)).collect::<Vec<_>>());
        for _ in 0..30 {
            let i = next(n as u64) as usize;
            let v = next(1000) as i64 - 500;
            values[i] = v;
            st.update(i, Min(v));
            let a = next(n as u64 + 1) as usize;
            let b = next(n as u64 + 1) as usize;
            let direct = if a < b { *values[a..b].iter().min().unwrap() } else { i64::MAX };
            assert_eq!(st.query(a..b).0, direct);
        }
    }
}
