use procon_lib::math::sum::{CumSum, CumSum2D, Line};
use procon_lib::traits::math::group::Additive as A;

#[test]
fn check_cumsum() {
    let cumsum = CumSum::from_array(&[A(5), A(4), A(1), A(3), A(2), A(6)]);
    assert_eq!(cumsum.sum(0..6).0, 21);
    assert_eq!(cumsum.sum(0..=5).0, 21);
    assert_eq!(cumsum.sum(..6).0, 21);
    assert_eq!(cumsum.sum(..=5).0, 21);
    assert_eq!(cumsum.sum(0..).0, 21);
    assert_eq!(cumsum.sum(..).0, 21);
    assert_eq!(cumsum.sum(1..2).0, 4);
    assert_eq!(cumsum.sum(1..5).0, 10);
    assert_eq!(cumsum.sum(1..=1).0, 4);
    assert_eq!(cumsum.sum(1..0).0, 0);

    assert_eq!(cumsum.len(), 6);
}

#[test]
fn check_cumsum2d() {
    let cumsum2d = CumSum2D::from_matrix(&vec![
        vec![A(4), A(2), A(3), A(6), A(1)],
        vec![A(5), A(5), A(2), A(1), A(4)],
        vec![A(1), A(2), A(3), A(2), A(2)],
        vec![A(3), A(2), A(1), A(3), A(2)],
    ]);
    assert_eq!(cumsum2d.sum(0..2, 3..4).0, 7);
    assert_eq!(cumsum2d.sum(.., ..).0, 54);
    assert_eq!(cumsum2d.sum(1..3, 2..4).0, 8);
    assert_eq!(cumsum2d.sum(3..2, 3..4).0, 0);
    assert_eq!(cumsum2d.sum(1..2, 4..3).0, 0);

    assert_eq!(cumsum2d.size(), (4, 5));
}

#[test]
fn cumsum_agrees_with_the_direct_sum() {
    let values = [3i64, -7, 12, 0, 5, -1, 8];
    let cumsum = CumSum::from_array(&values.iter().map(|&v| A(v)).collect::<Vec<_>>());
    for a in 0..=values.len() {
        for b in 0..=values.len() {
            let direct: i64 = if a < b { values[a..b].iter().sum() } else { 0 };
            assert_eq!(cumsum.sum(a..b).0, direct);
        }
    }
}

#[test]
fn cumsum_of_nothing() {
    let cumsum = CumSum::<A<i32>>::from_array(&[]);
    assert_eq!(cumsum.len(), 0);
    assert_eq!(cumsum.sum(..).0, 0);
}

#[test]
fn cumsum2d_agrees_with_the_direct_sum() {
    let matrix = vec![vec![4i32, 2, 3, 6, 1], vec![5, 5, 2, 1, 4], vec![1, 2, 3, 2, 2]];
    let wrapped: Vec<Vec<A<i32>>> = matrix.iter().map(|row| row.iter().map(|&v| A(v)).collect()).collect();
    let cumsum = CumSum2D::from_matrix(&wrapped);
    for y1 in 0..=3 {
        for y2 in 0..=3 {
            for x1 in 0..=5 {
                for x2 in 0..=5 {
                    let mut direct = 0;
                    for y in y1..y2 {
                        for x in x1..x2 {
                            direct += matrix[y][x];
                        }
                    }
                    assert_eq!(cumsum.sum(y1..y2, x1..x2).0, direct);
                }
            }
        }
    }
}

#[test]
fn cumsum2d_of_nothing() {
    let cumsum = CumSum2D::<A<i64>>::from_matrix(&[]);
    assert_eq!(cumsum.size(), (0, 0));
    assert_eq!(cumsum.sum(.., ..).0, 0);
}

#[test]
fn check_line() {
    let line = Line::from_slice(&[5, 4, 1, 3, 2, 6]);
    assert_eq!(line.sum(0..6), 21);
    assert_eq!(line.sum(0..=5), 21);
    assert_eq!(line.sum(..6), 21);
    assert_eq!(line.sum(..=5), 21);
    assert_eq!(line.sum(0..), 21);
    assert_eq!(line.sum(..), 21);
    assert_eq!(line.sum(1..2), 4);
    assert_eq!(line.sum(1..5), 10);
    assert_eq!(line.sum(1..=1), 4);
    assert_eq!(line.sum(1..0), 0);
}
