use procon_lib::math::modint::consts::ModintConst;
use procon_lib::math::modint::{Modint, Modint17, ModintInnerType};
use procon_lib::math::sum::CumSum;
use procon_lib::num::{One, Zero};
use procon_lib::traits::math::group::Additive as A;
use std::collections::HashSet;

#[derive(Debug, PartialEq, Eq, PartialOrd, Ord, Hash)]
pub enum MOD5 {}

impl ModintConst for MOD5 {
    const MOD: ModintInnerType = 5;

    fn lemma_modulus() {}
}

#[derive(Debug)]
pub enum MOD1 {}

impl ModintConst for MOD1 {
    const MOD: ModintInnerType = 1;

    fn lemma_modulus() {}
}

type M = Modint<MOD5>;

fn power(base: M, exp: usize) -> M {
    (0..exp).fold(M::one(), |acc, _| acc * base)
}

#[test]
fn math_modint() {
    let mut a = M::new(2);
    let b = M::new(3);

    assert_eq!(a + b, M::new(0));
    assert_eq!(a - b, M::new(4));
    assert_eq!(a * b, M::new(1));
    assert_eq!(a.inv(), M::new(3));
    assert_eq!(b.inv(), M::new(2));
    assert_eq!(a / b, M::new(4));
    assert_eq!(b % a, M::new(1));

    a *= b;
    assert_eq!(a, M::new(1));
    a -= b;
    assert_eq!(a, M::new(3));
    a += b;
    assert_eq!(a, M::new(1));
    a /= b;
    assert_eq!(a, M::new(2));

    assert_eq!(M::sum(&[M::new(1), M::new(2), M::new(3), M::new(4)]), M::new(0));

    assert_eq!(M::product(&[M::new(1), M::new(2), M::new(3), M::new(4)]), M::new(4));

    assert_eq!(power(a, 10), M::new(4));
}

#[test]
fn mod_modint() {
    let mut a = M::new(2);
    let b = M::new(3);

    assert_eq!(a + b, M::new(0));
    assert_eq!(a - b, M::new(4));
    assert_eq!(a * b, M::new(1));
    assert_eq!(a.inv(), M::new(3));
    assert_eq!(b.inv(), M::new(2));
    assert_eq!(a / b, M::new(4));
    assert_eq!(b % a, M::new(1));

    a *= b;
    assert_eq!(a, M::new(1));
    a -= b;
    assert_eq!(a, M::new(3));
    a += b;
    assert_eq!(a, M::new(1));
    a /= b;
    assert_eq!(a, M::new(2));

    assert_eq!(M::sum(&[M::new(1), M::new(2), M::new(3), M::new(4)]), M::new(0));

    assert_eq!(M::product(&[M::new(1), M::new(2), M::new(3), M::new(4)]), M::new(4));

    assert_eq!(power(a, 10), M::new(4));

    let cs = CumSum::from_array(&vec![A(M::new(3)), A(M::new(4)), A(M::new(2))]);
    assert_eq!(cs.sum(1..).0, M::new(1));
    assert_eq!(cs.sum(..2).0, M::new(2));
}

#[test]
fn new_reduces_into_the_range() {
    assert_eq!(M::new(10), M::new(0));
    assert_eq!(M::new(7).inner(), 2);
    assert_eq!(M::new(-1).inner(), 4);
    assert_eq!(M::new(-5).inner(), 0);
    assert_eq!(M::new(-6).inner(), 4);
    assert_eq!(M::new(i64::MAX).inner(), 2);
    assert_eq!(M::new(i64::MIN).inner(), 2);
    assert_eq!(Modint17::new(-1).inner(), 1_000_000_006);
    assert_eq!(Modint17::new(1_000_000_007).inner(), 0);
    assert_eq!(Modint::<MOD1>::new(17).inner(), 0);
    for v in -20..20 {
        let r = M::new(v).inner();
        assert!(0 <= r && r < 5);
        assert_eq!(M::new(r), M::new(v));
    }
}

#[test]
fn negatives_and_inverses_cancel() {
    for v in 0..5 {
        let a = M::new(v);
        assert_eq!(a + (-a), M::zero());
        assert!((a + (-a)).is_zero());
        if v != 0 {
            assert_eq!(a * a.inv(), M::one());
            assert_eq!(a / a, M::one());
        }
    }
    let big = Modint17::new(123_456_789);
    assert_eq!(big * big.inv(), Modint17::one());
    assert_eq!(big.inv().inner(), 18_633_540);
    assert_eq!((Modint17::new(1_000_000_006) * Modint17::new(1_000_000_006)).inner(), 1);
}

#[test]
fn unchecked_values_are_taken_as_they_are() {
    let a = M::new_unchecked(3);
    assert_eq!(a.inner(), 3);
    assert!(a > M::new(2));
    assert!(a < M::new(4));
    assert_eq!(a.clone(), a);
}

#[test]
fn empty_sum_and_product() {
    assert_eq!(M::sum(&[]), M::new(0));
    assert_eq!(M::product(&[]), M::new(1));
}

#[test]
fn order_and_hash_follow_the_residue() {
    let mut values = vec![M::new(9), M::new(-1), M::new(5), M::new(12), M::new(8)];
    values.sort();
    let residues: Vec<i64> = values.iter().map(|v| v.inner()).collect();
    assert_eq!(residues, vec![0, 2, 3, 4, 4]);
    assert_eq!(values.iter().max().unwrap().inner(), 4);
    let distinct: HashSet<M> = values.into_iter().collect();
    assert_eq!(distinct.len(), 4);
    assert!(distinct.contains(&M::new(14)));
    assert!(!distinct.contains(&M::new(1)));
}
