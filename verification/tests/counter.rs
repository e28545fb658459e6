use procon_lib::collections::counter::Counter;

#[test]
fn counter_slice() {
    let v = vec![1, 2, 3, 3, 6, 4, 5, 2];
    let c = Counter::from_slice(&v);

    assert_eq!(c.get(&1), &1);
    assert_eq!(c.get(&2), &2);
    assert_eq!(c[&3], 2);
    assert_eq!(c[&4], 1);
    assert_eq!(c[&5], 1);
    assert_eq!(c[&6], 1);
    assert_eq!(c[&7], 0);
    assert_eq!(c.get(&8), &0);
    assert_eq!(c.get(&9), &0);
}

#[test]
fn counter_iter() {
    let v = vec![1, 2, 3, 3, 6, 4, 5, 2];
    let c = Counter::from_iter(v);

    assert_eq!(c.get(&1), &1);
    assert_eq!(c.get(&2), &2);
    assert_eq!(c[&3], 2);
    assert_eq!(c[&4], 1);
    assert_eq!(c[&5], 1);
    assert_eq!(c[&6], 1);
    assert_eq!(c[&7], 0);
    assert_eq!(c.get(&8), &0);
    assert_eq!(c.get(&9), &0);
}

#[test]
fn non_integer_slice_deref() {
    let v = vec![
        "hello".to_string(),
        "hello".to_string(),
        "world".to_string(),
    ];
    let c = Counter::from_slice_deref(&v);

    assert_eq!(c.get("hello"), &2);
    assert_eq!(c["hello"], 2);
    assert_eq!(c[&*"world".to_string()], 1);
    assert_eq!(c[&*"rust".to_string()], 0);
}

#[test]
fn non_integer_iter() {
    let v = vec![
        "hello".to_string(),
        "hello".to_string(),
        "world".to_string(),
    ];
    let c = Counter::from_iter(v);

    assert_eq!(c.get("hello"), &2);
    assert_eq!(c["hello"], 2);
    assert_eq!(c[&"world".to_string()], 1);
    assert_eq!(c[&"rust".to_string()], 0);
}

#[test]
fn counter_of_nothing() {
    let c = Counter::<u8>::from_iter(Vec::new());
    assert_eq!(c[&0], 0);
    let c = Counter::<u8>::from_slice(&[]);
    assert_eq!(c[&0], 0);
}

#[test]
fn counts_add_up() {
    let v: Vec<u32> = (0..1000).map(|i| i * i % 7).collect();
    let c = Counter::from_iter(v.clone());
    let total: usize = (0..7).map(|k| c[&k]).sum();
    assert_eq!(total, 1000);
    for k in 0..7 {
        assert_eq!(c[&k], v.iter().filter(|&&x| x == k).count());
    }
}
