use bunch::Bunch;
use std::sync::Arc;

#[test]
fn it_works() {
    let mut p = Bunch::new();

    assert_eq!(p.push(3), &3);

    assert_eq!(p.get(0), &3);
}

#[test]
fn multiple() {
    let mut p = Bunch::new();

    for i in 0..10_000 {
        let r = p.push(i);
        assert_eq!(r, &i);
    }

    for i in 0..10_000 {
        assert_eq!(p.get(i), &i);
    }
}

#[test]
#[should_panic]
fn out_of_bounds_access() {
    let mut bunch = Bunch::new();
    bunch.push("hello");

    bunch.get(1);
}

#[test]
fn new_arena_is_empty() {
    let b: Bunch<u8> = Bunch::new();
    assert_eq!(b.len(), 0);
    let d: Bunch<u8> = Bunch::default();
    assert_eq!(d.len(), 0);
}

#[test]
fn len_counts_pushes() {
    let mut b = Bunch::new();
    for i in 0..100u32 {
        assert_eq!(b.len(), i as usize);
        b.push(i);
    }
    assert_eq!(b.len(), 100);
}

#[test]
fn pushes_across_lane_boundaries() {
    // Lanes hold 2, 4, 8, ... elements, so new lanes begin at 2, 6, 14, 30.
    let mut b = Bunch::new();
    for i in 0..31u64 {
        assert_eq!(*b.push(i * 7), i * 7);
    }
    for &i in &[0usize, 1, 2, 5, 6, 13, 14, 29, 30] {
        assert_eq!(*b.get(i), i as u64 * 7);
    }
}

#[test]
fn earlier_elements_unchanged_by_later_pushes() {
    let mut b = Bunch::new();
    b.push(String::from("first"));
    for i in 0..5_000 {
        b.push(i.to_string());
    }
    assert_eq!(b.get(0), "first");
    assert_eq!(b.get(4_999 + 1), "4999");
}

#[test]
fn dropping_releases_each_element_once() {
    let n = 1_000;
    let arcs: Vec<Arc<usize>> = (0..n).map(Arc::new).collect();
    for a in &arcs {
        assert_eq!(Arc::strong_count(a), 1);
    }
    {
        let mut b = Bunch::new();
        for a in &arcs {
            b.push(a.clone());
        }
        for a in &arcs {
            assert_eq!(Arc::strong_count(a), 2);
        }
        assert_eq!(b.len(), n);
    }
    for a in &arcs {
        assert_eq!(Arc::strong_count(a), 1);
    }
}
