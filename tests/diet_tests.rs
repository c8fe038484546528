use diet::{Diet, Segment};

fn segments_of(diet: Diet) -> Vec<Segment> {
    let mut iter = diet.into_iter();
    let mut v = Vec::new();
    while let Some(s) = iter.next() {
        v.push(s);
    }
    v
}

fn bounds_of(diet: Diet) -> Vec<(i32, i32)> {
    segments_of(diet).iter().map(|s| (*s.left(), *s.right())).collect()
}

#[test]
fn test_consuming_iterator() {
    let mut diet = Diet::new();
    diet.insert(Segment::new(5, 15));
    diet.insert(Segment::new(20, 40));
    diet.insert(Segment::new(100, 200));
    diet.insert(Segment::new(10, 25));
    let v: Vec<Segment> = segments_of(diet);
    assert_eq!(vec![Segment::new(5, 40), Segment::new(100, 200)], v);
}

#[test]
fn insert_then_contains() {
    let mut diet = Diet::new();
    diet.insert(Segment::new(5, 9));
    assert!(diet.contains(&5));
    assert!(!diet.contains(&4));
    diet.insert(Segment::new(-5, 7));
    assert!(diet.contains(&4));
    assert!(diet.contains(&9));
    assert!(!diet.contains(&10));
    assert!(!diet.contains(&-6));
    assert_eq!(bounds_of(diet), vec![(-5, 9)]);
}

#[test]
fn single_value_segment() {
    let s = Segment::new(5, 5);
    assert!(s.contains(&5));
    assert!(!s.contains(&4));
    assert!(!s.contains(&6));
    assert_eq!(*s.left(), 5);
    assert_eq!(*s.right(), 5);
}

#[test]
fn segment_contains_bounds() {
    let s = Segment::new(1, 5);
    assert!(s.contains(&1));
    assert!(s.contains(&5));
    assert!(!s.contains(&0));
    assert!(!s.contains(&6));
    assert_eq!(*s.left(), 1);
    assert_eq!(*s.right(), 5);
}

#[test]
fn empty_set() {
    let diet = Diet::new();
    assert!(diet.is_empty());
    assert!(!diet.contains(&0));
    assert!(segments_of(diet).is_empty());
}

#[test]
fn clear_behaves_as_new() {
    let mut diet = Diet::new();
    diet.insert(Segment::new(1, 3));
    diet.insert(Segment::new(10, 30));
    assert!(!diet.is_empty());
    diet.clear();
    assert!(diet.is_empty());
    assert!(!diet.contains(&2));
    assert!(!diet.contains(&20));
    assert!(segments_of(diet).is_empty());
}

#[test]
fn covered_insert_changes_nothing() {
    let mut diet = Diet::new();
    diet.insert(Segment::new(0, 10));
    diet.insert(Segment::new(20, 30));
    diet.insert(Segment::new(3, 7));
    diet.insert(Segment::new(20, 30));
    diet.insert(Segment::new(30, 30));
    assert!(!diet.contains(&11));
    assert!(!diet.contains(&19));
    assert_eq!(bounds_of(diet), vec![(0, 10), (20, 30)]);
}

#[test]
fn insertion_order_does_not_matter() {
    let segs = [(5, 15), (20, 40), (100, 200), (10, 25), (-3, 2), (42, 50), (202, 210)];
    let mut forward = Diet::new();
    for &(l, r) in segs.iter() {
        forward.insert(Segment::new(l, r));
    }
    let mut backward = Diet::new();
    for &(l, r) in segs.iter().rev() {
        backward.insert(Segment::new(l, r));
    }
    for v in -10..220 {
        assert_eq!(forward.contains(&v), backward.contains(&v));
    }
    let expected = vec![(-3, 2), (5, 40), (42, 50), (100, 200), (202, 210)];
    assert_eq!(bounds_of(forward), expected);
    assert_eq!(bounds_of(backward), expected);
}

#[test]
fn adjacent_segments_merge() {
    let mut diet = Diet::new();
    diet.insert(Segment::new(10, 20));
    diet.insert(Segment::new(21, 25));
    diet.insert(Segment::new(5, 9));
    assert_eq!(bounds_of(diet), vec![(5, 25)]);
}

#[test]
fn overlapping_segments_merge() {
    let mut diet = Diet::new();
    diet.insert(Segment::new(10, 20));
    diet.insert(Segment::new(15, 30));
    diet.insert(Segment::new(0, 12));
    assert_eq!(bounds_of(diet), vec![(0, 30)]);
}

#[test]
fn bridging_segment_merges_three() {
    let mut diet = Diet::new();
    diet.insert(Segment::new(0, 5));
    diet.insert(Segment::new(10, 15));
    diet.insert(Segment::new(6, 9));
    assert_eq!(bounds_of(diet), vec![(0, 15)]);
}

#[test]
fn wide_segment_absorbs_several() {
    let mut diet = Diet::new();
    diet.insert(Segment::new(50, 60));
    diet.insert(Segment::new(20, 25));
    diet.insert(Segment::new(80, 85));
    diet.insert(Segment::new(10, 12));
    diet.insert(Segment::new(30, 32));
    diet.insert(Segment::new(70, 72));
    diet.insert(Segment::new(90, 95));
    diet.insert(Segment::new(1, 2));
    diet.insert(Segment::new(11, 91));
    assert!(diet.contains(&40));
    assert!(!diet.contains(&9));
    assert_eq!(bounds_of(diet), vec![(1, 2), (10, 95)]);
}

#[test]
fn gap_of_one_keeps_segments_apart() {
    let mut diet = Diet::new();
    diet.insert(Segment::new(0, 4));
    diet.insert(Segment::new(6, 10));
    diet.insert(Segment::new(12, 12));
    assert!(!diet.contains(&5));
    assert!(!diet.contains(&11));
    assert_eq!(bounds_of(diet), vec![(0, 4), (6, 10), (12, 12)]);
}

#[test]
fn iteration_is_ascending_and_gapped() {
    let mut diet = Diet::new();
    let mut x: i32 = 7;
    for _ in 0..200 {
        x = (x * 37 + 11) % 1000;
        let len = x % 5;
        diet.insert(Segment::new(x, x + len));
    }
    let b = bounds_of(diet);
    for w in b.windows(2) {
        assert!(w[0].0 <= w[0].1);
        assert!(w[0].1 + 1 < w[1].0);
    }
}

#[test]
fn extreme_values() {
    let mut diet = Diet::new();
    diet.insert(Segment::new(i32::MAX, i32::MAX));
    diet.insert(Segment::new(i32::MIN, i32::MIN));
    diet.insert(Segment::new(i32::MIN + 1, 0));
    diet.insert(Segment::new(1, i32::MAX - 1));
    assert!(diet.contains(&i32::MIN));
    assert!(diet.contains(&i32::MAX));
    assert_eq!(bounds_of(diet), vec![(i32::MIN, i32::MAX)]);
}

#[test]
fn default_is_empty() {
    let diet: Diet = Default::default();
    assert!(diet.is_empty());
    assert!(!diet.contains(&0));
}
