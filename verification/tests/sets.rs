use dfa_regex::{Finite, OrdMap, OrdSet, Order};

fn set_of(items: &[usize]) -> OrdSet<usize> {
    let mut s = OrdSet::new();
    for x in items {
        s.insert(*x);
    }
    s
}

#[test]
fn insertion_order_does_not_matter() {
    let a = set_of(&[3, 1, 2]);
    let b = set_of(&[2, 3, 1, 1, 3]);
    assert_eq!(a.items, vec![1, 2, 3]);
    assert_eq!(b.items, vec![1, 2, 3]);
    assert_eq!(a.compare(&b), Order::Equal);
}

#[test]
fn insert_reports_new_elements() {
    let mut s = OrdSet::new();
    assert!(s.is_empty());
    assert!(s.insert(5usize));
    assert!(!s.insert(5usize));
    assert!(s.insert(4usize));
    assert_eq!(s.len(), 2);
    assert!(s.contains(&4));
    assert!(!s.contains(&6));
    assert_eq!(*s.get(0), 4);
    assert_eq!(s.locate(&5), (true, 1));
    assert_eq!(s.locate(&6), (false, 2));
    assert_eq!(s.locate(&0), (false, 0));
}

#[test]
fn sets_compare_lexicographically() {
    assert_eq!(set_of(&[]).compare(&set_of(&[0])), Order::Less);
    assert_eq!(set_of(&[1, 2]).compare(&set_of(&[1, 2, 3])), Order::Less);
    assert_eq!(set_of(&[1, 3]).compare(&set_of(&[1, 2, 3])), Order::Greater);
    assert_eq!(set_of(&[0, 9]).compare(&set_of(&[1])), Order::Less);
}

#[test]
fn sets_of_sets_are_canonical() {
    let mut a: OrdSet<OrdSet<usize>> = OrdSet::new();
    a.insert(set_of(&[2, 1]));
    a.insert(set_of(&[]));
    a.insert(set_of(&[1, 2]));
    let mut b: OrdSet<OrdSet<usize>> = OrdSet::new();
    b.insert(set_of(&[1, 2]));
    b.insert(set_of(&[]));
    assert_eq!(a.len(), 2);
    assert_eq!(a.compare(&b), Order::Equal);
    assert_eq!(a.get(0).len(), 0);
}

#[test]
fn base_types_compare_as_expected() {
    assert_eq!(().compare(&()), Order::Equal);
    assert_eq!(false.compare(&true), Order::Less);
    assert_eq!(true.compare(&false), Order::Greater);
    assert_eq!(3usize.compare(&3), Order::Equal);
    assert_eq!(None::<usize>.compare(&Some(0)), Order::Less);
    assert_eq!(Some(1usize).compare(&Some(0)), Order::Greater);
    assert_eq!((1usize,).compare(&(2usize,)), Order::Less);
    assert_eq!((1usize, true).compare(&(1usize, false)), Order::Greater);
    assert_eq!((0usize, true).compare(&(1usize, false)), Order::Less);
    assert_eq!((1usize, false, 2usize).compare(&(1usize, false, 3usize)), Order::Less);
    assert_eq!((1usize, false, 2usize).duplicate(), (1usize, false, 2usize));
}

#[test]
fn from_option_and_singleton() {
    assert_eq!(OrdSet::from_option(Some(7usize)).items, vec![7]);
    assert!(OrdSet::from_option(None::<usize>).is_empty());
    assert_eq!(OrdSet::singleton(true).items, vec![true]);
    assert_eq!(set_of(&[4, 2]).duplicate().items, vec![2, 4]);
}

#[test]
fn map_keeps_keys_in_order_and_overwrites() {
    let mut m: OrdMap<usize, u8> = OrdMap::new();
    assert!(m.is_empty());
    m.insert(5, b'x');
    m.insert(2, b'y');
    m.insert(5, b'z');
    assert_eq!(m.len(), 2);
    assert_eq!(*m.key(0), 2);
    assert_eq!(*m.value(0), b'y');
    assert_eq!(*m.key(1), 5);
    assert_eq!(*m.value(1), b'z');
    assert_eq!(m.get(&5), Some(&b'z'));
    assert_eq!(m.get(&3), None);
    assert!(m.contains_key(&2));
    assert!(!m.contains_key(&3));
}
