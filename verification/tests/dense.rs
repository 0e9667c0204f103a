use airlock::dense::{DenseMap, DenseSet, PairMap, PairSet};
use airlock::graph::reach;

#[test]
fn a_set_holds_what_was_inserted() {
    let mut set = DenseSet::new();
    assert!(set.is_empty());
    assert!(set.insert(7));
    assert!(!set.insert(7));
    assert!(set.contains(7) && !set.contains(6) && !set.contains(100));
    let mut other = set.clone();
    other.insert(2);
    set.extend(&other);
    assert_eq!(set.len(), 2);
}

#[test]
fn a_map_holds_the_last_value() {
    let mut map: DenseMap<&str> = DenseMap::new();
    map.insert(3, "old");
    map.insert(3, "new");
    map.insert(0, "zero");
    assert_eq!(map.get(3), Some(&"new"));
    assert_eq!(map.get(2), None);
    assert_eq!(map.len(), 2);
    assert_eq!(map.remove(3), Some("new"));
    assert_eq!(map.remove(3), None);
    assert!(!map.contains_key(3));
    assert_eq!(map.len(), 1);
}

#[test]
fn pairs_are_kept_by_row() {
    let mut pairs = PairSet::new();
    assert!(pairs.is_empty());
    assert!(pairs.insert(2, 5));
    assert!(!pairs.insert(2, 5));
    assert!(pairs.insert(2, 0));
    assert!(pairs.contains(2, 5) && !pairs.contains(5, 2));
    assert_eq!(pairs.row(2).len(), 2);
    assert!(pairs.row(9).is_empty());
    let mut more = PairSet::new();
    more.extend(&pairs);
    more.insert(0, 0);
    assert_eq!(more.len(), 3);

    let mut map: PairMap<char> = PairMap::new();
    map.insert(1, 1, 'a');
    map.insert(1, 1, 'b');
    assert_eq!(map.get(1, 1), Some(&'b'));
    assert_eq!(map.get(1, 0), None);
}

#[test]
fn reachability_follows_edges_and_cycles() {
    let lists = vec![vec![1], vec![2, 0], vec![], vec![2]];
    let mut starts = DenseSet::new();
    starts.insert(0);
    let seen = reach(&lists, &starts);
    assert!(seen.contains(0) && seen.contains(1) && seen.contains(2));
    assert!(!seen.contains(3));
    assert!(reach(&lists, &DenseSet::new()).is_empty());
}
