use std::cmp::Ordering;
use std::collections::BTreeSet;
use std::rc::Rc;
use std::sync::Arc;

use rand::Rng;
use zoop_skiplist::order::BorrowKey;
use zoop_skiplist::{Ref, SkipList};

#[test]
fn smoke_test() {
    let mut skiplist = SkipList::new();
    skiplist.insert(2);
    skiplist.insert(1);
    assert_eq!(skiplist.len(), 2);

    assert!(skiplist.contains(&1));
    assert_eq!(*skiplist.get(&1).unwrap(), 1);
    assert!(skiplist.contains(&2));
    assert!(!skiplist.contains(&3));

    skiplist.remove(&1);
    assert!(!skiplist.contains(&1));
    assert_eq!(skiplist.len(), 1);

    skiplist.insert(4);
    assert_eq!(skiplist.len(), 2);

    assert!(!skiplist.contains(&1));
    assert!(skiplist.contains(&2));
    assert!(!skiplist.contains(&3));
    assert!(skiplist.contains(&4));
}

fn elements<T: Ord + Copy>(skiplist: &SkipList<T>) -> Vec<T> {
    let mut iter = skiplist.iter();
    let mut elements = Vec::new();
    while let Some(entry) = iter.next() {
        elements.push(*entry);
    }
    elements
}

#[test]
fn reference_test() {
    // Do a bunch of random inserts/deletes on a SkipList and a BTree map
    // and make sure the map iterators compare equal at each step
    let mut skiplist = SkipList::new();
    let mut btree = BTreeSet::new();
    let mut rng = rand::rng();
    for _ in 0..1000 {
        let op: u8 = rng.random_range(0..3);
        let val: i32 = rng.random_range(0..100);
        match op {
            0 => {
                skiplist.insert(val);
                btree.insert(val);
            }
            1 => {
                skiplist.remove(&val);
                btree.remove(&val);
            }
            2 => {
                let contains_skiplist = skiplist.contains(&val);
                let contains_btree = btree.contains(&val);
                assert_eq!(contains_skiplist, contains_btree);
            }
            _ => unreachable!(),
        }

        let skiplist_elems: Vec<i32> = elements(&skiplist);
        let btree_elems: Vec<i32> = btree.iter().cloned().collect();
        assert_eq!(skiplist_elems, btree_elems);
        assert_eq!(skiplist.len(), skiplist_elems.len());
    }
}

#[derive(Debug)]
struct Pair(i32, i32);

impl PartialEq for Pair {
    fn eq(&self, other: &Self) -> bool {
        self.0 == other.0
    }
}

impl Eq for Pair {}

impl Ord for Pair {
    fn cmp(&self, other: &Self) -> Ordering {
        Ord::cmp(&self.0, &other.0)
    }
}

impl PartialOrd for Pair {
    fn partial_cmp(&self, other: &Self) -> Option<Ordering> {
        Some(self.cmp(other))
    }
}

impl BorrowKey<i32> for Pair {
    fn key(&self) -> &i32 {
        &self.0
    }

    fn borrow_key(&self) -> &i32 {
        &self.0
    }
}

#[test]
fn test_insert_overwrite() {
    // Test that insert() overwrites the existing element when it compares
    // equal to the new element
    let mut skiplist = SkipList::new();
    skiplist.insert(Pair(1, 10));
    assert_eq!(skiplist.get(&1).unwrap().1, 10);
    skiplist.insert(Pair(1, 20));
    assert_eq!(skiplist.get(&1).unwrap().1, 20);
}

#[test]
fn empty_list() {
    let mut skiplist: SkipList<u64> = SkipList::default();
    assert!(skiplist.is_empty());
    assert_eq!(skiplist.len(), 0);
    assert!(skiplist.get(&1).is_none());
    assert!(skiplist.remove(&1).is_none());
    assert!(skiplist.iter().next().is_none());
    skiplist.insert(7);
    assert!(!skiplist.is_empty());
}

#[test]
fn insert_returns_the_new_entry() {
    let mut skiplist = SkipList::new();
    assert_eq!(*skiplist.insert(5), 5);
    let entry: Ref<'_, i32> = skiplist.insert(3);
    assert_eq!(*entry, 3);
    assert_eq!(elements(&skiplist), vec![3, 5]);
}

#[test]
fn remove_returns_the_removed_entry() {
    let mut skiplist = SkipList::new();
    skiplist.insert(Pair(1, 10));
    skiplist.insert(Pair(2, 20));
    assert_eq!(skiplist.remove(&2).unwrap().1, 20);
    assert!(skiplist.remove(&2).is_none());
    assert_eq!(skiplist.len(), 1);
    assert_eq!(skiplist.remove(&1).unwrap().1, 10);
    assert!(skiplist.is_empty());
}

#[test]
fn replacing_keeps_the_length() {
    let mut skiplist = SkipList::new();
    for value in 0..50 {
        skiplist.insert(Pair(value % 10, value));
    }
    assert_eq!(skiplist.len(), 10);
    for key in 0..10 {
        assert_eq!(skiplist.get(&key).unwrap().1, 40 + key);
    }
}

#[test]
fn removing_undoes_inserting() {
    let mut skiplist = SkipList::new();
    for value in [10, 20, 30] {
        skiplist.insert(value);
    }
    skiplist.insert(25);
    assert_eq!(elements(&skiplist), vec![10, 20, 25, 30]);
    skiplist.remove(&25);
    assert_eq!(elements(&skiplist), vec![10, 20, 30]);
    skiplist.remove(&20);
    skiplist.insert(20);
    assert_eq!(elements(&skiplist), vec![10, 20, 30]);
}

#[test]
fn order_of_insertion_does_not_matter() {
    let mut up = SkipList::new();
    let mut down = SkipList::new();
    for value in 0..100 {
        up.insert(value);
        down.insert(99 - value);
    }
    assert_eq!(elements(&up), elements(&down));
    assert_eq!(elements(&up), (0..100).collect::<Vec<i32>>());
}

#[test]
fn boxed_elements_are_found_by_their_contents() {
    let mut skiplist: SkipList<Box<u32>> = SkipList::new();
    skiplist.insert(Box::new(4));
    skiplist.insert(Box::new(2));
    assert_eq!(**skiplist.get::<u32>(&4).unwrap(), 4);
    assert!(skiplist.get::<u32>(&3).is_none());
    assert!(skiplist.remove::<u32>(&2).is_some());
    assert_eq!(skiplist.len(), 1);
}

#[test]
fn shared_elements_are_found_by_their_contents() {
    let mut counted: SkipList<Rc<u32>> = SkipList::new();
    counted.insert(Rc::new(4));
    assert_eq!(**counted.get::<u32>(&4).unwrap(), 4);
    assert!(counted.get::<u32>(&3).is_none());
    assert!(counted.remove::<u32>(&4).is_some());
    let mut shared: SkipList<Arc<u32>> = SkipList::new();
    shared.insert(Arc::new(5));
    assert_eq!(**shared.get::<u32>(&5).unwrap(), 5);
    assert!(shared.remove::<u32>(&4).is_none());
    assert_eq!(shared.len(), 1);
}

#[test]
fn strings_are_found_by_their_characters() {
    let mut skiplist: SkipList<String> = SkipList::new();
    for word in ["plum", "apple", "cherry"] {
        skiplist.insert(word.to_string());
    }
    assert_eq!(*skiplist.get::<str>("apple").unwrap(), "apple");
    assert!(skiplist.get::<str>("appl").is_none());
    assert_eq!(*skiplist.remove::<str>("plum").unwrap(), "plum");
    assert!(skiplist.get::<str>("plum").is_none());
    assert_eq!(skiplist.len(), 2);
}

#[test]
fn arrays_are_found_by_slices() {
    let mut skiplist: SkipList<[u8; 2]> = SkipList::new();
    skiplist.insert([2, 1]);
    skiplist.insert([1, 9]);
    let key: &[u8] = &[1, 9];
    assert_eq!(*skiplist.get::<[u8]>(key).unwrap(), [1, 9]);
    let absent: &[u8] = &[1];
    assert!(skiplist.get::<[u8]>(absent).is_none());
    assert!(skiplist.remove::<[u8]>(key).is_some());
    assert_eq!(skiplist.len(), 1);
}

#[test]
fn vectors_are_found_by_slices() {
    let mut skiplist: SkipList<Vec<u8>> = SkipList::new();
    skiplist.insert(vec![2, 1]);
    skiplist.insert(vec![1, 9, 9]);
    skiplist.insert(vec![]);
    let key: &[u8] = &[2, 1];
    assert_eq!(skiplist.get::<[u8]>(key).unwrap().len(), 2);
    let absent: &[u8] = &[2];
    assert!(skiplist.get::<[u8]>(absent).is_none());
    let mut iter = skiplist.iter();
    assert_eq!(iter.next().unwrap().len(), 0);
    assert_eq!(iter.next().unwrap().len(), 3);
    assert_eq!(iter.next().unwrap().len(), 2);
    assert!(iter.next().is_none());
}

#[test]
fn iteration_goes_up_and_ends() {
    let mut skiplist = SkipList::new();
    for value in [3u8, 1, 2] {
        skiplist.insert(value);
    }
    let mut iter = skiplist.iter();
    assert_eq!(*iter.next().unwrap(), 1);
    assert_eq!(*iter.next().unwrap(), 2);
    assert_eq!(*iter.next().unwrap(), 3);
    assert!(iter.next().is_none());
    assert!(iter.next().is_none());
}

#[test]
fn many_random_elements() {
    let mut skiplist = SkipList::new();
    let mut btree = BTreeSet::new();
    let mut rng = rand::rng();
    for _ in 0..5000 {
        let val: u32 = rng.random_range(0..2000);
        if rng.random_bool(0.6) {
            skiplist.insert(val);
            btree.insert(val);
        } else {
            assert_eq!(skiplist.remove(&val).is_some(), btree.remove(&val));
        }
    }
    assert_eq!(elements(&skiplist), btree.iter().cloned().collect::<Vec<u32>>());
    assert_eq!(skiplist.len(), btree.len());
}
