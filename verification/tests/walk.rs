use rand::Rng;
use zoop_skiplist::concurrent::BusyList;
use zoop_skiplist::operation::{Insertion, Removal};
use zoop_skiplist::SkipList;

fn list_of(values: &[u32]) -> SkipList<u32> {
    let mut list = SkipList::new();
    for value in values {
        list.insert(*value);
    }
    list
}

#[test]
fn walk_over_an_unchanged_list() {
    let list = list_of(&[3, 1, 2]);
    let mut cursor = list.cursor();
    assert_eq!(*cursor.next(&list).unwrap(), 1);
    assert_eq!(*cursor.next(&list).unwrap(), 2);
    assert_eq!(*cursor.next(&list).unwrap(), 3);
    assert!(cursor.next(&list).is_none());
    assert!(cursor.next(&list).is_none());
}

#[test]
fn walk_begins_at_what_is_in_the_list() {
    let mut list = list_of(&[1, 2]);
    let mut early = list.cursor();
    list.remove(&1);
    // This walk was directed to 1 before that was removed
    assert_eq!(*early.next(&list).unwrap(), 1);
    assert_eq!(*early.next(&list).unwrap(), 2);
    assert!(early.next(&list).is_none());
    // This one begins after the removal
    let mut late = list.cursor();
    assert_eq!(*late.next(&list).unwrap(), 2);
    assert!(late.next(&list).is_none());
    list.remove(&2);
    assert!(list.cursor().next(&list).is_none());
    list.insert(3);
    assert_eq!(*list.cursor().next(&list).unwrap(), 3);
}

#[test]
fn walk_while_the_list_is_changed() {
    let mut list = list_of(&[10, 20, 30, 40]);
    let mut cursor = list.cursor();
    assert_eq!(*cursor.next(&list).unwrap(), 10);
    // 5 comes too late, 35 in time; 30 goes before the walk is directed to it
    list.insert(5);
    list.insert(35);
    list.remove(&30);
    assert_eq!(*cursor.next(&list).unwrap(), 20);
    assert_eq!(*cursor.next(&list).unwrap(), 35);
    // The walk is directed to 40 already
    list.remove(&40);
    assert_eq!(*cursor.next(&list).unwrap(), 40);
    assert!(cursor.next(&list).is_none());
}

#[test]
fn walk_misses_nothing_that_stays() {
    let mut rng = rand::rng();
    for _ in 0..50 {
        // The even numbers stay; odd ones come and go in steps
        let stay: Vec<u32> = (0..40).map(|i| 2 * i).collect();
        let mut list = BusyList::new(list_of(&stay));
        let mut cursor = list.as_list().cursor();
        let mut insertion: Option<Insertion<u32>> = None;
        let mut removal: Option<(u32, Removal<u32>)> = None;
        let mut seen: Vec<u32> = Vec::new();
        loop {
            for _ in 0..rng.random_range(0..30) {
                let key = 2 * rng.random_range(0..40u32) + 1;
                let mut inserting = match insertion.take() {
                    Some(inserting) => inserting,
                    None => Insertion::new(&list, key),
                };
                inserting.step(&mut list, rng.random::<u32>(), false);
                if !inserting.is_finished() {
                    insertion = Some(inserting);
                }
                let (key, mut removing) = match removal.take() {
                    Some(removing) => removing,
                    None => (key, Removal::new(&list, &key)),
                };
                removing.step(&mut list, &key, false);
                if !removing.is_finished() {
                    removal = Some((key, removing));
                }
            }
            match cursor.next(list.as_list()) {
                Some(entry) => seen.push(*entry),
                None => break,
            }
        }
        assert!(seen.windows(2).all(|pair| pair[0] < pair[1]));
        let even: Vec<u32> = seen.iter().cloned().filter(|value| value % 2 == 0).collect();
        assert_eq!(even, stay);
    }
}
