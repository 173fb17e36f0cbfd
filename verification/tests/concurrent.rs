use std::collections::BTreeMap;

use rand::Rng;
use zoop_skiplist::concurrent::{BusyList, Change, Outcome};
use zoop_skiplist::order::BorrowKey;
use zoop_skiplist::search::Search;
use zoop_skiplist::SkipList;

fn elements(list: &SkipList<u32>) -> Vec<u32> {
    let mut iter = list.iter();
    let mut elements = Vec::new();
    while let Some(entry) = iter.next() {
        elements.push(*entry);
    }
    elements
}

fn busy_with(values: &[u32]) -> BusyList<u32> {
    let mut list = SkipList::new();
    for value in values {
        list.insert(*value);
    }
    BusyList::new(list)
}

fn land(change: &mut Change<u32>, list: &mut BusyList<u32>) {
    while !change.is_landed() {
        assert_eq!(change.step(list), Outcome::Stepped);
    }
}

#[test]
fn change_that_runs_alone_is_decided() {
    let mut list = busy_with(&[10, 30]);
    let at = list.as_list().locate(&20);
    let mut insertion = Change::insert(&mut list, 20, at, 4);
    land(&mut insertion, &mut list);
    assert!(insertion.is_decided());
    assert_eq!(*list.entry(&insertion).unwrap(), 20);
    assert_eq!(insertion.into_element(&list), None);

    let at = list.as_list().locate(&10);
    let mut removal = Change::remove(&mut list, &10, at).unwrap();
    land(&mut removal, &mut list);
    assert!(removal.is_decided());
    assert_eq!(*list.entry(&removal).unwrap(), 10);

    let list = list.into_list();
    assert_eq!(elements(&list), vec![20, 30]);
    assert_eq!(list.len(), 2);
}

#[test]
fn change_at_a_stale_position_is_given_up() {
    let mut list = busy_with(&[10, 30]);
    let at = list.as_list().locate(&20);
    let other = list.as_list().locate(&25);
    let mut first = Change::insert(&mut list, 25, other, 1);
    land(&mut first, &mut list);
    let mut second = Change::insert(&mut list, 20, at, 1);
    land(&mut second, &mut list);
    assert!(!second.is_decided());
    assert!(list.entry(&second).is_none());
    assert_eq!(second.into_element(&list), Some(20));
    assert_eq!(elements(&list.into_list()), vec![10, 25, 30]);
}

#[test]
fn nothing_to_remove_while_busy() {
    let mut list = busy_with(&[10]);
    let absent = list.as_list().locate(&20);
    assert!(Change::remove(&mut list, &20, absent).is_none());
    let at = list.as_list().locate(&10);
    let mut removal = Change::remove(&mut list, &10, at).unwrap();
    land(&mut removal, &mut list);
    assert!(Change::remove(&mut list, &10, at).is_none());
    assert!(list.as_list().is_empty());
}

#[test]
fn second_change_waits_for_the_first() {
    let mut list = busy_with(&[10]);
    let a = list.as_list().locate(&20);
    let b = list.as_list().locate(&30);
    // Both need the lock of the same predecessor
    let mut first = Change::insert(&mut list, 20, a, 1);
    let mut second = Change::insert(&mut list, 30, b, 1);
    assert_eq!(first.step(&mut list), Outcome::Stepped);
    assert_eq!(second.step(&mut list), Outcome::Waiting);
    land(&mut first, &mut list);
    assert_eq!(second.step(&mut list), Outcome::Stepped);
    land(&mut second, &mut list);
    // The predecessor has got another successor meanwhile
    assert!(!second.is_decided());
    assert_eq!(elements(&list.into_list()), vec![10, 20]);
}

#[test]
fn reading_in_the_midst_of_a_change() {
    let mut list = busy_with(&[10, 30]);
    let at = list.as_list().locate(&20);
    let mut change = Change::insert(&mut list, 20, at, 0);
    while !change.is_decided() {
        assert!(list.as_list().get(&20).is_none());
        change.step(&mut list);
    }
    // Nothing points to the new node yet
    assert!(!list.as_list().contains(&20));
    change.step(&mut list);
    // It is linked at the topmost level, and not at the lowest one
    assert!(list.as_list().contains(&20));
    assert_eq!(elements(list.as_list()), vec![10, 30]);
    assert_eq!(list.as_list().len(), 2);
    land(&mut change, &mut list);
    assert_eq!(elements(list.as_list()), vec![10, 20, 30]);
    assert_eq!(list.as_list().len(), 3);
}

#[test]
fn removed_entry_is_seen_while_a_new_one_is_linked_before_it() {
    let mut list = SkipList::new();
    for value in [10, 30] {
        let at = list.locate(&value);
        assert!(list.try_insert(value, &at, 1).is_ok());
    }
    let mut list = BusyList::new(list);
    let at = list.as_list().locate(&20);
    let mut insertion = Change::insert(&mut list, 20, at, 2);
    while !insertion.is_decided() {
        insertion.step(&mut list);
    }
    insertion.step(&mut list);
    // 20 is linked at its upper level only: 30 is found behind it, and removed
    let mut search = list.as_list().search(&30);
    while !search.is_done() {
        search.step(list.as_list(), &30);
    }
    let at = search.finish(list.as_list(), &30);
    let mut removal = Change::remove(&mut list, &30, at).unwrap();
    land(&mut removal, &mut list);
    assert!(removal.is_decided());
    assert!(!list.as_list().contains(&30));
    // 10 still points to 30, until it points to 20
    assert_eq!(elements(list.as_list()), vec![10, 30]);
    land(&mut insertion, &mut list);
    assert_eq!(elements(list.as_list()), vec![10, 20]);
}

#[derive(Clone, Copy, Debug)]
struct Entry(u32, u32);

impl PartialEq for Entry {
    fn eq(&self, other: &Self) -> bool {
        self.0 == other.0
    }
}

impl Eq for Entry {}

impl PartialOrd for Entry {
    fn partial_cmp(&self, other: &Self) -> Option<std::cmp::Ordering> {
        Some(self.cmp(other))
    }
}

impl Ord for Entry {
    fn cmp(&self, other: &Self) -> std::cmp::Ordering {
        self.0.cmp(&other.0)
    }
}

impl BorrowKey<u32> for Entry {
    fn key(&self) -> &u32 {
        &self.0
    }

    fn borrow_key(&self) -> &u32 {
        &self.0
    }
}

/// What a thread is doing.
enum Activity {
    Idle,
    Searching(Entry, bool, Search),
    Changing(Entry, Change<Entry>),
}

/// Runs threads whose steps are interleaved at random, and compares the list with a
/// map to which each change is applied when it is decided.
fn interleave(n_threads: usize, n_keys: u32, n_changes: usize) {
    let mut rng = rand::rng();
    let mut list: BusyList<Entry> = BusyList::new(SkipList::new());
    let mut map: BTreeMap<u32, u32> = BTreeMap::new();
    let mut threads: Vec<Activity> = (0..n_threads).map(|_| Activity::Idle).collect();
    let mut begun = 0;
    let mut waits = 0;
    loop {
        let mut busy = false;
        for thread in threads.iter() {
            if !matches!(thread, Activity::Idle) {
                busy = true;
            }
        }
        if begun >= n_changes && !busy {
            break;
        }
        let who = rng.random_range(0..n_threads);
        let activity = std::mem::replace(&mut threads[who], Activity::Idle);
        threads[who] = match activity {
            Activity::Idle => {
                if begun >= n_changes {
                    Activity::Idle
                } else {
                    begun += 1;
                    let entry = Entry(rng.random_range(0..n_keys), begun as u32);
                    let search = list.as_list().search(&entry.0);
                    Activity::Searching(entry, rng.random_bool(0.5), search)
                }
            }
            Activity::Searching(entry, inserts, mut search) => {
                if !search.is_done() {
                    search.step(list.as_list(), &entry.0);
                    Activity::Searching(entry, inserts, search)
                } else {
                    let at = search.finish(list.as_list(), &entry.0);
                    if inserts {
                        let draw = rng.random::<u32>();
                        Activity::Changing(entry, Change::insert(&mut list, entry, at, draw))
                    } else {
                        match Change::remove(&mut list, &entry.0, at) {
                            Some(change) => Activity::Changing(entry, change),
                            None => Activity::Idle,
                        }
                    }
                }
            }
            Activity::Changing(entry, mut change) => {
                if change.is_landed() {
                    let decided = change.is_decided();
                    if decided {
                        Activity::Idle
                    } else {
                        // The search is repeated
                        let inserts = change.into_element(&list).is_some();
                        let search = list.as_list().search(&entry.0);
                        Activity::Searching(entry, inserts, search)
                    }
                } else {
                    let before = change.is_decided();
                    if change.step(&mut list) == Outcome::Waiting {
                        waits += 1;
                    }
                    if change.is_decided() && !before {
                        let node = *list.entry(&change).unwrap();
                        if node.1 == entry.1 {
                            map.insert(entry.0, entry.1);
                        } else {
                            assert_eq!(map.remove(&entry.0), Some(node.1));
                        }
                    }
                    Activity::Changing(entry, change)
                }
            }
        };
        // Whatever is under way, the elements ascend
        if rng.random_bool(0.01) {
            let mut iter = list.as_list().iter();
            let mut last: Option<u32> = None;
            while let Some(entry) = iter.next() {
                assert!(last.is_none() || last.unwrap() < entry.0);
                last = Some(entry.0);
            }
        }
    }
    println!("{} waits", waits);
    let list = list.into_list();
    assert_eq!(list.len(), map.len());
    let mut iter = list.iter();
    for (key, value) in map.iter() {
        let entry = iter.next().unwrap();
        assert_eq!((entry.0, entry.1), (*key, *value));
        assert_eq!(list.get(key).unwrap().1, *value);
    }
    assert!(iter.next().is_none());
}

#[test]
fn few_keys_interleaved() {
    interleave(8, 5, 3000);
}

#[test]
fn many_keys_interleaved() {
    interleave(8, 100, 3000);
}

#[test]
fn insertions_from_many_threads() {
    // Numbers from 0 to 7999 split across 8 threads, whose steps take turns.
    let n_threads = 8;
    let n_items = 1000;
    let mut rng = rand::rng();
    let mut list: BusyList<usize> = BusyList::new(SkipList::new());
    let mut next: Vec<usize> = (0..n_threads).map(|i| i * n_items).collect();
    let mut changes: Vec<Option<Change<usize>>> = (0..n_threads).map(|_| None).collect();
    let mut left = n_threads * n_items;
    while left > 0 {
        for i in 0..n_threads {
            if let Some(mut change) = changes[i].take() {
                if !change.is_landed() {
                    change.step(&mut list);
                    changes[i] = Some(change);
                } else if change.is_decided() {
                    next[i] += 1;
                    left -= 1;
                }
            } else if next[i] < (i + 1) * n_items {
                let mut search = list.as_list().search(&next[i]);
                while !search.is_done() {
                    search.step(list.as_list(), &next[i]);
                }
                let at = search.finish(list.as_list(), &next[i]);
                changes[i] = Some(Change::insert(&mut list, next[i], at, rng.random::<u32>()));
            }
        }
    }
    let list = list.into_list();
    assert_eq!(list.len(), n_threads * n_items);
    for i in 0..n_threads * n_items {
        assert!(list.contains(&i), "Missing key {}", i);
    }
}
