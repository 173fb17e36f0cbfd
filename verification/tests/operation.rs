use std::collections::BTreeSet;

use rand::Rng;
use zoop_skiplist::concurrent::{BusyList, Change, Outcome};
use zoop_skiplist::operation::{Insertion, Patience, Removal};
use zoop_skiplist::spinlock::{Pause, SPIN_LIMIT};
use zoop_skiplist::SkipList;

fn busy_with(values: &[u32]) -> BusyList<u32> {
    let mut list = SkipList::new();
    for value in values {
        list.insert(*value);
    }
    BusyList::new(list)
}

fn elements(list: &SkipList<u32>) -> Vec<u32> {
    let mut iter = list.iter();
    let mut elements = Vec::new();
    while let Some(entry) = iter.next() {
        elements.push(*entry);
    }
    elements
}

fn finish_insertion(insertion: &mut Insertion<u32>, list: &mut BusyList<u32>) {
    while !insertion.is_finished() {
        assert_eq!(insertion.step(list, 1, false), Outcome::Stepped);
    }
}

fn finish_removal(removal: &mut Removal<u32>, list: &mut BusyList<u32>, key: u32) {
    while !removal.is_finished() {
        assert_eq!(removal.step(list, &key, false), Outcome::Stepped);
    }
}

#[test]
fn insertion_and_removal_alone() {
    let mut list = busy_with(&[10, 30]);
    let mut insertion = Insertion::new(&list, 20);
    assert!(insertion.change().is_none());
    finish_insertion(&mut insertion, &mut list);
    assert_eq!(*list.entry(insertion.change().unwrap()).unwrap(), 20);

    let mut removal = Removal::new(&list, &10);
    finish_removal(&mut removal, &mut list, 10);
    assert_eq!(*list.entry(removal.change().unwrap()).unwrap(), 10);

    let mut vain = Removal::new(&list, &15);
    finish_removal(&mut vain, &mut list, 15);
    assert!(vain.change().is_none());
    assert_eq!(elements(&list.into_list()), vec![20, 30]);
}

#[test]
fn stale_position_is_searched_again() {
    let mut list = busy_with(&[10, 30]);
    let mut insertion = Insertion::new(&list, 20);
    while insertion.change().is_none() {
        insertion.step(&mut list, 0, false);
    }
    // The place between 10 and 30 is taken before the change has its locks
    let mut other = Insertion::new(&list, 25);
    finish_insertion(&mut other, &mut list);
    let mut searches = 1;
    while !insertion.is_finished() {
        let searching = insertion.change().is_none();
        assert_eq!(insertion.step(&mut list, 0, false), Outcome::Stepped);
        if !searching && insertion.change().is_none() {
            searches += 1;
        }
    }
    assert_eq!(searches, 2);
    assert_eq!(elements(&list.into_list()), vec![10, 20, 25, 30]);
}

#[test]
fn tired_insertion_lets_go() {
    let mut list = busy_with(&[]);
    // Both need the lock of the head
    let mut first = Insertion::new(&list, 1);
    while first.change().is_none() {
        first.step(&mut list, 1, false);
    }
    let mut second = Insertion::new(&list, 2);
    while second.change().is_none() {
        second.step(&mut list, 1, false);
    }
    assert_eq!(first.step(&mut list, 1, false), Outcome::Stepped);
    assert_eq!(second.step(&mut list, 1, false), Outcome::Waiting);
    assert_eq!(second.step(&mut list, 1, false), Outcome::Waiting);
    assert_eq!(second.step(&mut list, 1, true), Outcome::Stepped);
    // It has given up, and searches again
    while second.change().is_some() {
        assert_eq!(second.step(&mut list, 1, false), Outcome::Stepped);
        assert!(!second.is_finished());
    }
    finish_insertion(&mut first, &mut list);
    finish_insertion(&mut second, &mut list);
    assert_eq!(elements(&list.into_list()), vec![1, 2]);
}

#[test]
fn tired_removal_lets_go() {
    let mut list = busy_with(&[10]);
    let mut first = Removal::new(&list, &10);
    while first.change().is_none() {
        first.step(&mut list, &10, false);
    }
    let mut second = Removal::new(&list, &10);
    while second.change().is_none() {
        second.step(&mut list, &10, false);
    }
    first.step(&mut list, &10, false);
    assert_eq!(second.step(&mut list, &10, false), Outcome::Waiting);
    assert_eq!(second.step(&mut list, &10, true), Outcome::Stepped);
    finish_removal(&mut first, &mut list, 10);
    finish_removal(&mut second, &mut list, 10);
    // One of the two took the entry
    assert!(first.change().is_some());
    assert!(second.change().is_none());
    assert!(list.as_list().is_empty());
}

#[test]
fn change_that_lets_go_holds_nothing() {
    let mut list = busy_with(&[10]);
    let a = list.as_list().locate(&20);
    let b = list.as_list().locate(&30);
    let mut first = Change::insert(&mut list, 20, a, 1);
    let mut second = Change::insert(&mut list, 30, b, 1);
    first.step(&mut list);
    assert_eq!(second.step(&mut list), Outcome::Waiting);
    second.let_go(&mut list);
    while !second.is_landed() {
        assert_eq!(second.step(&mut list), Outcome::Stepped);
    }
    assert!(!second.is_decided());
    assert_eq!(second.into_element(&list), Some(30));
    while !first.is_landed() {
        assert_eq!(first.step(&mut list), Outcome::Stepped);
    }
    assert!(first.is_decided());
    assert_eq!(elements(&list.into_list()), vec![10, 20]);
}

#[test]
fn patience_ends() {
    let mut patience = Patience::new();
    assert_eq!(patience.heed(Outcome::Waiting), Pause::Go);
    assert_eq!(patience.heed(Outcome::Waiting), Pause::Spin);
    for _ in 2..64 {
        assert_eq!(patience.heed(Outcome::Waiting), Pause::Spin);
    }
    assert_eq!(patience.heed(Outcome::Waiting), Pause::Yield);
    assert_eq!(patience.heed(Outcome::Stepped), Pause::Go);
    for _ in 0..SPIN_LIMIT {
        assert!(!patience.is_tired());
        patience.heed(Outcome::Waiting);
    }
    assert!(patience.is_tired());
    assert_eq!(patience.heed(Outcome::Waiting), Pause::Go);
    assert!(patience.is_tired());
    patience.heed(Outcome::Stepped);
    assert!(!patience.is_tired());
}

/// What a thread is doing.
enum Activity {
    Idle,
    Inserting(u32, Insertion<u32>),
    Removing(u32, Removal<u32>),
}

#[test]
fn operations_interleaved() {
    let n_threads = 6;
    let n_operations = 3000;
    let mut rng = rand::rng();
    let mut list = busy_with(&[]);
    let mut inserted: BTreeSet<u32> = BTreeSet::new();
    let mut threads: Vec<Activity> = (0..n_threads).map(|_| Activity::Idle).collect();
    let mut begun = 0;
    let mut idle = 0;
    while begun < n_operations || idle < n_threads {
        let who = rng.random_range(0..n_threads);
        let activity = std::mem::replace(&mut threads[who], Activity::Idle);
        let tired = rng.random_bool(0.05);
        threads[who] = match activity {
            Activity::Idle => {
                if begun >= n_operations {
                    Activity::Idle
                } else {
                    begun += 1;
                    let key = rng.random_range(0..8);
                    if rng.random_bool(0.5) {
                        Activity::Inserting(key, Insertion::new(&list, key))
                    } else {
                        Activity::Removing(key, Removal::new(&list, &key))
                    }
                }
            }
            Activity::Inserting(key, mut insertion) => {
                insertion.step(&mut list, rng.random::<u32>(), tired);
                if insertion.is_finished() {
                    assert_eq!(*list.entry(insertion.change().unwrap()).unwrap(), key);
                    inserted.insert(key);
                    Activity::Idle
                } else {
                    Activity::Inserting(key, insertion)
                }
            }
            Activity::Removing(key, mut removal) => {
                removal.step(&mut list, &key, tired);
                if removal.is_finished() {
                    if let Some(change) = removal.change() {
                        assert_eq!(*list.entry(change).unwrap(), key);
                    }
                    Activity::Idle
                } else {
                    Activity::Removing(key, removal)
                }
            }
        };
        idle = threads.iter().filter(|thread| matches!(thread, Activity::Idle)).count();
    }
    let list = list.into_list();
    assert_eq!(elements(&list).len(), list.len());
    // Nothing is in the list that was not inserted
    for key in elements(&list) {
        assert!(inserted.contains(&key));
    }
}

#[test]
fn overlapping_removals_take_an_entry_once() {
    for _ in 0..200 {
        let mut rng = rand::rng();
        let mut list = busy_with(&[1, 2, 3]);
        let mut removals: Vec<Removal<u32>> = (0..4).map(|_| Removal::new(&list, &2)).collect();
        while removals.iter().any(|removal| !removal.is_finished()) {
            let who = rng.random_range(0..removals.len());
            if !removals[who].is_finished() {
                removals[who].step(&mut list, &2, false);
            }
        }
        let taken = removals.iter().filter(|removal| removal.change().is_some()).count();
        assert_eq!(taken, 1);
        assert_eq!(elements(&list.into_list()), vec![1, 3]);
    }
}

#[test]
fn search_amid_changes_finds_what_stays() {
    let mut rng = rand::rng();
    for _ in 0..300 {
        // The even numbers stay; odd ones come and go in steps
        let stay: Vec<u32> = (0..20).map(|i| 2 * i).collect();
        let mut list = busy_with(&stay);
        let mut insertions: Vec<Option<Insertion<u32>>> = vec![None, None, None];
        let mut removals: Vec<Option<(u32, Removal<u32>)>> = vec![None, None, None];
        for key in [0u32, 6, 20, 38] {
            let mut search = list.as_list().search(&key);
            while !search.is_done() {
                search.step(list.as_list(), &key);
                for _ in 0..rng.random_range(0..12) {
                    let who = rng.random_range(0..insertions.len());
                    let other = 2 * rng.random_range(0..20u32) + 1;
                    let mut insertion = match insertions[who].take() {
                        Some(insertion) => insertion,
                        None => Insertion::new(&list, other),
                    };
                    insertion.step(&mut list, rng.random::<u32>(), false);
                    if !insertion.is_finished() {
                        insertions[who] = Some(insertion);
                    }
                    let (other, mut removal) = match removals[who].take() {
                        Some(removal) => removal,
                        None => (other, Removal::new(&list, &other)),
                    };
                    removal.step(&mut list, &other, false);
                    if !removal.is_finished() {
                        removals[who] = Some((other, removal));
                    }
                }
            }
            let at = search.finish(list.as_list(), &key);
            assert_eq!(*list.as_list().entry_of(&at, &key).unwrap(), key);
            assert_eq!(*list.get(&key).unwrap(), key);
        }
        assert!(list.get(&100).is_none());
    }
}

#[test]
fn search_is_exact_while_nothing_is_decided() {
    let mut list = busy_with(&[10, 20, 30]);
    let mut insertion = Insertion::new(&list, 25);
    while insertion.change().is_none() {
        insertion.step(&mut list, 1, false);
    }
    let mut present = list.as_list().search(&20);
    let mut absent = list.as_list().search(&25);
    // The change takes a lock between the steps
    present.step(list.as_list(), &20);
    absent.step(list.as_list(), &25);
    insertion.step(&mut list, 1, false);
    while !present.is_done() {
        present.step(list.as_list(), &20);
    }
    while !absent.is_done() {
        absent.step(list.as_list(), &25);
    }
    let at = present.finish(list.as_list(), &20);
    assert_eq!(*list.as_list().entry_of(&at, &20).unwrap(), 20);
    let at = absent.finish(list.as_list(), &25);
    assert!(list.as_list().entry_of(&at, &25).is_none());
    assert_eq!(*list.as_list().get(&20).unwrap(), 20);
}
