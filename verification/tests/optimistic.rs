use std::collections::BTreeSet;

use rand::Rng;
use zoop_skiplist::skiplist::Stale;
use zoop_skiplist::SkipList;

fn elements(skiplist: &SkipList<u32>) -> Vec<u32> {
    let mut iter = skiplist.iter();
    let mut elements = Vec::new();
    while let Some(entry) = iter.next() {
        elements.push(*entry);
    }
    elements
}

fn list_of(values: &[u32]) -> SkipList<u32> {
    let mut skiplist = SkipList::new();
    for value in values {
        skiplist.insert(*value);
    }
    skiplist
}

#[test]
fn fresh_position_commits() {
    let mut skiplist = list_of(&[10, 30]);
    let at = skiplist.locate(&20);
    assert_eq!(*skiplist.try_insert(20, &at, 0).ok().unwrap(), 20);
    assert_eq!(elements(&skiplist), vec![10, 20, 30]);

    let at = skiplist.locate(&10);
    match skiplist.try_remove(&10, &at) {
        Ok(Some(entry)) => assert_eq!(*entry, 10),
        _ => panic!("a fresh position was refused"),
    }
    assert_eq!(elements(&skiplist), vec![20, 30]);
}

#[test]
fn stale_position_is_refused() {
    let mut skiplist = list_of(&[10, 30]);
    let at = skiplist.locate(&20);
    // Another element comes between the neighbours
    skiplist.insert(25);
    assert_eq!(skiplist.try_insert(20, &at, 1).err(), Some(20));
    assert_eq!(elements(&skiplist), vec![10, 25, 30]);
}

#[test]
fn removed_predecessor_is_refused() {
    let mut skiplist = list_of(&[10, 30]);
    let at = skiplist.locate(&20);
    skiplist.remove(&10);
    assert_eq!(skiplist.try_insert(20, &at, 1).err(), Some(20));
    assert_eq!(elements(&skiplist), vec![30]);
}

#[test]
fn replaced_entry_is_refused() {
    let mut skiplist = list_of(&[10, 20, 30]);
    let at = skiplist.locate(&20);
    // The entry that was found is replaced by another one
    skiplist.insert(20);
    assert_eq!(skiplist.try_insert(20, &at, 1).err(), Some(20));
    assert!(matches!(skiplist.try_remove(&20, &at), Ok(None)));
    assert_eq!(elements(&skiplist), vec![10, 20, 30]);
}

#[test]
fn removal_at_a_stale_position_is_refused() {
    let mut skiplist = list_of(&[10, 20, 30]);
    let at = skiplist.locate(&20);
    skiplist.insert(15);
    match skiplist.try_remove(&20, &at) {
        Err(stale) => assert_eq!(stale, Stale),
        Ok(_) => panic!("a stale position was accepted"),
    }
    assert_eq!(elements(&skiplist), vec![10, 15, 20, 30]);
}

#[test]
fn nothing_to_remove() {
    let mut skiplist = list_of(&[10, 30]);
    let absent = skiplist.locate(&20);
    let gone = skiplist.locate(&10);
    skiplist.remove(&10);
    assert!(matches!(skiplist.try_remove(&20, &absent), Ok(None)));
    assert!(matches!(skiplist.try_remove(&10, &gone), Ok(None)));
    assert_eq!(elements(&skiplist), vec![30]);
}

#[test]
fn change_elsewhere_does_not_disturb() {
    let mut skiplist = list_of(&[10, 20, 30, 40]);
    // With the lowest towers, the neighbourhoods do not overlap
    let mut low = SkipList::new();
    for value in [10, 20, 30, 40] {
        let at = low.locate(&value);
        assert!(low.try_insert(value, &at, 1).is_ok());
    }
    let at = low.locate(&35);
    let other = low.locate(&15);
    assert!(low.try_insert(15, &other, 1).is_ok());
    assert!(low.try_insert(35, &at, 1).is_ok());
    assert_eq!(elements(&low), vec![10, 15, 20, 30, 35, 40]);
    skiplist.insert(15);
    skiplist.insert(35);
    assert_eq!(elements(&low), elements(&skiplist));
}

#[test]
fn search_between_changes() {
    let mut skiplist = list_of(&[10, 20, 30]);
    let mut search = skiplist.search(&25);
    let mut steps = 0;
    while !search.is_done() {
        search.step(&skiplist, &25);
        steps += 1;
        // Neighbours come and go while the search is under way
        if steps % 3 == 0 {
            skiplist.remove(&20);
        } else {
            skiplist.insert(20);
        }
    }
    skiplist.remove(&20);
    let at = search.finish(&skiplist, &25);
    let mut element = 25;
    let mut position = at;
    loop {
        match skiplist.try_insert(element, &position, 1) {
            Ok(_) => break,
            Err(returned) => element = returned,
        }
        position = skiplist.locate(&element);
    }
    assert_eq!(elements(&skiplist), vec![10, 25, 30]);
}

#[test]
fn random_interleaving() {
    // Many writers search step by step and commit in a random order
    let mut rng = rand::rng();
    let mut skiplist: SkipList<u32> = SkipList::new();
    let mut btree = BTreeSet::new();
    let mut writers: Vec<(u32, bool, zoop_skiplist::search::Search)> = Vec::new();
    let mut commits = 0;
    while commits < 2000 {
        if writers.len() < 8 {
            let key: u32 = rng.random_range(0..50);
            let inserts: bool = rng.random_bool(0.5);
            let search = skiplist.search(&key);
            writers.push((key, inserts, search));
            continue;
        }
        let who = rng.random_range(0..writers.len());
        let (key, inserts, mut search) = writers.swap_remove(who);
        for _ in 0..rng.random_range(1..80) {
            if !search.is_done() {
                search.step(&skiplist, &key);
            }
        }
        if !search.is_done() {
            writers.push((key, inserts, search));
            continue;
        }
        let at = search.finish(&skiplist, &key);
        if inserts {
            if skiplist.try_insert(key, &at, rng.random::<u32>()).is_ok() {
                btree.insert(key);
                commits += 1;
            } else {
                let search = skiplist.search(&key);
                writers.push((key, inserts, search));
            }
        } else {
            match skiplist.try_remove(&key, &at) {
                Ok(Some(_)) => {
                    assert!(btree.remove(&key));
                    commits += 1;
                }
                Ok(None) => commits += 1,
                Err(Stale) => {
                    let search = skiplist.search(&key);
                    writers.push((key, inserts, search));
                }
            }
        }
        assert_eq!(elements(&skiplist), btree.iter().cloned().collect::<Vec<u32>>());
        assert_eq!(skiplist.len(), btree.len());
    }
}
