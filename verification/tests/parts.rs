use std::cmp::Ordering;
use std::collections::hash_map::DefaultHasher;
use std::hash::{Hash, Hasher};

use zoop_skiplist::comparison::{BasicComparison, Comparison, Equivalence, HashAgreement, HashKey};
use zoop_skiplist::order::{side_of, Side};
use zoop_skiplist::rng::{height_of, random_height, rng, ThreadSmallRng};
use zoop_skiplist::spinlock::{Pause, SpinAction, SpinLock, SpinWait, SPIN_LIMIT};
use zoop_skiplist::MAX_HEIGHT;

#[test]
fn heights_follow_the_trailing_zeros() {
    assert_eq!(height_of(1), 1);
    assert_eq!(height_of(3), 1);
    assert_eq!(height_of(2), 2);
    assert_eq!(height_of(8), 4);
    assert_eq!(height_of(40), 4);
    assert_eq!(height_of(1 << 30), 31);
    assert_eq!(height_of(1 << 31), 32);
    assert_eq!(height_of(0), MAX_HEIGHT);
    assert_eq!(height_of(u32::MAX), 1);
}

#[test]
fn heights_halve_with_each_level() {
    let mut counts = [0u32; 33];
    for draw in 0..1u32 << 16 {
        counts[height_of(draw)] += 1;
    }
    for height in 1..=16 {
        assert_eq!(counts[height], 1 << (16 - height));
    }
    assert_eq!(counts[32], 1);
}

#[test]
fn random_heights_vary() {
    let mut rng = rng();
    let mut counts = [0u32; 33];
    for _ in 0..4000 {
        let height = random_height(&mut rng);
        assert!(height >= 1 && height <= MAX_HEIGHT);
        counts[height] += 1;
    }
    // Half of the towers have one level, a quarter two
    assert!(counts[1] > 1600 && counts[1] < 2400);
    assert!(counts[2] > 700 && counts[2] < 1300);
}

#[test]
fn random_words_vary() {
    let mut first = rng();
    let mut second = rng();
    let a: Vec<u32> = (0..8).map(|_| first.next_u32()).collect();
    let b: Vec<u32> = (0..8).map(|_| second.next_u32()).collect();
    assert_ne!(a, b);
}

#[test]
fn random_bits_vary() {
    let mut rng = ThreadSmallRng::default();
    let words: Vec<u64> = (0..8).map(|_| rng.next_u64()).collect();
    assert!(words.iter().any(|word| *word != words[0]));
    assert!(words.iter().any(|word| *word > u32::MAX as u64));
    let draws: Vec<u32> = (0..8).map(|_| rng.random_u32()).collect();
    assert!(draws.iter().any(|draw| *draw != draws[0]));
    let mut bytes = [0u8; 64];
    rng.fill_bytes(&mut bytes);
    assert!(bytes.iter().any(|byte| *byte != 0));
}

#[test]
fn lock_and_unlock() {
    let mut lock = SpinLock::default();
    assert!(!lock.is_locked());
    lock.lock();
    assert!(lock.is_locked());
    assert!(!lock.try_lock());
    lock.unlock();
    assert!(!lock.is_locked());
    assert!(lock.try_lock());
    assert!(lock.is_locked());
}

#[test]
fn waiting_for_a_lock() {
    let mut wait = SpinWait::new();
    assert_eq!(wait.action(), SpinAction::Attempt);
    assert_eq!(wait.advance(false), Pause::Go);
    for check in 1..=200 {
        assert_eq!(wait.action(), SpinAction::Check);
        let expected = if check % 64 == 0 { Pause::Yield } else { Pause::Spin };
        assert_eq!(wait.advance(true), expected);
    }
    assert_eq!(wait.advance(false), Pause::Go);
    assert_eq!(wait.action(), SpinAction::Attempt);
    assert_eq!(wait.advance(true), Pause::Go);
    assert_eq!(wait.action(), SpinAction::Enter);
    assert_eq!(wait.advance(false), Pause::Go);
    assert_eq!(wait, SpinWait::Holding);
}

#[test]
fn lock_that_is_held_is_given_up() {
    let mut lock = SpinLock::new();
    assert!(lock.lock());
    assert!(!lock.lock());
    assert!(lock.is_locked());
    lock.unlock();
    assert!(lock.lock());
}

#[test]
fn waiting_times_out() {
    let mut wait = SpinWait::new();
    assert_eq!(wait.advance(false), Pause::Go);
    for _ in 1..SPIN_LIMIT - 1 {
        wait.advance(true);
        assert_eq!(wait.action(), SpinAction::Check);
    }
    wait.advance(true);
    assert_eq!(wait, SpinWait::TimedOut);
    assert_eq!(wait.action(), SpinAction::GiveUp);
    assert_eq!(wait.advance(false), Pause::Go);
    assert_eq!(wait, SpinWait::TimedOut);
}

#[test]
fn vain_attempts_time_out_too() {
    // The lock looks free at each check, and somebody else gets it each time
    let mut wait = SpinWait::new();
    for _ in 0..SPIN_LIMIT {
        assert_ne!(wait.action(), SpinAction::GiveUp);
        wait.advance(false);
    }
    assert_eq!(wait.action(), SpinAction::GiveUp);
}

#[test]
fn one_of_two_threads_enters() {
    let mut lock = SpinLock::new();
    let mut one = SpinWait::new();
    let mut other = SpinWait::new();
    one.poll(&mut lock);
    assert_eq!(one, SpinWait::Holding);
    for _ in 0..100 {
        other.poll(&mut lock);
        assert_ne!(other, SpinWait::Holding);
    }
    lock.unlock();
    other.poll(&mut lock);
    assert_eq!(other.action(), SpinAction::Attempt);
    other.poll(&mut lock);
    assert_eq!(other, SpinWait::Holding);
    assert!(lock.is_locked());
}

#[test]
fn basic_comparison() {
    assert!(Equivalence::eq(&BasicComparison, &3u32, &3u32));
    assert!(!Equivalence::eq(&BasicComparison, &3u32, &4u32));
    assert_eq!(Comparison::cmp(&BasicComparison, &3u32, &4u32), Ordering::Less);
    assert_eq!(Comparison::cmp(&BasicComparison, &4u32, &4u32), Ordering::Equal);
    assert_eq!(Comparison::cmp(&BasicComparison, &5u32, &4u32), Ordering::Greater);
    let boxed: Box<u32> = Box::new(4);
    assert!(Equivalence::<Box<u32>, u32>::eq(&BasicComparison, &boxed, &4));
    assert_eq!(
        Comparison::<Box<u32>, u32>::cmp(&BasicComparison, &boxed, &7),
        Ordering::Less
    );
    assert_eq!(Comparison::<str>::cmp(&BasicComparison, "b", "a"), Ordering::Greater);
}

#[test]
fn comparison_keeps_the_contracts() {
    let values = [3u8, 1, 2, 2];
    for x in values {
        assert!(Equivalence::eq(&BasicComparison, &x, &x));
        for y in values {
            let there = Comparison::cmp(&BasicComparison, &x, &y);
            let back = Comparison::cmp(&BasicComparison, &y, &x);
            assert_eq!(there, back.reverse());
            assert_eq!(Equivalence::eq(&BasicComparison, &x, &y), there == Ordering::Equal);
            for z in values {
                let on = Comparison::cmp(&BasicComparison, &y, &z);
                if there == on {
                    assert_eq!(Comparison::cmp(&BasicComparison, &x, &z), there);
                }
            }
        }
    }
}

#[test]
fn basic_hash_is_that_of_the_type() {
    let mut ours = DefaultHasher::new();
    HashKey::hash(&BasicComparison, &mut ours, &42u64);
    let mut theirs = DefaultHasher::new();
    42u64.hash(&mut theirs);
    assert_eq!(ours.finish(), theirs.finish());
    assert_ne!(ours.finish(), DefaultHasher::new().finish());
}

#[test]
fn equal_objects_have_the_same_hash() {
    let mut one = DefaultHasher::new();
    HashAgreement::hash_into(&BasicComparison, &mut one, &Box::new(7u32));
    let mut other = DefaultHasher::new();
    HashAgreement::hash_into(&BasicComparison, &mut other, &Box::new(7u32));
    assert_eq!(one.finish(), other.finish());
    let mut plain = DefaultHasher::new();
    HashKey::hash(&BasicComparison, &mut plain, &Box::new(7u32));
    assert_eq!(one.finish(), plain.finish());
    let mut different = DefaultHasher::new();
    HashAgreement::hash_into(&BasicComparison, &mut different, &Box::new(8u32));
    assert_ne!(one.finish(), different.finish());
}

#[test]
fn sides_of_a_key() {
    assert_eq!(side_of(&1u8, &2u8), Side::Before);
    assert_eq!(side_of(&2u8, &2u8), Side::Match);
    assert_eq!(side_of(&3u8, &2u8), Side::After);
}
