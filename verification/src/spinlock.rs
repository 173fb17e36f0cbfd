//! The spinlock of a node: its word, and how a thread waits for it.
use vstd::prelude::*;

verus! {

/// The number of failed checks after which a waiting thread yields its time slice.
pub const SPINS_PER_YIELD: u32 = 64;

/// The number of actions on the word after which a waiting thread gives up.
pub const SPIN_LIMIT: u32 = 0x10_0000;

/// The word of a spinlock: held by someone, or free.
///
/// The operations are those of one owner of the word; a thread that shares the
/// word with others performs them on an atomic and waits as [`SpinWait`] says.
#[derive(Debug)]
pub struct SpinLock {
    locked: bool,
}

impl View for SpinLock {
    type V = bool;

    /// Whether the lock is held.
    closed spec fn view(&self) -> bool {
        self.locked
    }
}

impl Default for SpinLock {
    fn default() -> (lock: Self)
        ensures
            !lock@,
    {
        Self::new()
    }
}

impl SpinLock {
    /// Creates a new unlocked spinlock.
    pub fn new() -> (lock: Self)
        ensures
            !lock@,
    {
        Self { locked: false }
    }

    /// Acquires the lock, or gives up.
    ///
    /// Returns true if the lock was acquired. If it is held, nobody can release it
    /// while its one owner waits, so that a wait would time out
    /// (see [`law_held_lock_is_given_up`]): false is returned at once.
    pub fn lock(&mut self) -> (acquired: bool)
        ensures
            acquired == !old(self)@,
            final(self)@,
    {
        self.try_lock()
    }

    /// Tries to acquire the lock without blocking.
    ///
    /// Returns true if the lock was acquired, false if it was held already.
    pub fn try_lock(&mut self) -> (acquired: bool)
        ensures
            acquired == !old(self)@,
            final(self)@,
    {
        if self.locked {
            false
        } else {
            self.locked = true;
            true
        }
    }

    /// Whether the lock is held.
    pub fn is_locked(&self) -> (locked: bool)
        ensures
            locked == self@,
    {
        self.locked
    }

    /// Releases the lock.
    pub fn unlock(&mut self)
        ensures
            !final(self)@,
    {
        self.locked = false;
    }
}

/// What a thread that wants a lock does next with the atomic word.
#[derive(Clone, Copy, Debug, PartialEq, Eq, Structural)]
pub enum SpinAction {
    /// Swap the word from free to held. The outcome is whether that succeeded.
    Attempt,
    /// Load the word. The outcome is whether the lock is held.
    Check,
    /// Enter: the lock is this thread's.
    Enter,
    /// Give up: the lock is not this thread's, and it has waited long enough.
    GiveUp,
}

/// What a waiting thread does before its next action.
#[derive(Clone, Copy, Debug, PartialEq, Eq, Structural)]
pub enum Pause {
    /// Nothing.
    Go,
    /// Hint to the processor that this is a busy wait.
    Spin,
    /// Yield the time slice.
    Yield,
}

/// A thread on its way to acquire a spinlock.
///
/// It attempts to take the lock; when that fails it checks the word until the
/// lock looks free, pausing between the checks, and attempts again. To avoid a
/// deadlock it gives up after [`SPIN_LIMIT`] actions without success.
#[derive(Clone, Copy, Debug, PartialEq, Eq, Structural)]
pub enum SpinWait {
    Attempting { spent: u32 },
    /// The lock was found held `spins` times since the last attempt.
    Waiting { spins: u32, spent: u32 },
    Holding,
    TimedOut,
}

/// The state of a thread that has spent some actions without success: the given one,
/// unless the limit is reached.
pub open spec fn unless_spent(spent: int, wait: SpinWait) -> SpinWait {
    if spent >= SPIN_LIMIT {
        SpinWait::TimedOut
    } else {
        wait
    }
}

/// The state and the pause that follow the outcome of the action of a state.
pub open spec fn advanced(wait: SpinWait, outcome: bool) -> (SpinWait, Pause) {
    match wait {
        SpinWait::Attempting { spent } => if outcome {
            (SpinWait::Holding, Pause::Go)
        } else {
            let next = SpinWait::Waiting { spins: 0, spent: (spent + 1) as u32 };
            (unless_spent(spent + 1, next), Pause::Go)
        },
        SpinWait::Waiting { spins, spent } => if outcome {
            let next = SpinWait::Waiting { spins: (spins + 1) as u32, spent: (spent + 1) as u32 };
            let pause = if (spins + 1) % SPINS_PER_YIELD as int == 0 {
                Pause::Yield
            } else {
                Pause::Spin
            };
            (unless_spent(spent + 1, next), pause)
        } else {
            let next = SpinWait::Attempting { spent: (spent + 1) as u32 };
            (unless_spent(spent + 1, next), Pause::Go)
        },
        SpinWait::Holding => (SpinWait::Holding, Pause::Go),
        SpinWait::TimedOut => (SpinWait::TimedOut, Pause::Go),
    }
}

impl SpinWait {
    /// The counts are those of a thread that has not yet spent its actions.
    pub open spec fn wf(&self) -> bool {
        match *self {
            SpinWait::Attempting { spent } => spent < SPIN_LIMIT,
            SpinWait::Waiting { spins, spent } => spins < spent < SPIN_LIMIT,
            _ => true,
        }
    }

    /// A thread that has not yet tried to take the lock.
    pub fn new() -> (wait: Self)
        ensures
            wait == (SpinWait::Attempting { spent: 0 }),
            wait.wf(),
    {
        SpinWait::Attempting { spent: 0 }
    }

    /// The action that is due.
    pub fn action(&self) -> (action: SpinAction)
        ensures
            *self is Attempting <==> action == SpinAction::Attempt,
            *self is Waiting <==> action == SpinAction::Check,
            *self is Holding <==> action == SpinAction::Enter,
            *self is TimedOut <==> action == SpinAction::GiveUp,
    {
        match self {
            SpinWait::Attempting { .. } => SpinAction::Attempt,
            SpinWait::Waiting { .. } => SpinAction::Check,
            SpinWait::Holding => SpinAction::Enter,
            SpinWait::TimedOut => SpinAction::GiveUp,
        }
    }

    /// Takes the outcome of the action that was due and returns the pause to
    /// make before the next one.
    pub fn advance(&mut self, outcome: bool) -> (pause: Pause)
        requires
            old(self).wf(),
        ensures
            (*final(self), pause) == advanced(*old(self), outcome),
            final(self).wf(),
    {
        match *self {
            SpinWait::Attempting { spent } => {
                *self = if outcome {
                    SpinWait::Holding
                } else if spent + 1 >= SPIN_LIMIT {
                    SpinWait::TimedOut
                } else {
                    SpinWait::Waiting { spins: 0, spent: spent + 1 }
                };
                Pause::Go
            },
            SpinWait::Waiting { spins, spent } => {
                if outcome {
                    *self = if spent + 1 >= SPIN_LIMIT {
                        SpinWait::TimedOut
                    } else {
                        SpinWait::Waiting { spins: spins + 1, spent: spent + 1 }
                    };
                    if (spins + 1) % SPINS_PER_YIELD == 0 {
                        Pause::Yield
                    } else {
                        Pause::Spin
                    }
                } else {
                    *self = if spent + 1 >= SPIN_LIMIT {
                        SpinWait::TimedOut
                    } else {
                        SpinWait::Attempting { spent: spent + 1 }
                    };
                    Pause::Go
                }
            },
            SpinWait::Holding => Pause::Go,
            SpinWait::TimedOut => Pause::Go,
        }
    }

    /// Performs the action that is due on the word of a lock, and returns the pause to
    /// make before the next one.
    pub fn poll(&mut self, lock: &mut SpinLock) -> (pause: Pause)
        requires
            old(self).wf(),
        ensures
            (final(lock)@, *final(self), pause) == polled(old(lock)@, *old(self)),
            final(self).wf(),
    {
        match self.action() {
            SpinAction::Attempt => {
                let success: bool = lock.try_lock();
                self.advance(success)
            },
            SpinAction::Check => {
                let held: bool = lock.is_locked();
                self.advance(held)
            },
            SpinAction::Enter => Pause::Go,
            SpinAction::GiveUp => Pause::Go,
        }
    }
}

/// What the action of a state does to the word of the lock, and what follows.
pub open spec fn polled(word: bool, wait: SpinWait) -> (bool, SpinWait, Pause) {
    let outcome = if wait is Attempting {
        !word
    } else {
        word
    };
    let (next, pause) = advanced(wait, outcome);
    (word || wait is Attempting, next, pause)
}

/// What a thread does for every state that it can be in. An attempt that succeeds ends the
/// wait, and one that fails begins a row of checks. A check that finds the lock free is
/// followed by an attempt, and one that finds it held by another check. There is no pause but
/// after a check that finds the lock held: then the thread yields after every
/// [`SPINS_PER_YIELD`] of them in a row, and spins else. It goes on so until it has spent
/// [`SPIN_LIMIT`] actions, and not longer.
pub proof fn law_wait_goes_on(wait: SpinWait)
    requires
        wait.wf(),
    ensures
        wait matches SpinWait::Attempting { spent } ==> {
            &&& advanced(wait, true) == (SpinWait::Holding, Pause::Go)
            &&& advanced(wait, false).1 == Pause::Go
            &&& spent + 1 < SPIN_LIMIT ==> advanced(wait, false).0 == (SpinWait::Waiting {
                spins: 0,
                spent: (spent + 1) as u32,
            })
            &&& spent + 1 == SPIN_LIMIT ==> advanced(wait, false).0 == SpinWait::TimedOut
        },
        wait matches SpinWait::Waiting { spins, spent } ==> {
            &&& advanced(wait, false).1 == Pause::Go
            &&& advanced(wait, true).1 == if (spins + 1) % 64 == 0 {
                Pause::Yield
            } else {
                Pause::Spin
            }
            &&& spent + 1 < SPIN_LIMIT ==> {
                &&& advanced(wait, false).0 == (SpinWait::Attempting { spent: (spent + 1) as u32 })
                &&& advanced(wait, true).0 == (SpinWait::Waiting {
                    spins: (spins + 1) as u32,
                    spent: (spent + 1) as u32,
                })
            }
            &&& spent + 1 == SPIN_LIMIT ==> {
                &&& advanced(wait, false).0 == SpinWait::TimedOut
                &&& advanced(wait, true).0 == SpinWait::TimedOut
            }
        },
        wait is Holding || wait is TimedOut ==> forall|outcome: bool| #[trigger]
            advanced(wait, outcome) == (wait, Pause::Go),
{
}

/// A free lock is taken by every thread that waits for it, by its next attempt, unless that
/// has spent its actions: at once by one that attempts, and by one that checks after the
/// check that finds it free.
pub proof fn law_free_lock_is_taken(wait: SpinWait)
    requires
        wait.wf(),
    ensures
        wait is Attempting ==> polled(false, wait).0 && polled(false, wait).1 is Holding,
        wait matches SpinWait::Waiting { spins, spent } ==> {
            &&& !polled(false, wait).0
            &&& spent + 2 <= SPIN_LIMIT ==> {
                &&& polled(false, wait).1 is Attempting
                &&& polled(false, polled(false, wait).1).0
                &&& polled(false, polled(false, wait).1).1 is Holding
            }
        },
{
}

/// A thread does not give up early: after fewer than a million actions it still waits.
pub proof fn law_waits_for_long(outcomes: Seq<bool>)
    requires
        outcomes.len() < 1_000_000,
    ensures
        after_outcomes(outcomes) !is TimedOut,
{
    law_times_out(outcomes);
}

/// A held lock is not taken, and stays held.
pub proof fn law_held_lock_is_not_taken(wait: SpinWait)
    requires
        wait.wf(),
        wait !is Holding,
    ensures
        polled(true, wait).0,
        polled(true, wait).1 !is Holding,
        polled(true, wait).1 !is Attempting,
{
}

/// A thread that has found the lock held `checks` times since its first attempt.
pub open spec fn waiting_after(checks: nat) -> SpinWait
    decreases checks,
{
    if checks == 0 {
        advanced(SpinWait::Attempting { spent: 0 }, false).0
    } else {
        advanced(waiting_after((checks - 1) as nat), true).0
    }
}

/// While the lock stays held, a thread keeps checking until it gives up. It yields
/// after every sixty-fourth check and spins after all others.
pub proof fn law_yields_periodically(checks: nat)
    requires
        checks + 1 < SPIN_LIMIT,
    ensures
        waiting_after(checks) == (SpinWait::Waiting {
            spins: checks as u32,
            spent: (checks + 1) as u32,
        }),
        advanced(waiting_after(checks), true).1 == if (checks + 1) % 64 == 0 {
            Pause::Yield
        } else {
            Pause::Spin
        },
    decreases checks,
{
    if checks > 0 {
        law_yields_periodically((checks - 1) as nat);
    }
}

/// A thread whose actions have had the given outcomes.
pub open spec fn after_outcomes(outcomes: Seq<bool>) -> SpinWait
    decreases outcomes.len(),
{
    if outcomes.len() == 0 {
        SpinWait::Attempting { spent: 0 }
    } else {
        advanced(after_outcomes(outcomes.drop_last()), outcomes.last()).0
    }
}

/// Waiting ends: a thread that does not hold the lock by then has given up after
/// [`SPIN_LIMIT`] actions, whatever their outcomes, and no sooner.
pub proof fn law_times_out(outcomes: Seq<bool>)
    ensures
        after_outcomes(outcomes) is Holding || (after_outcomes(outcomes) is TimedOut
            <==> outcomes.len() >= SPIN_LIMIT),
        after_outcomes(outcomes).wf(),
{
    lemma_spent(outcomes);
}

proof fn lemma_spent(outcomes: Seq<bool>)
    ensures
        after_outcomes(outcomes).wf(),
        match after_outcomes(outcomes) {
            SpinWait::Attempting { spent } => spent == outcomes.len(),
            SpinWait::Waiting { spins, spent } => spent == outcomes.len(),
            SpinWait::Holding => true,
            SpinWait::TimedOut => outcomes.len() >= SPIN_LIMIT,
        },
    decreases outcomes.len(),
{
    if outcomes.len() > 0 {
        lemma_spent(outcomes.drop_last());
    }
}

/// If the lock stays held from the first attempt on, a thread gives up and never
/// enters.
pub proof fn law_held_lock_is_given_up(actions: nat)
    ensures
        held_throughout(actions) !is Holding,
        held_throughout(actions) is TimedOut <==> actions >= SPIN_LIMIT,
{
    lemma_held(actions);
}

pub(crate) proof fn lemma_held(actions: nat)
    ensures
        held_throughout(actions) == if actions == 0 {
            SpinWait::Attempting { spent: 0 }
        } else {
            unless_spent(
                actions as int,
                SpinWait::Waiting { spins: (actions - 1) as u32, spent: actions as u32 },
            )
        },
    decreases actions,
{
    if actions > 0 {
        lemma_held((actions - 1) as nat);
    }
}

/// A thread that has performed a number of actions on the word of a held lock.
pub open spec fn held_throughout(actions: nat) -> SpinWait
    decreases actions,
{
    if actions == 0 {
        SpinWait::Attempting { spent: 0 }
    } else {
        polled(true, held_throughout((actions - 1) as nat)).1
    }
}

/// A thread enters exactly when an attempt of its own succeeded.
pub proof fn law_enters_after_success(wait: SpinWait, outcome: bool)
    ensures
        advanced(wait, outcome).0 is Holding <==> wait is Holding || (wait is Attempting
            && outcome),
{
}

/// Of the threads that share a lock, one at most holds it, and the word says so.
pub open spec fn held_once(word: bool, threads: Seq<SpinWait>) -> bool {
    &&& forall|i: int, j: int|
        0 <= i < threads.len() && 0 <= j < threads.len() && #[trigger] threads[i] is Holding
            && #[trigger] threads[j] is Holding ==> i == j
    &&& forall|i: int| 0 <= i < threads.len() && #[trigger] threads[i] is Holding ==> word
}

/// A lock has one holder at most, whichever thread performs its next action. While
/// one holds it, no other comes to hold it.
pub proof fn law_one_holder(word: bool, threads: Seq<SpinWait>, t: int)
    requires
        held_once(word, threads),
        0 <= t < threads.len(),
    ensures
        held_once(
            polled(word, threads[t]).0,
            threads.update(t, polled(word, threads[t]).1),
        ),
        word ==> (polled(word, threads[t]).1 is Holding <==> threads[t] is Holding),
{
}

} // verus!
