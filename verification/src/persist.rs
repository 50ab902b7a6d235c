//! Deciding, round by round, what the persistence worker does with the log.
//!
//! Every round while running, the log is drained into the temporary file;
//! every `N`-th round the temporary file is also copied into the database
//! file. When asked to stop, the worker does one last full flush.

use vstd::prelude::*;
use std::collections::VecDeque;

verus! {

/// Rounds between two copies of the temporary file into the database file.
pub const N: usize = 50;

/// Hands `f` through a queue and runs it once.
pub fn test<F: FnOnce()>(f: F)
    requires
        call_requires(f, ()),
    ensures
        call_ensures(f, (), ()),
{
    let mut q: VecDeque<F> = VecDeque::new();
    q.push_back(f);
    let g = q.pop_front().unwrap();
    g();
}

/// What the worker does in one round.
#[derive(Clone, Copy, Debug, PartialEq, Eq, Structural)]
pub enum PersistAction {
    /// Drain the log into the temporary file.
    CopyLog,
    /// Drain the log into the temporary file, then copy that file into the
    /// database file.
    CopyLogAndTemp,
    /// Stop: drain the log, sync the temporary file, copy it into the database
    /// file and sync that.
    Finish,
}

/// The round counter after a round that starts at `c`.
pub open spec fn step_count(c: nat) -> nat {
    if c + 1 == N {
        0
    } else {
        c + 1
    }
}

/// The round counter after `k` rounds from a fresh start.
pub open spec fn count_after(k: nat) -> nat
    decreases k,
{
    if k == 0 {
        0
    } else {
        step_count(count_after((k - 1) as nat))
    }
}

/// The persistence controller: whether it still runs, and how many rounds
/// have passed since the temporary file was last copied.
pub struct Persist {
    running: bool,
    count: usize,
}

impl Persist {
    #[verifier::type_invariant]
    spec fn counter_below_period(self) -> bool {
        self.count < N
    }

    /// Whether the worker still runs.
    pub closed spec fn running(&self) -> bool {
        self.running
    }

    /// Rounds since the temporary file was last copied.
    pub closed spec fn count(&self) -> nat {
        self.count as nat
    }

    /// A running controller that has done no round yet.
    pub fn new() -> (p: Persist)
        ensures
            p.running(),
            p.count() == 0,
    {
        Persist { running: true, count: 0 }
    }

    /// Whether the worker still runs.
    pub fn is_running(&self) -> (r: bool)
        ensures
            r == self.running(),
    {
        self.running
    }

    /// Asks the worker to stop after its current round.
    pub fn stop(&mut self)
        ensures
            !final(self).running(),
            final(self).count() == old(self).count(),
    {
        proof {
            use_type_invariant(&*self);
        }
        self.running = false;
    }

    /// Decides the next round.
    pub fn next_action(&mut self) -> (a: PersistAction)
        ensures
            old(self).count() < N,
            final(self).count() < N,
            final(self).running() == old(self).running(),
            old(self).running() ==> final(self).count() == step_count(old(self).count()),
            old(self).running() ==> (a == PersistAction::CopyLogAndTemp <==> step_count(old(self).count()) == 0),
            old(self).running() ==> (a == PersistAction::CopyLog <==> step_count(old(self).count()) != 0),
            !old(self).running() ==> a == PersistAction::Finish && final(self).count() == old(self).count(),
    {
        proof {
            use_type_invariant(&*self);
        }
        if !self.running {
            return PersistAction::Finish;
        }
        if self.count + 1 == N {
            self.count = 0;
            PersistAction::CopyLogAndTemp
        } else {
            self.count = self.count + 1;
            PersistAction::CopyLog
        }
    }
}

/// From a fresh start, the counter after `k` rounds is `k mod N`, and the
/// `k`-th round copies the temporary file exactly when `N` divides `k`.
pub proof fn lemma_schedule(k: nat)
    ensures
        count_after(k) == k % (N as nat),
        k > 0 ==> (count_after(k) == 0 <==> k % (N as nat) == 0),
    decreases k,
{
    if k > 0 {
        lemma_schedule((k - 1) as nat);
    }
}

} // verus!
