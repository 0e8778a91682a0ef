//! Which of the running ffmpeg processes are to be killed.
//!
//! One watcher looks after the processes of all files. Times are milliseconds on a clock that
//! never runs backwards.

use crate::tally;
use vstd::prelude::*;

verus! {

/// Milliseconds between two looks at the processes.
pub const POLL_INTERVAL_MS: u64 = 100;

/// Why a process was killed.
#[derive(Debug, Clone, Copy, PartialEq, Eq, Structural)]
pub enum KillReason {
    Stopped,
    TimedOut,
}

/// A process that is being watched.
#[derive(Debug, Clone, Copy, PartialEq, Eq)]
pub struct Watch {
    /// What the process is known by.
    pub id: u64,
    /// When its time is up.
    pub deadline: u64,
}

/// Why a process is to be killed: its scan was stopped, or else its time is up.
pub open spec fn reason(stopped: bool, deadline: u64, now: u64) -> Option<KillReason> {
    if stopped {
        Some(KillReason::Stopped)
    } else if now >= deadline {
        Some(KillReason::TimedOut)
    } else {
        None
    }
}

/// Decides whether a process is to be killed, and why.
pub fn kill_reason(stopped: bool, deadline: u64, now: u64) -> (kill: Option<KillReason>)
    ensures
        kill == reason(stopped, deadline, now),
{
    if stopped {
        Some(KillReason::Stopped)
    } else if now >= deadline {
        Some(KillReason::TimedOut)
    } else {
        None
    }
}

/// The processes that stay watched, in order.
pub open spec fn spared(watches: Seq<Watch>, stopped: Seq<bool>, now: u64) -> Seq<Watch>
    decreases watches.len(),
{
    if watches.len() == 0 {
        Seq::empty()
    } else {
        let rest = spared(watches.drop_last(), stopped, now);
        if reason(stopped[watches.len() - 1], watches.last().deadline, now) is None {
            rest.push(watches.last())
        } else {
            rest
        }
    }
}

/// The processes that are killed, in order, each with the reason.
pub open spec fn killed(watches: Seq<Watch>, stopped: Seq<bool>, now: u64) -> Seq<(u64, KillReason)>
    decreases watches.len(),
{
    if watches.len() == 0 {
        Seq::empty()
    } else {
        let rest = killed(watches.drop_last(), stopped, now);
        match reason(stopped[watches.len() - 1], watches.last().deadline, now) {
            Some(why) => rest.push((watches.last().id, why)),
            None => rest,
        }
    }
}

/// The watches on other processes than the given one, in order.
pub open spec fn without(watches: Seq<Watch>, id: u64) -> Seq<Watch>
    decreases watches.len(),
{
    if watches.len() == 0 {
        Seq::empty()
    } else if watches.last().id == id {
        without(watches.drop_last(), id)
    } else {
        without(watches.drop_last(), id).push(watches.last())
    }
}

/// The processes that are being watched.
#[derive(Debug, Clone)]
pub struct Registry {
    pub watches: Vec<Watch>,
}

impl Registry {
    /// A registry with no process.
    pub fn new() -> (registry: Self)
        ensures
            registry.watches@ == Seq::<Watch>::empty(),
    {
        Registry { watches: Vec::new() }
    }

    /// Watches a process that was started at `now` and may take `timeout_ms`.
    pub fn watch(&mut self, id: u64, now: u64, timeout_ms: u64)
        ensures
            final(self).watches@ == old(self).watches@.push(
                Watch {
                    id,
                    deadline: if now + timeout_ms <= u64::MAX {
                        (now + timeout_ms) as u64
                    } else {
                        u64::MAX
                    },
                },
            ),
    {
        self.watches.push(Watch { id, deadline: now.saturating_add(timeout_ms) });
    }

    /// Stops watching a process.
    pub fn unwatch(&mut self, id: u64)
        ensures
            final(self).watches@ == without(old(self).watches@, id),
    {
        let ghost before = self.watches@;
        let mut kept: Vec<Watch> = Vec::new();
        let mut i: usize = 0;
        assert(before.take(0) =~= Seq::<Watch>::empty());
        while i < self.watches.len()
            invariant
                i <= self.watches@.len(),
                self.watches@ == before,
                kept@ == without(before.take(i as int), id),
            decreases self.watches@.len() - i,
        {
            let w = self.watches[i];
            assert(before.take(i + 1).drop_last() =~= before.take(i as int));
            if w.id != id {
                kept.push(w);
            }
            i = i + 1;
        }
        assert(before.take(i as int) =~= before);
        self.watches = kept;
    }

    /// Looks at every process: those to be killed are returned with the reason and no longer
    /// watched.
    pub fn sweep(&mut self, stopped: &[bool], now: u64) -> (kills: Vec<(u64, KillReason)>)
        requires
            stopped@.len() == old(self).watches@.len(),
        ensures
            kills@ == killed(old(self).watches@, stopped@, now),
            final(self).watches@ == spared(old(self).watches@, stopped@, now),
    {
        let ghost before = self.watches@;
        let mut kept: Vec<Watch> = Vec::new();
        let mut kills: Vec<(u64, KillReason)> = Vec::new();
        let mut i: usize = 0;
        assert(before.take(0) =~= Seq::<Watch>::empty());
        while i < self.watches.len()
            invariant
                i <= self.watches@.len(),
                self.watches@ == before,
                stopped@.len() == before.len(),
                kept@ == spared(before.take(i as int), stopped@, now),
                kills@ == killed(before.take(i as int), stopped@, now),
            decreases self.watches@.len() - i,
        {
            let w = self.watches[i];
            assert(before.take(i + 1).drop_last() =~= before.take(i as int));
            match kill_reason(stopped[i], w.deadline, now) {
                Some(why) => kills.push((w.id, why)),
                None => kept.push(w),
            }
            i = i + 1;
        }
        assert(before.take(i as int) =~= before);
        self.watches = kept;
        kills
    }
}

/// Each process is judged on its own: it is killed exactly if its own scan was stopped or its own
/// time is up, and stays watched otherwise.
pub proof fn law_processes_are_judged_independently(
    watches: Seq<Watch>,
    stopped: Seq<bool>,
    now: u64,
    i: int,
)
    requires
        0 <= i < watches.len(),
        stopped.len() == watches.len(),
    ensures
        match reason(stopped[i], watches[i].deadline, now) {
            Some(why) => killed(watches, stopped, now).contains((watches[i].id, why)),
            None => spared(watches, stopped, now).contains(watches[i]),
        },
        killed(watches, stopped, now).len() + spared(watches, stopped, now).len()
            == watches.len(),
    decreases watches.len(),
{
    let prefix = watches.drop_last();
    let n = watches.len() - 1;
    if n > 0 {
        law_processes_are_judged_independently(
            prefix,
            stopped.drop_last(),
            now,
            if i < n { i } else { 0 },
        );
    }
    lemma_stopped_prefix(prefix, stopped, stopped.drop_last(), now);
    let was_killed = killed(prefix, stopped, now);
    let was_spared = spared(prefix, stopped, now);
    let now_killed = killed(watches, stopped, now);
    let now_spared = spared(watches, stopped, now);
    if i < n {
        match reason(stopped[i], watches[i].deadline, now) {
            Some(why) => {
                let k = was_killed.index_of((watches[i].id, why));
                assert(now_killed[k] == was_killed[k]);
            },
            None => {
                let k = was_spared.index_of(watches[i]);
                assert(now_spared[k] == was_spared[k]);
            },
        }
    } else {
        match reason(stopped[i], watches[i].deadline, now) {
            Some(why) => {
                assert(now_killed[now_killed.len() - 1] == (watches[i].id, why));
            },
            None => {
                assert(now_spared[now_spared.len() - 1] == watches[i]);
            },
        }
    }
}

proof fn lemma_stopped_prefix(watches: Seq<Watch>, a: Seq<bool>, b: Seq<bool>, now: u64)
    requires
        forall|i: int| 0 <= i < watches.len() ==> a[i] == b[i],
    ensures
        killed(watches, a, now) == killed(watches, b, now),
        spared(watches, a, now) == spared(watches, b, now),
    decreases watches.len(),
{
    if watches.len() > 0 {
        lemma_stopped_prefix(watches.drop_last(), a, b, now);
    }
}

/// A process is killed because its scan was stopped, whatever its time; else it is killed exactly
/// once its time is up; and nothing else kills it.
pub proof fn law_processes_are_killed_when_time_is_up(
    watches: Seq<Watch>,
    stopped: Seq<bool>,
    now: u64,
    i: int,
)
    requires
        0 <= i < watches.len(),
        stopped.len() == watches.len(),
    ensures
        stopped[i] ==> killed(watches, stopped, now).contains((watches[i].id, KillReason::Stopped)),
        !stopped[i] && now >= watches[i].deadline ==> killed(watches, stopped, now).contains(
            (watches[i].id, KillReason::TimedOut),
        ),
        !stopped[i] && now < watches[i].deadline ==> spared(watches, stopped, now).contains(
            watches[i],
        ),
        killed(watches, stopped, now).len() == tally::tally(
            watches.len() as int,
            |k: int| stopped[k] || now >= watches[k].deadline,
        ),
        spared(watches, stopped, now).len() + killed(watches, stopped, now).len() == watches.len(),
{
    law_processes_are_judged_independently(watches, stopped, now, i);
    lemma_killed_count(watches, stopped, now);
}

proof fn lemma_killed_count(watches: Seq<Watch>, stopped: Seq<bool>, now: u64)
    ensures
        killed(watches, stopped, now).len() == tally::tally(
            watches.len() as int,
            |k: int| stopped[k] || now >= watches[k].deadline,
        ),
    decreases watches.len(),
{
    if watches.len() > 0 {
        let front = watches.drop_last();
        lemma_killed_count(front, stopped, now);
        tally::lemma_tally_of_same(
            front.len() as int,
            |k: int| stopped[k] || now >= front[k].deadline,
            |k: int| stopped[k] || now >= watches[k].deadline,
        );
    }
}

/// A process that is no longer watched is not in the list, and every other one still is.
pub proof fn law_unwatched_processes_are_gone(watches: Seq<Watch>, id: u64, watch: Watch)
    ensures
        without(watches, id).contains(watch) <==> watches.contains(watch) && watch.id != id,
    decreases watches.len(),
{
    if watches.len() > 0 {
        let front = watches.drop_last();
        law_unwatched_processes_are_gone(front, id, watch);
        let was = without(front, id);
        let now = without(watches, id);
        if watches.contains(watch) {
            let k = watches.index_of(watch);
            if k < front.len() {
                assert(front[k] == watch);
            }
        }
        if front.contains(watch) {
            assert(watches[front.index_of(watch)] == watch);
        }
        if was.contains(watch) {
            assert(now[was.index_of(watch)] == watch);
        }
        if now.contains(watch) {
            let k = now.index_of(watch);
            if k < was.len() {
                assert(was[k] == watch);
            }
        }
        assert(watches[watches.len() - 1] == watches.last());
        if watches.last().id != id {
            assert(now[now.len() - 1] == watches.last());
        }
    }
}

} // verus!
