//! Periodic timers that drive animations.
//!
//! Times are nanoseconds on a monotonic clock chosen by the caller (for
//! example, elapsed time since the event loop started). The registry decides
//! which timers are due and when the loop must wake up next; the caller owns
//! the callbacks and runs the ones whose ids come back as fired.

use vstd::prelude::*;

verus! {

/// One registered timer.
#[derive(Debug, Clone, Copy, PartialEq, Eq, Structural)]
pub struct TimerEntry {
    pub id: u64,
    /// Period between two firings.
    pub interval: u64,
    /// Time of the next firing.
    pub next_fire: u64,
}

/// All registered timers, in registration order.
pub struct TimerRegistry {
    entries: Vec<TimerEntry>,
    next_id: u64,
}

/// The registry as plain values.
pub struct RegistryModel {
    pub entries: Seq<TimerEntry>,
    /// Id that the next registration receives.
    pub next_id: u64,
}

impl View for TimerRegistry {
    type V = RegistryModel;

    closed spec fn view(&self) -> RegistryModel {
        RegistryModel { entries: self.entries@, next_id: self.next_id }
    }
}

/// Ids are positive, below the next id, and distinct.
pub open spec fn registry_wf(m: RegistryModel) -> bool {
    &&& m.next_id >= 1
    &&& forall|i: int| 0 <= i < m.entries.len() ==> 1 <= (#[trigger] m.entries[i]).id < m.next_id
    &&& forall|i: int, j: int|
        0 <= i < j < m.entries.len() ==> (#[trigger] m.entries[i]).id != (#[trigger] m.entries[j]).id
}

/// Whether the timer `id` is registered.
pub open spec fn has_timer(m: RegistryModel, id: u64) -> bool {
    exists|i: int| 0 <= i < m.entries.len() && (#[trigger] m.entries[i]).id == id
}

/// A timer after a tick at `now`: when due, it is rescheduled one interval
/// after `now`.
pub open spec fn ticked(e: TimerEntry, now: u64) -> TimerEntry {
    if now >= e.next_fire {
        TimerEntry { next_fire: (now + e.interval) as u64, ..e }
    } else {
        e
    }
}

/// Ids of the timers among the first `n` that are due at `now`, in order.
pub open spec fn due_ids(entries: Seq<TimerEntry>, now: u64, n: int) -> Seq<u64>
    decreases n,
{
    if n <= 0 {
        Seq::empty()
    } else {
        let p = due_ids(entries, now, n - 1);
        if now >= entries[n - 1].next_fire {
            p.push(entries[n - 1].id)
        } else {
            p
        }
    }
}

/// The earliest `next_fire` among the first `n` timers, or `None` when
/// there are none.
pub open spec fn earliest(entries: Seq<TimerEntry>, n: int) -> Option<u64>
    decreases n,
{
    if n <= 0 {
        None
    } else {
        let t = entries[n - 1].next_fire;
        match earliest(entries, n - 1) {
            Some(m) => Some(if t < m { t } else { m }),
            None => Some(t),
        }
    }
}

/// Every timer can be rescheduled at `now` without leaving the clock range.
pub open spec fn reschedulable(m: RegistryModel, now: u64) -> bool {
    forall|i: int| 0 <= i < m.entries.len() ==> now + (#[trigger] m.entries[i]).interval <= u64::MAX
}

/// What a tick decided.
pub struct TickResult {
    /// Ids of the timers that fired, in registration order.
    pub fired: Vec<u64>,
    /// When the loop must wake up next; `None` when no timer is registered.
    pub next: Option<u64>,
}

impl TickResult {
    /// Whether any timer fired (the caller then requests a redraw).
    pub fn any_fired(&self) -> (r: bool)
        ensures
            r == (self.fired@.len() > 0),
    {
        self.fired.len() > 0
    }
}

impl TimerRegistry {
    pub fn new() -> (r: Self)
        ensures
            r@.entries == Seq::<TimerEntry>::empty(),
            r@.next_id == 1,
            registry_wf(r@),
    {
        TimerRegistry { entries: Vec::new(), next_id: 1 }
    }

    /// The registered timers.
    pub fn len(&self) -> (r: usize)
        ensures
            r == self@.entries.len(),
    {
        self.entries.len()
    }

    /// Whether every timer can be rescheduled at `now` without leaving the
    /// clock range (what `tick` needs).
    pub fn can_tick(&self, now: u64) -> (r: bool)
        ensures
            r == reschedulable(self@, now),
    {
        let mut i: usize = 0;
        while i < self.entries.len()
            invariant
                i <= self.entries@.len(),
                forall|k: int| 0 <= k < i ==> now + (#[trigger] self.entries@[k]).interval <= u64::MAX,
            decreases self.entries@.len() - i,
        {
            if self.entries[i].interval > u64::MAX - now {
                assert(now + self@.entries[i as int].interval > u64::MAX);
                return false;
            }
            i = i + 1;
        }
        true
    }

    /// Whether the timer `id` is registered.
    pub fn contains(&self, id: u64) -> (r: bool)
        ensures
            r == has_timer(self@, id),
    {
        let mut i: usize = 0;
        while i < self.entries.len()
            invariant
                i <= self.entries.len(),
                forall|j: int| 0 <= j < i ==> (#[trigger] self.entries@[j]).id != id,
            decreases self.entries.len() - i,
        {
            if self.entries[i].id == id {
                assert(self@.entries[i as int].id == id);
                return true;
            }
            i = i + 1;
        }
        false
    }

    /// Registers a timer that first fires one interval after `now`; returns
    /// its id.
    pub fn register(&mut self, interval: u64, now: u64) -> (id: u64)
        requires
            registry_wf(old(self)@),
            old(self)@.next_id < u64::MAX,
            now + interval <= u64::MAX,
        ensures
            registry_wf(final(self)@),
            id == old(self)@.next_id,
            final(self)@.next_id == old(self)@.next_id + 1,
            final(self)@.entries == old(self)@.entries.push(
                TimerEntry { id, interval, next_fire: (now + interval) as u64 },
            ),
    {
        let id = self.next_id;
        self.next_id = self.next_id + 1;
        self.entries.push(TimerEntry { id, interval, next_fire: now + interval });
        proof {
            let es = self.entries@;
            assert forall|a: int, b: int| 0 <= a < b < es.len() implies (#[trigger] es[a]).id
                != (#[trigger] es[b]).id by {
                if b == es.len() - 1 {
                    assert(es[a] == old(self)@.entries[a]);
                } else {
                    assert(es[a] == old(self)@.entries[a]);
                    assert(es[b] == old(self)@.entries[b]);
                }
            }
            assert forall|k: int| 0 <= k < es.len() implies 1 <= (#[trigger] es[k]).id < self.next_id by {
                if k < es.len() - 1 {
                    assert(es[k] == old(self)@.entries[k]);
                }
            }
        }
        id
    }

    /// Removes the timer `id`; returns whether it was registered.
    pub fn unregister(&mut self, id: u64) -> (found: bool)
        requires
            registry_wf(old(self)@),
        ensures
            registry_wf(final(self)@),
            found == has_timer(old(self)@, id),
            final(self)@.next_id == old(self)@.next_id,
            found ==> exists|k: int|
                0 <= k < old(self)@.entries.len() && (#[trigger] old(self)@.entries[k]).id == id
                    && final(self)@.entries == old(self)@.entries.remove(k),
            !found ==> final(self)@.entries == old(self)@.entries,
            !has_timer(final(self)@, id),
    {
        let mut i: usize = 0;
        while i < self.entries.len()
            invariant
                self.entries@ == old(self)@.entries,
                self.next_id == old(self)@.next_id,
                registry_wf(old(self)@),
                i <= self.entries.len(),
                forall|j: int| 0 <= j < i ==> (#[trigger] self.entries@[j]).id != id,
            decreases self.entries.len() - i,
        {
            if self.entries[i].id == id {
                let ghost before = self.entries@;
                self.entries.remove(i);
                proof {
                    let after = self.entries@;
                    assert(after =~= before.remove(i as int));
                    assert forall|a: int, b: int| 0 <= a < b < after.len() implies (#[trigger] after[a]).id
                        != (#[trigger] after[b]).id by {
                        let a0 = if a < i { a } else { a + 1 };
                        let b0 = if b < i { b } else { b + 1 };
                        assert(after[a] == before[a0]);
                        assert(after[b] == before[b0]);
                        assert(a0 < b0);
                    }
                    assert forall|k: int| 0 <= k < after.len() implies (#[trigger] after[k]).id != id by {
                        let k0 = if k < i { k } else { k + 1 };
                        assert(after[k] == before[k0]);
                        assert(k0 != i);
                        assert(before[k0].id != before[i as int].id);
                    }
                    assert(before[i as int].id == id);
                }
                return true;
            }
            i = i + 1;
        }
        false
    }
}

/// The earliest firing time is a lower bound of all firing times and is one
/// of them; there is one exactly when some timer is registered.
pub proof fn lemma_earliest_is_min(entries: Seq<TimerEntry>, n: int)
    requires
        0 <= n <= entries.len(),
    ensures
        earliest(entries, n) is Some <==> n > 0,
        earliest(entries, n) matches Some(m) ==> (forall|i: int|
            0 <= i < n ==> m <= (#[trigger] entries[i]).next_fire) && (exists|i: int|
            0 <= i < n && (#[trigger] entries[i]).next_fire == m),
    decreases n,
{
    if n > 0 {
        lemma_earliest_is_min(entries, n - 1);
        let t = entries[n - 1].next_fire;
        match earliest(entries, n - 1) {
            Some(m) => {
                if t < m {
                    assert(entries[n - 1].next_fire == t);
                } else {
                    let w = choose|i: int| 0 <= i < n - 1 && (#[trigger] entries[i]).next_fire == m;
                    assert(entries[w].next_fire == m);
                }
            },
            None => {
                assert(entries[n - 1].next_fire == t);
            },
        }
    }
}

/// Advances every due timer at `now`. Returns the ids that fired and the
/// time at which the loop must wake up next.
pub fn tick(registry: &mut TimerRegistry, now: u64) -> (r: TickResult)
    requires
        registry_wf(old(registry)@),
        reschedulable(old(registry)@, now),
    ensures
        ({
            let o = old(registry)@.entries;
            let n = final(registry)@.entries;
            &&& registry_wf(final(registry)@)
            &&& final(registry)@.next_id == old(registry)@.next_id
            &&& n.len() == o.len()
            &&& forall|i: int| 0 <= i < o.len() ==> #[trigger] n[i] == ticked(o[i], now)
            &&& r.fired@ == due_ids(o, now, o.len() as int)
            &&& r.next == earliest(n, n.len() as int)
        }),
{
    let ghost o = registry.entries@;
    let mut fired: Vec<u64> = Vec::new();
    let mut i: usize = 0;
    while i < registry.entries.len()
        invariant
            registry.next_id == old(registry)@.next_id,
            registry.entries@.len() == o.len(),
            o == old(registry)@.entries,
            registry_wf(old(registry)@),
            reschedulable(old(registry)@, now),
            i <= o.len(),
            forall|k: int| 0 <= k < i ==> #[trigger] registry.entries@[k] == ticked(o[k], now),
            forall|k: int| i <= k < o.len() ==> #[trigger] registry.entries@[k] == o[k],
            fired@ == due_ids(o, now, i as int),
        decreases o.len() - i,
    {
        let e = registry.entries[i];
        if now >= e.next_fire {
            assert(now + o[i as int].interval <= u64::MAX);
            registry.entries.set(i, TimerEntry { next_fire: now + e.interval, ..e });
            fired.push(e.id);
        }
        i = i + 1;
    }
    proof {
        let es = registry.entries@;
        assert forall|a: int, b: int| 0 <= a < b < es.len() implies (#[trigger] es[a]).id
            != (#[trigger] es[b]).id by {
            assert(es[a].id == o[a].id);
            assert(es[b].id == o[b].id);
        }
        assert forall|k: int| 0 <= k < es.len() implies 1 <= (#[trigger] es[k]).id < registry.next_id by {
            assert(es[k].id == o[k].id);
        }
    }
    let mut next: Option<u64> = None;
    let mut k: usize = 0;
    while k < registry.entries.len()
        invariant
            k <= registry.entries.len(),
            next == earliest(registry.entries@, k as int),
        decreases registry.entries.len() - k,
    {
        let t = registry.entries[k].next_fire;
        next = match next {
            Some(m) => Some(if t < m { t } else { m }),
            None => Some(t),
        };
        k = k + 1;
    }
    TickResult { fired, next }
}

/// After a tick no timer is scheduled before `now`, and a timer with a
/// positive period is scheduled strictly after it.
pub proof fn lemma_tick_reschedules(o: Seq<TimerEntry>, now: u64, i: int)
    requires
        0 <= i < o.len(),
        now + o[i].interval <= u64::MAX,
    ensures
        now >= o[i].next_fire ==> ticked(o[i], now).next_fire == now + o[i].interval,
        now < o[i].next_fire ==> ticked(o[i], now).next_fire > now,
        ticked(o[i], now).id == o[i].id && ticked(o[i], now).interval == o[i].interval,
{
}

/// A handle to a registered periodic timer.
pub struct Animation {
    id: u64,
}

impl Animation {
    /// Registers a timer that fires every `interval`, first one interval
    /// after `now`.
    pub fn new(registry: &mut TimerRegistry, interval: u64, now: u64) -> (r: Animation)
        requires
            registry_wf(old(registry)@),
            old(registry)@.next_id < u64::MAX,
            now + interval <= u64::MAX,
        ensures
            registry_wf(final(registry)@),
            r.id() == old(registry)@.next_id,
            final(registry)@.next_id == old(registry)@.next_id + 1,
            final(registry)@.entries == old(registry)@.entries.push(
                TimerEntry { id: r.id(), interval, next_fire: (now + interval) as u64 },
            ),
    {
        let id = registry.register(interval, now);
        Animation { id }
    }

    pub closed spec fn id(&self) -> u64 {
        self.id
    }

    /// The id under which the timer is registered.
    pub fn timer_id(&self) -> (r: u64)
        ensures
            r == self.id(),
    {
        self.id
    }

    /// Cancels the timer.
    pub fn cancel(self, registry: &mut TimerRegistry) -> (found: bool)
        requires
            registry_wf(old(registry)@),
        ensures
            registry_wf(final(registry)@),
            found == has_timer(old(registry)@, self.id()),
            !has_timer(final(registry)@, self.id()),
    {
        registry.unregister(self.id)
    }
}

} // verus!
