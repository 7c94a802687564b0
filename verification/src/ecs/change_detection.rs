//! Tick counters and the per-component tick records used for change
//! detection.

use std::marker::PhantomData;
use vstd::prelude::*;
use crate::ecs::archetype::{lemma_archetype_wf, lemma_sorted_index_of, Archetype};
use crate::ecs::component::ComponentId;

verus! {

/// Number of ticks from `then` to `current` on a clock that wraps at 2^32.
pub open spec fn ticks_since(current: u32, then: u32) -> int {
    if current >= then {
        current - then
    } else {
        current - then + 0x1_0000_0000
    }
}

/// A monotonic tick counter used for change detection. Each frame the world
/// increments its tick, and component writes record the current tick.
#[derive(Clone, Copy, Debug, PartialEq, Eq, Structural, PartialOrd, Ord, Hash, Default)]
pub struct Tick(pub u32);

impl Tick {
    /// The tick at which every clock starts.
    pub fn zero() -> (t: Self)
        ensures
            t.0 == 0,
    {
        Tick(0)
    }

    pub fn new(value: u32) -> (t: Self)
        ensures
            t.0 == value,
    {
        Tick(value)
    }

    pub fn get(self) -> (r: u32)
        ensures
            r == self.0,
    {
        self.0
    }

    /// Is this tick newer than `last_seen`, both counted back from
    /// `current_tick` on a clock that wraps at 2^32: fewer ticks lie between
    /// it and `current_tick` than between `last_seen` and `current_tick`.
    pub fn is_newer_than(self, last_seen: Tick, current_tick: Tick) -> (r: bool)
        ensures
            r == (ticks_since(current_tick.0, last_seen.0) > ticks_since(current_tick.0, self.0)),
    {
        current_tick.0.wrapping_sub(last_seen.0) > current_tick.0.wrapping_sub(self.0)
    }

    /// Was this tick set within the last `window` ticks before `current`,
    /// counting on a wrapping clock?
    pub fn is_within(self, current: Tick, window: u32) -> (r: bool)
        ensures
            r == (ticks_since(current.0, self.0) <= window),
    {
        current.0.wrapping_sub(self.0) <= window
    }
}

/// Query item marker yielding a component together with its tick record.
pub struct ChangeTrackers<T> {
    _marker: PhantomData<T>,
}

/// A component value together with when it was last changed and when it
/// was added, seen at `world_tick`.
#[derive(Debug)]
pub struct ChangeTrackersItem<'w, T> {
    pub value: &'w T,
    pub change_tick: Tick,
    pub added_tick: Tick,
    pub world_tick: Tick,
}

impl<'w, T> ChangeTrackersItem<'w, T> {
    /// Was the component modified on the current tick?
    pub fn is_changed(&self) -> (r: bool)
        ensures
            r == (self.change_tick.0 == self.world_tick.0),
    {
        self.change_tick.0 == self.world_tick.0
    }

    /// Was the component added on the current tick?
    pub fn is_added(&self) -> (r: bool)
        ensures
            r == (self.added_tick.0 == self.world_tick.0),
    {
        self.added_tick.0 == self.world_tick.0
    }

    /// Was the component modified within the last `window` ticks?
    pub fn changed_within(&self, window: u32) -> (r: bool)
        ensures
            r == (ticks_since(self.world_tick.0, self.change_tick.0) <= window),
    {
        self.change_tick.is_within(self.world_tick, window)
    }

    /// Was the component added within the last `window` ticks?
    pub fn added_within(&self, window: u32) -> (r: bool)
        ensures
            r == (ticks_since(self.world_tick.0, self.added_tick.0) <= window),
    {
        self.added_tick.is_within(self.world_tick, window)
    }
}

/// Tick record of one component on one entity.
#[derive(Clone, Copy, Debug, PartialEq, Eq, Structural)]
pub struct ComponentTicks {
    pub added: Tick,
    pub changed: Tick,
}

impl ComponentTicks {
    pub fn new(added: Tick, changed: Tick) -> (r: Self)
        ensures
            r.added == added,
            r.changed == changed,
    {
        ComponentTicks { added, changed }
    }

    /// Was the component added at exactly `tick`?
    pub fn is_added_at(&self, tick: Tick) -> (r: bool)
        ensures
            r == (self.added == tick),
    {
        self.added.0 == tick.0
    }

    /// Was the component changed at exactly `tick`?
    pub fn is_changed_at(&self, tick: Tick) -> (r: bool)
        ensures
            r == (self.changed == tick),
    {
        self.changed.0 == tick.0
    }

    /// Was the component added within `window` ticks before `current`?
    pub fn added_within(&self, current: Tick, window: u32) -> (r: bool)
        ensures
            r == (ticks_since(current.0, self.added.0) <= window),
    {
        self.added.is_within(current, window)
    }

    /// Was the component changed within `window` ticks before `current`?
    pub fn changed_within(&self, current: Tick, window: u32) -> (r: bool)
        ensures
            r == (ticks_since(current.0, self.changed.0) <= window),
    {
        self.changed.is_within(current, window)
    }
}

/// A tick is always within any window of itself, and a window of `w` covers
/// exactly the `w + 1` ticks up to the current one.
pub proof fn lemma_within_window(then: u32, current: u32, window: u32)
    ensures
        then == current ==> ticks_since(current, then) <= window,
        then <= current ==> (ticks_since(current, then) <= window <==> current - then <= window),
{
}


/// Which rows a query keeps, by the ticks of one of their components.
pub enum TickFilter {
    /// The component was written during the current tick.
    Changed(ComponentId),
    /// The component was added during the current tick.
    Added(ComponentId),
    /// The component was written within the last `window` ticks.
    ChangedWithin(ComponentId, u32),
    /// Either filter keeps the row.
    Or(Box<TickFilter>, Box<TickFilter>),
}

/// Row `row` of archetype `a` passes filter `f` at tick `now`: it has the
/// filter's component, and that component's ticks fit the filter.
pub open spec fn filter_holds(f: TickFilter, a: Archetype, row: int, now: u32) -> bool
    decreases f,
{
    match f {
        TickFilter::Changed(k) => a.ids_view().contains(k) && a.change_view(a.ids_view().index_of(k))[row] == now,
        TickFilter::Added(k) => a.ids_view().contains(k) && a.added_view(a.ids_view().index_of(k))[row] == now,
        TickFilter::ChangedWithin(k, w) => a.ids_view().contains(k) && ticks_since(
            now,
            a.change_view(a.ids_view().index_of(k))[row],
        ) <= w,
        TickFilter::Or(x, y) => filter_holds(*x, a, row, now) || filter_holds(*y, a, row, now),
    }
}

impl TickFilter {
    /// Does row `row` of `a` pass this filter at tick `now`?
    pub fn holds(&self, a: &Archetype, row: usize, now: u32) -> (r: bool)
        requires
            a.wf(),
            row < a.entities_view().len(),
        ensures
            r == filter_holds(*self, *a, row as int, now),
        decreases self,
    {
        proof {
            lemma_archetype_wf(*a);
        }
        match self {
            TickFilter::Changed(k) => match a.column_index(*k) {
                Some(c) => {
                    proof {
                        lemma_sorted_index_of(a.ids_view(), c as int, *k);
                    }
                    a.change_tick(c, row) == now
                },
                None => false,
            },
            TickFilter::Added(k) => match a.column_index(*k) {
                Some(c) => {
                    proof {
                        lemma_sorted_index_of(a.ids_view(), c as int, *k);
                    }
                    a.added_tick(c, row) == now
                },
                None => false,
            },
            TickFilter::ChangedWithin(k, w) => match a.column_index(*k) {
                Some(c) => {
                    proof {
                        lemma_sorted_index_of(a.ids_view(), c as int, *k);
                    }
                    Tick(a.change_tick(c, row)).is_within(Tick(now), *w)
                },
                None => false,
            },
            TickFilter::Or(x, y) => x.holds(a, row, now) || y.holds(a, row, now),
        }
    }
}

} // verus!
