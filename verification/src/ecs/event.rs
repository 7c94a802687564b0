//! Double-buffered event queues.

use vstd::prelude::*;
use vstd::std_specs::iter::IteratorSpec;
use crate::ecs::keyed::{find_key, keyed_map, keys_distinct, lemma_keyed_at, lemma_keyed_push, lemma_keyed_update};

verus! {

/// Double-buffered event storage. Writers push to the active buffer; after
/// `swap()`, readers see those events while the other buffer is cleared for
/// new writes.
pub struct EventQueue<T> {
    /// Two buffers: one for writing, one for reading.
    front: Vec<T>,
    back: Vec<T>,
    /// Whether `front` is the write buffer (otherwise `back` is).
    write_front: bool,
}

/// `b` is `a` after a swap: `a`'s pending events are readable in `b`, and
/// nothing is pending.
pub open spec fn swapped<T>(a: EventQueue<T>, b: EventQueue<T>) -> bool {
    &&& b.readable() == a.pending()
    &&& b.pending() == Seq::<T>::empty()
}

impl<T> EventQueue<T> {
    /// Events written since the last swap.
    pub closed spec fn pending(&self) -> Seq<T> {
        if self.write_front {
            self.front@
        } else {
            self.back@
        }
    }

    /// Events readable this frame: those written before the last swap.
    pub closed spec fn readable(&self) -> Seq<T> {
        if self.write_front {
            self.back@
        } else {
            self.front@
        }
    }

    pub fn new() -> (q: Self)
        ensures
            q.pending() == Seq::<T>::empty(),
            q.readable() == Seq::<T>::empty(),
    {
        EventQueue { front: Vec::new(), back: Vec::new(), write_front: true }
    }

    /// Push an event into the current write buffer.
    pub fn send(&mut self, event: T)
        ensures
            final(self).pending() == old(self).pending().push(event),
            final(self).readable() == old(self).readable(),
    {
        if self.write_front {
            self.front.push(event);
        } else {
            self.back.push(event);
        }
    }

    /// Swap buffers: what was written becomes readable, and the new write
    /// buffer starts empty.
    pub fn swap(&mut self)
        ensures
            swapped(*old(self), *final(self)),
    {
        self.write_front = !self.write_front;
        if self.write_front {
            self.front.clear();
        } else {
            self.back.clear();
        }
    }

    /// The events written last frame.
    pub fn read(&self) -> (r: &[T])
        ensures
            r@ == self.readable(),
    {
        if self.write_front {
            self.back.as_slice()
        } else {
            self.front.as_slice()
        }
    }

    /// Number of readable events.
    pub fn len(&self) -> (r: usize)
        ensures
            r == self.readable().len(),
    {
        if self.write_front {
            self.back.len()
        } else {
            self.front.len()
        }
    }

    pub fn is_empty(&self) -> (r: bool)
        ensures
            r == (self.readable().len() == 0),
    {
        self.len() == 0
    }
}

impl<T> Default for EventQueue<T> {
    fn default() -> (q: Self)
        ensures
            q.pending() == Seq::<T>::empty(),
            q.readable() == Seq::<T>::empty(),
    {
        EventQueue::new()
    }
}

/// Read-only view of the events of a queue from the previous frame.
pub struct EventReader<'a, T> {
    queue: &'a EventQueue<T>,
}

impl<'a, T> EventReader<'a, T> {
    pub closed spec fn queue_view(&self) -> EventQueue<T> {
        *self.queue
    }

    pub fn new(queue: &'a EventQueue<T>) -> (r: Self)
        ensures
            r.queue_view() == *queue,
    {
        EventReader { queue }
    }

    /// The readable events.
    pub fn read(&self) -> (r: &[T])
        ensures
            r@ == self.queue_view().readable(),
    {
        self.queue.read()
    }

    pub fn len(&self) -> (r: usize)
        ensures
            r == self.queue_view().readable().len(),
    {
        self.queue.len()
    }

    pub fn is_empty(&self) -> (r: bool)
        ensures
            r == (self.queue_view().readable().len() == 0),
    {
        self.queue.is_empty()
    }

    /// Iterate the readable events.
    pub fn iter(&self) -> (r: std::slice::Iter<'_, T>)
        ensures
            IteratorSpec::remaining(&r) == self.queue_view().readable().as_ref(),
    {
        broadcast use vstd::std_specs::slice::axiom_spec_slice_iter;
        self.queue.read().iter()
    }
}

/// Write-only view pushing events into the current frame's write buffer.
pub struct EventWriter<'a, T> {
    queue: &'a mut EventQueue<T>,
}

impl<'a, T> EventWriter<'a, T> {
    pub closed spec fn queue_view(&self) -> EventQueue<T> {
        *self.queue
    }

    pub fn new(queue: &'a mut EventQueue<T>) -> (w: Self)
        ensures
            w.queue_view() == *old(queue),
    {
        EventWriter { queue }
    }

    /// Push an event into the queue's write buffer.
    pub fn send(&mut self, event: T)
        ensures
            final(self).queue_view().pending() == old(self).queue_view().pending().push(event),
            final(self).queue_view().readable() == old(self).queue_view().readable(),
    {
        self.queue.send(event);
    }
}

/// Event queues of byte records, one per event type key.
pub struct EventStorage {
    queues: Vec<(u64, EventQueue<Vec<u8>>)>,
}

impl View for EventStorage {
    type V = Map<u64, EventQueue<Vec<u8>>>;

    closed spec fn view(&self) -> Map<u64, EventQueue<Vec<u8>>> {
        keyed_map(self.queues@)
    }
}

impl EventStorage {
    /// The queues hold distinct keys.
    pub closed spec fn wf(&self) -> bool {
        keys_distinct(self.queues@)
    }

    /// No queues yet.
    pub fn new() -> (r: Self)
        ensures
            r.wf(),
            r@ == Map::<u64, EventQueue<Vec<u8>>>::empty(),
    {
        let r = EventStorage { queues: Vec::new() };
        proof {
            assert(r@ =~= Map::<u64, EventQueue<Vec<u8>>>::empty());
        }
        r
    }

    /// Give event type `key` an empty queue, unless it has one already.
    pub fn register(&mut self, key: u64)
        requires
            old(self).wf(),
        ensures
            final(self).wf(),
            old(self)@.contains_key(key) ==> final(self)@ == old(self)@,
            !old(self)@.contains_key(key) ==> final(self)@ == old(self)@.insert(key, final(self)@[key])
                && final(self)@[key].pending() == Seq::<Vec<u8>>::empty()
                && final(self)@[key].readable() == Seq::<Vec<u8>>::empty(),
    {
        let ghost e = self.queues@;
        match find_key(&self.queues, key) {
            Some(i) => {
                proof {
                    lemma_keyed_at(e, i as int);
                }
            },
            None => {
                let q = EventQueue::new();
                proof {
                    lemma_keyed_push(e, key, q);
                    lemma_keyed_at(e.push((key, q)), e.len() as int);
                }
                self.queues.push((key, q));
            },
        }
    }

    /// Does event type `key` have a queue?
    pub fn contains(&self, key: u64) -> (r: bool)
        requires
            self.wf(),
        ensures
            r == self@.contains_key(key),
    {
        match find_key(&self.queues, key) {
            Some(i) => {
                proof {
                    lemma_keyed_at(self.queues@, i as int);
                }
                true
            },
            None => false,
        }
    }

    fn index_of(&self, key: u64) -> (i: usize)
        requires
            self.wf(),
            self@.contains_key(key),
        ensures
            i < self.queues@.len(),
            self.queues@[i as int].0 == key,
            self@[key] == self.queues@[i as int].1,
    {
        let i = match find_key(&self.queues, key) {
            Some(i) => i,
            None => {
                proof {
                    let j = choose|j: int| 0 <= j < self.queues@.len() && #[trigger] self.queues@[j].0 == key;
                    assert(self.queues@[j].0 != key);
                }
                0
            },
        };
        proof {
            lemma_keyed_at(self.queues@, i as int);
        }
        i
    }

    /// The queue of event type `key`, which must be registered.
    pub fn get(&self, key: u64) -> (r: &EventQueue<Vec<u8>>)
        requires
            self.wf(),
            self@.contains_key(key),
        ensures
            *r == self@[key],
    {
        let i = self.index_of(key);
        &self.queues[i].1
    }

    /// The queue of event type `key`, which must be registered, to send
    /// events into.
    pub fn get_mut(&mut self, key: u64) -> (r: &mut EventQueue<Vec<u8>>)
        requires
            old(self).wf(),
            old(self)@.contains_key(key),
        ensures
            *r == old(self)@[key],
            final(self).wf(),
            final(self)@ == old(self)@.insert(key, *final(r)),
    {
        let i = self.index_of(key);
        proof {
            lemma_keyed_update(self.queues@, i as int);
        }
        &mut self.queues[i].1
    }

    /// Swap every queue: at a frame boundary, what each type's writers sent
    /// becomes readable.
    pub fn swap_all(&mut self)
        requires
            old(self).wf(),
        ensures
            final(self).wf(),
            final(self)@.dom() == old(self)@.dom(),
            forall|k: u64| #[trigger] old(self)@.contains_key(k) ==> swapped(old(self)@[k], final(self)@[k]),
    {
        let ghost e = self.queues@;
        let mut i: usize = 0;
        while i < self.queues.len()
            invariant
                i <= self.queues@.len(),
                self.queues@.len() == e.len(),
                forall|j: int| 0 <= j < e.len() ==> (#[trigger] self.queues@[j]).0 == e[j].0,
                forall|j: int| 0 <= j < i ==> swapped(e[j].1, #[trigger] self.queues@[j].1),
                forall|j: int| i <= j < e.len() ==> #[trigger] self.queues@[j] == e[j],
            decreases e.len() - i,
        {
            self.queues[i].1.swap();
            i = i + 1;
        }
        proof {
            let f = self.queues@;
            assert(keys_distinct(f)) by {
                assert forall|a: int, b: int| 0 <= a < b < f.len() implies #[trigger] f[a].0 != #[trigger] f[b].0 by {
                    assert(f[a].0 == e[a].0);
                    assert(f[b].0 == e[b].0);
                }
            }
            assert forall|k: u64| #[trigger] keyed_map(f).contains_key(k) == keyed_map(e).contains_key(k) by {
                if keyed_map(e).contains_key(k) {
                    let j = choose|j: int| 0 <= j < e.len() && #[trigger] e[j].0 == k;
                    assert(f[j].0 == k);
                }
                if keyed_map(f).contains_key(k) {
                    let j = choose|j: int| 0 <= j < f.len() && #[trigger] f[j].0 == k;
                    assert(e[j].0 == k);
                }
            }
            assert(keyed_map(f).dom() =~= keyed_map(e).dom());
            assert forall|k: u64| #[trigger] keyed_map(e).contains_key(k) implies swapped(keyed_map(e)[k], keyed_map(f)[k]) by {
                let j = choose|j: int| 0 <= j < e.len() && #[trigger] e[j].0 == k;
                lemma_keyed_at(e, j);
                assert(f[j].0 == k);
                lemma_keyed_at(f, j);
            }
        }
    }
}

impl Default for EventStorage {
    fn default() -> (r: Self)
        ensures
            r.wf(),
            r@ == Map::<u64, EventQueue<Vec<u8>>>::empty(),
    {
        EventStorage::new()
    }
}

/// Events live for one frame: after one swap the events sent before it are
/// readable, in order; after a second swap with no sends in between they
/// are gone.
pub proof fn lemma_events_live_one_frame<T>(a: EventQueue<T>, b: EventQueue<T>, c: EventQueue<T>)
    requires
        swapped(a, b),
        swapped(b, c),
    ensures
        b.readable() == a.pending(),
        c.readable() == Seq::<T>::empty(),
{
}

} // verus!
