//! The channel table of the audio mixer: which sources play, under which
//! handles, in which state, and where each one's playback stands. Volumes,
//! panning and fades are sample arithmetic and live with the mixing loop;
//! this table decides which channel exists and which frame plays next.

use vstd::prelude::*;

verus! {

/// How many channels can play at once.
pub const MAX_CHANNELS: usize = 32;

/// Identifies a channel for as long as it exists. Handles are never reused.
#[derive(Clone, Copy, Debug, PartialEq, Eq, Hash, Structural)]
pub struct ChannelHandle(pub u32);

/// Playback state of a channel.
#[derive(Clone, Copy, Debug, PartialEq, Eq, Structural)]
pub enum PlayState {
    Playing,
    Paused,
    Stopped,
}

/// One channel: its handle, its state, whether its source loops, the next
/// frame to play and how many frames the source has.
#[derive(Clone, Copy, Debug, PartialEq, Eq, Structural)]
pub struct ChannelSlot {
    pub handle: ChannelHandle,
    pub state: PlayState,
    pub looping: bool,
    pub position: usize,
    pub frames: usize,
}

/// The channels of `s` that are not stopped, in order.
pub open spec fn live(s: Seq<ChannelSlot>) -> Seq<ChannelSlot>
    decreases s.len(),
{
    if s.len() == 0 {
        s
    } else if s.last().state == PlayState::Stopped {
        live(s.drop_last())
    } else {
        live(s.drop_last()).push(s.last())
    }
}

/// The handles of the stopped channels of `s`, in order.
pub open spec fn stopped_handles(s: Seq<ChannelSlot>) -> Seq<ChannelHandle>
    decreases s.len(),
{
    if s.len() == 0 {
        Seq::empty()
    } else if s.last().state == PlayState::Stopped {
        stopped_handles(s.drop_last()).push(s.last().handle)
    } else {
        stopped_handles(s.drop_last())
    }
}

/// No two channels of `s` share a handle.
pub open spec fn distinct_handles(s: Seq<ChannelSlot>) -> bool {
    forall|i: int, j: int| 0 <= i < s.len() && 0 <= j < s.len() && i != j ==> #[trigger] s[i].handle != #[trigger] s[j].handle
}

/// Whether state `st` is one of those flagged.
pub open spec fn accepts(st: PlayState, playing: bool, paused: bool, stopped: bool) -> bool {
    match st {
        PlayState::Playing => playing,
        PlayState::Paused => paused,
        PlayState::Stopped => stopped,
    }
}

/// `c` with its state set to `to` when it has handle `h` and its state is
/// one of those flagged.
pub open spec fn set_state_if(c: ChannelSlot, h: ChannelHandle, playing: bool, paused: bool, stopped: bool, to: PlayState) -> ChannelSlot {
    if c.handle == h && accepts(c.state, playing, paused, stopped) {
        ChannelSlot { state: to, ..c }
    } else {
        c
    }
}

/// `s` with channel `h` stopped, whatever its state.
pub open spec fn stopped(s: Seq<ChannelSlot>, h: ChannelHandle) -> Seq<ChannelSlot> {
    s.map_values(|c: ChannelSlot| set_state_if(c, h, true, true, true, PlayState::Stopped))
}

/// `s` with channel `h` paused if it was playing.
pub open spec fn paused(s: Seq<ChannelSlot>, h: ChannelHandle) -> Seq<ChannelSlot> {
    s.map_values(|c: ChannelSlot| set_state_if(c, h, true, false, false, PlayState::Paused))
}

/// `s` with channel `h` playing again if it was paused.
pub open spec fn resumed(s: Seq<ChannelSlot>, h: ChannelHandle) -> Seq<ChannelSlot> {
    s.map_values(|c: ChannelSlot| set_state_if(c, h, false, true, false, PlayState::Playing))
}

/// One frame of playback of channel `c`: a channel at the end of its
/// source starts over if it loops and stops otherwise; a channel that does
/// not stop plays its current frame and moves to the next. Returns the
/// channel after the step and the frame played.
pub open spec fn step_slot(c: ChannelSlot) -> (ChannelSlot, Option<usize>) {
    if c.position >= c.frames && !c.looping {
        (ChannelSlot { state: PlayState::Stopped, ..c }, None)
    } else {
        let p = if c.position >= c.frames { 0 } else { c.position };
        (ChannelSlot { position: (p + 1) as usize, ..c }, Some(p))
    }
}

proof fn lemma_live(s: Seq<ChannelSlot>)
    ensures
        live(s).len() <= s.len(),
        forall|j: int| 0 <= j < live(s).len() ==> exists|i: int| 0 <= i < s.len() && s[i] == #[trigger] live(s)[j],
        forall|j: int| 0 <= j < live(s).len() ==> (#[trigger] live(s)[j]).state != PlayState::Stopped,
        distinct_handles(s) ==> distinct_handles(live(s)),
    decreases s.len(),
{
    if s.len() > 0 {
        let d = s.drop_last();
        lemma_live(d);
        assert forall|j: int| 0 <= j < live(d).len() implies exists|i: int| 0 <= i < s.len() && s[i] == #[trigger] live(d)[j] by {
            let i = choose|i: int| 0 <= i < d.len() && d[i] == live(d)[j];
            assert(s[i] == d[i]);
        }
        if distinct_handles(s) {
            assert(distinct_handles(d)) by {
                assert forall|i: int, j: int| 0 <= i < d.len() && 0 <= j < d.len() && i != j implies #[trigger] d[i].handle
                    != #[trigger] d[j].handle by {
                    assert(d[i] == s[i] && d[j] == s[j]);
                }
            }
            if s.last().state != PlayState::Stopped {
                let l = live(s);
                assert forall|a: int, b: int| 0 <= a < l.len() && 0 <= b < l.len() && a != b implies #[trigger] l[a].handle
                    != #[trigger] l[b].handle by {
                    if a == l.len() - 1 {
                        let i = choose|i: int| 0 <= i < d.len() && d[i] == live(d)[b];
                        assert(d[i] == s[i]);
                        assert(s[i].handle != s[s.len() - 1].handle);
                    } else if b == l.len() - 1 {
                        let i = choose|i: int| 0 <= i < d.len() && d[i] == live(d)[a];
                        assert(d[i] == s[i]);
                        assert(s[i].handle != s[s.len() - 1].handle);
                    } else {
                        assert(l[a] == live(d)[a] && l[b] == live(d)[b]);
                    }
                }
            }
        }
    }
}

/// The channels of a mixer, with the handle the next channel gets.
pub struct ChannelTable {
    slots: Vec<ChannelSlot>,
    next_handle: u32,
}

impl ChannelTable {
    pub closed spec fn slots_view(&self) -> Seq<ChannelSlot> {
        self.slots@
    }

    pub closed spec fn next_view(&self) -> u32 {
        self.next_handle
    }

    /// At most `MAX_CHANNELS` channels, with distinct handles, each below
    /// the next one to be handed out.
    #[verifier::type_invariant]
    spec fn well_formed(&self) -> bool {
        &&& self.slots@.len() <= MAX_CHANNELS
        &&& distinct_handles(self.slots@)
        &&& forall|i: int| 0 <= i < self.slots@.len() ==> (#[trigger] self.slots@[i]).handle.0 < self.next_handle
        &&& self.next_handle >= 1
    }

    /// An empty table; the first handle is 1.
    pub fn new() -> (t: Self)
        ensures
            t.slots_view() == Seq::<ChannelSlot>::empty(),
            t.next_view() == 1,
    {
        ChannelTable { slots: Vec::new(), next_handle: 1 }
    }

    /// The number of channels, playing or paused (or stopped and not yet
    /// removed).
    pub fn active_channels(&self) -> (r: usize)
        ensures
            r == self.slots_view().len(),
    {
        self.slots.len()
    }

    /// The channels, in the order they were started. There are at most
    /// `MAX_CHANNELS` of them, under distinct handles that are all below
    /// the next handle to be handed out.
    pub fn slots(&self) -> (r: &[ChannelSlot])
        ensures
            r@ == self.slots_view(),
            r@.len() <= MAX_CHANNELS,
            distinct_handles(r@),
            forall|i: int| 0 <= i < r@.len() ==> (#[trigger] r@[i]).handle.0 < self.next_view(),
    {
        proof {
            use_type_invariant(self);
        }
        self.slots.as_slice()
    }

    /// The handle the next channel will get.
    pub fn next_handle(&self) -> (r: u32)
        ensures
            r == self.next_view(),
    {
        self.next_handle
    }

    /// Drop the stopped channels, keeping the order of the others; returns
    /// the handles dropped.
    pub fn remove_stopped(&mut self) -> (removed: Vec<ChannelHandle>)
        ensures
            final(self).slots_view() == live(old(self).slots_view()),
            removed@ == stopped_handles(old(self).slots_view()),
            final(self).next_view() == old(self).next_view(),
    {
        proof {
            use_type_invariant(&*self);
        }
        let ghost old_slots = self.slots@;
        let mut kept: Vec<ChannelSlot> = Vec::new();
        let mut removed: Vec<ChannelHandle> = Vec::new();
        let mut i: usize = 0;
        while i < self.slots.len()
            invariant
                self.slots@ == old_slots,
                i <= old_slots.len(),
                kept@ == live(old_slots.take(i as int)),
                removed@ == stopped_handles(old_slots.take(i as int)),
            decreases old_slots.len() - i,
        {
            let c = self.slots[i];
            proof {
                assert(old_slots.take(i + 1).drop_last() =~= old_slots.take(i as int));
                assert(old_slots.take(i + 1).last() == c);
            }
            if c.state == PlayState::Stopped {
                removed.push(c.handle);
            } else {
                kept.push(c);
            }
            i = i + 1;
        }
        proof {
            assert(old_slots.take(old_slots.len() as int) =~= old_slots);
            lemma_live(old_slots);
            assert forall|j: int| 0 <= j < kept@.len() implies (#[trigger] kept@[j]).handle.0 < self.next_handle by {
                let k = choose|k: int| 0 <= k < old_slots.len() && old_slots[k] == live(old_slots)[j];
                assert(old_slots[k].handle.0 < self.next_handle);
            }
        }
        self.slots = kept;
        removed
    }

    /// Start a channel for a source of `frames` frames: stopped channels
    /// are dropped first, then, when fewer than `MAX_CHANNELS` remain, the
    /// new channel is added, playing from frame 0, under a fresh handle.
    /// Returns `None` when the table is full.
    pub fn play(&mut self, looping: bool, frames: usize) -> (r: Option<ChannelHandle>)
        requires
            live(old(self).slots_view()).len() < MAX_CHANNELS ==> old(self).next_view() < u32::MAX,
        ensures
            ({
                let kept = live(old(self).slots_view());
                &&& kept.len() >= MAX_CHANNELS ==> r is None && final(self).slots_view() == kept
                    && final(self).next_view() == old(self).next_view()
                &&& kept.len() < MAX_CHANNELS ==> r == Some(ChannelHandle(old(self).next_view()))
                    && final(self).slots_view() == kept.push(
                    ChannelSlot {
                        handle: ChannelHandle(old(self).next_view()),
                        state: PlayState::Playing,
                        looping,
                        position: 0,
                        frames,
                    },
                ) && final(self).next_view() == old(self).next_view() + 1
            }),
            r matches Some(h) ==> forall|i: int|
                0 <= i < old(self).slots_view().len() ==> (#[trigger] old(self).slots_view()[i]).handle != h,
    {
        proof {
            use_type_invariant(&*self);
        }
        let _ = self.remove_stopped();
        proof {
            use_type_invariant(&*self);
        }
        if self.slots.len() >= MAX_CHANNELS {
            return None;
        }
        let handle = ChannelHandle(self.next_handle);
        let mut slots: Vec<ChannelSlot> = Vec::new();
        std::mem::swap(&mut slots, &mut self.slots);
        slots.push(ChannelSlot { handle, state: PlayState::Playing, looping, position: 0, frames });
        let ghost s = slots@;
        proof {
            assert forall|i: int, j: int| 0 <= i < s.len() && 0 <= j < s.len() && i != j implies #[trigger] s[i].handle
                != #[trigger] s[j].handle by {
                if i < s.len() - 1 && j < s.len() - 1 {
                } else if i < s.len() - 1 {
                    assert(s[i].handle.0 < handle.0);
                } else {
                    assert(s[j].handle.0 < handle.0);
                }
            }
        }
        self.next_handle = self.next_handle + 1;
        self.slots = slots;
        Some(handle)
    }

    /// Set the state of channel `h` to `to` if its state is one of those
    /// flagged.
    fn update_state(&mut self, h: ChannelHandle, playing: bool, paused: bool, stopped: bool, to: PlayState)
        ensures
            final(self).slots_view() == old(self).slots_view().map_values(
                |c: ChannelSlot| set_state_if(c, h, playing, paused, stopped, to),
            ),
            final(self).next_view() == old(self).next_view(),
    {
        proof {
            use_type_invariant(&*self);
        }
        let ghost old_slots = self.slots@;
        let mut out: Vec<ChannelSlot> = Vec::new();
        let mut i: usize = 0;
        while i < self.slots.len()
            invariant
                self.slots@ == old_slots,
                i <= old_slots.len(),
                out@.len() == i,
                forall|k: int| 0 <= k < i ==> #[trigger] out@[k] == set_state_if(old_slots[k], h, playing, paused, stopped, to),
            decreases old_slots.len() - i,
        {
            let c = self.slots[i];
            let hit = c.handle == h && match c.state {
                PlayState::Playing => playing,
                PlayState::Paused => paused,
                PlayState::Stopped => stopped,
            };
            if hit {
                out.push(ChannelSlot { state: to, ..c });
            } else {
                out.push(c);
            }
            i = i + 1;
        }
        proof {
            let m = old_slots.map_values(|c: ChannelSlot| set_state_if(c, h, playing, paused, stopped, to));
            assert(out@ =~= m);
            assert forall|a: int, b: int| 0 <= a < m.len() && 0 <= b < m.len() && a != b implies #[trigger] m[a].handle
                != #[trigger] m[b].handle by {
                assert(m[a].handle == old_slots[a].handle && m[b].handle == old_slots[b].handle);
            }
            assert forall|k: int| 0 <= k < m.len() implies (#[trigger] m[k]).handle.0 < self.next_handle by {
                assert(m[k].handle == old_slots[k].handle);
            }
        }
        self.slots = out;
    }

    /// Stop channel `h`; it is dropped at the next `remove_stopped` or
    /// `play`. Nothing happens when no channel has that handle.
    pub fn stop(&mut self, h: ChannelHandle)
        ensures
            final(self).slots_view() == stopped(old(self).slots_view(), h),
            final(self).next_view() == old(self).next_view(),
    {
        self.update_state(h, true, true, true, PlayState::Stopped);
        proof {
            assert(self.slots@ =~= stopped(old(self).slots@, h));
        }
    }

    /// Pause channel `h` if it is playing.
    pub fn pause(&mut self, h: ChannelHandle)
        ensures
            final(self).slots_view() == paused(old(self).slots_view(), h),
            final(self).next_view() == old(self).next_view(),
    {
        self.update_state(h, true, false, false, PlayState::Paused);
        proof {
            assert(self.slots@ =~= paused(old(self).slots@, h));
        }
    }

    /// Resume channel `h` if it is paused.
    pub fn resume(&mut self, h: ChannelHandle)
        ensures
            final(self).slots_view() == resumed(old(self).slots_view(), h),
            final(self).next_view() == old(self).next_view(),
    {
        self.update_state(h, false, true, false, PlayState::Playing);
        proof {
            assert(self.slots@ =~= resumed(old(self).slots@, h));
        }
    }

    /// The state of channel `h`, or `None` when no channel has that handle.
    pub fn state(&self, h: ChannelHandle) -> (r: Option<PlayState>)
        ensures
            match r {
                Some(st) => exists|i: int|
                    0 <= i < self.slots_view().len() && #[trigger] self.slots_view()[i].handle == h
                        && self.slots_view()[i].state == st,
                None => forall|i: int| 0 <= i < self.slots_view().len() ==> #[trigger] self.slots_view()[i].handle != h,
            },
    {
        let mut i: usize = 0;
        while i < self.slots.len()
            invariant
                i <= self.slots@.len(),
                forall|k: int| 0 <= k < i ==> #[trigger] self.slots@[k].handle != h,
            decreases self.slots@.len() - i,
        {
            if self.slots[i].handle == h {
                return Some(self.slots[i].state);
            }
            i = i + 1;
        }
        None
    }

    /// Play one frame of channel `index`, as `step_slot` says: returns the
    /// frame to play, or `None` when the channel reached the end of a
    /// source that does not loop, and is now stopped.
    pub fn step(&mut self, index: usize) -> (r: Option<usize>)
        requires
            index < old(self).slots_view().len(),
        ensures
            final(self).slots_view() == old(self).slots_view().update(index as int, step_slot(old(self).slots_view()[index as int]).0),
            r == step_slot(old(self).slots_view()[index as int]).1,
            final(self).next_view() == old(self).next_view(),
    {
        proof {
            use_type_invariant(&*self);
        }
        let c = self.slots[index];
        let (next, r) = if c.position >= c.frames && !c.looping {
            (ChannelSlot { state: PlayState::Stopped, ..c }, None)
        } else {
            let p = if c.position >= c.frames { 0 } else { c.position };
            (ChannelSlot { position: p + 1, ..c }, Some(p))
        };
        let mut slots: Vec<ChannelSlot> = Vec::new();
        std::mem::swap(&mut slots, &mut self.slots);
        slots.set(index, next);
        let ghost s = slots@;
        proof {
            assert forall|a: int, b: int| 0 <= a < s.len() && 0 <= b < s.len() && a != b implies #[trigger] s[a].handle
                != #[trigger] s[b].handle by {
                assert(s[a].handle == old(self).slots@[a].handle && s[b].handle == old(self).slots@[b].handle);
            }
            assert forall|k: int| 0 <= k < s.len() implies (#[trigger] s[k]).handle.0 < self.next_handle by {
                assert(s[k].handle == old(self).slots@[k].handle);
            }
        }
        self.slots = slots;
        r
    }
}

/// Pausing a playing channel and resuming it gives back the same table.
pub proof fn lemma_pause_resume(s: Seq<ChannelSlot>, h: ChannelHandle, i: int)
    requires
        distinct_handles(s),
        0 <= i < s.len(),
        s[i].handle == h,
        s[i].state == PlayState::Playing,
    ensures
        resumed(paused(s, h), h) == s,
{
    let r = resumed(paused(s, h), h);
    assert forall|k: int| 0 <= k < s.len() implies #[trigger] r[k] == s[k] by {
        if k != i {
            assert(s[k].handle != s[i].handle);
        }
    }
    assert(r =~= s);
}

/// Stopping a channel and then removing the stopped channels leaves no
/// channel with its handle.
pub proof fn lemma_stop_then_remove(s: Seq<ChannelSlot>, h: ChannelHandle)
    ensures
        forall|j: int| 0 <= j < live(stopped(s, h)).len() ==> (#[trigger] live(stopped(s, h))[j]).handle != h,
{
    let t = stopped(s, h);
    lemma_live(t);
    assert forall|j: int| 0 <= j < live(t).len() implies (#[trigger] live(t)[j]).handle != h by {
        let k = choose|k: int| 0 <= k < t.len() && t[k] == live(t)[j];
        assert(t[k] == set_state_if(s[k], h, true, true, true, PlayState::Stopped));
    }
}


/// `a` and `b` agree on everything but, perhaps, their state.
pub open spec fn same_but_state(a: ChannelSlot, b: ChannelSlot) -> bool {
    a.handle == b.handle && a.looping == b.looping && a.position == b.position && a.frames == b.frames
}

/// What the three commands do to each channel, by its state before: `stop`
/// stops channel `h` whatever its state; `pause` pauses it only when it is
/// playing; `resume` restarts it only when it is paused, so a stopped
/// channel stays stopped and a playing one stays playing. Every other
/// channel, and every field but the state, stays as it was, and no channel
/// is added or dropped.
pub proof fn lemma_channel_commands(s: Seq<ChannelSlot>, h: ChannelHandle, k: int)
    requires
        0 <= k < s.len(),
    ensures
        stopped(s, h).len() == s.len(),
        paused(s, h).len() == s.len(),
        resumed(s, h).len() == s.len(),
        stopped(s, h)[k].state == (if s[k].handle == h { PlayState::Stopped } else { s[k].state }),
        paused(s, h)[k].state == (if s[k].handle == h && s[k].state == PlayState::Playing {
            PlayState::Paused
        } else {
            s[k].state
        }),
        resumed(s, h)[k].state == (if s[k].handle == h && s[k].state == PlayState::Paused {
            PlayState::Playing
        } else {
            s[k].state
        }),
        s[k].state == PlayState::Stopped ==> resumed(s, h)[k] == s[k] && paused(s, h)[k] == s[k],
        same_but_state(stopped(s, h)[k], s[k]),
        same_but_state(paused(s, h)[k], s[k]),
        same_but_state(resumed(s, h)[k], s[k]),
{
}

} // verus!
