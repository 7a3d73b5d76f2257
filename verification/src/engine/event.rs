use vstd::prelude::*;

use crate::common::dyn_vec::{DynVec, TypeInfo, record_of};

verus! {

pub type EventId = u32;

/// The id of record `k` of a buffer whose first event id is `first`.
pub open spec fn event_id_at(first: u32, k: int) -> int {
    first + k
}

/// The events of one type, kept for two frames: one buffer for the current
/// frame and one for the frame before, each with the id of its first event.
pub struct EventBank {
    // Alternates between 0 and 1.
    curr_frame_index: u32,
    // Monotically increasing id starting from 1.
    event_id_tracker: EventId,
    // One for every other frame.
    data: Vec<(EventId, DynVec)>,
}

impl EventBank {
    /// Buffer ids stay below the tracker, and when the current buffer holds
    /// events they all come after those of the other buffer.
    pub closed spec fn wf(&self) -> bool {
        &&& self.data@.len() == 2
        &&& self.curr_frame_index < 2
        &&& self.data@[0].1.wf()
        &&& self.data@[1].1.wf()
        &&& self.data@[0].1.type_info_spec() == self.data@[1].1.type_info_spec()
        &&& self.data@[0].0 + self.data@[0].1.elements().len() <= self.event_id_tracker
        &&& self.data@[1].0 + self.data@[1].1.elements().len() <= self.event_id_tracker
        &&& self.event_id_tracker >= 1
        &&& ({
            let c = self.curr_frame_index as int;
            let o = 1 - c;
            self.data@[c].1.elements().len() > 0 ==> self.data@[o].0 + self.data@[o].1.elements().len()
                <= self.data@[c].0 && self.data@[o].0 <= self.data@[c].0
        })
        &&& ({
            let c = self.curr_frame_index as int;
            self.data@[c].1.elements().len() > 0 ==> self.data@[c].0 + self.data@[c].1.elements().len()
                == self.event_id_tracker
        })
    }

    /// The ids of a non-empty current buffer end just below the tracker, and
    /// every stored id is below it.
    pub proof fn lemma_current_ends_at_tracker(&self)
        requires
            self.wf(),
        ensures
            self.events(self.frame_index() as int).len() > 0 ==> self.first_id(self.frame_index() as int)
                + self.events(self.frame_index() as int).len() == self.tracker(),
            self.first_id(0) + self.events(0).len() <= self.tracker(),
            self.first_id(1) + self.events(1).len() <= self.tracker(),
            self.frame_index() < 2,
    {
    }

    pub closed spec fn frame_index(&self) -> u32 {
        self.curr_frame_index
    }

    /// The id the next pushed event gets.
    pub closed spec fn tracker(&self) -> u32 {
        self.event_id_tracker
    }

    /// The id of the first event of buffer `k`.
    pub closed spec fn first_id(&self, k: int) -> u32 {
        self.data@[k].0
    }

    /// The event records of buffer `k`.
    pub closed spec fn events(&self, k: int) -> Seq<Seq<u8>> {
        self.data@[k].1.elements()
    }

    pub closed spec fn event_type(&self) -> TypeInfo {
        self.data@[0].1.type_info_spec()
    }

    /// A bank for events of the type `type_info`, both buffers empty, the
    /// next id 1.
    pub fn new(type_info: TypeInfo, curr_frame_index: u32) -> (r: Self)
        requires
            curr_frame_index < 2,
        ensures
            r.wf(),
            r.frame_index() == curr_frame_index,
            r.tracker() == 1,
            r.event_type() == type_info,
            r.first_id(0) == 0 && r.first_id(1) == 0,
            r.events(0) == Seq::<Seq<u8>>::empty() && r.events(1) == Seq::<Seq<u8>>::empty(),
    {
        let mut data: Vec<(EventId, DynVec)> = Vec::new();
        data.push((0, DynVec::new(type_info)));
        data.push((0, DynVec::new(type_info)));
        Self { curr_frame_index, event_id_tracker: 1, data }
    }

    /// Appends an event to the current frame's buffer under the next id; an
    /// empty buffer starts at that id.
    pub fn push(&mut self, event: &[u8])
        requires
            old(self).wf(),
            old(self).tracker() < u32::MAX,
            event@.len() >= old(self).event_type().size_spec(),
            (old(self).events(old(self).frame_index() as int).len() + 1) * old(self).event_type().stride_spec() <= usize::MAX,
            old(self).events(old(self).frame_index() as int).len() < usize::MAX,
        ensures
            final(self).wf(),
            ({
                let c = old(self).frame_index() as int;
                let o = 1 - c;
                &&& final(self).frame_index() == old(self).frame_index()
                &&& final(self).tracker() == old(self).tracker() + 1
                &&& final(self).event_type() == old(self).event_type()
                &&& final(self).events(c) == old(self).events(c).push(
                    record_of(event@, old(self).event_type().size_spec() as nat, old(self).event_type().stride_spec() as nat),
                )
                &&& final(self).first_id(c) == if old(self).events(c).len() == 0 {
                    old(self).tracker()
                } else {
                    old(self).first_id(c)
                }
                &&& final(self).events(o) == old(self).events(o)
                &&& final(self).first_id(o) == old(self).first_id(o)
                &&& final(self).first_id(c) + old(self).events(c).len() == old(self).tracker()
            }),
    {
        let event_id = self.event_id_tracker;
        let c = self.curr_frame_index as usize;
        let (mut first_event_id, mut vec) = self.data.remove(c);
        if vec.is_empty() {
            first_event_id = event_id;
        }
        self.event_id_tracker = self.event_id_tracker + 1;
        vec.push_unchecked(event);
        self.data.insert(c, (first_event_id, vec));
    }

    /// Empties the current frame's buffer.
    pub fn clear(&mut self)
        requires
            old(self).wf(),
        ensures
            final(self).wf(),
            ({
                let c = old(self).frame_index() as int;
                let o = 1 - c;
                &&& final(self).frame_index() == old(self).frame_index()
                &&& final(self).tracker() == old(self).tracker()
                &&& final(self).event_type() == old(self).event_type()
                &&& final(self).events(c) == Seq::<Seq<u8>>::empty()
                &&& final(self).first_id(c) == old(self).first_id(c)
                &&& final(self).events(o) == old(self).events(o)
                &&& final(self).first_id(o) == old(self).first_id(o)
            }),
    {
        let c = self.curr_frame_index as usize;
        let (first_event_id, mut vec) = self.data.remove(c);
        vec.clear();
        self.data.insert(c, (first_event_id, vec));
    }

    /// Makes `frame_index` the current frame and empties its buffer.
    fn start_frame(&mut self, frame_index: u32)
        requires
            old(self).wf(),
            frame_index < 2,
        ensures
            final(self).wf(),
            final(self).frame_index() == frame_index,
            final(self).tracker() == old(self).tracker(),
            final(self).event_type() == old(self).event_type(),
            final(self).events(frame_index as int) == Seq::<Seq<u8>>::empty(),
            final(self).first_id(frame_index as int) == old(self).first_id(frame_index as int),
            final(self).events(1 - frame_index) == old(self).events(1 - frame_index),
            final(self).first_id(1 - frame_index) == old(self).first_id(1 - frame_index),
    {
        let c = frame_index as usize;
        let (first_event_id, mut vec) = self.data.remove(c);
        vec.clear();
        self.data.insert(c, (first_event_id, vec));
        self.curr_frame_index = frame_index;
    }
}


/// Where a reader at event id `c`, looking at buffer `v`, finds its next
/// event: the buffer and the record's index, or nothing; with the id and
/// buffer it goes on from. It looks at buffer `v` from id `c` on, then, when
/// `v` is not the current frame's buffer, at the current one.
pub open spec fn read_step(bank: EventBank, c: int, v: int) -> (Option<(int, int)>, int, int) {
    let f1 = bank.first_id(v) as int;
    let c1 = if c < f1 { f1 } else { c };
    if c1 - f1 < bank.events(v).len() {
        (Some((v, c1 - f1)), c1 + 1, v)
    } else {
        let v2 = 1 - v;
        if v2 != bank.frame_index() {
            (None, c1, v2)
        } else {
            let f2 = bank.first_id(v2) as int;
            let c2 = if c1 < f2 { f2 } else { c1 };
            if c2 - f2 < bank.events(v2).len() {
                (Some((v2, c2 - f2)), c2 + 1, v2)
            } else {
                (None, c2, 1 - v2)
            }
        }
    }
}

/// An event that the bank holds: record `k` of buffer `b`.
pub open spec fn is_stored(bank: EventBank, b: int, k: int) -> bool {
    0 <= b < 2 && 0 <= k < bank.events(b).len()
}

/// Remembers the id of the last event it read of one event type.
pub struct EventReader<T> {
    last_event_id: EventId,
    // Marker since the event id is specific to the event type.
    marker: core::marker::PhantomData<T>,
}

impl<T> EventReader<T> {
    /// The id of the last event read.
    pub closed spec fn last_read(&self) -> u32 {
        self.last_event_id
    }

    /// Will read double events in the case that the producer runs before this reader in the game
    /// loop. Keep that in mind :p.
    pub fn new() -> (r: Self)
        ensures
            r.last_read() == 0,
    {
        Self { last_event_id: 0, marker: core::marker::PhantomData }
    }

    /// Starts reading the events of type `type_id` after the last one read,
    /// beginning with the buffer of the frame before the current one.
    pub fn read<'a>(&self, events: &'a Events, type_id: u64) -> (r: EventReaderIter<'a, T>)
        requires
            events.wf(),
            self.last_read() < u32::MAX,
        ensures
            r.bank() == (if events.banks_map().contains_key(type_id) {
                Some(events.banks_map()[type_id])
            } else {
                None
            }),
            r.current_id() == self.last_read() + 1,
            r.buffer() == 1 - events.frame_index(),
            0 <= r.buffer() < 2,
            r.bank() is Some ==> r.bank().unwrap().wf() && r.bank().unwrap().frame_index() == events.frame_index(),
    {
        let event_bank = events.get_bank(type_id);
        let last_event_id = self.last_event_id;
        EventReaderIter {
            event_bank,
            curr_event_id: last_event_id + 1,
            // Start with the opposite since it will have lower ids.
            curr_vec_index: (events.curr_frame_index + 1) % 2,
            marker: core::marker::PhantomData,
        }
    }
}

/// A walk over the events of one type, in id order.
pub struct EventReaderIter<'a, T> {
    event_bank: Option<&'a EventBank>,
    curr_event_id: EventId,
    curr_vec_index: u32,
    marker: core::marker::PhantomData<T>,
}

impl<'a, T> EventReaderIter<'a, T> {
    pub closed spec fn bank(&self) -> Option<EventBank> {
        match self.event_bank {
            Some(b) => Some(*b),
            None => None,
        }
    }

    /// The id the walk looks for next.
    pub closed spec fn current_id(&self) -> int {
        self.curr_event_id as int
    }

    /// The buffer the walk looks at.
    pub closed spec fn buffer(&self) -> int {
        self.curr_vec_index as int
    }

    /// The next event as `read_step` finds it, recording its id in the
    /// reader; nothing when the type has no bank.
    pub fn next(&mut self, reader: &mut EventReader<T>) -> (r: Option<&'a [u8]>)
        requires
            old(self).bank() is Some ==> old(self).bank().unwrap().wf(),
            0 <= old(self).buffer() < 2,
        ensures
            final(self).bank() == old(self).bank(),
            0 <= final(self).buffer() < 2,
            old(self).bank() is None ==> r is None && *final(reader) == *old(reader) && final(self).current_id()
                == old(self).current_id() && final(self).buffer() == old(self).buffer(),
            old(self).bank() is Some ==> {
                let bank = old(self).bank().unwrap();
                let (found, c2, v2) = read_step(bank, old(self).current_id(), old(self).buffer());
                &&& final(self).current_id() == c2
                &&& final(self).buffer() == v2
                &&& match found {
                    Some((b, k)) => {
                        &&& r is Some
                        &&& r.unwrap()@ == bank.events(b)[k]
                        &&& final(reader).last_read() == bank.first_id(b) + k
                    },
                    None => r is None && final(reader).last_read() == old(reader).last_read(),
                }
            },
    {
        let event_bank = match self.event_bank {
            Some(b) => b,
            None => {
                return None;
            },
        };
        let v = self.curr_vec_index as usize;
        let first = event_bank.data[v].0;
        if self.curr_event_id < first {
            self.curr_event_id = first;
        }
        let index = self.curr_event_id - first;
        if index >= event_bank.data[v].1.len() as u32 {
            self.curr_vec_index = (self.curr_vec_index + 1) % 2;
            // If we come back to the same event bank we started with then we are done.
            if self.curr_vec_index != event_bank.curr_frame_index {
                return None;
            }
            let v2 = self.curr_vec_index as usize;
            let first2 = event_bank.data[v2].0;
            if self.curr_event_id < first2 {
                self.curr_event_id = first2;
            }
            let index2 = self.curr_event_id - first2;
            if index2 >= event_bank.data[v2].1.len() as u32 {
                self.curr_vec_index = (self.curr_vec_index + 1) % 2;
                return None;
            }
            reader.last_event_id = self.curr_event_id;
            self.curr_event_id = self.curr_event_id + 1;
            return Some(event_bank.data[v2].1.get_bytes(index2 as usize));
        }
        reader.last_event_id = self.curr_event_id;
        self.curr_event_id = self.curr_event_id + 1;
        Some(event_bank.data[v].1.get_bytes(index as usize))
    }
}

/// The bank of `k` after a frame change: on the new frame, its new current
/// buffer emptied, the rest kept.
pub open spec fn final_bank_ok(before: Events, after: Events, k: u64) -> bool {
    let b = before.banks_map()[k];
    let nb = after.banks_map()[k];
    let c = after.frame_index() as int;
    &&& nb.frame_index() == after.frame_index()
    &&& nb.tracker() == b.tracker()
    &&& nb.event_type() == b.event_type()
    &&& nb.events(c) == Seq::<Seq<u8>>::empty()
    &&& nb.first_id(c) == b.first_id(c)
    &&& nb.events(1 - c) == b.events(1 - c)
    &&& nb.first_id(1 - c) == b.first_id(1 - c)
}

/// Stores abitrary events to make message passing between systems easier. These events are not
/// actually observer based, instead events are stored in buffer which can be queried and is also
/// cleared at the end of every frame.
pub struct Events {
    banks: Vec<(u64, EventBank)>,
    event_type_info: std::collections::HashMap<u64, TypeInfo>,
    // Alternating index between 0 and 1.
    curr_frame_index: u32,
}

impl Events {
    /// One bank per event type, every bank on the current frame.
    pub closed spec fn wf(&self) -> bool {
        &&& self.curr_frame_index < 2
        &&& forall|i: int, j: int| 0 <= i < j < self.banks@.len() ==> self.banks@[i].0 != self.banks@[j].0
        &&& forall|i: int| 0 <= i < self.banks@.len() ==> (#[trigger] self.banks@[i]).1.wf()
            && self.banks@[i].1.frame_index() == self.curr_frame_index
    }

    pub closed spec fn frame_index(&self) -> u32 {
        self.curr_frame_index
    }

    /// The bank of each event type seen so far.
    pub closed spec fn banks_map(&self) -> Map<u64, EventBank> {
        Map::new(
            |k: u64| exists|i: int| 0 <= i < self.banks@.len() && self.banks@[i].0 == k,
            |k: u64| self.banks@[choose|i: int| 0 <= i < self.banks@.len() && self.banks@[i].0 == k].1,
        )
    }

    /// The type info recorded for each event type.
    pub closed spec fn type_infos(&self) -> Map<u64, TypeInfo> {
        self.event_type_info@
    }

    pub fn new() -> (r: Self)
        ensures
            r.wf(),
            r.frame_index() == 0,
            r.banks_map() == Map::<u64, EventBank>::empty(),
            r.type_infos() == Map::<u64, TypeInfo>::empty(),
    {
        let r = Self { banks: Vec::new(), event_type_info: std::collections::HashMap::new(), curr_frame_index: 0 };
        assert(r.banks_map() =~= Map::<u64, EventBank>::empty());
        r
    }

    fn find_bank(&self, type_id: u64) -> (r: Option<usize>)
        ensures
            match r {
                Some(i) => i < self.banks@.len() && self.banks@[i as int].0 == type_id,
                None => forall|i: int| 0 <= i < self.banks@.len() ==> self.banks@[i].0 != type_id,
            },
    {
        let mut i: usize = 0;
        while i < self.banks.len()
            invariant
                i <= self.banks@.len(),
                forall|k: int| 0 <= k < i ==> self.banks@[k].0 != type_id,
            decreases self.banks@.len() - i,
        {
            if self.banks[i].0 == type_id {
                return Some(i);
            }
            i = i + 1;
        }
        None
    }

    proof fn lemma_bank_at(&self, i: int)
        requires
            self.wf(),
            0 <= i < self.banks@.len(),
        ensures
            self.banks_map().contains_key(self.banks@[i].0),
            self.banks_map()[self.banks@[i].0] == self.banks@[i].1,
    {
        let k = self.banks@[i].0;
        assert(exists|j: int| 0 <= j < self.banks@.len() && self.banks@[j].0 == k);
        let j = choose|j: int| 0 <= j < self.banks@.len() && self.banks@[j].0 == k;
        if j != i {
            if j < i {
                assert(self.banks@[j].0 != self.banks@[i].0);
            } else {
                assert(self.banks@[i].0 != self.banks@[j].0);
            }
        }
    }

    /// Every bank of well-formed events is well formed and on the current
    /// frame.
    pub proof fn lemma_banks_wf(&self, k: u64)
        requires
            self.wf(),
            self.banks_map().contains_key(k),
        ensures
            self.banks_map()[k].wf(),
            self.banks_map()[k].frame_index() == self.frame_index(),
    {
        let j = choose|j: int| 0 <= j < self.banks@.len() && self.banks@[j].0 == k;
        self.lemma_bank_at(j);
    }

    /// Ends the frame: the other buffer of every bank becomes the current one
    /// and is emptied.
    pub fn frame_cleanup(&mut self)
        requires
            old(self).wf(),
        ensures
            final(self).wf(),
            final(self).frame_index() == (old(self).frame_index() + 1) % 2,
            final(self).type_infos() == old(self).type_infos(),
            final(self).banks_map().dom() == old(self).banks_map().dom(),
            forall|k: u64| #[trigger] old(self).banks_map().contains_key(k) ==> {
                let b = old(self).banks_map()[k];
                let nb = final(self).banks_map()[k];
                let c = final(self).frame_index() as int;
                &&& nb.frame_index() == final(self).frame_index()
                &&& nb.tracker() == b.tracker()
                &&& nb.event_type() == b.event_type()
                &&& nb.events(c) == Seq::<Seq<u8>>::empty()
                &&& nb.first_id(c) == b.first_id(c)
                &&& nb.events(1 - c) == b.events(1 - c)
                &&& nb.first_id(1 - c) == b.first_id(1 - c)
            },
    {
        // Update the frame index for all the event banks.
        self.curr_frame_index = (self.curr_frame_index + 1) % 2;
        let cfi = self.curr_frame_index;
        let n = self.banks.len();
        let mut i: usize = 0;
        while i < n
            invariant
                i <= n,
                n == self.banks@.len(),
                n == old(self).banks@.len(),
                cfi == self.curr_frame_index,
                cfi < 2,
                self.event_type_info == old(self).event_type_info,
                forall|j: int| 0 <= j < n ==> (#[trigger] self.banks@[j]).0 == old(self).banks@[j].0,
                forall|j: int| 0 <= j < n ==> (#[trigger] old(self).banks@[j]).1.wf(),
                forall|j: int| i <= j < n ==> #[trigger] self.banks@[j] == old(self).banks@[j],
                forall|j: int| 0 <= j < i ==> {
                    let b = old(self).banks@[j].1;
                    let nb = (#[trigger] self.banks@[j]).1;
                    &&& nb.wf()
                    &&& nb.frame_index() == cfi
                    &&& nb.tracker() == b.tracker()
                    &&& nb.event_type() == b.event_type()
                    &&& nb.events(cfi as int) == Seq::<Seq<u8>>::empty()
                    &&& nb.first_id(cfi as int) == b.first_id(cfi as int)
                    &&& nb.events(1 - cfi) == b.events(1 - cfi)
                    &&& nb.first_id(1 - cfi) == b.first_id(1 - cfi)
                },
            decreases n - i,
        {
            let (key, mut bank) = self.banks.remove(i);
            bank.start_frame(cfi);
            self.banks.insert(i, (key, bank));
            i = i + 1;
        }
        proof {
            assert forall|k: u64| #[trigger] old(self).banks_map().contains_key(k) implies final_bank_ok(*old(self), *self, k) by {
                let j = choose|j: int| 0 <= j < old(self).banks@.len() && old(self).banks@[j].0 == k;
                old(self).lemma_bank_at(j);
                self.lemma_bank_at(j);
            }
            assert(self.banks_map().dom() =~= old(self).banks_map().dom()) by {
                assert forall|k: u64| self.banks_map().dom().contains(k) implies old(self).banks_map().dom().contains(k) by {
                    let j = choose|j: int| 0 <= j < self.banks@.len() && self.banks@[j].0 == k;
                    assert(old(self).banks@[j].0 == k);
                }
                assert forall|k: u64| old(self).banks_map().dom().contains(k) implies self.banks_map().dom().contains(k) by {
                    let j = choose|j: int| 0 <= j < old(self).banks@.len() && old(self).banks@[j].0 == k;
                    assert(self.banks@[j].0 == k);
                }
            }
        }
    }

    /// Pushes an event of the type `type_id`, making a bank for the type on
    /// the current frame when it has none; the type info is recorded the
    /// first time the type is seen.
    pub fn push(&mut self, type_id: u64, type_info: TypeInfo, event: &[u8])
        requires
            old(self).wf(),
            old(self).banks_map().contains_key(type_id) ==> {
                let b = old(self).banks_map()[type_id];
                let c = b.frame_index() as int;
                &&& b.tracker() < u32::MAX
                &&& event@.len() >= b.event_type().size_spec()
                &&& (b.events(c).len() + 1) * b.event_type().stride_spec() <= usize::MAX
                &&& b.events(c).len() < usize::MAX
            },
            !old(self).banks_map().contains_key(type_id) ==> {
                &&& event@.len() >= type_info.size_spec()
                &&& type_info.stride_spec() <= usize::MAX
            },
        ensures
            final(self).wf(),
            final(self).frame_index() == old(self).frame_index(),
            final(self).type_infos() == if old(self).type_infos().contains_key(type_id) {
                old(self).type_infos()
            } else {
                old(self).type_infos().insert(type_id, type_info)
            },
            final(self).banks_map().dom() == old(self).banks_map().dom().insert(type_id),
            forall|k: u64| k != type_id && #[trigger] old(self).banks_map().contains_key(k) ==> final(self).banks_map()[k] == old(self).banks_map()[k],
            ({
                let c = old(self).frame_index() as int;
                let nb = final(self).banks_map()[type_id];
                if old(self).banks_map().contains_key(type_id) {
                    let b = old(self).banks_map()[type_id];
                    &&& nb.frame_index() == b.frame_index()
                    &&& nb.tracker() == b.tracker() + 1
                    &&& nb.event_type() == b.event_type()
                    &&& nb.events(c) == b.events(c).push(
                        record_of(event@, b.event_type().size_spec() as nat, b.event_type().stride_spec() as nat),
                    )
                    &&& nb.first_id(c) == if b.events(c).len() == 0 { b.tracker() } else { b.first_id(c) }
                    &&& nb.events(1 - c) == b.events(1 - c)
                    &&& nb.first_id(1 - c) == b.first_id(1 - c)
                } else {
                    &&& nb.frame_index() == old(self).frame_index()
                    &&& nb.tracker() == 2
                    &&& nb.event_type() == type_info
                    &&& nb.events(c) == seq![record_of(event@, type_info.size_spec() as nat, type_info.stride_spec() as nat)]
                    &&& nb.first_id(c) == 1
                    &&& nb.events(1 - c) == Seq::<Seq<u8>>::empty()
                    &&& nb.first_id(1 - c) == 0
                }
            }),
    {
        if !self.event_type_info.contains_key(&type_id) {
            self.event_type_info.insert(type_id, type_info);
        }
        let ghost old_self = *old(self);
        match self.find_bank(type_id) {
            Some(i) => {
                proof {
                    old_self.lemma_bank_at(i as int);
                }
                let (key, mut bank) = self.banks.remove(i);
                bank.push(event);
                self.banks.insert(i, (key, bank));
                proof {
                    self.lemma_bank_at(i as int);
                    assert forall|k: u64| k != type_id && #[trigger] old_self.banks_map().contains_key(k) implies self.banks_map()[k] == old_self.banks_map()[k] by {
                        let j = choose|j: int| 0 <= j < old_self.banks@.len() && old_self.banks@[j].0 == k;
                        old_self.lemma_bank_at(j);
                        self.lemma_bank_at(j);
                    }
                    assert(self.banks_map().dom() =~= old_self.banks_map().dom().insert(type_id)) by {
                        assert forall|k: u64| self.banks_map().dom().contains(k) implies old_self.banks_map().dom().insert(type_id).contains(k) by {
                            let j = choose|j: int| 0 <= j < self.banks@.len() && self.banks@[j].0 == k;
                            assert(old_self.banks@[j].0 == k);
                        }
                        assert forall|k: u64| old_self.banks_map().dom().contains(k) implies self.banks_map().dom().contains(k) by {
                            let j = choose|j: int| 0 <= j < old_self.banks@.len() && old_self.banks@[j].0 == k;
                            assert(self.banks@[j].0 == k);
                        }
                    }
                }
            },
            None => {
                assert(self.banks@ == old_self.banks@);
                assert(!old_self.banks_map().contains_key(type_id));
                let mut bank = EventBank::new(type_info, self.curr_frame_index);
                assert(bank.events(bank.frame_index() as int).len() == 0);
                assert(bank.event_type() == type_info);
                assert((0 + 1) * type_info.stride_spec() == type_info.stride_spec()) by (nonlinear_arith);
                bank.push(event);
                self.banks.push((type_id, bank));
                proof {
                    let n = old_self.banks@.len() as int;
                    self.lemma_bank_at(n);
                    assert forall|k: u64| k != type_id && #[trigger] old_self.banks_map().contains_key(k) implies self.banks_map()[k] == old_self.banks_map()[k] by {
                        let j = choose|j: int| 0 <= j < old_self.banks@.len() && old_self.banks@[j].0 == k;
                        old_self.lemma_bank_at(j);
                        self.lemma_bank_at(j);
                    }
                    assert(self.banks_map().dom() =~= old_self.banks_map().dom().insert(type_id)) by {
                        assert forall|k: u64| self.banks_map().dom().contains(k) implies old_self.banks_map().dom().insert(type_id).contains(k) by {
                            let j = choose|j: int| 0 <= j < self.banks@.len() && self.banks@[j].0 == k;
                            if j < n {
                                assert(old_self.banks@[j].0 == k);
                            }
                        }
                        assert forall|k: u64| old_self.banks_map().dom().contains(k) implies self.banks_map().dom().contains(k) by {
                            let j = choose|j: int| 0 <= j < old_self.banks@.len() && old_self.banks@[j].0 == k;
                            assert(self.banks@[j].0 == k);
                        }
                    }
                    let nb = self.banks@[n].1;
                    assert(nb.events(old_self.curr_frame_index as int) =~= seq![record_of(event@, type_info.size_spec() as nat, type_info.stride_spec() as nat)]);
                }
            },
        }
    }

    /// The bank of the event type, if any event of it was pushed.
    pub fn get_bank(&self, type_id: u64) -> (r: Option<&EventBank>)
        requires
            self.wf(),
        ensures
            match r {
                Some(b) => self.banks_map().contains_key(type_id) && *b == self.banks_map()[type_id] && b.wf()
                    && b.frame_index() == self.frame_index(),
                None => !self.banks_map().contains_key(type_id),
            },
    {
        match self.find_bank(type_id) {
            Some(i) => {
                proof {
                    self.lemma_bank_at(i as int);
                }
                Some(&self.banks[i].1)
            },
            None => None,
        }
    }
}

/// A reader that starts at the previous frame's buffer finds the stored
/// event with the least id at or after the id it looks for; when it finds
/// nothing, no stored event has such an id. Reading therefore gives each
/// stored event once, in id order.
pub proof fn law_read_in_id_order(bank: EventBank, c: int)
    requires
        bank.wf(),
    ensures
        ({
            let o = 1 - bank.frame_index();
            let (found, c2, v2) = read_step(bank, c, o);
            match found {
                Some((b, k)) => {
                    &&& is_stored(bank, b, k)
                    &&& bank.first_id(b) + k >= c
                    &&& c2 == bank.first_id(b) + k + 1
                    &&& forall|b2: int, k2: int|
                        is_stored(bank, b2, k2) && c <= bank.first_id(b2) + k2 ==> bank.first_id(b) + k
                            <= bank.first_id(b2) + k2
                },
                None => forall|b2: int, k2: int| is_stored(bank, b2, k2) ==> bank.first_id(b2) + k2 < c,
            }
        }),
{
}

/// A reader at the current frame's buffer finds the event of that buffer
/// with the least id at or after the id it looks for, or nothing when there
/// is none.
pub proof fn law_read_current_in_id_order(bank: EventBank, c: int)
    requires
        bank.wf(),
    ensures
        ({
            let v = bank.frame_index() as int;
            let (found, c2, v2) = read_step(bank, c, v);
            match found {
                Some((b, k)) => {
                    &&& b == v
                    &&& is_stored(bank, b, k)
                    &&& bank.first_id(b) + k >= c
                    &&& forall|k2: int|
                        is_stored(bank, v, k2) && c <= bank.first_id(v) + k2 ==> k <= k2
                },
                None => forall|k2: int| is_stored(bank, v, k2) ==> bank.first_id(v) + k2 < c,
            }
        }),
{
}

/// A reader that has read every event a bank held before a push, and then
/// reads, gets the pushed event next (its id is the tracker's value before
/// the push) and after it nothing more.
pub proof fn law_read_after_push(b0: EventBank, b1: EventBank, event: Seq<u8>, last: int)
    requires
        b0.wf(),
        b1.wf(),
        ({
            let c = b0.frame_index() as int;
            &&& b1.frame_index() == b0.frame_index()
            &&& b1.tracker() == b0.tracker() + 1
            &&& b1.events(c) == b0.events(c).push(
                record_of(event, b0.event_type().size_spec() as nat, b0.event_type().stride_spec() as nat),
            )
            &&& b1.first_id(c) + b0.events(c).len() == b0.tracker()
            &&& b1.events(1 - c) == b0.events(1 - c)
            &&& b1.first_id(1 - c) == b0.first_id(1 - c)
        }),
        0 <= last < b0.tracker(),
        forall|b: int, k: int| is_stored(b0, b, k) ==> b0.first_id(b) + k <= last,
    ensures
        ({
            let c = b0.frame_index() as int;
            let (found, c2, v2) = read_step(b1, last + 1, 1 - c);
            &&& found == Some((c, b0.events(c).len() as int))
            &&& b1.events(c)[b0.events(c).len() as int] == record_of(
                event,
                b0.event_type().size_spec() as nat,
                b0.event_type().stride_spec() as nat,
            )
            &&& c2 == b0.tracker() + 1
            &&& v2 == c
            &&& read_step(b1, c2, v2).0 is None
        }),
{
    let c = b0.frame_index() as int;
    let n0 = b0.events(c).len() as int;
    b0.lemma_current_ends_at_tracker();
    b1.lemma_current_ends_at_tracker();
    assert(is_stored(b1, c, n0));
    assert(b1.first_id(c) + n0 == b0.tracker());
    law_read_in_id_order(b1, last + 1);
    let (found, c2, v2) = read_step(b1, last + 1, 1 - c);
    assert(found is Some);
    let (b, k) = found.unwrap();
    assert(b1.first_id(b) + k <= b1.first_id(c) + n0);
    if b != c || k != n0 {
        if b == c {
            assert(is_stored(b0, c, k));
        } else {
            assert(is_stored(b0, 1 - c, k));
        }
    }
    law_read_current_in_id_order(b1, c2);
}

/// An event pushed in a frame is still held, under the same id, after the
/// next frame change, and is gone after the one after that: after two frame
/// changes with no push between them a bank holds no event at all.
pub proof fn law_event_outlives_one_cleanup(b0: EventBank, b1: EventBank, b2: EventBank, k: int)
    requires
        b0.wf(),
        b1.wf(),
        b2.wf(),
        is_stored(b0, b0.frame_index() as int, k),
        ({
            let c = b0.frame_index() as int;
            &&& b1.frame_index() == 1 - c
            &&& b1.tracker() == b0.tracker()
            &&& b1.events(1 - c) == Seq::<Seq<u8>>::empty()
            &&& b1.events(c) == b0.events(c)
            &&& b1.first_id(c) == b0.first_id(c)
            &&& b2.frame_index() == c
            &&& b2.tracker() == b1.tracker()
            &&& b2.events(c) == Seq::<Seq<u8>>::empty()
            &&& b2.events(1 - c) == b1.events(1 - c)
        }),
    ensures
        ({
            let c = b0.frame_index() as int;
            &&& is_stored(b1, c, k)
            &&& b1.first_id(c) + k == b0.first_id(c) + k
            &&& b1.events(c)[k] == b0.events(c)[k]
            &&& forall|b: int, j: int| !is_stored(b2, b, j)
        }),
{
    b0.lemma_current_ends_at_tracker();
}

} // verus!
