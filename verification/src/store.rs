use vstd::prelude::*;

use crate::buffer::insert_buffer;
use crate::buffer::insert_into;
use crate::buffer::lemma_insert_into_elements;
use crate::buffer::lemma_without_oldest_sorted;
use crate::buffer::oldest_of;
use crate::buffer::sorted_by_creation;
use crate::buffer::without_oldest;
use crate::message::WeatherMessage;

verus! {

/// Why an insertion into the store was rejected.
#[derive(Clone, Copy, PartialEq, Eq, Structural, Debug)]
pub enum InsertError {
    /// The message names a station id outside the store's static key set.
    UnknownSource,
}

/// No station id occurs twice.
pub open spec fn distinct_ids(ids: Seq<u8>) -> bool {
    forall|i: int, j: int| 0 <= i < j < ids.len() ==> ids[i] != ids[j]
}

/// The index at which `id` occurs in `ids`; meaningful only when it occurs,
/// and unique when the ids are distinct.
pub open spec fn idx_in(ids: Seq<u8>, id: u8) -> int {
    choose|i: int| 0 <= i < ids.len() && ids[i] == id
}

/// In a distinct id sequence, `idx_in` recovers exactly the position an id
/// occurs at.
pub proof fn lemma_idx_in(ids: Seq<u8>, i: int)
    requires
        distinct_ids(ids),
        0 <= i < ids.len(),
    ensures
        ids.contains(ids[i]),
        idx_in(ids, ids[i]) == i,
{
    let v = ids[i];
    assert(exists|k: int| #![trigger ids[k]] 0 <= k < ids.len() && ids[k] == v) by {
        assert(0 <= i < ids.len() && ids[i] == v);
    }
    assert(exists|k: int| 0 <= k < ids.len() && ids[k] == ids[i]);
    let j = idx_in(ids, ids[i]);
    assert(0 <= j < ids.len() && ids[j] == ids[i]);
}

/// One time-aligned group, produced by a drain: for every known station,
/// either the message that was at the front of its buffer at group-formation
/// time, or an absent entry for a station that had nothing buffered.
pub struct MessageGroup {
    /// One entry per known station: its id and the drained message, if any.
    pub entries: Vec<(u8, Option<WeatherMessage>)>,
}

impl MessageGroup {
    /// The station ids the group covers, in entry order.
    pub open spec fn ids(self) -> Seq<u8> {
        self.entries@.map_values(|e: (u8, Option<WeatherMessage>)| e.0)
    }

    /// Group invariant: one entry per station.
    pub open spec fn wf(self) -> bool {
        distinct_ids(self.ids())
    }

    /// The group as a mapping from each covered station id to its drained
    /// message, absent when that station had nothing buffered.
    pub open spec fn view(self) -> Map<u8, Option<WeatherMessage>> {
        Map::new(
            |id: u8| self.ids().contains(id),
            |id: u8| self.entries@[idx_in(self.ids(), id)].1,
        )
    }

    /// The number of stations the group covers.
    pub fn station_count(&self) -> (n: usize)
        ensures
            n == self.ids().len(),
    {
        self.entries.len()
    }

    /// The entry for station `id`: `None` when the group does not cover the
    /// station, otherwise the drained message or its recorded absence.
    pub fn lookup(&self, id: u8) -> (r: Option<Option<WeatherMessage>>)
        requires
            self.wf(),
        ensures
            match r {
                Some(slot) => self@.dom().contains(id) && slot == self@[id],
                None => !self@.dom().contains(id),
            },
    {
        let mut i: usize = 0;
        while i < self.entries.len()
            invariant
                self.wf(),
                i <= self.entries@.len(),
                forall|k: int| 0 <= k < i ==> self.ids()[k] != id,
            decreases self.entries@.len() - i,
        {
            let e = self.entries[i];
            if e.0 == id {
                proof {
                    assert(self.ids()[i as int] == id);
                    lemma_idx_in(self.ids(), i as int);
                }
                return Some(e.1);
            }
            i += 1;
        }
        None
    }
}

/// One ordered buffer of pending messages per known station, behind a single
/// exclusive-access boundary owned by the caller. The key set is fixed at
/// construction; each buffer is kept strictly sorted by creation time.
pub struct SourceBufferStore {
    station_ids: Vec<u8>,
    buffers: Vec<Vec<WeatherMessage>>,
    capacity: usize,
}

impl SourceBufferStore {
    /// The known station ids, in construction order.
    pub closed spec fn ids(self) -> Seq<u8> {
        self.station_ids@
    }

    /// The buffer contents, positionally aligned with `ids()`.
    pub closed spec fn bufs(self) -> Seq<Seq<WeatherMessage>> {
        self.buffers@.map_values(|b: Vec<WeatherMessage>| b@)
    }

    /// The configured soft maximum length of each buffer.
    pub closed spec fn soft_capacity(self) -> usize {
        self.capacity
    }

    /// Store invariant: ids and buffers are aligned, ids are distinct, every
    /// buffer is strictly sorted by creation time, and every buffered message
    /// belongs to the station whose buffer holds it.
    pub open spec fn wf(self) -> bool {
        &&& self.ids().len() == self.bufs().len()
        &&& distinct_ids(self.ids())
        &&& (forall|i: int| 0 <= i < self.bufs().len() ==> sorted_by_creation(#[trigger] self.bufs()[i]))
        &&& (forall|i: int, k: int|
            0 <= i < self.bufs().len() && 0 <= k < self.bufs()[i].len() ==> (
            #[trigger] self.bufs()[i][k]).station_id == self.ids()[i])
    }

    /// The store as a mapping from each known station id to that station's
    /// buffered messages in creation-time order.
    pub open spec fn view(self) -> Map<u8, Seq<WeatherMessage>> {
        Map::new(
            |id: u8| self.ids().contains(id),
            |id: u8| self.bufs()[idx_in(self.ids(), id)],
        )
    }

    /// A store covering exactly the given station ids (duplicates collapse),
    /// every buffer empty, with the given soft capacity per buffer.
    pub fn new(station_ids: &Vec<u8>, capacity: usize) -> (store: SourceBufferStore)
        ensures
            store.wf(),
            store.soft_capacity() == capacity,
            store@.dom() == station_ids@.to_set(),
            forall|id: u8| #[trigger] store@.dom().contains(id) ==> store@[id].len() == 0,
    {
        let mut ids: Vec<u8> = Vec::new();
        let mut bufs: Vec<Vec<WeatherMessage>> = Vec::new();
        let mut i: usize = 0;
        while i < station_ids.len()
            invariant
                i <= station_ids@.len(),
                ids@.len() == bufs@.len(),
                distinct_ids(ids@),
                forall|k: int| 0 <= k < ids@.len() ==> station_ids@.contains(#[trigger] ids@[k]),
                forall|k: int| 0 <= k < i ==> ids@.contains(#[trigger] station_ids@[k]),
                forall|k: int| 0 <= k < bufs@.len() ==> (#[trigger] bufs@[k])@.len() == 0,
            decreases station_ids@.len() - i,
        {
            let sid = station_ids[i];
            let ghost old_ids = ids@;
            if !contains_id(&ids, sid) {
                ids.push(sid);
                bufs.push(Vec::new());
                proof {
                    assert(station_ids@[i as int] == sid);
                    assert(ids@[old_ids.len() as int] == sid);
                    assert forall|k: int| 0 <= k < i + 1 implies ids@.contains(
                        #[trigger] station_ids@[k],
                    ) by {
                        if k < i {
                            let j = choose|j: int|
                                0 <= j < old_ids.len() && old_ids[j] == station_ids@[k];
                            assert(ids@[j] == station_ids@[k]);
                        } else {
                            assert(ids@[old_ids.len() as int] == station_ids@[k]);
                        }
                    }
                    assert forall|a: int, b: int| 0 <= a < b < ids@.len() implies ids@[a]
                        != ids@[b] by {
                        if b == old_ids.len() {
                            assert(ids@[a] == old_ids[a]);
                        }
                    }
                }
            } else {
                proof {
                    assert(station_ids@[i as int] == sid);
                }
            }
            i += 1;
        }
        let store = SourceBufferStore { station_ids: ids, buffers: bufs, capacity };
        proof {
            assert(store@.dom() =~= station_ids@.to_set());
            assert forall|id: u8| store@.dom().contains(id) implies store@[id].len() == 0 by {
                let j = idx_in(store.ids(), id);
                assert(0 <= j < store.ids().len() && store.ids()[j] == id);
            }
        }
        store
    }

    /// The position of `id` among the known stations, or `None` when the id
    /// is not part of the store's key set.
    fn find_station(&self, id: u8) -> (r: Option<usize>)
        requires
            self.wf(),
        ensures
            match r {
                Some(i) => {
                    &&& i < self.ids().len()
                    &&& self.ids()[i as int] == id
                    &&& idx_in(self.ids(), id) == i
                    &&& self@.dom().contains(id)
                },
                None => !self@.dom().contains(id),
            },
    {
        let mut i: usize = 0;
        while i < self.station_ids.len()
            invariant
                self.wf(),
                i <= self.ids().len(),
                forall|k: int| 0 <= k < i ==> self.ids()[k] != id,
            decreases self.ids().len() - i,
        {
            if self.station_ids[i] == id {
                proof {
                    lemma_idx_in(self.ids(), i as int);
                }
                return Some(i);
            }
            i += 1;
        }
        None
    }

    /// Whether `id` is one of the store's known station ids.
    pub fn known_source(&self, id: u8) -> (known: bool)
        requires
            self.wf(),
        ensures
            known == self@.dom().contains(id),
    {
        match self.find_station(id) {
            Some(_) => true,
            None => false,
        }
    }

    /// The configured soft capacity of each buffer.
    pub fn capacity(&self) -> (c: usize)
        ensures
            c == self.soft_capacity(),
    {
        self.capacity
    }

    /// The number of messages currently buffered for `id`, or `None` for an
    /// unknown station.
    pub fn buffer_len(&self, id: u8) -> (r: Option<usize>)
        requires
            self.wf(),
        ensures
            match r {
                Some(n) => self@.dom().contains(id) && n == self@[id].len(),
                None => !self@.dom().contains(id),
            },
    {
        match self.find_station(id) {
            Some(i) => Some(self.buffers[i].len()),
            None => None,
        }
    }

    /// A copy of the buffered messages for `id` in buffer order, or `None`
    /// for an unknown station.
    pub fn buffer_snapshot(&self, id: u8) -> (r: Option<Vec<WeatherMessage>>)
        requires
            self.wf(),
        ensures
            match r {
                Some(b) => self@.dom().contains(id) && b@ == self@[id],
                None => !self@.dom().contains(id),
            },
    {
        match self.find_station(id) {
            Some(i) => {
                let buf = &self.buffers[i];
                let mut copy: Vec<WeatherMessage> = Vec::new();
                let mut k: usize = 0;
                while k < buf.len()
                    invariant
                        k <= buf@.len(),
                        copy@ == buf@.subrange(0, k as int),
                    decreases buf@.len() - k,
                {
                    copy.push(buf[k]);
                    proof {
                        assert(copy@ =~= buf@.subrange(0, k + 1 as int));
                    }
                    k += 1;
                }
                proof {
                    assert(copy@ =~= buf@);
                }
                Some(copy)
            },
            None => None,
        }
    }

    /// Whether an insertion for station `id` must wait for buffer space: the
    /// station is known and its buffer is over the soft capacity. Waiting is
    /// the caller's side; the store itself never rejects an over-full insert.
    pub fn needs_backpressure(&self, id: u8) -> (wait: bool)
        requires
            self.wf(),
        ensures
            wait == (self@.dom().contains(id) && self@[id].len() > self.soft_capacity()),
    {
        match self.find_station(id) {
            Some(i) => self.buffers[i].len() > self.capacity,
            None => false,
        }
    }
}

/// What demultiplexing a sequence of arrived messages leaves in the buffers:
/// the messages are inserted in arrival order, and processing stops at the
/// first message for an unknown station. Yields the resulting buffers and
/// whether every message was accepted.
pub open spec fn demux_into(
    m: Map<u8, Seq<WeatherMessage>>,
    msgs: Seq<WeatherMessage>,
) -> (Map<u8, Seq<WeatherMessage>>, bool)
    decreases msgs.len(),
{
    if msgs.len() == 0 {
        (m, true)
    } else if !m.dom().contains(msgs[0].station_id) {
        (m, false)
    } else {
        demux_into(
            m.insert(msgs[0].station_id, insert_into(m[msgs[0].station_id], msgs[0])),
            msgs.drop_first(),
        )
    }
}

/// Law: under any sequence of insertions, every buffer stays sorted by
/// creation time after every insertion, and the key set never changes.
pub proof fn lemma_demux_into_keeps_sorted(m: Map<u8, Seq<WeatherMessage>>, msgs: Seq<WeatherMessage>)
    requires
        forall|id: u8| m.dom().contains(id) ==> sorted_by_creation(#[trigger] m[id]),
    ensures
        demux_into(m, msgs).0.dom() == m.dom(),
        forall|id: u8| m.dom().contains(id) ==> sorted_by_creation(
            #[trigger] demux_into(m, msgs).0[id],
        ),
    decreases msgs.len(),
{
    if msgs.len() > 0 {
        let sid = msgs[0].station_id;
        if m.dom().contains(sid) {
            let m2 = m.insert(sid, insert_into(m[sid], msgs[0]));
            crate::buffer::lemma_insert_into_sorted(m[sid], msgs[0]);
            assert(m2.dom() =~= m.dom());
            assert forall|id: u8| m2.dom().contains(id) implies sorted_by_creation(
                #[trigger] m2[id],
            ) by {
                if id != sid {
                    assert(m2[id] == m[id]);
                }
            }
            lemma_demux_into_keeps_sorted(m2, msgs.drop_first());
        }
    }
}

/// Taking an element out of a sequence and putting another back at the same
/// position is a point update.
proof fn lemma_remove_insert_is_update<T>(s: Seq<T>, i: int, x: T)
    requires
        0 <= i < s.len(),
    ensures
        s.remove(i).insert(i, x) =~= s.update(i, x),
{
    s.remove_ensures(i);
    let r = s.remove(i);
    r.insert_ensures(i, x);
    assert forall|j: int| 0 <= j < s.len() implies r.insert(i, x)[j] == s.update(i, x)[j] by {
        if j < i {
            assert(r.insert(i, x)[j] == r[j]);
        } else if j == i {
            assert(r.insert(i, x)[j] == x);
        } else {
            assert(r.insert(i, x)[j] == r[j - 1]);
            assert(r[j - 1] == s[j]);
        }
    }
}

impl SourceBufferStore {
    /// Ordered insertion of one message into its station's buffer. Rejects a
    /// message for an unknown station id and leaves every buffer unchanged;
    /// otherwise the station's buffer receives the message at its
    /// creation-time position, except that a message whose creation time is
    /// already buffered for that station is discarded (the first received
    /// message wins). No other station's buffer changes, and no capacity
    /// check is applied: an over-full buffer still accepts the message.
    pub fn insert_sorted(&mut self, msg: WeatherMessage) -> (result: Result<(), InsertError>)
        requires
            old(self).wf(),
        ensures
            final(self).wf(),
            final(self).soft_capacity() == old(self).soft_capacity(),
            final(self)@.dom() == old(self)@.dom(),
            match result {
                Result::Ok(()) => {
                    &&& old(self)@.dom().contains(msg.station_id)
                    &&& final(self)@ == old(self)@.insert(
                        msg.station_id,
                        insert_into(old(self)@[msg.station_id], msg),
                    )
                },
                Result::Err(e) => {
                    &&& e == InsertError::UnknownSource
                    &&& !old(self)@.dom().contains(msg.station_id)
                    &&& final(self)@ == old(self)@
                },
            },
    {
        match self.find_station(msg.station_id) {
            None => {
                proof {
                    assert(self@.dom() =~= old(self)@.dom());
                }
                Err(InsertError::UnknownSource)
            },
            Some(i) => {
                let ghost pre = *self;
                let mut b = self.buffers.remove(i);
                let ghost oldb = b@;
                proof {
                    assert(oldb == pre.bufs()[i as int]);
                    assert(sorted_by_creation(pre.bufs()[i as int]));
                }
                insert_buffer(&mut b, msg);
                let ghost bv = b;
                self.buffers.insert(i, b);
                proof {
                    let sid = msg.station_id;
                    let ii = i as int;
                    let newb = insert_into(oldb, msg);
                    lemma_remove_insert_is_update(pre.buffers@, ii, bv);
                    assert(self.buffers@ == pre.buffers@.update(ii, bv));
                    assert(self.bufs() =~= pre.bufs().update(ii, newb));
                    lemma_insert_into_elements(oldb, msg);
                    assert forall|j: int, k: int|
                        0 <= j < self.bufs().len() && 0 <= k < self.bufs()[j].len() implies (
                    #[trigger] self.bufs()[j][k]).station_id == self.ids()[j] by {
                        if j == ii {
                            if newb[k] != msg {
                                let k2 = choose|k2: int|
                                    0 <= k2 < oldb.len() && oldb[k2] == newb[k];
                                assert(pre.bufs()[ii][k2].station_id == pre.ids()[ii]);
                            }
                        } else {
                            assert(pre.bufs()[j][k].station_id == pre.ids()[j]);
                        }
                    }
                    assert(self.wf());
                    assert(self@ =~= pre@.insert(sid, insert_into(pre@[sid], msg))) by {
                        assert(oldb == pre@[sid]);
                        assert forall|id: u8| self.ids().contains(id) implies self@[id]
                            == pre@.insert(sid, insert_into(pre@[sid], msg))[id] by {
                            let j = idx_in(self.ids(), id);
                            assert(0 <= j < self.ids().len() && self.ids()[j] == id);
                            if id == sid {
                                assert(j == ii);
                            } else {
                                assert(j != ii);
                            }
                        }
                    }
                    assert(self@.dom() =~= old(self)@.dom());
                }
                Ok(())
            },
        }
    }

    /// The demultiplexing step over a batch of arrived messages: inserts
    /// each in arrival order and stops at the first message for an unknown
    /// station, leaving that message and everything after it out of the
    /// buffers, as the ingestion loop does when it ends on a bad item.
    pub fn insert_all(&mut self, msgs: &Vec<WeatherMessage>) -> (result: Result<(), InsertError>)
        requires
            old(self).wf(),
        ensures
            final(self).wf(),
            final(self).soft_capacity() == old(self).soft_capacity(),
            final(self)@.dom() == old(self)@.dom(),
            final(self)@ == demux_into(old(self)@, msgs@).0,
            match result {
                Result::Ok(()) => demux_into(old(self)@, msgs@).1,
                Result::Err(e) => e == InsertError::UnknownSource && !demux_into(
                    old(self)@,
                    msgs@,
                ).1,
            },
    {
        let ghost orig = *old(self);
        proof {
            assert(msgs@.skip(0) =~= msgs@);
        }
        let mut i: usize = 0;
        while i < msgs.len()
            invariant
                orig == *old(self),
                orig.wf(),
                self.wf(),
                i <= msgs@.len(),
                self.soft_capacity() == orig.soft_capacity(),
                self@.dom() == orig@.dom(),
                demux_into(orig@, msgs@) == demux_into(self@, msgs@.skip(i as int)),
            decreases msgs@.len() - i,
        {
            let ghost pre = *self;
            let msg = msgs[i];
            proof {
                assert(msgs@.skip(i as int)[0] == msg);
            }
            match self.insert_sorted(msg) {
                Ok(()) => {},
                Err(e) => {
                    proof {
                        assert(demux_into(pre@, msgs@.skip(i as int)) == (pre@, false));
                    }
                    return Err(e);
                },
            }
            proof {
                assert(msgs@.skip(i as int).drop_first() =~= msgs@.skip(i as int + 1));
                assert(demux_into(pre@, msgs@.skip(i as int)) == demux_into(
                    self@,
                    msgs@.skip(i as int + 1),
                ));
            }
            i += 1;
        }
        proof {
            assert(msgs@.skip(msgs@.len() as int) =~= Seq::<WeatherMessage>::empty());
        }
        Ok(())
    }

    /// The grouping step: atomically removes the front (earliest-creation-
    /// time) message of every known station's buffer, recording an absent
    /// entry for a station whose buffer was empty, and returns the resulting
    /// group. Every non-empty buffer advances by exactly one message per
    /// call; an empty buffer stays empty and never raises an error.
    pub fn drain_oldest_all(&mut self) -> (group: MessageGroup)
        requires
            old(self).wf(),
        ensures
            final(self).wf(),
            final(self).soft_capacity() == old(self).soft_capacity(),
            final(self)@.dom() == old(self)@.dom(),
            group.wf(),
            group@.dom() == old(self)@.dom(),
            forall|id: u8| #[trigger] old(self)@.dom().contains(id) ==> group@[id] == oldest_of(
                old(self)@[id],
            ),
            forall|id: u8| #[trigger] old(self)@.dom().contains(id) ==> final(self)@[id]
                == without_oldest(old(self)@[id]),
    {
        let ghost orig = *old(self);
        let mut entries: Vec<(u8, Option<WeatherMessage>)> = Vec::new();
        let n = self.station_ids.len();
        let mut i: usize = 0;
        while i < n
            invariant
                orig.wf(),
                n == orig.ids().len(),
                i <= n,
                self.station_ids@ == orig.station_ids@,
                self.capacity == orig.capacity,
                self.buffers@.len() == n,
                entries@.len() == i,
                forall|k: int| 0 <= k < i ==> (#[trigger] entries@[k]).0 == orig.ids()[k],
                forall|k: int| 0 <= k < i ==> (#[trigger] entries@[k]).1 == oldest_of(
                    orig.bufs()[k],
                ),
                forall|k: int| 0 <= k < i ==> #[trigger] self.bufs()[k] == without_oldest(
                    orig.bufs()[k],
                ),
                forall|k: int| i <= k < n ==> #[trigger] self.bufs()[k] == orig.bufs()[k],
            decreases n - i,
        {
            let sid = self.station_ids[i];
            let ghost pre_self = *self;
            let ghost pre_bufs = self.buffers@;
            let mut b = self.buffers.remove(i);
            let ghost oldb = b@;
            let front: Option<WeatherMessage> = if b.len() > 0 {
                Some(b.remove(0))
            } else {
                None
            };
            let ghost bv = b;
            self.buffers.insert(i, b);
            entries.push((sid, front));
            proof {
                lemma_remove_insert_is_update(pre_bufs, i as int, bv);
                assert(self.buffers@ == pre_bufs.update(i as int, bv));
                assert(pre_self.bufs()[i as int] == orig.bufs()[i as int]);
                assert(oldb == pre_self.bufs()[i as int]);
                if oldb.len() > 0 {
                    assert(bv@ =~= oldb.drop_first());
                }
                assert(bv@ == without_oldest(oldb));
                assert(front == oldest_of(oldb));
                assert forall|k: int| 0 <= k < i + 1 implies #[trigger] self.bufs()[k]
                    == without_oldest(orig.bufs()[k]) by {
                    if k < i {
                        assert(self.buffers@[k] == pre_bufs[k]);
                        assert(self.bufs()[k] == pre_self.bufs()[k]);
                    }
                }
                assert forall|k: int| i + 1 <= k < n implies #[trigger] self.bufs()[k]
                    == orig.bufs()[k] by {
                    assert(self.buffers@[k] == pre_bufs[k]);
                    assert(self.bufs()[k] == pre_self.bufs()[k]);
                }
            }
            i += 1;
        }
        let group = MessageGroup { entries };
        proof {
            assert(group.ids() =~= orig.ids());
            assert(group.wf());
            assert forall|k: int| 0 <= k < n implies sorted_by_creation(
                #[trigger] self.bufs()[k],
            ) by {
                assert(sorted_by_creation(orig.bufs()[k]));
                lemma_without_oldest_sorted(orig.bufs()[k]);
            }
            assert forall|j: int, k: int|
                0 <= j < self.bufs().len() && 0 <= k < self.bufs()[j].len() implies (
            #[trigger] self.bufs()[j][k]).station_id == self.ids()[j] by {
                assert(sorted_by_creation(orig.bufs()[j]));
                lemma_without_oldest_sorted(orig.bufs()[j]);
                assert(self.bufs()[j][k] == orig.bufs()[j][k + 1]);
            }
            assert(self.wf());
            assert(self@.dom() =~= orig@.dom());
            assert(group@.dom() =~= orig@.dom());
            assert forall|id: u8| orig@.dom().contains(id) implies group@[id] == oldest_of(
                orig@[id],
            ) && self@[id] == without_oldest(orig@[id]) by {
                let j = idx_in(orig.ids(), id);
                assert(0 <= j < orig.ids().len() && orig.ids()[j] == id);
                assert(group.ids() == orig.ids());
                assert(self.ids() == orig.ids());
                assert((#[trigger] entries@[j]).1 == oldest_of(orig.bufs()[j]));
                assert(self.bufs()[j] == without_oldest(orig.bufs()[j]));
            }
        }
        group
    }
}

/// Whether the id vector contains `id`.
fn contains_id(ids: &Vec<u8>, id: u8) -> (r: bool)
    ensures
        r == ids@.contains(id),
{
    let mut i: usize = 0;
    while i < ids.len()
        invariant
            i <= ids@.len(),
            forall|k: int| 0 <= k < i ==> ids@[k] != id,
        decreases ids@.len() - i,
    {
        if ids[i] == id {
            return true;
        }
        i += 1;
    }
    false
}

} // verus!

