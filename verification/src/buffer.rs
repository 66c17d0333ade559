use vstd::prelude::*;

use crate::message::WeatherMessage;

verus! {

/// A source buffer holds the messages of one station, strictly increasing by
/// creation time: sorted, and no two buffered messages share a creation
/// timestamp.
pub open spec fn sorted_by_creation(buf: Seq<WeatherMessage>) -> bool {
    forall|i: int, j: int| 0 <= i < j < buf.len() ==> buf[i].created_at < buf[j].created_at
}

/// Whether some buffered message already carries creation time `t`.
pub open spec fn has_created_at(buf: Seq<WeatherMessage>, t: i64) -> bool {
    exists|i: int| 0 <= i < buf.len() && buf[i].created_at == t
}

/// The position at which a message created at `t` belongs: the index of the
/// first buffered message whose creation time is not below `t`.
pub open spec fn insertion_index(buf: Seq<WeatherMessage>, t: i64) -> int
    decreases buf.len(),
{
    if buf.len() == 0 {
        0
    } else if t <= buf[0].created_at {
        0
    } else {
        1 + insertion_index(buf.drop_first(), t)
    }
}

/// What an ordered insertion leaves in the buffer: a duplicate creation time
/// is discarded (the message already buffered wins), anything else is placed
/// at its insertion index.
pub open spec fn insert_into(buf: Seq<WeatherMessage>, m: WeatherMessage) -> Seq<WeatherMessage> {
    if has_created_at(buf, m.created_at) {
        buf
    } else {
        buf.insert(insertion_index(buf, m.created_at), m)
    }
}

/// The message a drain removes: the front (earliest-creation-time) element,
/// absent when the buffer is empty.
pub open spec fn oldest_of(buf: Seq<WeatherMessage>) -> Option<WeatherMessage> {
    if buf.len() == 0 {
        None
    } else {
        Some(buf[0])
    }
}

/// What a drain leaves behind: the buffer without its front element, or the
/// buffer itself when it was already empty.
pub open spec fn without_oldest(buf: Seq<WeatherMessage>) -> Seq<WeatherMessage> {
    if buf.len() == 0 {
        buf
    } else {
        buf.drop_first()
    }
}

/// The insertion index is a position of the buffer, everything before it was
/// created strictly earlier than `t`, and the element at it (if any) no
/// earlier than `t`.
pub proof fn lemma_insertion_index_bounds(buf: Seq<WeatherMessage>, t: i64)
    ensures
        0 <= insertion_index(buf, t) <= buf.len(),
        forall|j: int| 0 <= j < insertion_index(buf, t) ==> buf[j].created_at < t,
        insertion_index(buf, t) < buf.len() ==> t <= buf[insertion_index(buf, t)].created_at,
    decreases buf.len(),
{
    if buf.len() == 0 {
    } else if t <= buf[0].created_at {
    } else {
        let rest = buf.drop_first();
        lemma_insertion_index_bounds(rest, t);
        let w = insertion_index(buf, t);
        assert forall|j: int| 0 <= j < w implies buf[j].created_at < t by {
            if j > 0 {
                assert(rest[j - 1] == buf[j]);
            }
        }
        if w < buf.len() {
            assert(rest[w - 1] == buf[w]);
        }
    }
}

/// Any position with strictly earlier elements before it and a no-earlier
/// element at it is the insertion index: the index is unique.
pub proof fn lemma_insertion_index_unique(buf: Seq<WeatherMessage>, t: i64, i: int)
    requires
        0 <= i <= buf.len(),
        forall|j: int| 0 <= j < i ==> buf[j].created_at < t,
        i < buf.len() ==> t <= buf[i].created_at,
    ensures
        insertion_index(buf, t) == i,
{
    lemma_insertion_index_bounds(buf, t);
    let w = insertion_index(buf, t);
    if w < i {
        assert(buf[w].created_at < t);
    }
    if i < w {
        assert(buf[i].created_at < t);
    }
}

/// An ordered insertion keeps the buffer strictly sorted by creation time.
pub proof fn lemma_insert_into_sorted(buf: Seq<WeatherMessage>, m: WeatherMessage)
    requires
        sorted_by_creation(buf),
    ensures
        sorted_by_creation(insert_into(buf, m)),
{
    if !has_created_at(buf, m.created_at) {
        let t = m.created_at;
        let w = insertion_index(buf, t);
        lemma_insertion_index_bounds(buf, t);
        buf.insert_ensures(w, m);
        let out = buf.insert(w, m);
        if w < buf.len() && buf[w].created_at == t {
            assert(has_created_at(buf, t));
        }
        assert forall|i: int, j: int| 0 <= i < j < out.len() implies
            out[i].created_at < out[j].created_at by {
            if j < w {
                assert(out[i] == buf[i]);
                assert(out[j] == buf[j]);
            } else if j == w {
                assert(out[i] == buf[i]);
                assert(out[j] == m);
            } else if i < w {
                assert(out[i] == buf[i]);
                assert(out[j] == buf[j - 1]);
            } else if i == w {
                assert(out[i] == m);
                assert(out[j] == buf[j - 1]);
            } else {
                assert(out[i] == buf[i - 1]);
                assert(out[j] == buf[j - 1]);
            }
        }
    }
}

/// An insertion grows a buffer by at most one message: by exactly one for a
/// fresh creation time, by none for a duplicate.
pub proof fn lemma_insert_into_len(buf: Seq<WeatherMessage>, m: WeatherMessage)
    ensures
        has_created_at(buf, m.created_at) ==> insert_into(buf, m) == buf,
        !has_created_at(buf, m.created_at) ==> insert_into(buf, m).len() == buf.len() + 1,
{
    lemma_insertion_index_bounds(buf, m.created_at);
}

/// In a sorted buffer that already holds a message created at `t`, that
/// message sits exactly at the insertion index of `t`.
pub proof fn lemma_duplicate_at_insertion_index(buf: Seq<WeatherMessage>, t: i64)
    requires
        sorted_by_creation(buf),
        has_created_at(buf, t),
    ensures
        insertion_index(buf, t) < buf.len(),
        buf[insertion_index(buf, t)].created_at == t,
{
    let k = choose|k: int| 0 <= k < buf.len() && buf[k].created_at == t;
    let w = insertion_index(buf, t);
    lemma_insertion_index_bounds(buf, t);
    if k < w {
        assert(buf[k].created_at < t);
    }
}

/// An ordered insertion only ever adds the new message: everything in the
/// result is either the inserted message or was buffered before.
pub proof fn lemma_insert_into_elements(buf: Seq<WeatherMessage>, m: WeatherMessage)
    ensures
        forall|k: int| 0 <= k < insert_into(buf, m).len() ==> insert_into(buf, m)[k] == m
            || buf.contains(#[trigger] insert_into(buf, m)[k]),
{
    if !has_created_at(buf, m.created_at) {
        let t = m.created_at;
        let w = insertion_index(buf, t);
        lemma_insertion_index_bounds(buf, t);
        let out = buf.insert(w, m);
        assert forall|k: int| 0 <= k < out.len() implies out[k] == m || buf.contains(
            #[trigger] out[k],
        ) by {
            if k < w {
                assert(out[k] == buf[k]);
            } else if k > w {
                assert(out[k] == buf[k - 1]);
            }
        }
    } else {
        assert forall|k: int| 0 <= k < insert_into(buf, m).len() implies insert_into(buf, m)[k]
            == m || buf.contains(#[trigger] insert_into(buf, m)[k]) by {
            assert(buf[k] == insert_into(buf, m)[k]);
        }
    }
}

/// Removing the front element keeps a buffer sorted, shifts every remaining
/// message down by one, and removes nothing else.
pub proof fn lemma_without_oldest_sorted(buf: Seq<WeatherMessage>)
    requires
        sorted_by_creation(buf),
    ensures
        sorted_by_creation(without_oldest(buf)),
        buf.len() > 0 ==> without_oldest(buf).len() == buf.len() - 1,
        buf.len() == 0 ==> without_oldest(buf) == buf,
        forall|k: int| 0 <= k < without_oldest(buf).len() ==> #[trigger] without_oldest(buf)[k]
            == buf[k + 1],
{
}

/// Law: of two messages with the same creation time for one buffer, exactly
/// one is retained — the first received. The second insertion is a no-op,
/// and no two retained messages share that creation time.
pub proof fn lemma_first_received_wins(
    buf: Seq<WeatherMessage>,
    m1: WeatherMessage,
    m2: WeatherMessage,
)
    requires
        sorted_by_creation(buf),
        !has_created_at(buf, m1.created_at),
        m2.created_at == m1.created_at,
    ensures
        insert_into(buf, m1).contains(m1),
        insert_into(insert_into(buf, m1), m2) == insert_into(buf, m1),
        forall|k1: int, k2: int|
            0 <= k1 < insert_into(buf, m1).len() && 0 <= k2 < insert_into(buf, m1).len()
                && #[trigger] insert_into(buf, m1)[k1].created_at == m1.created_at
                && #[trigger] insert_into(buf, m1)[k2].created_at == m1.created_at ==> k1 == k2,
{
    let t = m1.created_at;
    let w = insertion_index(buf, t);
    lemma_insertion_index_bounds(buf, t);
    buf.insert_ensures(w, m1);
    lemma_insert_into_sorted(buf, m1);
    let out = insert_into(buf, m1);
    assert(out[w] == m1);
    assert(out.contains(m1));
    assert(has_created_at(out, t));
}

/// Law: a drain advances a buffer monotonically — it removes exactly the
/// front message of a non-empty buffer, an empty buffer yields an absent
/// message and stays empty, and the next drain yields the next message.
pub proof fn lemma_drain_monotone(buf: Seq<WeatherMessage>)
    ensures
        buf.len() > 0 ==> oldest_of(buf) == Some(buf[0]) && without_oldest(buf).len() == buf.len()
            - 1,
        buf.len() == 0 ==> oldest_of(buf) is None && without_oldest(buf) == buf,
        oldest_of(without_oldest(buf)) == (if buf.len() >= 2 {
            Some(buf[1])
        } else {
            None::<WeatherMessage>
        }),
{
}

/// The index of the first buffered message created no earlier than `t`,
/// found by binary search: the position an ordered insertion of a message
/// created at `t` would use.
pub fn find_insertion_point(buf: &Vec<WeatherMessage>, t: i64) -> (pos: usize)
    requires
        sorted_by_creation(buf@),
    ensures
        pos == insertion_index(buf@, t),
{
    let mut lo: usize = 0;
    let mut hi: usize = buf.len();
    while lo < hi
        invariant
            lo <= hi <= buf@.len(),
            sorted_by_creation(buf@),
            forall|j: int| 0 <= j < lo ==> buf@[j].created_at < t,
            forall|j: int| hi <= j < buf@.len() ==> t <= buf@[j].created_at,
        decreases hi - lo,
    {
        let mid = lo + (hi - lo) / 2;
        if buf[mid].created_at < t {
            lo = mid + 1;
        } else {
            hi = mid;
        }
    }
    proof {
        lemma_insertion_index_unique(buf@, t, lo as int);
    }
    lo
}

/// Ordered insertion into one station's buffer: a message whose creation
/// time is already buffered is discarded (the buffered one wins), any other
/// is placed so that the buffer stays sorted. Returns whether the buffer
/// grew.
pub fn insert_buffer(buf: &mut Vec<WeatherMessage>, msg: WeatherMessage) -> (grew: bool)
    requires
        sorted_by_creation(old(buf)@),
    ensures
        final(buf)@ == insert_into(old(buf)@, msg),
        sorted_by_creation(final(buf)@),
        grew == !has_created_at(old(buf)@, msg.created_at),
{
    let pos = find_insertion_point(buf, msg.created_at);
    proof {
        lemma_insertion_index_bounds(buf@, msg.created_at);
    }
    if pos < buf.len() && buf[pos].created_at == msg.created_at {
        proof {
            assert(has_created_at(buf@, msg.created_at));
        }
        false
    } else {
        proof {
            if has_created_at(buf@, msg.created_at) {
                lemma_duplicate_at_insertion_index(buf@, msg.created_at);
            }
            lemma_insert_into_sorted(buf@, msg);
        }
        buf.insert(pos, msg);
        true
    }
}

} // verus!
