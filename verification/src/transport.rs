//! The reliable-UDP transport engine: acknowledgement ids, the unconfirmed
//! map and retransmission decisions.
//!
//! The engine is a pure state machine over plain values. The embedding
//! application owns the socket and the clock: it passes the current time in
//! milliseconds to every operation that needs one, puts the returned frame
//! bytes on the wire, and feeds received datagrams back in.

use vstd::prelude::*;

verus! {

use crate::codec::CodecError;
use crate::hazel::{hazel_rel, HazelPacket, HazelPacketOut};

/// One unconfirmed reliable-class frame: its ack id, when it was last put
/// on the wire, and its exact bytes.
#[derive(Debug, Clone)]
pub struct Unconfirmed {
    pub ack_id: u16,
    pub sent_ms: u64,
    pub bytes: Vec<u8>,
}

/// How long an unconfirmed frame may wait for its acknowledgement before it
/// is put on the wire again, in milliseconds.
pub const RETRANSMIT_AFTER_MS: u64 = 1000;

/// The unconfirmed entries as a map from ack id to send time and bytes.
pub open spec fn entries_map(s: Seq<Unconfirmed>) -> Map<u16, (u64, Seq<u8>)>
    decreases s.len(),
{
    if s.len() == 0 {
        Map::<u16, (u64, Seq<u8>)>::empty()
    } else {
        entries_map(s.drop_last()).insert(s.last().ack_id, (s.last().sent_ms, s.last().bytes@))
    }
}

/// Whether a frame is recorded in a pending map with its acknowledgement
/// outstanding past the retransmission threshold.
pub open spec fn frame_due(m: Map<u16, (u64, Seq<u8>)>, now_ms: u64, frame: Seq<u8>) -> bool {
    exists|k: u16|
        m.contains_key(k) && (#[trigger] m[k]).0 + RETRANSMIT_AFTER_MS <= now_ms && frame == m[k].1
}

proof fn lemma_entries_map_distinct(s: Seq<Unconfirmed>)
    requires
        forall|i: int, j: int|
            0 <= i < j < s.len() ==> (#[trigger] s[i]).ack_id != (#[trigger] s[j]).ack_id,
    ensures
        forall|k: u16|
            entries_map(s).contains_key(k) <==> exists|i: int|
                0 <= i < s.len() && (#[trigger] s[i]).ack_id == k,
        forall|i: int|
            0 <= i < s.len() ==> entries_map(s).contains_key(#[trigger] s[i].ack_id)
                && entries_map(s)[s[i].ack_id] == (s[i].sent_ms, s[i].bytes@),
    decreases s.len(),
{
    if s.len() > 0 {
        lemma_entries_map_distinct(s.drop_last());
        assert(forall|i: int| 0 <= i < s.len() - 1 ==> s.drop_last()[i] == s[i]);
        assert forall|i: int|
            0 <= i < s.len() implies entries_map(s).contains_key(#[trigger] s[i].ack_id)
            && entries_map(s)[s[i].ack_id] == (s[i].sent_ms, s[i].bytes@) by {
            if i < s.len() - 1 {
                assert(s[i].ack_id != s[s.len() - 1].ack_id);
            }
        }
        assert forall|k: u16| entries_map(s).contains_key(k) implies exists|i: int|
            0 <= i < s.len() && (#[trigger] s[i]).ack_id == k by {
            if k == s.last().ack_id {
                assert(s[s.len() - 1].ack_id == k);
            } else {
                assert(entries_map(s.drop_last()).contains_key(k));
                let i = choose|i: int|
                    0 <= i < s.drop_last().len() && (#[trigger] s.drop_last()[i]).ack_id == k;
                assert(s[i].ack_id == k);
            }
        }
    }
}


proof fn lemma_entries_len(s: Seq<Unconfirmed>)
    requires
        forall|i: int, j: int|
            0 <= i < j < s.len() ==> (#[trigger] s[i]).ack_id != (#[trigger] s[j]).ack_id,
    ensures
        entries_map(s).dom().finite(),
        entries_map(s).dom().len() == s.len(),
    decreases s.len(),
{
    if s.len() == 0 {
        assert(entries_map(s).dom() =~= Set::<u16>::empty());
    }
    if s.len() > 0 {
        lemma_entries_map_distinct(s);
        lemma_entries_map_distinct(s.drop_last());
        lemma_entries_len(s.drop_last());
        assert(!entries_map(s.drop_last()).contains_key(s.last().ack_id)) by {
            if entries_map(s.drop_last()).contains_key(s.last().ack_id) {
                let i = choose|i: int|
                    0 <= i < s.drop_last().len() && (#[trigger] s.drop_last()[i]).ack_id
                        == s.last().ack_id;
                assert(s[i].ack_id == s[s.len() - 1].ack_id);
            }
        }
        assert(entries_map(s).dom() =~= entries_map(s.drop_last()).dom().insert(
            s.last().ack_id,
        ));
        vstd::set::axiom_set_insert_finite(entries_map(s.drop_last()).dom(), s.last().ack_id);
        vstd::set::axiom_set_insert_len(entries_map(s.drop_last()).dom(), s.last().ack_id);
    }
}

/// Allocates acknowledgement ids and keeps the unconfirmed reliable-class
/// frames until the peer confirms them.
pub struct AckHandler {
    ack_index: u16,
    unconfirmed: Vec<Unconfirmed>,
}

impl AckHandler {
    /// No two unconfirmed frames share an ack id.
    pub closed spec fn wf(&self) -> bool {
        forall|i: int, j: int|
            0 <= i < j < self.unconfirmed@.len() ==> (#[trigger] self.unconfirmed@[i]).ack_id != (
            #[trigger] self.unconfirmed@[j]).ack_id
    }

    /// The id the next reliable-class frame will carry.
    pub closed spec fn index(&self) -> u16 {
        self.ack_index
    }

    /// The unconfirmed frames: ack id to last send time and frame bytes.
    pub closed spec fn pending(&self) -> Map<u16, (u64, Seq<u8>)> {
        entries_map(self.unconfirmed@)
    }

    /// A fresh handler: the first frame will carry ack id 1 and nothing is
    /// unconfirmed.
    pub fn new() -> (r: AckHandler)
        ensures
            r.wf(),
            r.index() == 1,
            r.pending() == Map::<u16, (u64, Seq<u8>)>::empty(),
    {
        AckHandler { ack_index: 1, unconfirmed: Vec::new() }
    }


    /// The ack id the next reliable-class frame will carry.
    pub fn next_ack_id(&self) -> (r: u16)
        ensures
            r == self.index(),
    {
        self.ack_index
    }

    /// How many frames are unconfirmed.
    pub fn pending_count(&self) -> (r: usize)
        requires
            self.wf(),
        ensures
            r == self.pending().dom().len(),
    {
        proof {
            lemma_entries_map_distinct(self.unconfirmed@);
            lemma_entries_len(self.unconfirmed@);
        }
        self.unconfirmed.len()
    }

    /// Whether a frame with this ack id is unconfirmed.
    pub fn is_pending(&self, ack_id: u16) -> (r: bool)
        requires
            self.wf(),
        ensures
            r == self.pending().contains_key(ack_id),
    {
        proof {
            lemma_entries_map_distinct(self.unconfirmed@);
        }
        let n = self.unconfirmed.len();
        let mut i: usize = 0;
        while i < n
            invariant
                self.wf(),
                n == self.unconfirmed@.len(),
                i <= n,
                forall|j: int| 0 <= j < i ==> (#[trigger] self.unconfirmed@[j]).ack_id != ack_id,
            decreases n - i,
        {
            if self.unconfirmed[i].ack_id == ack_id {
                proof {
                    lemma_entries_map_distinct(self.unconfirmed@);
                }
                return true;
            }
            i = i + 1;
        }
        proof {
            lemma_entries_map_distinct(self.unconfirmed@);
        }
        false
    }

    /// Hands out the next ack id; the counter wraps at 2^16.
    pub fn get_next_index(&mut self) -> (r: u16)
        requires
            old(self).wf(),
        ensures
            final(self).wf(),
            r == old(self).index(),
            final(self).index() == (old(self).index() + 1) % 0x10000,
            final(self).pending() == old(self).pending(),
    {
        let value = self.ack_index;
        self.ack_index = if self.ack_index == 0xFFFF {
            0
        } else {
            self.ack_index + 1
        };
        value
    }

    /// Records a frame as sent and unconfirmed. An ack id is recorded at
    /// most once while it is in flight.
    pub fn note_sent(&mut self, ack_id: u16, now_ms: u64, bytes: &Vec<u8>)
        requires
            old(self).wf(),
            !old(self).pending().contains_key(ack_id),
        ensures
            final(self).wf(),
            final(self).index() == old(self).index(),
            final(self).pending() == old(self).pending().insert(ack_id, (now_ms, bytes@)),
    {
        proof {
            lemma_entries_map_distinct(self.unconfirmed@);
        }
        let entry = Unconfirmed { ack_id, sent_ms: now_ms, bytes: clone_bytes(bytes) };
        self.unconfirmed.push(entry);
        proof {
            assert(self.unconfirmed@.drop_last() =~= old(self).unconfirmed@);
        }
    }

    /// Drops the entry an acknowledgement confirms; an unknown id changes
    /// nothing.
    pub fn on_ack(&mut self, ack_id: u16)
        requires
            old(self).wf(),
        ensures
            final(self).wf(),
            final(self).index() == old(self).index(),
            final(self).pending() == old(self).pending().remove(ack_id),
    {
        proof {
            lemma_entries_map_distinct(self.unconfirmed@);
        }
        let n = self.unconfirmed.len();
        let mut i: usize = 0;
        while i < n
            invariant
                n == self.unconfirmed@.len(),
                i <= n,
                *self == *old(self),
                old(self).wf(),
                forall|j: int| 0 <= j < i ==> (#[trigger] self.unconfirmed@[j]).ack_id != ack_id,
            decreases n - i,
        {
            if self.unconfirmed[i].ack_id == ack_id {
                self.unconfirmed.remove(i);
                proof {
                    lemma_remove_entry(old(self).unconfirmed@, i as int, ack_id);
                }
                return ;
            }
            i = i + 1;
        }
        proof {
            lemma_entries_map_distinct(self.unconfirmed@);
            assert(!self.pending().contains_key(ack_id));
            assert(self.pending() =~= self.pending().remove(ack_id));
        }
    }

    /// Returns the bytes of every unconfirmed frame whose acknowledgement
    /// has been outstanding for the retransmission threshold or longer, and
    /// restarts those frames' timers.
    pub fn take_due(&mut self, now_ms: u64) -> (due: Vec<Vec<u8>>)
        requires
            old(self).wf(),
        ensures
            final(self).wf(),
            final(self).index() == old(self).index(),
            final(self).pending().dom() == old(self).pending().dom(),
            forall|k: u16|
                old(self).pending().contains_key(k) ==> {
                    let e = old(self).pending()[k];
                    if e.0 + RETRANSMIT_AFTER_MS <= now_ms {
                        final(self).pending()[k] == (now_ms, e.1) && exists|i: int|
                            0 <= i < due@.len() && (#[trigger] due@[i])@ == e.1
                    } else {
                        final(self).pending()[k] == e
                    }
                },
            forall|d: int|
                0 <= d < due@.len() ==> #[trigger] frame_due(
                    old(self).pending(),
                    now_ms,
                    due@[d]@,
                ),
    {
        proof {
            lemma_entries_map_distinct(self.unconfirmed@);
        }
        let mut due: Vec<Vec<u8>> = Vec::new();
        let ghost mut srcs: Seq<int> = Seq::<int>::empty();
        let n = self.unconfirmed.len();
        let mut i: usize = 0;
        while i < n
            invariant
                old(self).wf(),
                n == self.unconfirmed@.len(),
                n == old(self).unconfirmed@.len(),
                i <= n,
                self.ack_index == old(self).ack_index,
                forall|j: int|
                    0 <= j < n ==> (#[trigger] self.unconfirmed@[j]).ack_id == old(
                        self,
                    ).unconfirmed@[j].ack_id,
                forall|j: int|
                    i <= j < n ==> #[trigger] self.unconfirmed@[j] == old(self).unconfirmed@[j],
                forall|j: int|
                    0 <= j < i ==> {
                        let e = #[trigger] old(self).unconfirmed@[j];
                        if e.sent_ms + RETRANSMIT_AFTER_MS <= now_ms {
                            self.unconfirmed@[j].sent_ms == now_ms && self.unconfirmed@[j].bytes@
                                == e.bytes@ && exists|d: int|
                                0 <= d < due@.len() && (#[trigger] due@[d])@ == e.bytes@
                        } else {
                            self.unconfirmed@[j] == e
                        }
                    },
                srcs.len() == due@.len(),
                forall|d: int|
                    0 <= d < due@.len() ==> 0 <= #[trigger] srcs[d] < i && due@[d]@ == old(
                        self,
                    ).unconfirmed@[srcs[d]].bytes@ && old(self).unconfirmed@[srcs[d]].sent_ms
                        + RETRANSMIT_AFTER_MS <= now_ms,
            decreases n - i,
        {
            let sent = self.unconfirmed[i].sent_ms;
            let ghost due0 = due@;
            let ghost pre = self.unconfirmed@;
            let ghost was_due: bool = now_ms >= RETRANSMIT_AFTER_MS && sent <= now_ms
                - RETRANSMIT_AFTER_MS;
            if now_ms >= RETRANSMIT_AFTER_MS && sent <= now_ms - RETRANSMIT_AFTER_MS {
                let copy = clone_bytes(&self.unconfirmed[i].bytes);
                due.push(copy);
                let id = self.unconfirmed[i].ack_id;
                let bytes = clone_bytes(&self.unconfirmed[i].bytes);
                set_vec_elem(
                    &mut self.unconfirmed,
                    i,
                    Unconfirmed { ack_id: id, sent_ms: now_ms, bytes },
                );
                proof {
                    srcs = srcs.push(i as int);
                    assert(due@[due@.len() - 1]@ == old(self).unconfirmed@[i as int].bytes@);
                    assert(due@.len() == due0.len() + 1);
                    assert(forall|d: int| 0 <= d < due0.len() ==> due@[d] == due0[d]);
                    assert(old(self).unconfirmed@[i as int].sent_ms + RETRANSMIT_AFTER_MS
                        <= now_ms);
                }
            }
            i = i + 1;
            proof {
                assert forall|j: int|
                    0 <= j < i implies ({
                    let e = #[trigger] old(self).unconfirmed@[j];
                    if e.sent_ms + RETRANSMIT_AFTER_MS <= now_ms {
                        self.unconfirmed@[j].sent_ms == now_ms && self.unconfirmed@[j].bytes@
                            == e.bytes@ && exists|d: int|
                            0 <= d < due@.len() && (#[trigger] due@[d])@ == e.bytes@
                    } else {
                        self.unconfirmed@[j] == e
                    }
                }) by {
                    let e = old(self).unconfirmed@[j];
                    if j < i - 1 {
                        if e.sent_ms + RETRANSMIT_AFTER_MS <= now_ms {
                            let d = choose|d: int|
                                0 <= d < due0.len() && (#[trigger] due0[d])@ == e.bytes@;
                            assert(due@[d]@ == e.bytes@);
                        }
                    } else {
                        if was_due {
                            assert(due@[due@.len() - 1]@ == e.bytes@);
                        } else {
                            assert(!(e.sent_ms + RETRANSMIT_AFTER_MS <= now_ms));
                        }
                    }
                }
            }
        }
        proof {
            let a = old(self).unconfirmed@;
            let b = self.unconfirmed@;
            lemma_entries_map_distinct(a);
            assert forall|p: int, q: int|
                0 <= p < q < b.len() implies (#[trigger] b[p]).ack_id != (
            #[trigger] b[q]).ack_id by {
                assert(a[p].ack_id != a[q].ack_id);
            }
            lemma_entries_map_distinct(b);
            lemma_entries_same_keys(a, b);
            assert(self.pending().dom() =~= old(self).pending().dom());
            assert forall|k: u16| old(self).pending().contains_key(k) implies ({
                let e = old(self).pending()[k];
                if e.0 + RETRANSMIT_AFTER_MS <= now_ms {
                    self.pending()[k] == (now_ms, e.1) && exists|d: int|
                        0 <= d < due@.len() && (#[trigger] due@[d])@ == e.1
                } else {
                    self.pending()[k] == e
                }
            }) by {
                let j = choose|j: int| 0 <= j < a.len() && (#[trigger] a[j]).ack_id == k;
                assert(entries_map(a)[k] == (a[j].sent_ms, a[j].bytes@));
                assert(b[j].ack_id == k);
                assert(entries_map(b)[k] == (b[j].sent_ms, b[j].bytes@));
            }
            assert forall|d: int| 0 <= d < due@.len() implies #[trigger] frame_due(
                old(self).pending(),
                now_ms,
                due@[d]@,
            ) by {
                let j = srcs[d];
                assert(entries_map(a).contains_key(a[j].ack_id) && entries_map(a)[a[j].ack_id]
                    == (a[j].sent_ms, a[j].bytes@));
                assert(old(self).pending()[a[j].ack_id].0 + RETRANSMIT_AFTER_MS <= now_ms);
                assert(due@[d]@ == old(self).pending()[a[j].ack_id].1);
            }
        }
        due
    }
}

/// Replaces one element of a vector.
pub(crate) fn set_vec_elem<T>(s: &mut Vec<T>, i: usize, v: T)
    requires
        i < old(s)@.len(),
    ensures
        final(s)@ == old(s)@.update(i as int, v),
{
    s[i] = v;
}

/// Copies a byte vector.
fn clone_bytes(v: &Vec<u8>) -> (r: Vec<u8>)
    ensures
        r@ == v@,
{
    let mut r: Vec<u8> = Vec::new();
    let mut i: usize = 0;
    while i < v.len()
        invariant
            i <= v@.len(),
            r@ == v@.take(i as int),
        decreases v@.len() - i,
    {
        r.push(v[i]);
        proof {
            assert(r@ =~= v@.take(i as int + 1));
        }
        i = i + 1;
    }
    proof {
        assert(v@.take(v@.len() as int) =~= v@);
    }
    r
}

proof fn lemma_remove_entry(s: Seq<Unconfirmed>, i: int, k: u16)
    requires
        0 <= i < s.len(),
        s[i].ack_id == k,
        forall|a: int, b: int|
            0 <= a < b < s.len() ==> (#[trigger] s[a]).ack_id != (#[trigger] s[b]).ack_id,
    ensures
        entries_map(s.remove(i)) == entries_map(s).remove(k),
        forall|a: int, b: int|
            0 <= a < b < s.remove(i).len() ==> (#[trigger] s.remove(i)[a]).ack_id != (
            #[trigger] s.remove(i)[b]).ack_id,
{
    lemma_entries_map_distinct(s);
    assert forall|a: int, b: int|
        0 <= a < b < s.remove(i).len() implies (#[trigger] s.remove(i)[a]).ack_id != (
    #[trigger] s.remove(i)[b]).ack_id by {
        let a2 = if a < i {
            a
        } else {
            a + 1
        };
        let b2 = if b < i {
            b
        } else {
            b + 1
        };
        assert(s.remove(i)[a] == s[a2] && s.remove(i)[b] == s[b2]);
    }
    lemma_entries_map_distinct(s.remove(i));
    assert forall|k2: u16| #[trigger]
        entries_map(s.remove(i)).contains_key(k2) == entries_map(s).remove(k).contains_key(
        k2,
    ) && (entries_map(s).remove(k).contains_key(k2) ==> entries_map(s.remove(i))[k2]
        == entries_map(s).remove(k)[k2]) by {
        if entries_map(s.remove(i)).contains_key(k2) {
            let j = choose|j: int| 0 <= j < s.remove(i).len() && (#[trigger] s.remove(i)[j]).ack_id
                == k2;
            let j2 = if j < i {
                j
            } else {
                j + 1
            };
            assert(s.remove(i)[j] == s[j2]);
            assert(k2 != k);
        }
        if entries_map(s).remove(k).contains_key(k2) {
            let j = choose|j: int| 0 <= j < s.len() && (#[trigger] s[j]).ack_id == k2;
            assert(j != i);
            let j2 = if j < i {
                j
            } else {
                j - 1
            };
            assert(s.remove(i)[j2] == s[j]);
        }
    }
    assert(entries_map(s.remove(i)) =~= entries_map(s).remove(k));
}

proof fn lemma_entries_same_keys(a: Seq<Unconfirmed>, b: Seq<Unconfirmed>)
    requires
        a.len() == b.len(),
        forall|i: int, j: int|
            0 <= i < j < a.len() ==> (#[trigger] a[i]).ack_id != (#[trigger] a[j]).ack_id,
        forall|j: int| 0 <= j < a.len() ==> (#[trigger] b[j]).ack_id == a[j].ack_id,
    ensures
        entries_map(a).dom() == entries_map(b).dom(),
{
    lemma_entries_map_distinct(a);
    assert forall|i: int, j: int|
        0 <= i < j < b.len() implies (#[trigger] b[i]).ack_id != (#[trigger] b[j]).ack_id by {
        assert(a[i].ack_id != a[j].ack_id);
    }
    lemma_entries_map_distinct(b);
    assert forall|k: u16|
        entries_map(a).contains_key(k) == entries_map(b).contains_key(k) by {
        if entries_map(a).contains_key(k) {
            let i = choose|i: int| 0 <= i < a.len() && (#[trigger] a[i]).ack_id == k;
            assert(b[i].ack_id == k);
        }
        if entries_map(b).contains_key(k) {
            let i = choose|i: int| 0 <= i < b.len() && (#[trigger] b[i]).ack_id == k;
            assert(a[i].ack_id == k);
        }
    }
    assert(entries_map(a).dom() =~= entries_map(b).dom());
}

/// The protocol engine of the UDP transport. It frames outbound data,
/// assigns acknowledgement ids, answers inbound reliable-class frames, and
/// decides retransmissions; the embedding application moves the bytes.
pub struct NetClient {
    ack_handler: AckHandler,
}

impl NetClient {
    pub open spec fn wf(&self) -> bool {
        self.handler().wf()
    }

    /// The ack state of the transport.
    pub closed spec fn handler(&self) -> AckHandler {
        self.ack_handler
    }

    /// A transport that has sent nothing: its first reliable-class frame
    /// will carry ack id 1.
    pub fn new() -> (r: NetClient)
        ensures
            r.wf(),
            r.handler().index() == 1,
            r.handler().pending() == Map::<u16, (u64, Seq<u8>)>::empty(),
    {
        NetClient { ack_handler: AckHandler::new() }
    }


    /// The ack id the next reliable-class frame will carry.
    pub fn next_ack_id(&self) -> (r: u16)
        ensures
            r == self.handler().index(),
    {
        self.ack_handler.next_ack_id()
    }

    /// How many frames await acknowledgement.
    pub fn pending_count(&self) -> (r: usize)
        requires
            self.wf(),
        ensures
            r == self.handler().pending().dom().len(),
    {
        self.ack_handler.pending_count()
    }

    /// Whether a frame with this ack id awaits acknowledgement.
    pub fn is_pending(&self, ack_id: u16) -> (r: bool)
        requires
            self.wf(),
        ensures
            r == self.handler().pending().contains_key(ack_id),
    {
        self.ack_handler.is_pending(ack_id)
    }

    /// Frames data as an unreliable packet; nothing is tracked.
    pub fn send_unreliable(&mut self, data: Vec<u8>) -> (frame: Vec<u8>)
        requires
            old(self).wf(),
        ensures
            final(self).wf(),
            *final(self) == *old(self),
            frame@ == (HazelPacketOut::Unreliable { data }).spec_ser(),
    {
        let p = HazelPacketOut::Unreliable { data };
        p.serialize_bytes()
    }

    /// Frames data as a reliable packet: the frame carries the next ack id
    /// and its bytes stay in the unconfirmed map, stamped with the send
    /// time, until the peer acknowledges that id.
    pub fn send_reliable(&mut self, data: Vec<u8>, now_ms: u64) -> (frame: Vec<u8>)
        requires
            old(self).wf(),
            !old(self).handler().pending().contains_key(old(self).handler().index()),
        ensures
            final(self).wf(),
            frame@ == (HazelPacketOut::Reliable {
                ack_id: old(self).handler().index(),
                data,
            }).spec_ser(),
            final(self).handler().pending() == old(self).handler().pending().insert(
                old(self).handler().index(),
                (now_ms, frame@),
            ),
            final(self).handler().index() == (old(self).handler().index() + 1) % 0x10000,
    {
        let ack_id = self.ack_handler.get_next_index();
        let p = HazelPacketOut::Reliable { ack_id, data };
        let frame = p.serialize_bytes();
        self.ack_handler.note_sent(ack_id, now_ms, &frame);
        frame
    }

    /// Frames data as the connection-opening hello; tracked for
    /// retransmission exactly like a reliable frame.
    pub fn send_hello(&mut self, data: Vec<u8>, now_ms: u64) -> (frame: Vec<u8>)
        requires
            old(self).wf(),
            !old(self).handler().pending().contains_key(old(self).handler().index()),
        ensures
            final(self).wf(),
            frame@ == (HazelPacketOut::Hello {
                ack_id: old(self).handler().index(),
                data,
            }).spec_ser(),
            final(self).handler().pending() == old(self).handler().pending().insert(
                old(self).handler().index(),
                (now_ms, frame@),
            ),
            final(self).handler().index() == (old(self).handler().index() + 1) % 0x10000,
    {
        let ack_id = self.ack_handler.get_next_index();
        let p = HazelPacketOut::Hello { ack_id, data };
        let frame = p.serialize_bytes();
        self.ack_handler.note_sent(ack_id, now_ms, &frame);
        frame
    }

    /// The farewell frame, sent best-effort when the transport goes down.
    pub fn send_disconnect(&self) -> (frame: Vec<u8>)
        ensures
            frame@ == HazelPacketOut::Disconnect.spec_ser(),
    {
        HazelPacketOut::Disconnect.serialize_bytes()
    }

    /// Takes one received datagram; it fails exactly when the datagram is
    /// not a frame. Returns the frame it held and, for each received
    /// `Reliable`, `Hello` or `KeepAlive`, exactly one outbound
    /// `Acknowledge` frame carrying the same ack id. An inbound
    /// `Acknowledge` clears its id from the unconfirmed map; an unknown id
    /// changes nothing.
    pub fn read_packet(&mut self, datagram: Vec<u8>) -> (res: Result<
        (HazelPacket, Option<Vec<u8>>),
        CodecError,
    >)
        requires
            old(self).wf(),
        ensures
            final(self).wf(),
            final(self).handler().index() == old(self).handler().index(),
            match res {
                Ok((p, ack)) => {
                    &&& hazel_rel(p, datagram@)
                    &&& match p.spec_ack_id() {
                        Some(id) => ack is Some && ack.unwrap()@ == (HazelPacketOut::Acknowledge {
                            ack_id: id,
                        }).spec_ser(),
                        None => ack is None,
                    }
                    &&& (match p {
                        HazelPacket::Acknowledge { ack_id } => final(self).handler().pending()
                            == old(self).handler().pending().remove(ack_id),
                        _ => final(self).handler().pending() == old(self).handler().pending(),
                    })
                },
                Err(e) => {
                    &&& *final(self) == *old(self)
                    &&& (e == CodecError::UnexpectedEof || e == CodecError::InvalidDiscriminant)
                    &&& (e == CodecError::InvalidDiscriminant <==> datagram@.len() >= 1
                        && datagram@[0] != 0 && datagram@[0] != 1 && datagram@[0] != 8
                        && datagram@[0] != 9 && datagram@[0] != 10 && datagram@[0] != 12)
                    &&& (e == CodecError::UnexpectedEof <==> (datagram@.len() == 0 || (
                    datagram@.len() < 3 && (datagram@[0] == 1 || datagram@[0] == 8 || datagram@[0]
                        == 10 || datagram@[0] == 12))))
                },
            },
    {
        let mut r = crate::codec::PacketReader::new(datagram);
        let packet = match HazelPacket::deserialize(&mut r) {
            Ok(p) => p,
            Err(e) => {
                return Err(e);
            },
        };
        match &packet {
            HazelPacket::Reliable { ack_id, .. } => {
                let ack = (HazelPacketOut::Acknowledge { ack_id: *ack_id }).serialize_bytes();
                Ok((packet, Some(ack)))
            },
            HazelPacket::Hello { ack_id, .. } => {
                let ack = (HazelPacketOut::Acknowledge { ack_id: *ack_id }).serialize_bytes();
                Ok((packet, Some(ack)))
            },
            HazelPacket::KeepAlive { ack_id } => {
                let ack = (HazelPacketOut::Acknowledge { ack_id: *ack_id }).serialize_bytes();
                Ok((packet, Some(ack)))
            },
            HazelPacket::Acknowledge { ack_id } => {
                self.ack_handler.on_ack(*ack_id);
                Ok((packet, None))
            },
            _ => Ok((packet, None)),
        }
    }

    /// Returns the frames due for retransmission: every unconfirmed frame
    /// whose acknowledgement has been outstanding for at least the
    /// threshold. Each returned frame's timer restarts at `now_ms`.
    pub fn retransmissions(&mut self, now_ms: u64) -> (due: Vec<Vec<u8>>)
        requires
            old(self).wf(),
        ensures
            final(self).wf(),
            final(self).handler().index() == old(self).handler().index(),
            final(self).handler().pending().dom() == old(self).handler().pending().dom(),
            forall|k: u16|
                old(self).handler().pending().contains_key(k) ==> {
                    let e = old(self).handler().pending()[k];
                    if e.0 + RETRANSMIT_AFTER_MS <= now_ms {
                        final(self).handler().pending()[k] == (now_ms, e.1) && exists|i: int|
                            0 <= i < due@.len() && (#[trigger] due@[i])@ == e.1
                    } else {
                        final(self).handler().pending()[k] == e
                    }
                },
            forall|d: int|
                0 <= d < due@.len() ==> #[trigger] frame_due(
                    old(self).handler().pending(),
                    now_ms,
                    due@[d]@,
                ),
    {
        self.ack_handler.take_due(now_ms)
    }
}

} // verus!
