//! The send side of the reliability engine: wrapping index allocation, the
//! set of sent-but-unacknowledged reliable packets, and its pruning against
//! the peer's ack fields. An entry leaves the set only when the peer's
//! `(ack_index, ack_mask)` covers its index; retransmission scans only emit
//! what is still in the set, so an acknowledged index is never resent.

use vstd::prelude::*;

use crate::ack::spec_ack_covers;
use crate::ack::spec_mask_covers;
use crate::ack::spec_wrap_distance;
use crate::ack::wrap_distance;

verus! {

/// One reliable packet awaiting acknowledgement: everything needed to
/// rebuild and resend it under its original index.
#[derive(Debug)]
pub struct SentRecord {
    /// The packet index the payload was first sent under; reused on resend.
    pub index: u16,
    /// Flag bits of the packet.
    pub flags: u8,
    /// Prelude field of the packet.
    pub prelude: u32,
    /// The payload bytes.
    pub payload: Vec<u8>,
    /// When the packet was last (re)sent, in milliseconds.
    pub send_time_ms: u64,
    /// How many times the packet was resent.
    pub retransmits: u32,
}

/// Whether the ack fields `(head, mask)` cover a record's index.
pub open spec fn spec_record_uncovered(head: u16, mask: u64, r: SentRecord) -> bool {
    !spec_ack_covers(head, mask, r.index)
}

/// The send side of the reliability engine for one connection.
#[derive(Debug)]
pub struct SendTracker {
    /// Next packet index to assign.
    pub next_index: u16,
    /// Reliable packets not yet acknowledged, oldest first.
    pub records: Vec<SentRecord>,
}

impl SendTracker {
    /// How many allocations ago record `j`'s index was handed out.
    pub open spec fn spec_index_age(self, j: int) -> int {
        spec_wrap_distance(self.next_index, self.records@[j].index)
    }

    /// Record indices are pairwise distinct and none equals the index about
    /// to be handed out: ages are at least 1 and strictly decrease from the
    /// oldest record to the newest.
    pub open spec fn spec_indices_wf(self) -> bool {
        &&& forall|j: int| 0 <= j < self.records@.len() ==> 1 <= #[trigger] self.spec_index_age(j)
        &&& forall|j: int, k: int|
            0 <= j < k < self.records@.len() ==> #[trigger] self.spec_index_age(j)
                > #[trigger] self.spec_index_age(k)
    }

    /// Indices that can still be handed out before the oldest tracked index
    /// would be reissued.
    pub open spec fn spec_allocations_left(self) -> int {
        if self.records@.len() == 0 {
            0xffff
        } else {
            0xffff - self.spec_index_age(0)
        }
    }

    /// An empty tracker starting at index 0.
    pub fn new() -> (t: SendTracker)
        ensures
            t.next_index == 0,
            t.records@ =~= Seq::<SentRecord>::empty(),
    {
        SendTracker { next_index: 0, records: Vec::new() }
    }

    /// Hand out the next packet index, advancing it by one, wrapping.
    pub fn allocate_index(&mut self) -> (idx: u16)
        ensures
            idx == old(self).next_index,
            final(self).next_index as int == if old(self).next_index == 0xffff {
                0int
            } else {
                old(self).next_index + 1
            },
            final(self).records == old(self).records,
    {
        let idx = self.next_index;
        self.next_index = if idx == 0xffff {
            0
        } else {
            idx + 1
        };
        idx
    }

    /// Record a reliable packet as sent and awaiting acknowledgement.
    pub fn record_sent(&mut self, record: SentRecord)
        ensures
            final(self).records@ == old(self).records@.push(record),
            final(self).next_index == old(self).next_index,
    {
        self.records.push(record);
    }

    /// Prune every record whose index the peer's ack fields cover; the
    /// survivors keep their order. A pruned index can never be emitted by a
    /// retransmission scan again.
    pub fn process_acks(&mut self, head: u16, mask: u64)
        requires
            old(self).spec_indices_wf(),
        ensures
            final(self).spec_indices_wf(),
            final(self).records@ == old(self).records@.filter(
                |r: SentRecord| spec_record_uncovered(head, mask, r),
            ),
            forall|j: int|
                0 <= j < final(self).records@.len() ==> old(self).records@.contains(
                    #[trigger] final(self).records@[j],
                ),
            final(self).next_index == old(self).next_index,
    {
        let ghost orig = self.records@;
        let ghost pred = |r: SentRecord| spec_record_uncovered(head, mask, r);
        let mut kept: Vec<SentRecord> = Vec::new();
        let ghost mut k: int = 0;
        proof {
            assert(orig.take(0).filter(pred) =~= Seq::<SentRecord>::empty()) by {
                reveal(Seq::filter);
                assert(orig.take(0) =~= Seq::<SentRecord>::empty());
            }
        }
        while self.records.len() > 0
            invariant
                0 <= k <= orig.len(),
                self.records@ =~= orig.skip(k),
                pred == (|r: SentRecord| spec_record_uncovered(head, mask, r)),
                kept@ == orig.take(k).filter(pred),
                forall|j: int| 0 <= j < kept@.len() ==> orig.contains(#[trigger] kept@[j]),
                self.next_index == old(self).next_index,
                old(self).spec_indices_wf(),
                orig == old(self).records@,
                forall|a: int|
                    0 <= a < kept@.len() ==> 1 <= spec_wrap_distance(
                        self.next_index,
                        (#[trigger] kept@[a]).index,
                    ),
                forall|a: int, b: int|
                    0 <= a < b < kept@.len() ==> spec_wrap_distance(
                        self.next_index,
                        (#[trigger] kept@[a]).index,
                    ) > spec_wrap_distance(self.next_index, (#[trigger] kept@[b]).index),
                forall|a: int, k2: int|
                    0 <= a < kept@.len() && k <= k2 < orig.len() ==> spec_wrap_distance(
                        self.next_index,
                        (#[trigger] kept@[a]).index,
                    ) > spec_wrap_distance(self.next_index, (#[trigger] orig[k2]).index),
            decreases self.records@.len(),
        {
            let r = self.records.remove(0);
            proof {
                assert(r == orig[k]);
                assert(orig.skip(k).remove(0) =~= orig.skip(k + 1));
            }
            let delivered = !ack_covers(head, mask, r.index);
            if delivered {
                kept.push(r);
                proof {
                    assert(orig.contains(orig[k])) by {
                        assert(orig[k] == orig[k]);
                    }
                    assert(1 <= spec_wrap_distance(self.next_index, orig[k].index)) by {
                        assert(old(self).spec_index_age(k) >= 1);
                    }
                    assert forall|k2: int| k + 1 <= k2 < orig.len() implies spec_wrap_distance(
                        self.next_index,
                        orig[k].index,
                    ) > spec_wrap_distance(self.next_index, (#[trigger] orig[k2]).index) by {
                        assert(old(self).spec_index_age(k) > old(self).spec_index_age(k2));
                    }
                }
            }
            proof {
                reveal(Seq::filter);
                assert(pred(orig[k]) == spec_record_uncovered(head, mask, orig[k]));
                assert(pred(orig[k]) == delivered);
                let single = seq![orig[k]];
                assert(single.drop_last() =~= Seq::<SentRecord>::empty());
                assert(single.drop_last().filter(pred) == single.drop_last());
                assert(single.last() == orig[k]);
                if pred(orig[k]) {
                    assert(single.filter(pred) =~= seq![orig[k]]);
                    assert(kept@ =~= orig.take(k).filter(pred) + single.filter(pred));
                } else {
                    assert(single.filter(pred) =~= Seq::<SentRecord>::empty());
                    assert(kept@ =~= orig.take(k).filter(pred) + single.filter(pred));
                }
                assert(orig.take(k + 1) == orig.take(k) + single);
                Seq::<SentRecord>::filter_distributes_over_add(orig.take(k), single, pred);
                k = k + 1;
                assert(kept@ == orig.take(k).filter(pred));
            }
        }
        proof {
            assert(orig.take(k) =~= orig);
        }
        self.records = kept;
        proof {
            assert forall|j: int| 0 <= j < self.records@.len() implies 1
                <= #[trigger] self.spec_index_age(j) by {
                assert(1 <= spec_wrap_distance(self.next_index, self.records@[j].index));
            }
            assert forall|j: int, k2: int|
                0 <= j < k2 < self.records@.len() implies #[trigger] self.spec_index_age(j)
                > #[trigger] self.spec_index_age(k2) by {
                assert(spec_wrap_distance(self.next_index, self.records@[j].index)
                    > spec_wrap_distance(self.next_index, self.records@[k2].index));
            }
        }
    }

    /// Update one record after resending it: refresh its send time and count
    /// one more retransmission. Every other record is untouched.
    pub fn mark_retransmitted(&mut self, j: usize, now_ms: u64)
        requires
            j < old(self).records@.len(),
            old(self).records@[j as int].retransmits < u32::MAX,
        ensures
            final(self).records@.len() == old(self).records@.len(),
            final(self).records@[j as int].index == old(self).records@[j as int].index,
            final(self).records@[j as int].flags == old(self).records@[j as int].flags,
            final(self).records@[j as int].prelude == old(self).records@[j as int].prelude,
            final(self).records@[j as int].payload == old(self).records@[j as int].payload,
            final(self).records@[j as int].send_time_ms == now_ms,
            final(self).records@[j as int].retransmits == old(self).records@[j as int].retransmits
                + 1,
            forall|i: int|
                0 <= i < old(self).records@.len() && i != j ==> final(self).records@[i] == old(
                    self,
                ).records@[i],
            final(self).next_index == old(self).next_index,
    {
        let rec = self.records.remove(j);
        let updated = SentRecord {
            send_time_ms: now_ms,
            retransmits: rec.retransmits + 1,
            ..rec
        };
        self.records.insert(j, updated);
        proof {
            assert(final(self).records@ =~= old(self).records@.update(
                j as int,
                final(self).records@[j as int],
            ));
        }
    }
}

/// Whether ack fields `(head, mask)` acknowledge index `i`.
pub fn ack_covers(head: u16, mask: u64, i: u16) -> (r: bool)
    ensures
        r == spec_ack_covers(head, mask, i),
{
    if i == head {
        return true;
    }
    let d = wrap_distance(head, i);
    if 1 <= d && d <= 64 {
        let bit_set = (mask >> ((d - 1) as u64)) & 1 == 1;
        proof {
            assert(spec_mask_covers(mask, d as int) == ((mask >> ((d - 1) as u64)) & 1 == 1));
        }
        bit_set
    } else {
        false
    }
}

/// Unique until acknowledged: with well-formed ages, no two tracked records
/// share a packet index.
pub proof fn lemma_tracked_indices_distinct(t: SendTracker)
    requires
        t.spec_indices_wf(),
    ensures
        forall|j: int, k: int|
            0 <= j < k < t.records@.len() ==> (#[trigger] t.records@[j]).index != (
            #[trigger] t.records@[k]).index,
{
    assert forall|j: int, k: int|
        0 <= j < k < t.records@.len() implies (#[trigger] t.records@[j]).index != (
    #[trigger] t.records@[k]).index by {
        assert(t.spec_index_age(j) > t.spec_index_age(k));
    }
}

/// Retransmit removal: once ack fields cover an index, pruning against them
/// leaves no record under that index, whatever was tracked before.
pub proof fn lemma_acked_never_retransmitted(
    records: Seq<SentRecord>,
    kept: Seq<SentRecord>,
    head: u16,
    mask: u64,
    i: u16,
)
    requires
        spec_ack_covers(head, mask, i),
        kept == records.filter(|r: SentRecord| spec_record_uncovered(head, mask, r)),
    ensures
        forall|j: int| 0 <= j < kept.len() ==> (#[trigger] kept[j]).index != i,
{
    let pred = |r: SentRecord| spec_record_uncovered(head, mask, r);
    assert forall|j: int| 0 <= j < kept.len() implies (#[trigger] kept[j]).index != i by {
        Seq::<SentRecord>::lemma_filter_pred(records, pred, j);
    }
}

} // verus!
