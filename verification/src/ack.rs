//! Acknowledgement bookkeeping over the wrapping 16-bit sequence space: which
//! of the last 64 packet indices were received (the receive window whose
//! contents travel as `ack_index`/`ack_mask`), and which sent packets a peer's
//! ack fields cover.

use vstd::prelude::*;

verus! {

/// Width of the retrospective window covered by an ack mask.
pub const ACK_WINDOW: u16 = 64;

/// Forward wrapping distance from `b` to `a`: how many increments take `b`
/// to `a` in the 16-bit sequence space.
pub open spec fn spec_wrap_distance(a: u16, b: u16) -> int {
    if a >= b {
        a - b
    } else {
        a - b + 0x10000
    }
}

/// The standard recency rule: `a` is strictly newer than `b` iff stepping
/// `b` forward fewer than 2^15 times (and at least once) reaches `a`.
pub open spec fn spec_newer_than(a: u16, b: u16) -> bool {
    0 < spec_wrap_distance(a, b) < 0x8000
}

/// Whether the mask bit standing for distance `d` behind the head is set.
pub open spec fn spec_mask_covers(mask: u64, d: int) -> bool
    recommends
        1 <= d <= 64,
{
    (mask >> ((d - 1) as u64)) & 1 == 1
}

/// Whether ack fields `(head, mask)` acknowledge index `i`: either `i` is the
/// head itself, or `i` lies at most 64 behind it and its mask bit is set.
pub open spec fn spec_ack_covers(head: u16, mask: u64, i: u16) -> bool {
    ||| i == head
    ||| {
        let d = spec_wrap_distance(head, i);
        1 <= d <= 64 && spec_mask_covers(mask, d)
    }
}

/// Compute the forward wrapping distance from `b` to `a`.
pub fn wrap_distance(a: u16, b: u16) -> (d: u16)
    ensures
        d as int == spec_wrap_distance(a, b),
{
    if a >= b {
        a - b
    } else {
        (0x10000u32 + a as u32 - b as u32) as u16
    }
}

/// Whether `a` is strictly newer than `b` under the wrapping recency rule.
pub fn newer_than(a: u16, b: u16) -> (r: bool)
    ensures
        r == spec_newer_than(a, b),
{
    let d = wrap_distance(a, b);
    0 < d && d < 0x8000
}

/// The receive window: the newest packet index seen from the peer, and one
/// mask bit for each of the 64 indices behind it. Its contents are copied
/// into the `ack_index`/`ack_mask` fields of every outgoing packet.
#[derive(Clone, Copy, Debug, PartialEq, Eq, Structural)]
pub struct ReceiveWindow {
    /// Newest received packet index; meaningful only once `started`.
    pub ack_index: u16,
    /// Bit `i` set iff packet `ack_index - (i+1)` (wrapping) was received.
    pub ack_mask: u64,
    /// Whether any packet was received yet.
    pub started: bool,
}

/// Whether the window acknowledges index `i`.
pub open spec fn spec_window_acked(w: ReceiveWindow, i: u16) -> bool {
    w.started && spec_ack_covers(w.ack_index, w.ack_mask, i)
}

/// The window after recording the arrival of index `p`: the first arrival
/// starts the window; a newer index becomes the head, shifting the mask and
/// marking the old head; an index within the window sets its mask bit; an
/// index older than the whole window changes nothing.
pub open spec fn spec_window_after(w: ReceiveWindow, p: u16) -> ReceiveWindow {
    if !w.started {
        ReceiveWindow { ack_index: p, ack_mask: 0, started: true }
    } else if p == w.ack_index {
        w
    } else {
        let d = spec_wrap_distance(p, w.ack_index);
        if d < 0x8000 {
            let new_mask = if d < 64 {
                (w.ack_mask << (d as u64)) | (1u64 << ((d - 1) as u64))
            } else if d == 64 {
                1u64 << 63
            } else {
                0u64
            };
            ReceiveWindow { ack_index: p, ack_mask: new_mask, started: true }
        } else {
            let back = spec_wrap_distance(w.ack_index, p);
            if back > 64 {
                w
            } else {
                ReceiveWindow { ack_mask: w.ack_mask | (1u64 << ((back - 1) as u64)), ..w }
            }
        }
    }
}

impl ReceiveWindow {
    /// A window that has seen no packet.
    pub fn new() -> (w: ReceiveWindow)
        ensures
            !w.started,
            forall|i: u16| !spec_window_acked(w, i),
    {
        ReceiveWindow { ack_index: 0, ack_mask: 0, started: false }
    }

    /// Record the arrival of packet index `p` and say whether its contents
    /// are to be delivered: true for a first arrival inside the window, false
    /// for a duplicate or for an index older than the whole window.
    pub fn note_received(&mut self, p: u16) -> (delivered: bool)
        ensures
            *final(self) == spec_window_after(*old(self), p),
            final(self).started,
            // Delivery happens exactly for a packet not already acknowledged
            // that is not older than the whole window.
            delivered == (!spec_window_acked(*old(self), p) && (!old(self).started
                || spec_newer_than(p, old(self).ack_index) || spec_wrap_distance(
                old(self).ack_index,
                p,
            ) <= 64)),
            // A delivered packet is acknowledged from now on.
            delivered ==> spec_window_acked(*final(self), p),
            // Acknowledgements are never invented: anything the new window
            // acknowledges was either acknowledged before or is `p` itself.
            forall|i: u16|
                spec_window_acked(*final(self), i) ==> spec_window_acked(*old(self), i) || i == p,
            // Acknowledgements are kept: anything acknowledged before stays
            // acknowledged while it remains within 64 of the new head.
            forall|i: u16|
                spec_window_acked(*old(self), i) && spec_ack_covers(
                    final(self).ack_index,
                    0xffff_ffff_ffff_ffffu64,
                    i,
                ) ==> spec_window_acked(*final(self), i),
            // The head never moves backwards.
            old(self).started ==> final(self).ack_index == old(self).ack_index || spec_newer_than(
                final(self).ack_index,
                old(self).ack_index,
            ),
    {
        if !self.started {
            self.started = true;
            self.ack_index = p;
            self.ack_mask = 0;
            proof {
                assert forall|i: u16| spec_window_acked(*self, i) implies i == p by {
                    let dd = spec_wrap_distance(p, i);
                    if i != p && 1 <= dd <= 64 {
                        let eu = (dd - 1) as u64;
                        assert((0u64 >> eu) & 1 == 0) by (bit_vector);
                    }
                }
            }
            return true;
        }
        if p == self.ack_index {
            return false;
        }
        let d = wrap_distance(p, self.ack_index);
        if d < 0x8000 {
            // `p` is newer: it becomes the head; previous acknowledgements
            // shift `d` places deeper into the mask and the old head gets the
            // bit at distance `d`.
            let new_mask: u64 = if d < 64 {
                (self.ack_mask << (d as u64)) | (1u64 << ((d - 1) as u64))
            } else if d == 64 {
                1u64 << 63
            } else {
                0
            };
            proof {
                lemma_shift_mask_covers(self.ack_mask, d, new_mask);
                lemma_wrap_distance_chain(p, self.ack_index);
            }
            self.ack_mask = new_mask;
            self.ack_index = p;
            true
        } else {
            // `p` is older than the head: inside the 64-wide window it is
            // recorded by its mask bit, further back it is discarded.
            let back = wrap_distance(self.ack_index, p);
            proof {
                lemma_wrap_distance_antisymmetric(p, self.ack_index);
            }
            if back > ACK_WINDOW {
                false
            } else {
                let bit = 1u64 << ((back - 1) as u64);
                let already = self.ack_mask & bit != 0;
                proof {
                    lemma_set_mask_covers(self.ack_mask, back, self.ack_mask | bit);
                    lemma_wrap_distance_chain(self.ack_index, p);
                }
                if already {
                    proof {
                        let bu = (back - 1) as u64;
                        let m = self.ack_mask;
                        assert(m & (1u64 << bu) != 0 ==> (m | (1u64 << bu)) == m) by (bit_vector);
                    }
                    false
                } else {
                    self.ack_mask = self.ack_mask | bit;
                    true
                }
            }
        }
    }
}

/// How the mask bits move when the head advances by `d`: the new mask covers
/// distance `e` iff `e` marks the old head (`e == d`) or the old mask covered
/// `e - d`.
proof fn lemma_shift_mask_covers(mask: u64, d: u16, new_mask: u64)
    requires
        1 <= d,
        new_mask == if d < 64 {
            (mask << (d as u64)) | (1u64 << ((d - 1) as u64))
        } else if d == 64 {
            1u64 << 63
        } else {
            0u64
        },
    ensures
        forall|e: int|
            1 <= e <= 64 ==> (#[trigger] spec_mask_covers(new_mask, e) <==> (e == d || (e > d
                && spec_mask_covers(mask, e - d)))),
{
    assert forall|e: int| 1 <= e <= 64 implies (#[trigger] spec_mask_covers(new_mask, e) <==> (e
        == d || (e > d && spec_mask_covers(mask, e - d)))) by {
        let eu = (e - 1) as u64;
        if d < 64 {
            let du = d as u64;
            assert((((mask << du) | (1u64 << ((du - 1) as u64))) >> eu) & 1 == 1 <==> (eu == (du
                - 1) as u64 || (eu >= du && (mask >> ((eu - du) as u64)) & 1 == 1))) by (bit_vector)
                requires
                    1 <= du < 64,
                    eu < 64,
            ;
        } else if d == 64 {
            assert(((1u64 << 63) >> eu) & 1 == 1 <==> eu == 63) by (bit_vector)
                requires
                    eu < 64,
            ;
        } else {
            assert(((0u64) >> eu) & 1 == 0) by (bit_vector);
        }
    }
}

/// Setting the bit at distance `back` makes the mask cover exactly the old
/// distances plus `back`.
proof fn lemma_set_mask_covers(mask: u64, back: u16, new_mask: u64)
    requires
        1 <= back <= 64,
        new_mask == mask | (1u64 << ((back - 1) as u64)),
    ensures
        forall|e: int|
            1 <= e <= 64 ==> (#[trigger] spec_mask_covers(new_mask, e) <==> (e == back
                || spec_mask_covers(mask, e))),
        spec_mask_covers(new_mask, back as int),
        (mask & (1u64 << ((back - 1) as u64)) != 0) == spec_mask_covers(mask, back as int),
{
    let bu = (back - 1) as u64;
    assert(((mask | (1u64 << bu)) >> bu) & 1 == 1) by (bit_vector)
        requires
            bu < 64,
    ;
    assert((mask & (1u64 << bu) != 0) <==> (mask >> bu) & 1 == 1) by (bit_vector)
        requires
            bu < 64,
    ;
    assert forall|e: int| 1 <= e <= 64 implies (#[trigger] spec_mask_covers(new_mask, e) <==> (e
        == back || spec_mask_covers(mask, e))) by {
        let eu = (e - 1) as u64;
        assert(((mask | (1u64 << bu)) >> eu) & 1 == 1 <==> (eu == bu || (mask >> eu) & 1 == 1))
            by (bit_vector)
            requires
                bu < 64,
                eu < 64,
        ;
    }
}

/// Distances compose around the head: for any third index `i`, the distance
/// from `a` to `i` is the distance from `a` to `b` plus the one from `b` to
/// `i`, wrapping once past the sequence range.
proof fn lemma_wrap_distance_chain(a: u16, b: u16)
    ensures
        forall|i: u16|
            #[trigger] spec_wrap_distance(a, i) == if spec_wrap_distance(a, b)
                + spec_wrap_distance(b, i) < 0x10000 {
                spec_wrap_distance(a, b) + spec_wrap_distance(b, i)
            } else {
                spec_wrap_distance(a, b) + spec_wrap_distance(b, i) - 0x10000
            },
{
}

/// Two distinct indices see each other at complementary distances.
proof fn lemma_wrap_distance_antisymmetric(a: u16, b: u16)
    requires
        a != b,
    ensures
        spec_wrap_distance(a, b) + spec_wrap_distance(b, a) == 0x10000,
{
}

/// Wrapping correctness: the forward distance is invariant under shifting
/// both indices by the same amount around the sequence space.
pub proof fn lemma_wrap_distance_shift_invariant(a: u16, b: u16, k: u16)
    ensures
        spec_wrap_distance(
            vstd::wrapping::u16_specs::wrapping_add(a, k),
            vstd::wrapping::u16_specs::wrapping_add(b, k),
        ) == spec_wrap_distance(a, b),
{
}

/// Wrapping correctness: whether ack fields cover an index depends only on
/// its distance behind the head, so the whole ack logic is invariant under
/// shifting head and index together — including across the 16-bit wrap.
pub proof fn lemma_ack_covers_wrap_invariant(head: u16, mask: u64, i: u16, k: u16)
    ensures
        spec_ack_covers(
            vstd::wrapping::u16_specs::wrapping_add(head, k),
            mask,
            vstd::wrapping::u16_specs::wrapping_add(i, k),
        ) == spec_ack_covers(head, mask, i),
{
    lemma_wrap_distance_shift_invariant(head, i, k);
}

/// The window after receiving every index of `ps`, front to back.
pub open spec fn spec_window_after_all(w: ReceiveWindow, ps: Seq<u16>) -> ReceiveWindow
    decreases ps.len(),
{
    if ps.len() == 0 {
        w
    } else {
        spec_window_after_all(spec_window_after(w, ps[0]), ps.skip(1))
    }
}

/// One step of the window transition: the arrival is acknowledged unless it
/// lies further than the whole window behind the head; acknowledgements
/// within 64 of the new head are kept; the head is the old head or the
/// arrival.
proof fn lemma_window_after_step(w: ReceiveWindow, p: u16)
    ensures
        spec_window_after(w, p).started,
        (!w.started || spec_window_acked(w, p) || spec_newer_than(p, w.ack_index)
            || spec_wrap_distance(w.ack_index, p) <= 64) ==> spec_window_acked(
            spec_window_after(w, p),
            p,
        ),
        forall|i: u16|
            spec_window_acked(w, i) && spec_ack_covers(
                spec_window_after(w, p).ack_index,
                0xffff_ffff_ffff_ffffu64,
                i,
            ) ==> spec_window_acked(spec_window_after(w, p), i),
        w.started ==> spec_window_after(w, p).ack_index == w.ack_index || spec_window_after(
            w,
            p,
        ).ack_index == p,
        !w.started ==> spec_window_after(w, p).ack_index == p,
{
    let after = spec_window_after(w, p);
    if !w.started {
        assert(spec_window_acked(after, p));
    } else if p == w.ack_index {
        assert(spec_window_acked(after, p));
    } else {
        let d = spec_wrap_distance(p, w.ack_index);
        lemma_wrap_distance_antisymmetric(p, w.ack_index);
        if d < 0x8000 {
            let new_mask = if d < 64 {
                (w.ack_mask << (d as u64)) | (1u64 << ((d - 1) as u64))
            } else if d == 64 {
                1u64 << 63
            } else {
                0u64
            };
            lemma_shift_mask_covers(w.ack_mask, d as u16, new_mask);
            lemma_wrap_distance_chain(p, w.ack_index);
            assert(spec_window_acked(after, p));
        } else {
            let back = spec_wrap_distance(w.ack_index, p);
            if back <= 64 {
                lemma_set_mask_covers(
                    w.ack_mask,
                    back as u16,
                    w.ack_mask | (1u64 << ((back - 1) as u64)),
                );
                lemma_wrap_distance_chain(w.ack_index, p);
                assert(spec_window_acked(after, p));
            }
        }
    }
}

/// Within one 64-wide span behind `newest`, receptions accumulate: every
/// arrival is acknowledged afterwards, and an already-acknowledged index in
/// the span stays acknowledged, whatever the arrival order.
proof fn lemma_ack_coverage_span(w: ReceiveWindow, ps: Seq<u16>, newest: u16)
    requires
        w.started ==> spec_wrap_distance(newest, w.ack_index) <= 64,
        forall|k: int| 0 <= k < ps.len() ==> spec_wrap_distance(newest, #[trigger] ps[k]) <= 64,
    ensures
        spec_window_after_all(w, ps).started ==> spec_wrap_distance(
            newest,
            spec_window_after_all(w, ps).ack_index,
        ) <= 64,
        w.started ==> spec_window_after_all(w, ps).started,
        forall|k: int|
            0 <= k < ps.len() ==> spec_window_acked(
                spec_window_after_all(w, ps),
                #[trigger] ps[k],
            ),
        forall|i: u16|
            spec_window_acked(w, i) && spec_wrap_distance(newest, i) <= 64
                ==> spec_window_acked(spec_window_after_all(w, ps), i),
    decreases ps.len(),
{
    if ps.len() > 0 {
        let p = ps[0];
        let w1 = spec_window_after(w, p);
        lemma_window_after_step(w, p);
        if w.started {
            lemma_wrap_distance_chain(newest, w.ack_index);
            if p != w.ack_index {
                lemma_wrap_distance_antisymmetric(p, w.ack_index);
            }
        }
        lemma_wrap_distance_chain(newest, w1.ack_index);
        // The new head stays within the span.
        assert(spec_wrap_distance(newest, w1.ack_index) <= 64);
        // The arrival is acknowledged: within the span it is never further
        // than the whole window behind the head.
        assert(spec_window_acked(w1, p));
        // Already-acknowledged indices in the span stay acknowledged: they
        // lie within 64 of the new head.
        assert forall|i: u16|
            spec_window_acked(w, i) && spec_wrap_distance(newest, i) <= 64 implies
            spec_window_acked(w1, i) by {
            if i != w1.ack_index {
                let a0 = spec_wrap_distance(newest, w.ack_index);
                let b0 = spec_wrap_distance(newest, w1.ack_index);
                let c0 = spec_wrap_distance(newest, i);
                // An acknowledged index is at or behind the old head, so it
                // is no nearer to `newest` than the old head is.
                assert(i == w.ack_index || 1 <= spec_wrap_distance(w.ack_index, i) <= 64);
                assert(c0 >= a0);
                // The head only moves towards `newest`.
                assert(b0 <= a0) by {
                    if w1.ack_index != w.ack_index {
                        assert(spec_wrap_distance(p, w.ack_index) < 0x8000);
                        assert(spec_wrap_distance(newest, p) <= 64);
                    }
                }
                // Hence the index sits between 1 and 64 behind the new head.
                assert(spec_wrap_distance(w1.ack_index, i) == c0 - b0);
                assert(1 <= spec_wrap_distance(w1.ack_index, i) <= 64);
                let du = (spec_wrap_distance(w1.ack_index, i) - 1) as u64;
                assert((0xffff_ffff_ffff_ffffu64 >> du) & 1 == 1) by (bit_vector)
                    requires
                        du < 64,
                ;
                assert(spec_ack_covers(w1.ack_index, 0xffff_ffff_ffff_ffffu64, i));
            }
        }
        lemma_ack_coverage_span(w1, ps.skip(1), newest);
        assert forall|k: int| 0 <= k < ps.len() implies spec_window_acked(
            spec_window_after_all(w, ps),
            #[trigger] ps[k],
        ) by {
            if k > 0 {
                assert(ps.skip(1)[k - 1] == ps[k]);
            }
        }
    }
}

/// Ack coverage: starting from a fresh window, once packets with any set of
/// indices lying within one 64-wide window behind `newest` have been
/// received — in any order, duplicates included — every one of those indices
/// is acknowledged: it is the ack head itself or a set bit of the ack mask.
pub proof fn lemma_ack_coverage(w: ReceiveWindow, ps: Seq<u16>, newest: u16)
    requires
        !w.started,
        forall|k: int| 0 <= k < ps.len() ==> spec_wrap_distance(newest, #[trigger] ps[k]) <= 64,
    ensures
        forall|k: int|
            0 <= k < ps.len() ==> spec_window_acked(
                spec_window_after_all(w, ps),
                #[trigger] ps[k],
            ),
{
    lemma_ack_coverage_span(w, ps, newest);
}

} // verus!
