//! The ordered byte stream: sender-side chunking of a contiguous outbox into
//! reliable payloads, receiver-side reassembly of chunks that may arrive out
//! of order or duplicated, and reconstruction of 64-bit absolute offsets from
//! the 32-bit offset field a packet carries.
//!
//! Both sides are specified against the byte history of the stream. The
//! sender records its history in a ghost field; every chunk it emits is a
//! slice of that history at its offset. The receiver keeps a ghost log of
//! every chunk handed to it; whenever one history explains every logged
//! chunk — which the integrity hash warrants for chunks a genuine sender
//! framed — the bytes read are exactly that history, in order.

use vstd::prelude::*;

verus! {

/// Whether stream history `sigma` explains every logged chunk: each one is a
/// slice of `sigma` at its offset.
pub open spec fn spec_log_genuine(log: Seq<(u64, Seq<u8>)>, sigma: Seq<u8>) -> bool {
    &&& sigma.len() <= u64::MAX
    &&& forall|j: int|
        0 <= j < log.len() ==> {
            let off = (#[trigger] log[j]).0;
            let chunk = log[j].1;
            &&& off + chunk.len() <= sigma.len()
            &&& chunk == sigma.subrange(off as int, off + chunk.len())
        }
}

/// Receiver side: reassembles stream chunks into an in-order byte sequence.
///
/// `contiguous` holds the bytes from `read_offset` (absolute offset of the
/// next byte the application will read) up to the frontier; chunks beyond the
/// frontier wait in `pending`.
pub struct StreamAssembler {
    /// Absolute stream offset of the next byte the application will read.
    pub read_offset: u64,
    /// In-order bytes received and not yet read.
    pub contiguous: Vec<u8>,
    /// Chunks that start strictly beyond the frontier, as (offset, bytes).
    pub pending: Vec<(u64, Vec<u8>)>,
    /// Every chunk ever inserted, with the offset it was inserted at.
    pub inserts: Ghost<Seq<(u64, Seq<u8>)>>,
}

impl StreamAssembler {
    /// The absolute offset one past the last in-order byte.
    pub open spec fn spec_frontier(self) -> int {
        self.read_offset + self.contiguous@.len()
    }

    /// Machine bounds that hold whatever was inserted.
    pub open spec fn spec_structural_loose(self) -> bool {
        &&& self.spec_frontier() <= u64::MAX
        &&& forall|j: int|
            0 <= j < self.pending@.len() ==> (#[trigger] self.pending@[j]).0
                + self.pending@[j].1@.len() <= u64::MAX
    }

    /// [`Self::spec_structural_loose`], and every parked chunk starts
    /// strictly beyond the frontier.
    pub open spec fn spec_structural(self) -> bool {
        &&& self.spec_structural_loose()
        &&& forall|j: int|
            0 <= j < self.pending@.len() ==> (#[trigger] self.pending@[j]).0
                > self.spec_frontier()
    }

    /// The assembler's data agrees with stream history `sigma`: the in-order
    /// buffer is the history between `read_offset` and the frontier, and
    /// every parked chunk is a slice of the history.
    pub open spec fn spec_data_matches(self, sigma: Seq<u8>) -> bool {
        &&& self.spec_frontier() <= sigma.len()
        &&& self.contiguous@ == sigma.subrange(self.read_offset as int, self.spec_frontier())
        &&& forall|j: int|
            0 <= j < self.pending@.len() ==> {
                let off = (#[trigger] self.pending@[j]).0;
                let chunk = self.pending@[j].1;
                &&& off + chunk@.len() <= sigma.len()
                &&& chunk@ == sigma.subrange(off as int, off + chunk@.len())
            }
    }

    /// The assembler is sound: under any history that explains its insert
    /// log, its data is that history.
    pub open spec fn spec_wf(self) -> bool {
        &&& self.spec_structural()
        &&& forall|sigma: Seq<u8>|
            spec_log_genuine(self.inserts@, sigma) ==> self.spec_data_matches(sigma)
    }

    /// [`Self::spec_wf`] with parked chunks possibly at or before the
    /// frontier; holds midway through coalescing.
    pub open spec fn spec_wf_loose(self) -> bool {
        &&& self.spec_structural_loose()
        &&& forall|sigma: Seq<u8>|
            spec_log_genuine(self.inserts@, sigma) ==> self.spec_data_matches(sigma)
    }

    /// An assembler that expects the stream to begin at offset 0.
    pub fn new() -> (a: StreamAssembler)
        ensures
            a.spec_wf(),
            a.read_offset == 0,
            a.contiguous@ =~= Seq::<u8>::empty(),
            a.inserts@ =~= Seq::<(u64, Seq<u8>)>::empty(),
    {
        let a = StreamAssembler {
            read_offset: 0,
            contiguous: Vec::new(),
            pending: Vec::new(),
            inserts: Ghost(Seq::empty()),
        };
        proof {
            assert forall|sigma: Seq<u8>| spec_log_genuine(a.inserts@, sigma) implies
                a.spec_data_matches(sigma) by {
                assert(a.contiguous@ =~= sigma.subrange(0, 0));
            }
        }
        a
    }

    /// Number of in-order bytes ready to be read.
    pub fn pending_bytes(&self) -> (n: usize)
        ensures
            n == self.contiguous@.len(),
    {
        self.contiguous.len()
    }

    /// Take a stream chunk received at absolute offset `offset`. Bytes that
    /// extend the in-order buffer are appended to it (overlap with already
    /// delivered bytes is trimmed), chunks beyond the frontier are parked,
    /// and everything already delivered is dropped; afterwards any parked
    /// chunks the frontier has reached are folded in.
    pub fn insert(&mut self, offset: u64, bytes: Vec<u8>)
        requires
            old(self).spec_wf(),
            offset + bytes@.len() <= u64::MAX,
        ensures
            final(self).spec_wf(),
            final(self).inserts@ == old(self).inserts@.push((offset, bytes@)),
            final(self).read_offset == old(self).read_offset,
            final(self).spec_frontier() >= old(self).spec_frontier(),
            offset <= old(self).spec_frontier() ==> final(self).spec_frontier() >= offset
                + bytes@.len(),
            // Nothing is silently discarded: a chunk the frontier has not yet
            // absorbed stays parked.
            offset > final(self).spec_frontier() ==> final(self).pending@.contains(
                (offset, bytes),
            ),
    {
        proof {
            self.inserts@ = self.inserts@.push((offset, bytes@));
        }
        let frontier = self.read_offset + (self.contiguous.len() as u64);
        let len = bytes.len() as u64;
        if offset <= frontier {
            if offset + len > frontier {
                let skip = (frontier - offset) as usize;
                let tail = vstd::slice::slice_subrange(bytes.as_slice(), skip, bytes.len());
                self.contiguous.extend_from_slice(tail);
                proof {
                    assert forall|sigma: Seq<u8>|
                        spec_log_genuine(self.inserts@, sigma) implies self.spec_data_matches(
                        sigma,
                    ) by {
                        lemma_log_genuine_unpush(old(self).inserts@, (offset, bytes@), sigma);
                        assert(old(self).spec_data_matches(sigma));
                        assert(self.inserts@[self.inserts@.len() - 1] == (offset, bytes@));
                        assert(bytes@ == sigma.subrange(offset as int, offset + bytes@.len()));
                        assert(tail@ =~= sigma.subrange(
                            frontier as int,
                            offset + bytes@.len(),
                        ));
                        assert(self.contiguous@ =~= sigma.subrange(
                            self.read_offset as int,
                            self.spec_frontier(),
                        ));
                    }
                }
            } else {
                proof {
                    assert forall|sigma: Seq<u8>|
                        spec_log_genuine(self.inserts@, sigma) implies self.spec_data_matches(
                        sigma,
                    ) by {
                        lemma_log_genuine_unpush(old(self).inserts@, (offset, bytes@), sigma);
                        assert(old(self).spec_data_matches(sigma));
                        assert(self.contiguous@ == old(self).contiguous@);
                        assert(self.pending@ == old(self).pending@);
                    }
                }
            }
        } else {
            self.pending.push((offset, bytes));
            proof {
                assert(self.pending@[self.pending@.len() - 1] == (offset, bytes));
                assert(self.pending@.contains((offset, bytes)));
                assert forall|sigma: Seq<u8>|
                    spec_log_genuine(self.inserts@, sigma) implies self.spec_data_matches(
                    sigma,
                ) by {
                    lemma_log_genuine_unpush(old(self).inserts@, (offset, bytes@), sigma);
                    assert(old(self).spec_data_matches(sigma));
                    assert(self.inserts@[self.inserts@.len() - 1] == (offset, bytes@));
                    assert forall|j: int| 0 <= j < self.pending@.len() implies {
                        let off = (#[trigger] self.pending@[j]).0;
                        let chunk = self.pending@[j].1;
                        &&& off + chunk@.len() <= sigma.len()
                        &&& chunk@ == sigma.subrange(off as int, off + chunk@.len())
                    } by {
                        if j < self.pending@.len() - 1 {
                            assert(self.pending@[j] == old(self).pending@[j]);
                        }
                    }
                }
            }
        }
        self.coalesce();
    }

    /// Fold parked chunks into the in-order buffer until every remaining one
    /// starts strictly beyond the frontier.
    fn coalesce(&mut self)
        requires
            old(self).spec_wf_loose(),
        ensures
            final(self).spec_wf(),
            final(self).inserts == old(self).inserts,
            final(self).read_offset == old(self).read_offset,
            final(self).spec_frontier() >= old(self).spec_frontier(),
            // Every parked chunk either stays parked or has been reached by
            // the frontier.
            forall|k: int|
                0 <= k < old(self).pending@.len() ==> final(self).pending@.contains(
                    #[trigger] old(self).pending@[k],
                ) || old(self).pending@[k].0 <= final(self).spec_frontier(),
    {
        let mut done = false;
        while !done
            invariant
                self.spec_wf_loose(),
                self.inserts == old(self).inserts,
                self.read_offset == old(self).read_offset,
                self.spec_frontier() >= old(self).spec_frontier(),
                forall|k: int|
                    0 <= k < old(self).pending@.len() ==> self.pending@.contains(
                        #[trigger] old(self).pending@[k],
                    ) || old(self).pending@[k].0 <= self.spec_frontier(),
                done ==> forall|j: int|
                    0 <= j < self.pending@.len() ==> (#[trigger] self.pending@[j]).0
                        > self.spec_frontier(),
            decreases self.pending@.len() + if done {
                0int
            } else {
                1int
            },
        {
            let frontier = self.read_offset + (self.contiguous.len() as u64);
            // Scan for a parked chunk the frontier has reached.
            let mut j: usize = 0;
            let mut found = false;
            while j < self.pending.len() && !found
                invariant
                    0 <= j <= self.pending@.len(),
                    found ==> j < self.pending@.len() && self.pending@[j as int].0 <= frontier,
                    !found ==> forall|i: int|
                        0 <= i < j ==> (#[trigger] self.pending@[i]).0 > frontier,
                decreases self.pending@.len() - j + if found {
                    0int
                } else {
                    1int
                },
            {
                if self.pending[j].0 <= frontier {
                    found = true;
                } else {
                    j = j + 1;
                }
            }
            if found {
                let ghost pre = *self;
                let (offset, chunk) = self.pending.remove(j);
                let ghost removed = pre.pending@[j as int];
                let len = chunk.len() as u64;
                if offset + len > frontier {
                    let skip = (frontier - offset) as usize;
                    let tail = vstd::slice::slice_subrange(chunk.as_slice(), skip, chunk.len());
                    self.contiguous.extend_from_slice(tail);
                }
                proof {
                    assert forall|sigma: Seq<u8>|
                        spec_log_genuine(self.inserts@, sigma) implies self.spec_data_matches(
                        sigma,
                    ) by {
                        assert(pre.spec_data_matches(sigma));
                        assert(pre.pending@[j as int] == (offset, chunk));
                        assert(chunk@ == sigma.subrange(offset as int, offset + chunk@.len()));
                        if offset + chunk@.len() > frontier {
                            assert(chunk@.subrange(frontier - offset, chunk@.len() as int)
                                =~= sigma.subrange(frontier as int, offset + chunk@.len()));
                            assert(self.contiguous@ =~= sigma.subrange(
                                self.read_offset as int,
                                self.spec_frontier(),
                            ));
                        }
                        assert forall|i: int| 0 <= i < self.pending@.len() implies {
                            let off = (#[trigger] self.pending@[i]).0;
                            let data = self.pending@[i].1;
                            &&& off + data@.len() <= sigma.len()
                            &&& data@ == sigma.subrange(off as int, off + data@.len())
                        } by {
                            assert(self.pending@[i] == pre.pending@.remove(j as int)[i]);
                            if i < j {
                                assert(pre.pending@.remove(j as int)[i] == pre.pending@[i]);
                            } else {
                                assert(pre.pending@.remove(j as int)[i] == pre.pending@[i + 1]);
                            }
                        }
                    }
                    assert forall|i: int| 0 <= i < self.pending@.len() implies (
                    #[trigger] self.pending@[i]).0 + self.pending@[i].1@.len() <= u64::MAX by {
                        if i < j {
                            assert(pre.pending@.remove(j as int)[i] == pre.pending@[i]);
                        } else {
                            assert(pre.pending@.remove(j as int)[i] == pre.pending@[i + 1]);
                        }
                    }
                    assert forall|k: int| 0 <= k < old(self).pending@.len() implies
                        self.pending@.contains(#[trigger] old(self).pending@[k]) || old(
                        self,
                    ).pending@[k].0 <= self.spec_frontier() by {
                        let x = old(self).pending@[k];
                        if !(x.0 <= self.spec_frontier()) {
                            // The chunk was parked before this iteration and is
                            // not the one just absorbed, so it is still parked.
                            assert(pre.pending@.contains(x));
                            let w = choose|w: int|
                                0 <= w < pre.pending@.len() && pre.pending@[w] == x;
                            assert(x != removed) by {
                                assert(removed.0 == offset);
                                assert(offset <= frontier);
                                assert(frontier <= self.spec_frontier());
                            }
                            if w < j {
                                assert(self.pending@[w] == pre.pending@.remove(j as int)[w]);
                                assert(self.pending@[w] == x);
                            } else {
                                assert(w != j);
                                assert(self.pending@[w - 1] == pre.pending@.remove(
                                    j as int,
                                )[w - 1]);
                                assert(self.pending@[w - 1] == x);
                            }
                            assert(self.pending@.contains(x));
                        }
                    }
                }
            } else {
                done = true;
            }
        }
    }

    /// Read up to `max_len` in-order bytes, consuming them: under any history
    /// that explains the insert log, these are the history's bytes from
    /// `read_offset` on, in order.
    pub fn read_from_stream(&mut self, max_len: usize) -> (out: Vec<u8>)
        requires
            old(self).spec_wf(),
        ensures
            final(self).spec_wf(),
            final(self).inserts == old(self).inserts,
            out@.len() == if max_len <= old(self).contiguous@.len() {
                max_len as int
            } else {
                old(self).contiguous@.len() as int
            },
            out@ == old(self).contiguous@.take(out@.len() as int),
            forall|sigma: Seq<u8>|
                spec_log_genuine(old(self).inserts@, sigma) ==> out@ == sigma.subrange(
                    old(self).read_offset as int,
                    old(self).read_offset + out@.len(),
                ),
            final(self).read_offset == old(self).read_offset + out@.len(),
            final(self).spec_frontier() == old(self).spec_frontier(),
    {
        let n = if max_len <= self.contiguous.len() {
            max_len
        } else {
            self.contiguous.len()
        };
        let mut whole = self.contiguous.split_off(0);
        let tail = whole.split_off(n);
        self.contiguous = tail;
        self.read_offset = self.read_offset + (n as u64);
        proof {
            assert(whole@ =~= old(self).contiguous@.take(n as int));
            assert forall|sigma: Seq<u8>|
                spec_log_genuine(old(self).inserts@, sigma) implies whole@ == sigma.subrange(
                old(self).read_offset as int,
                old(self).read_offset + n,
            ) by {
                assert(old(self).spec_data_matches(sigma));
                assert(whole@ =~= sigma.subrange(
                    old(self).read_offset as int,
                    old(self).read_offset + n,
                ));
            }
            assert forall|sigma: Seq<u8>|
                spec_log_genuine(self.inserts@, sigma) implies self.spec_data_matches(sigma) by {
                assert(old(self).spec_data_matches(sigma));
                assert(self.contiguous@ =~= sigma.subrange(
                    self.read_offset as int,
                    self.spec_frontier(),
                ));
            }
        }
        whole
    }
}

/// A history explaining a grown log explains the log before the growth.
proof fn lemma_log_genuine_unpush(log: Seq<(u64, Seq<u8>)>, entry: (u64, Seq<u8>), sigma: Seq<u8>)
    requires
        spec_log_genuine(log.push(entry), sigma),
    ensures
        spec_log_genuine(log, sigma),
        entry.0 + entry.1.len() <= sigma.len(),
        entry.1 == sigma.subrange(entry.0 as int, entry.0 + entry.1.len()),
{
    assert forall|j: int| 0 <= j < log.len() implies {
        let off = (#[trigger] log[j]).0;
        let chunk = log[j].1;
        &&& off + chunk.len() <= sigma.len()
        &&& chunk == sigma.subrange(off as int, off + chunk.len())
    } by {
        assert(log.push(entry)[j] == log[j]);
    }
    assert(log.push(entry)[log.len() as int] == entry);
}

/// Sender side: the outbox of stream bytes not yet packed into a packet,
/// together with the absolute offset at which its first byte sits.
pub struct StreamOutbox {
    /// Absolute stream offset of the first byte still in the outbox.
    pub send_offset: u64,
    /// Bytes written by the application and not yet packed.
    pub buffer: Vec<u8>,
    /// The whole byte history ever written to this stream.
    pub history: Ghost<Seq<u8>>,
}

impl StreamOutbox {
    /// The outbox holds exactly the tail of the history from `send_offset`.
    pub open spec fn spec_wf(self) -> bool {
        &&& self.history@.len() <= u64::MAX
        &&& self.send_offset + self.buffer@.len() == self.history@.len()
        &&& self.buffer@ == self.history@.subrange(
            self.send_offset as int,
            self.history@.len() as int,
        )
    }

    /// An empty outbox at offset 0 with empty history.
    pub fn new() -> (o: StreamOutbox)
        ensures
            o.spec_wf(),
            o.send_offset == 0,
            o.history@ =~= Seq::<u8>::empty(),
            o.buffer@ =~= Seq::<u8>::empty(),
    {
        let o = StreamOutbox { send_offset: 0, buffer: Vec::new(), history: Ghost(Seq::empty()) };
        proof {
            assert(o.buffer@ =~= o.history@.subrange(0, 0));
        }
        o
    }

    /// Append bytes to the stream: they extend the history and wait in the
    /// outbox.
    pub fn write_bytes(&mut self, bytes: &[u8])
        requires
            old(self).spec_wf(),
            old(self).history@.len() + bytes@.len() <= u64::MAX,
        ensures
            final(self).spec_wf(),
            final(self).history@ == old(self).history@ + bytes@,
            final(self).send_offset == old(self).send_offset,
    {
        self.buffer.extend_from_slice(bytes);
        proof {
            self.history@ = self.history@ + bytes@;
            assert(self.buffer@ =~= self.history@.subrange(
                self.send_offset as int,
                self.history@.len() as int,
            ));
        }
    }

    /// Detach up to `max_payload` bytes from the front of the outbox as the
    /// next chunk to send: a slice of the stream history at the returned
    /// offset.
    pub fn next_chunk(&mut self, max_payload: usize) -> (r: (u64, Vec<u8>))
        requires
            old(self).spec_wf(),
        ensures
            final(self).spec_wf(),
            final(self).history == old(self).history,
            r.0 == old(self).send_offset,
            r.1@.len() == if max_payload <= old(self).buffer@.len() {
                max_payload as int
            } else {
                old(self).buffer@.len() as int
            },
            r.1@ == old(self).history@.subrange(r.0 as int, r.0 + r.1@.len()),
            final(self).send_offset == old(self).send_offset + r.1@.len(),
            final(self).buffer@.len() == old(self).buffer@.len() - r.1@.len(),
    {
        let n = if max_payload <= self.buffer.len() {
            max_payload
        } else {
            self.buffer.len()
        };
        let offset = self.send_offset;
        let mut whole = self.buffer.split_off(0);
        let tail = whole.split_off(n);
        self.buffer = tail;
        self.send_offset = self.send_offset + (n as u64);
        proof {
            assert(whole@ =~= self.history@.subrange(offset as int, offset + n));
            assert(self.buffer@ =~= self.history@.subrange(
                self.send_offset as int,
                self.history@.len() as int,
            ));
        }
        (offset, whole)
    }
}

/// Reconstruct a 64-bit absolute stream offset from the 32 low bits a packet
/// carries: the unique offset with those low bits lying within one 2^32-wide
/// window centred (from below) on the expected offset.
pub fn absolute_offset(expected: u64, low: u32) -> (r: u64)
    requires
        expected < 0xffff_ffff_0000_0000,
    ensures
        r as int % 0x1_0000_0000 == low as int,
        spec_offset_window(expected) <= r < spec_offset_window(expected) + 0x1_0000_0000,
{
    let w = if expected >= 0x8000_0000 {
        expected - 0x8000_0000
    } else {
        0
    };
    let base = w - (w % 0x1_0000_0000);
    let candidate = base + (low as u64);
    if candidate >= w {
        candidate
    } else {
        candidate + 0x1_0000_0000
    }
}

/// Start of the window in which [`absolute_offset`] places the result.
pub open spec fn spec_offset_window(expected: u64) -> int {
    if expected >= 0x8000_0000 {
        expected - 0x8000_0000
    } else {
        0
    }
}

/// The reconstruction is exact: a true offset with the carried low bits that
/// lies in the window is the one [`absolute_offset`] returns.
pub proof fn lemma_absolute_offset_exact(expected: u64, low: u32, t: u64, r: u64)
    requires
        t as int % 0x1_0000_0000 == low as int,
        spec_offset_window(expected) <= t < spec_offset_window(expected) + 0x1_0000_0000,
        r as int % 0x1_0000_0000 == low as int,
        spec_offset_window(expected) <= r < spec_offset_window(expected) + 0x1_0000_0000,
    ensures
        t == r,
{
    let m = 0x1_0000_0000int;
    let d = t as int - r as int;
    assert(d % m == 0) by {
        vstd::arithmetic::div_mod::lemma_sub_mod_noop(t as int, r as int, m);
        vstd::arithmetic::div_mod::lemma_small_mod((low as int) as nat, m as nat);
    };
    assert(-m < d < m);
}

/// Stream ordering: reads at successive offsets concatenate to one
/// contiguous slice of the history — the bytes come back in exactly the
/// order they were written.
pub proof fn lemma_stream_reads_concatenate(sigma: Seq<u8>, a: int, b: int, c: int)
    requires
        0 <= a <= b <= c <= sigma.len(),
    ensures
        sigma.subrange(a, b) + sigma.subrange(b, c) == sigma.subrange(a, c),
{
    assert(sigma.subrange(a, b) + sigma.subrange(b, c) =~= sigma.subrange(a, c));
}

/// A history explaining a log still explains it after a chunk genuinely cut
/// from that history is inserted: delivering a sender's stream packets, at
/// the offsets their preludes encode, keeps every read equal to the sender's
/// written bytes.
pub proof fn lemma_log_genuine_push(log: Seq<(u64, Seq<u8>)>, sigma: Seq<u8>, off: u64, chunk: Seq<u8>)
    requires
        spec_log_genuine(log, sigma),
        off + chunk.len() <= sigma.len(),
        chunk == sigma.subrange(off as int, off + chunk.len()),
    ensures
        spec_log_genuine(log.push((off, chunk)), sigma),
{
    let grown = log.push((off, chunk));
    assert forall|j: int| 0 <= j < grown.len() implies {
        let o = (#[trigger] grown[j]).0;
        let c = grown[j].1;
        &&& o + c.len() <= sigma.len()
        &&& c == sigma.subrange(o as int, o + c.len())
    } by {
        if j < log.len() {
            assert(grown[j] == log[j]);
        } else {
            assert(grown[j] == (off, chunk));
        }
    }
}

} // verus!
