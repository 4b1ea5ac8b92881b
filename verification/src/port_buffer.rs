//! Reassembly of packets from the serial byte stream.
//!
//! Bytes are collected in a window one packet wide. When the window is full it
//! is decoded if it holds a well-formed packet and then emptied; otherwise it
//! is shifted forward to the next head byte after its first position, or
//! emptied when there is none, so that the stream resynchronises on garbage.

use vstd::prelude::*;
use crate::Point;
use crate::packet::{decode_packet, decode_points, is_packet, packet_ok, HEADER, PACKET_LEN};

verus! {

/// Index of the first head byte of `s` at or after `from`, or `s.len()` when there is none.
pub open spec fn next_head(s: Seq<u8>, from: int) -> int
    decreases s.len() - from,
{
    if from >= s.len() {
        s.len() as int
    } else if s[from] == HEADER {
        from
    } else {
        next_head(s, from + 1)
    }
}

/// The window and the decoded points after one received byte `b`, starting from the window `w`.
pub open spec fn receive_byte(w: Seq<u8>, b: u8, min_confidence: u8) -> (Seq<u8>, Seq<Point>) {
    let full = w.push(b);
    if full.len() < PACKET_LEN {
        (full, Seq::empty())
    } else if packet_ok(full) {
        (Seq::empty(), decode_points(full, min_confidence))
    } else {
        (full.skip(next_head(full, 1)), Seq::empty())
    }
}

/// The window and the decoded points, in stream order, after receiving `data` from the window `w`.
pub open spec fn receive_all(w: Seq<u8>, data: Seq<u8>, min_confidence: u8) -> (Seq<u8>, Seq<Point>)
    decreases data.len(),
{
    if data.len() == 0 {
        (w, Seq::empty())
    } else {
        let prev = receive_all(w, data.drop_last(), min_confidence);
        let last = receive_byte(prev.0, data.last(), min_confidence);
        (last.0, prev.1 + last.1)
    }
}

/// The packet-reassembly state of a sensor connection.
pub struct PortBuffer {
    window: Vec<u8>,
    min_confidence: u8,
}

impl PortBuffer {
    /// The bytes received since the last packet boundary, not yet decoded.
    pub closed spec fn pending(&self) -> Seq<u8> {
        self.window@
    }

    /// Readings whose confidence is below this value have their distance zeroed.
    pub closed spec fn confidence_floor(&self) -> u8 {
        self.min_confidence
    }

    /// The window never holds a whole packet between two calls.
    pub open spec fn wf(&self) -> bool {
        self.pending().len() < PACKET_LEN
    }

    /// An empty window that keeps every reading.
    pub fn new() -> (b: PortBuffer)
        ensures
            b.wf(),
            b.pending() == Seq::<u8>::empty(),
            b.confidence_floor() == 0,
    {
        PortBuffer { window: Vec::new(), min_confidence: 0 }
    }

    /// Mutable access to the confidence floor.
    pub fn min_confidence_mut(&mut self) -> (r: &mut u8)
        ensures
            *r == old(self).confidence_floor(),
            final(self).confidence_floor() == *final(r),
            final(self).pending() == old(self).pending(),
    {
        &mut self.min_confidence
    }

    /// Handles one received byte, appending the points of a completed packet to `out`.
    fn push_byte(&mut self, b: u8, out: &mut Vec<Point>)
        requires
            old(self).wf(),
        ensures
            final(self).wf(),
            final(self).confidence_floor() == old(self).confidence_floor(),
            final(self).pending() == receive_byte(old(self).pending(), b, old(self).confidence_floor()).0,
            final(out)@ == old(out)@ + receive_byte(old(self).pending(), b, old(self).confidence_floor()).1,
    {
        self.window.push(b);
        if self.window.len() < PACKET_LEN {
            assert(out@ =~= old(out)@ + Seq::<Point>::empty());
            return;
        }
        if is_packet(self.window.as_slice()) {
            decode_packet(self.window.as_slice(), self.min_confidence, out);
            self.window.clear();
        } else {
            let ghost full = self.window@;
            let start = find_head(&self.window, 1);
            let mut rest: Vec<u8> = Vec::new();
            let mut i: usize = start;
            while i < self.window.len()
                invariant
                    self.window@ == full,
                    full.len() == PACKET_LEN,
                    start <= i <= full.len(),
                    rest@ == full.subrange(start as int, i as int),
                decreases full.len() - i,
            {
                rest.push(self.window[i]);
                i = i + 1;
            }
            self.window = rest;
            assert(out@ =~= old(out)@ + Seq::<Point>::empty());
        }
    }

    /// Handles the received bytes `data` in order and returns the points of
    /// every packet completed by them.
    pub fn receive(&mut self, data: &[u8]) -> (points: Vec<Point>)
        requires
            old(self).wf(),
        ensures
            final(self).wf(),
            final(self).confidence_floor() == old(self).confidence_floor(),
            (final(self).pending(), points@) == receive_all(old(self).pending(), data@, old(self).confidence_floor()),
    {
        let mut out: Vec<Point> = Vec::new();
        let mut i: usize = 0;
        while i < data.len()
            invariant
                self.wf(),
                i <= data@.len(),
                self.confidence_floor() == old(self).confidence_floor(),
                (self.pending(), out@) == receive_all(old(self).pending(), data@.take(i as int), old(self).confidence_floor()),
            decreases data@.len() - i,
        {
            assert(data@.take(i as int + 1).drop_last() =~= data@.take(i as int));
            self.push_byte(data[i], &mut out);
            i = i + 1;
        }
        assert(data@.take(data@.len() as int) =~= data@);
        out
    }
}

/// Index of the first head byte of `s` at or after `from`, or its length when there is none.
fn find_head(s: &Vec<u8>, from: usize) -> (j: usize)
    requires
        from <= s@.len(),
    ensures
        j == next_head(s@, from as int),
        from <= j <= s@.len(),
    decreases s@.len() - from,
{
    if from >= s.len() {
        s.len()
    } else if s[from] == HEADER {
        from
    } else {
        find_head(s, from + 1)
    }
}

} // verus!

verus! {

/// Whether `s` holds no head byte.
pub open spec fn no_head(s: Seq<u8>) -> bool {
    forall|i: int| 0 <= i < s.len() ==> s[i] != HEADER
}

/// Receiving bytes in two chunks gives the same window and the same points,
/// in the same order, as receiving them at once.
pub proof fn lemma_receive_chunks(w: Seq<u8>, a: Seq<u8>, b: Seq<u8>, min_confidence: u8)
    ensures
        ({
            let first = receive_all(w, a, min_confidence);
            let second = receive_all(first.0, b, min_confidence);
            receive_all(w, a + b, min_confidence) == (second.0, first.1 + second.1)
        }),
    decreases b.len(),
{
    let first = receive_all(w, a, min_confidence);
    if b.len() == 0 {
        assert(a + b =~= a);
        assert(first.1 + Seq::<Point>::empty() =~= first.1);
    } else {
        lemma_receive_chunks(w, a, b.drop_last(), min_confidence);
        assert((a + b).drop_last() =~= a + b.drop_last());
        let mid = receive_all(first.0, b.drop_last(), min_confidence);
        let last = receive_byte(mid.0, b.last(), min_confidence);
        assert(first.1 + mid.1 + last.1 =~= first.1 + (mid.1 + last.1));
    }
}

/// While the window does not fill up, received bytes are only collected.
pub proof fn lemma_receive_short(w: Seq<u8>, s: Seq<u8>, min_confidence: u8)
    requires
        w.len() + s.len() < PACKET_LEN,
    ensures
        receive_all(w, s, min_confidence) == (w + s, Seq::<Point>::empty()),
    decreases s.len(),
{
    if s.len() == 0 {
        assert(w + s =~= w);
    } else {
        lemma_receive_short(w, s.drop_last(), min_confidence);
        assert((w + s.drop_last()).push(s.last()) =~= w + s);
        assert(Seq::<Point>::empty() + Seq::<Point>::empty() =~= Seq::<Point>::empty());
    }
}

proof fn lemma_next_head_none(s: Seq<u8>, from: int)
    requires
        0 <= from,
        forall|i: int| from <= i < s.len() ==> s[i] != HEADER,
    ensures
        next_head(s, from) == s.len(),
    decreases s.len() - from,
{
    if from < s.len() {
        lemma_next_head_none(s, from + 1);
    }
}

proof fn lemma_next_head_at(s: Seq<u8>, from: int, k: int)
    requires
        0 <= from <= k < s.len(),
        s[k] == HEADER,
        forall|i: int| from <= i < k ==> s[i] != HEADER,
    ensures
        next_head(s, from) == k,
    decreases k - from,
{
    if from < k {
        lemma_next_head_at(s, from + 1, k);
    }
}

/// Bytes that hold no head byte never produce a point, and leave a window without head bytes.
proof fn lemma_receive_garbage(w: Seq<u8>, g: Seq<u8>, min_confidence: u8)
    requires
        w.len() < PACKET_LEN,
        no_head(w),
        no_head(g),
    ensures
        receive_all(w, g, min_confidence).1 == Seq::<Point>::empty(),
        receive_all(w, g, min_confidence).0.len() < PACKET_LEN,
        no_head(receive_all(w, g, min_confidence).0),
    decreases g.len(),
{
    if g.len() > 0 {
        lemma_receive_garbage(w, g.drop_last(), min_confidence);
        let prev = receive_all(w, g.drop_last(), min_confidence);
        let full = prev.0.push(g.last());
        if full.len() >= PACKET_LEN {
            assert(full[0] != HEADER);
            lemma_next_head_none(full, 1);
            assert(full.skip(full.len() as int) =~= Seq::<u8>::empty());
        }
        assert(Seq::<Point>::empty() + Seq::<Point>::empty() =~= Seq::<Point>::empty());
    }
}

/// A well-formed packet received after a window without head bytes is decoded,
/// and leaves the window empty.
proof fn lemma_receive_packet_after(w: Seq<u8>, p: Seq<u8>, min_confidence: u8)
    requires
        w.len() < PACKET_LEN,
        no_head(w),
        packet_ok(p),
    ensures
        receive_all(w, p, min_confidence) == (Seq::<u8>::empty(), decode_points(p, min_confidence)),
{
    let k = w.len() as int;
    let n = PACKET_LEN as int;
    let p1 = p.take(n - k);
    let p2 = p.skip(n - k);
    assert(p =~= p1 + p2);
    lemma_receive_chunks(w, p1, p2, min_confidence);
    // the window fills up with the last byte of `p1`
    lemma_receive_short(w, p1.drop_last(), min_confidence);
    let full = (w + p1.drop_last()).push(p1.last());
    assert(full =~= w + p1);
    if k == 0 {
        assert(full =~= p);
        assert(p2 =~= Seq::<u8>::empty());
        assert(Seq::<Point>::empty() + decode_points(p, min_confidence) + Seq::<Point>::empty()
            =~= decode_points(p, min_confidence));
    } else {
        assert(full[0] == w[0]);
        lemma_next_head_at(full, 1, k);
        assert(full.skip(k) =~= p1);
        // the rest of the packet completes the shifted window
        lemma_receive_short(p1, p2.drop_last(), min_confidence);
        assert((p1 + p2.drop_last()).push(p2.last()) =~= p);
        assert(Seq::<Point>::empty() + Seq::<Point>::empty() =~= Seq::<Point>::empty());
        assert(Seq::<Point>::empty() + (Seq::<Point>::empty() + decode_points(p, min_confidence))
            =~= decode_points(p, min_confidence));
    }
}

/// Resynchronisation: whatever bytes without a head byte precede a well-formed
/// packet on a fresh connection, exactly that packet's twelve points come out
/// and the window is left empty.
pub proof fn lemma_resync(g: Seq<u8>, p: Seq<u8>, min_confidence: u8)
    requires
        no_head(g),
        packet_ok(p),
    ensures
        receive_all(Seq::<u8>::empty(), g + p, min_confidence) == (Seq::<u8>::empty(), decode_points(p, min_confidence)),
{
    lemma_receive_chunks(Seq::<u8>::empty(), g, p, min_confidence);
    lemma_receive_garbage(Seq::<u8>::empty(), g, min_confidence);
    let mid = receive_all(Seq::<u8>::empty(), g, min_confidence);
    lemma_receive_packet_after(mid.0, p, min_confidence);
    assert(Seq::<Point>::empty() + decode_points(p, min_confidence) =~= decode_points(p, min_confidence));
}

/// Back-to-back well-formed packets are decoded one after the other.
pub proof fn lemma_two_packets(p: Seq<u8>, q: Seq<u8>, min_confidence: u8)
    requires
        packet_ok(p),
        packet_ok(q),
    ensures
        receive_all(Seq::<u8>::empty(), p + q, min_confidence)
            == (Seq::<u8>::empty(), decode_points(p, min_confidence) + decode_points(q, min_confidence)),
{
    lemma_receive_chunks(Seq::<u8>::empty(), p, q, min_confidence);
    lemma_receive_packet_after(Seq::<u8>::empty(), p, min_confidence);
    lemma_receive_packet_after(Seq::<u8>::empty(), q, min_confidence);
}

} // verus!
