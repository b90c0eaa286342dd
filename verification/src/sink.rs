//! The in-memory output of a writer: bytes produced but not yet handed to a sink,
//! and the file position they reach.

use vstd::prelude::*;

verus! {

/// `x` clamped to the range of `u64`.
pub open spec fn sat(x: int) -> u64 {
    if x > u64::MAX {
        u64::MAX
    } else if x < 0 {
        0
    } else {
        x as u64
    }
}

/// Bytes produced by a writer. The bytes are kept until the caller takes
/// them out to write them to its sink; the position counts every byte ever
/// produced, starting from the sink position the writer was created at.
pub struct OutputBuffer {
    start: u64,
    drained: u64,
    out: Vec<u8>,
    emitted: Ghost<Seq<u8>>,
}

impl OutputBuffer {
    /// Every byte ever produced, in order.
    pub closed spec fn bytes(&self) -> Seq<u8> {
        self.emitted@
    }

    /// Sink position the writer started at.
    pub closed spec fn start(&self) -> u64 {
        self.start
    }

    /// Bytes produced but not yet taken.
    pub closed spec fn pending(&self) -> Seq<u8> {
        self.out@
    }

    /// How many of the bytes produced have been taken out.
    pub open spec fn taken_len(&self) -> int {
        self.bytes().len() - self.pending().len()
    }

    /// The file position after every byte produced so far (saturating).
    pub open spec fn spec_position(&self) -> u64 {
        sat(self.start() + self.bytes().len())
    }

    /// The pending bytes are the tail of everything produced, and the count of
    /// bytes already taken is exact up to saturation.
    pub closed spec fn well_formed(&self) -> bool {
        &&& self.out@.len() <= self.emitted@.len()
        &&& self.emitted@.subrange(self.emitted@.len() - self.out@.len(), self.emitted@.len() as int) == self.out@
        &&& self.drained == sat(self.emitted@.len() - self.out@.len())
    }

    /// An empty buffer for a sink currently at `start`.
    pub fn new(start: u64) -> (r: OutputBuffer)
        ensures
            r.well_formed(),
            r.bytes() == Seq::<u8>::empty(),
            r.start() == start,
            r.pending() == Seq::<u8>::empty(),
    {
        let r = OutputBuffer { start, drained: 0, out: Vec::new(), emitted: Ghost(Seq::empty()) };
        assert(r.emitted@.subrange(0, 0) =~= r.out@);
        r
    }

    /// The file position after every byte produced so far.
    pub fn position(&self) -> (r: u64)
        requires
            self.well_formed(),
        ensures
            r == self.spec_position(),
    {
        self.start.saturating_add(self.drained).saturating_add(self.out.len() as u64)
    }

    /// Append bytes to the output.
    pub fn append(&mut self, bytes: &[u8])
        requires
            old(self).well_formed(),
        ensures
            final(self).well_formed(),
            final(self).bytes() == old(self).bytes() + bytes@,
            final(self).start() == old(self).start(),
            final(self).pending() == old(self).pending() + bytes@,
    {
        let ghost e = self.emitted@;
        let ghost o = self.out@;
        self.out.extend_from_slice(bytes);
        self.emitted = Ghost(e + bytes@);
        proof {
            let ne = e + bytes@;
            assert(ne.subrange(ne.len() - self.out@.len(), ne.len() as int) =~= self.out@) by {
                assert(e.subrange(e.len() - o.len(), e.len() as int) == o);
                assert forall|i: int| 0 <= i < self.out@.len() implies
                    ne.subrange(ne.len() - self.out@.len(), ne.len() as int)[i] == self.out@[i] by {
                    if i < o.len() {
                        assert(e.subrange(e.len() - o.len(), e.len() as int)[i] == o[i]);
                    }
                }
            }
        }
    }

    /// Take the pending bytes, to be written to the sink.
    pub fn take(&mut self) -> (r: Vec<u8>)
        requires
            old(self).well_formed(),
        ensures
            final(self).well_formed(),
            r@ == old(self).pending(),
            final(self).bytes() == old(self).bytes(),
            final(self).start() == old(self).start(),
            final(self).pending() == Seq::<u8>::empty(),
    {
        let n = self.out.len() as u64;
        self.drained = self.drained.saturating_add(n);
        let mut r: Vec<u8> = Vec::new();
        std::mem::swap(&mut r, &mut self.out);
        assert(self.emitted@.subrange(self.emitted@.len() as int, self.emitted@.len() as int) =~= self.out@);
        r
    }
}

/// When nothing was taken out between `a` and `b` and `b` only added bytes,
/// the added bytes are pending after those pending in `a`.
pub proof fn lemma_pending_grows(a: &OutputBuffer, b: &OutputBuffer)
    requires
        a.well_formed(),
        b.well_formed(),
        b.taken_len() == a.taken_len(),
        b.bytes().len() >= a.bytes().len(),
        b.bytes().subrange(0, a.bytes().len() as int) == a.bytes(),
    ensures
        b.pending() == a.pending() + b.bytes().subrange(a.bytes().len() as int, b.bytes().len() as int),
{
    let t = a.taken_len();
    assert(a.pending() == a.bytes().subrange(t, a.bytes().len() as int));
    assert(b.pending() == b.bytes().subrange(t, b.bytes().len() as int));
    assert(b.pending() =~= a.pending() + b.bytes().subrange(a.bytes().len() as int, b.bytes().len() as int)) by {
        assert forall|i: int| 0 <= i < b.pending().len() implies #[trigger] b.pending()[i]
            == (a.pending() + b.bytes().subrange(a.bytes().len() as int, b.bytes().len() as int))[i] by {
            if i < a.pending().len() {
                assert(b.bytes().subrange(0, a.bytes().len() as int)[t + i] == a.bytes()[t + i]);
            }
        }
    }
}

/// The pending bytes of a well-formed buffer are the tail of everything produced.
pub proof fn lemma_pending_is_tail(s: &OutputBuffer)
    requires
        s.well_formed(),
    ensures
        s.bytes().len() >= s.pending().len(),
        s.pending() == s.bytes().subrange(s.bytes().len() - s.pending().len(), s.bytes().len() as int),
{
}

} // verus!
