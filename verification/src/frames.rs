//! Length-prefixed binary framing of the upstream event stream.
//!
//! A frame is a 12-byte prelude — total length, headers length, and a
//! prelude checksum, each four bytes big-endian — followed by the headers
//! block, the payload, and a four-byte trailing checksum.  The decoder
//! buffers partial data across chunks, yields every complete frame, and
//! resets with an error when the buffer outgrows its cap.  Checksums are
//! carried but not validated here.

use vstd::prelude::*;

verus! {

/// Cap on buffered, not-yet-framed bytes.
pub const MAX_DECODER_BUFFER: usize = 4194304;

/// A decoded frame: its raw headers block and its payload.
pub struct RawFrame {
    pub headers: Vec<u8>,
    pub payload: Vec<u8>,
}

impl RawFrame {
    pub open spec fn model(self) -> (Seq<u8>, Seq<u8>) {
        (self.headers@, self.payload@)
    }
}

/// A big-endian 32-bit quantity.
pub open spec fn be32(b0: u8, b1: u8, b2: u8, b3: u8) -> int {
    (b0 as int) * 16777216 + (b1 as int) * 65536 + (b2 as int) * 256 + (b3 as int)
}

/// The frames that a byte sequence yields, greedily from the front, and
/// the unconsumed rest.  A prelude that announces an impossible size, or a
/// frame not yet fully arrived, stalls the stream.
pub open spec fn spec_decode(bytes: Seq<u8>) -> (Seq<(Seq<u8>, Seq<u8>)>, Seq<u8>)
    decreases bytes.len(),
{
    if bytes.len() < 12 {
        (Seq::empty(), bytes)
    } else {
        let total = be32(bytes[0], bytes[1], bytes[2], bytes[3]);
        let hlen = be32(bytes[4], bytes[5], bytes[6], bytes[7]);
        if total < 16 || hlen + 16 > total {
            (Seq::empty(), bytes)
        } else if bytes.len() < total {
            (Seq::empty(), bytes)
        } else {
            let headers = bytes.subrange(12, 12 + hlen);
            let payload = bytes.subrange(12 + hlen, total - 4);
            let rec = spec_decode(bytes.skip(total));
            (seq![(headers, payload)] + rec.0, rec.1)
        }
    }
}

/// The wire form of one frame with zeroed checksums.
pub open spec fn spec_frame_bytes(headers: Seq<u8>, payload: Seq<u8>) -> Seq<u8> {
    let total = headers.len() + payload.len() + 16;
    let hlen = headers.len() as int;
    seq![
        ((total / 16777216) % 256) as u8,
        ((total / 65536) % 256) as u8,
        ((total / 256) % 256) as u8,
        (total % 256) as u8,
        ((hlen / 16777216) % 256) as u8,
        ((hlen / 65536) % 256) as u8,
        ((hlen / 256) % 256) as u8,
        (hlen % 256) as u8,
        0u8,
        0u8,
        0u8,
        0u8,
    ] + headers + payload + seq![0u8, 0u8, 0u8, 0u8]
}

/// Recomposing a value below 2^32 from its big-endian digits gives the
/// value back.
proof fn lemma_be32_digits(x: int)
    requires
        0 <= x < 4294967296,
    ensures
        be32(
            (((x / 16777216) % 256) as u8),
            (((x / 65536) % 256) as u8),
            (((x / 256) % 256) as u8),
            ((x % 256) as u8),
        ) == x,
{
    assert(be32(
        (((x / 16777216) % 256) as u8),
        (((x / 65536) % 256) as u8),
        (((x / 256) % 256) as u8),
        ((x % 256) as u8),
    ) == x) by (nonlinear_arith)
        requires
            0 <= x < 4294967296,
    ;
}

/// Framing round trip: the wire form of a frame followed by any tail
/// decodes to exactly that frame followed by whatever the tail decodes to.
pub proof fn lemma_frame_round_trip(headers: Seq<u8>, payload: Seq<u8>, tail: Seq<u8>)
    requires
        headers.len() + payload.len() + 16 < 4294967296,
    ensures
        spec_decode(spec_frame_bytes(headers, payload) + tail) == (
        seq![(headers, payload)] + spec_decode(tail).0,
        spec_decode(tail).1,
        ),
{
    let total = headers.len() + payload.len() + 16;
    let hlen = headers.len() as int;
    let bytes = spec_frame_bytes(headers, payload) + tail;
    lemma_be32_digits(total as int);
    lemma_be32_digits(hlen);
    assert(bytes.len() >= 12);
    assert(be32(bytes[0], bytes[1], bytes[2], bytes[3]) == total);
    assert(be32(bytes[4], bytes[5], bytes[6], bytes[7]) == hlen);
    assert(bytes.subrange(12, 12 + hlen) =~= headers);
    assert(bytes.subrange(12 + hlen, total - 4) =~= payload);
    assert(bytes.skip(total as int) =~= tail);
}

/// The frame decoder: a growing buffer that yields complete frames.
pub struct EventStreamDecoder {
    buffer: Vec<u8>,
}

impl EventStreamDecoder {
    pub closed spec fn buf(self) -> Seq<u8> {
        self.buffer@
    }

    pub fn new() -> (d: Self)
        ensures
            d.buf() == Seq::<u8>::empty(),
    {
        let d = EventStreamDecoder { buffer: Vec::new() };
        proof {
            assert(d.buf() =~= Seq::<u8>::empty());
        }
        d
    }

    /// Buffers one chunk.  When the buffer would outgrow the cap it is
    /// dropped whole and the call reports the overflow, so the decoder can
    /// restart on later chunks.
    pub fn feed(&mut self, chunk: &[u8]) -> (r: Result<(), ()>)
        ensures
            old(self).buf().len() + chunk@.len() <= MAX_DECODER_BUFFER ==> r is Ok
                && final(self).buf() == old(self).buf() + chunk@,
            old(self).buf().len() + chunk@.len() > MAX_DECODER_BUFFER ==> r is Err
                && final(self).buf() == Seq::<u8>::empty(),
    {
        if self.buffer.len() > MAX_DECODER_BUFFER || chunk.len() > MAX_DECODER_BUFFER
            - self.buffer.len() {
            self.buffer = Vec::new();
            proof {
                assert(self.buf() =~= Seq::<u8>::empty());
            }
            return Err(());
        }
        let ghost pre = self.buffer@;
        let mut i: usize = 0;
        while i < chunk.len()
            invariant
                i <= chunk@.len(),
                pre.len() + chunk@.len() <= MAX_DECODER_BUFFER,
                self.buffer@ == pre + chunk@.subrange(0, i as int),
            decreases chunk@.len() - i,
        {
            self.buffer.push(chunk[i]);
            proof {
                assert(pre + chunk@.subrange(0, i + 1) =~= (pre + chunk@.subrange(0, i as int)).push(
                    chunk@[i as int],
                ));
            }
            i = i + 1;
        }
        proof {
            assert(chunk@.subrange(0, chunk@.len() as int) =~= chunk@);
        }
        Ok(())
    }

    /// Yields every complete frame buffered so far, leaving the rest for
    /// later chunks.
    pub fn decode_ready(&mut self) -> (frames: Vec<RawFrame>)
        ensures
            frames@.map_values(|f: RawFrame| f.model()) == spec_decode(old(self).buf()).0,
            final(self).buf() == spec_decode(old(self).buf()).1,
    {
        let mut frames: Vec<RawFrame> = Vec::new();
        loop
            invariant
                spec_decode(old(self).buf()).0 == frames@.map_values(|f: RawFrame| f.model())
                    + spec_decode(self.buf()).0,
                spec_decode(old(self).buf()).1 == spec_decode(self.buf()).1,
            decreases self.buf().len(),
        {
            let n = self.buffer.len();
            if n < 12 {
                proof {
                    assert(spec_decode(self.buf()).0 =~= Seq::<(Seq<u8>, Seq<u8>)>::empty());
                    assert(frames@.map_values(|f: RawFrame| f.model()) + spec_decode(
                        self.buf(),
                    ).0 =~= frames@.map_values(|f: RawFrame| f.model()));
                }
                return frames;
            }
            let total: u32 = be32_at(&self.buffer, 0);
            let hlen: u32 = be32_at(&self.buffer, 4);
            let stalled = total < 16 || hlen as u64 + 16 > total as u64 || (n as u64) < (
            total as u64);
            if stalled {
                proof {
                    assert(spec_decode(self.buf()).0 =~= Seq::<(Seq<u8>, Seq<u8>)>::empty());
                    assert(frames@.map_values(|f: RawFrame| f.model()) + spec_decode(
                        self.buf(),
                    ).0 =~= frames@.map_values(|f: RawFrame| f.model()));
                }
                return frames;
            }
            let t = total as usize;
            let hl = hlen as usize;
            let headers = copy_range(&self.buffer, 12, 12 + hl);
            let payload = copy_range(&self.buffer, 12 + hl, t - 4);
            let rest = copy_range(&self.buffer, t, n);
            let ghost pre = self.buffer@;
            let ghost fpre = frames@;
            frames.push(RawFrame { headers, payload });
            self.buffer = rest;
            proof {
                assert(self.buffer@ =~= pre.skip(t as int));
                let fm = |f: RawFrame| f.model();
                assert(frames@.map_values(fm) =~= fpre.map_values(fm).push(
                    (pre.subrange(12, 12 + hl), pre.subrange(12 + hl, t - 4)),
                ));
                assert(spec_decode(pre).0 =~= seq![
                    (pre.subrange(12, 12 + hl), pre.subrange(12 + hl, t - 4)),
                ] + spec_decode(pre.skip(t as int)).0);
                assert(fpre.map_values(fm) + spec_decode(pre).0 =~= frames@.map_values(fm)
                    + spec_decode(self.buf()).0);
            }
        }
    }
}

/// Reads a big-endian 32-bit value at offset `at`.
fn be32_at(v: &Vec<u8>, at: usize) -> (r: u32)
    requires
        at + 4 <= v@.len(),
    ensures
        r == be32(v@[at as int], v@[at + 1], v@[at + 2], v@[at + 3]),
{
    let n = v.len();
    proof {
        assert(at + 4 <= n);
    }
    (v[at] as u32) * 16777216 + (v[at + 1] as u32) * 65536 + (v[at + 2] as u32) * 256 + (v[at + 3]
        as u32)
}

/// Copies `v[from..to]` into a fresh vector.
pub fn copy_range(v: &Vec<u8>, from: usize, to: usize) -> (r: Vec<u8>)
    requires
        from <= to <= v@.len(),
    ensures
        r@ == v@.subrange(from as int, to as int),
{
    let mut out: Vec<u8> = Vec::new();
    let mut i: usize = from;
    while i < to
        invariant
            from <= i <= to <= v@.len(),
            out@ =~= v@.subrange(from as int, i as int),
        decreases to - i,
    {
        out.push(v[i]);
        proof {
            assert(v@.subrange(from as int, i + 1) =~= v@.subrange(from as int, i as int).push(
                v@[i as int],
            ));
        }
        i = i + 1;
    }
    out
}

/// Builds the wire form of one frame (checksum fields zeroed).
pub fn encode_frame(headers: &[u8], payload: &[u8]) -> (r: Vec<u8>)
    requires
        headers@.len() + payload@.len() + 16 < 4294967296,
    ensures
        r@ == spec_frame_bytes(headers@, payload@),
{
    let total: u64 = headers.len() as u64 + payload.len() as u64 + 16;
    let hlen: u64 = headers.len() as u64;
    let mut out: Vec<u8> = Vec::new();
    out.push(((total / 16777216) % 256) as u8);
    out.push(((total / 65536) % 256) as u8);
    out.push(((total / 256) % 256) as u8);
    out.push((total % 256) as u8);
    out.push(((hlen / 16777216) % 256) as u8);
    out.push(((hlen / 65536) % 256) as u8);
    out.push(((hlen / 256) % 256) as u8);
    out.push((hlen % 256) as u8);
    out.push(0);
    out.push(0);
    out.push(0);
    out.push(0);
    let mut i: usize = 0;
    while i < headers.len()
        invariant
            i <= headers@.len(),
            out@.len() == 12 + i,
            out@.subrange(0, 12) == spec_frame_bytes(headers@, payload@).subrange(0, 12),
            out@.subrange(12, out@.len() as int) =~= headers@.subrange(0, i as int),
        decreases headers@.len() - i,
    {
        out.push(headers[i]);
        proof {
            assert(out@.subrange(0, 12) =~= old_sub12(out@));
            assert(out@.subrange(12, out@.len() as int) =~= headers@.subrange(0, i as int).push(
                headers@[i as int],
            ));
            assert(headers@.subrange(0, i + 1) =~= headers@.subrange(0, i as int).push(
                headers@[i as int],
            ));
        }
        i = i + 1;
    }
    let hn = out.len();
    let mut j: usize = 0;
    while j < payload.len()
        invariant
            j <= payload@.len(),
            hn == 12 + headers@.len(),
            out@.len() == hn + j,
            out@.subrange(0, 12) == spec_frame_bytes(headers@, payload@).subrange(0, 12),
            out@.subrange(12, hn as int) == headers@,
            out@.subrange(hn as int, out@.len() as int) =~= payload@.subrange(0, j as int),
        decreases payload@.len() - j,
    {
        out.push(payload[j]);
        proof {
            assert(out@.subrange(0, 12) =~= old_sub12(out@));
            assert(out@.subrange(12, hn as int) =~= headers@);
            assert(out@.subrange(hn as int, out@.len() as int) =~= payload@.subrange(
                0,
                j as int,
            ).push(payload@[j as int]));
            assert(payload@.subrange(0, j + 1) =~= payload@.subrange(0, j as int).push(
                payload@[j as int],
            ));
        }
        j = j + 1;
    }
    proof {
        assert(payload@.subrange(0, payload@.len() as int) =~= payload@);
    }
    let ghost body = out@;
    out.push(0);
    out.push(0);
    out.push(0);
    out.push(0);
    proof {
        assert(out@ =~= body.push(0).push(0).push(0).push(0));
        let sp = spec_frame_bytes(headers@, payload@);
        assert(body.len() == 12 + headers@.len() + payload@.len());
        assert(out@.len() == sp.len());
        assert forall|k: int| 0 <= k < out@.len() implies out@[k] == sp[k] by {
            if k < body.len() {
                assert(out@[k] == body[k]);
                if k < 12 {
                    assert(body[k] == body.subrange(0, 12)[k]);
                    assert(sp[k] == body.subrange(0, 12)[k]);
                } else if k < 12 + headers@.len() {
                    assert(body[k] == body.subrange(12, hn as int)[k - 12]);
                    assert(sp[k] == headers@[k - 12]);
                } else {
                    assert(body[k] == body.subrange(hn as int, body.len() as int)[k - hn]);
                    assert(sp[k] == payload@[k - 12 - headers@.len()]);
                }
            } else {
                assert(out@[k] == 0);
                assert(sp[k] == 0);
            }
        }
        assert(out@ =~= sp);
    }
    out
}

/// The fixed prefix of a growing vector is stable under push.
spec fn old_sub12(s: Seq<u8>) -> Seq<u8> {
    s.subrange(0, 12)
}

} // verus!
