//! Chunked message framing: a message travels as a sequence of chunks, each
//! a 2-byte big-endian size header followed by that many payload bytes, ended
//! by a zero-size header.

use vstd::prelude::*;
use crate::bytes::{be_bytes, from_be, lemma_be_bytes_len, lemma_from_be_bytes,
    lemma_from_be_bound, lemma_pow256_mono, push_be, read_be};
use crate::packstream::{lemma_pow256_values, lemma_subrange_index, lemma_subrange_split};
use crate::error::MgError;

verus! {

/// Largest payload one chunk can carry.
pub open spec fn max_chunk() -> nat {
    0xFFFF
}

/// The framed form of a message: maximal chunks while more than `max_chunk`
/// bytes remain, then one final chunk (none for an empty message), then the
/// zero-size end marker.
pub open spec fn chunks_of(m: Seq<u8>) -> Seq<u8>
    decreases m.len(),
{
    if m.len() == 0 {
        seq![0u8, 0u8]
    } else if m.len() <= max_chunk() {
        be_bytes(m.len(), 2) + m + seq![0u8, 0u8]
    } else {
        be_bytes(max_chunk(), 2) + m.take(max_chunk() as int) + chunks_of(m.skip(max_chunk() as int))
    }
}

/// Reads one framed message starting at `pos`: the concatenated payloads of
/// the chunks up to the first zero-size header, and the position just past
/// that header. `None` where a header or payload is truncated.
pub open spec fn unchunk(s: Seq<u8>, pos: int) -> Option<(Seq<u8>, int)>
    decreases s.len() - pos,
{
    if !(0 <= pos && pos + 2 <= s.len()) {
        None
    } else {
        let n = from_be(s.subrange(pos, pos + 2));
        if n == 0 {
            Some((seq![], pos + 2))
        } else if pos + 2 + n <= s.len() {
            match unchunk(s, pos + 2 + n) {
                Option::None => None,
                Option::Some((rest, q)) => Some((s.subrange(pos + 2, pos + 2 + n) + rest, q)),
            }
        } else {
            None
        }
    }
}

/// Appends `msg[a..b]` to `out`.
fn push_slice_range(out: &mut Vec<u8>, msg: &[u8], a: usize, b: usize)
    requires
        a <= b <= msg@.len(),
    ensures
        final(out)@ == old(out)@ + msg@.subrange(a as int, b as int),
{
    let mut j: usize = a;
    while j < b
        invariant
            a <= j <= b <= msg@.len(),
            out@ == old(out)@ + msg@.subrange(a as int, j as int),
        decreases b - j,
    {
        out.push(msg[j]);
        proof {
            assert(msg@.subrange(a as int, j + 1) =~= msg@.subrange(a as int, j as int).push(
                msg@[j as int],
            ));
        }
        j = j + 1;
    }
}

/// Splits a message into chunks: maximal chunks, a final partial chunk, and
/// the zero-size end marker.
#[verifier::loop_isolation(false)]
pub fn frame(msg: &[u8]) -> (r: Vec<u8>)
    ensures
        r@ == chunks_of(msg@),
{
    proof {
        lemma_pow256_values();
    }
    let blen = msg.len();
    let mut out: Vec<u8> = Vec::new();
    let mut off: usize = 0;
    proof {
        assert(msg@.skip(0) =~= msg@);
    }
    while blen - off > 0xFFFF
        invariant
            off <= blen,
            chunks_of(msg@) == out@ + chunks_of(msg@.skip(off as int)),
        decreases blen - off,
    {
        push_be(&mut out, 0xFFFF, 2);
        push_slice_range(&mut out, msg, off, off + 0xFFFF);
        proof {
            let tail = msg@.skip(off as int);
            assert(tail.take(max_chunk() as int) =~= msg@.subrange(off as int, off + 0xFFFF));
            assert(tail.skip(max_chunk() as int) =~= msg@.skip(off + 0xFFFF));
            assert(out@ =~= (out@ + chunks_of(msg@.skip(off + 0xFFFF))).subrange(
                0,
                out@.len() as int,
            ));
            assert(chunks_of(msg@) =~= out@ + chunks_of(msg@.skip(off + 0xFFFF)));
        }
        off = off + 0xFFFF;
    }
    let n = blen - off;
    if n > 0 {
        push_be(&mut out, n as u64, 2);
        push_slice_range(&mut out, msg, off, blen);
        proof {
            let tail = msg@.skip(off as int);
            assert(tail =~= msg@.subrange(off as int, blen as int));
            assert(chunks_of(tail) == be_bytes(tail.len(), 2) + tail + seq![0u8, 0u8]);
        }
    }
    out.push(0u8);
    out.push(0u8);
    proof {
        let tail = msg@.skip(off as int);
        if n == 0 {
            assert(tail =~= Seq::<u8>::empty());
            assert(be_bytes(0, 2) =~= seq![0u8, 0u8]) by {
                reveal_with_fuel(be_bytes, 3);
            };
            assert(out@ =~= chunks_of(msg@));
        } else {
            assert(out@ =~= chunks_of(msg@));
        }
    }
    out
}

/// Reassembles one framed message from the start of `buf`, returning the
/// message bytes and how many bytes of `buf` were consumed. Fails with a
/// `Protocol` error exactly where a chunk header or payload is truncated.
#[verifier::loop_isolation(false)]
pub fn unframe(buf: &[u8]) -> (r: Result<(Vec<u8>, usize), MgError>)
    ensures
        match r {
            Ok((msg, c)) => unchunk(buf@, 0) == Some((msg@, c as int)) && c <= buf@.len(),
            Err(e) => unchunk(buf@, 0) is None && e is Protocol,
        },
{
    let blen = buf.len();
    let mut msg: Vec<u8> = Vec::new();
    let mut cur: usize = 0;
    loop
        invariant
            cur <= blen == buf@.len(),
            unchunk(buf@, 0) == (match unchunk(buf@, cur as int) {
                Option::None => None::<(Seq<u8>, int)>,
                Option::Some((rest, q)) => Some((msg@ + rest, q)),
            }),
        decreases blen - cur,
    {
        if blen - cur < 2 {
            return Err(MgError::Protocol(0));
        }
        let n = read_be(buf, cur, 2) as usize;
        proof {
            lemma_from_be_bound(buf@.subrange(cur as int, cur + 2));
            lemma_pow256_values();
            lemma_pow256_mono(2, 4);
        }
        if n == 0 {
            proof {
                assert(msg@ + Seq::<u8>::empty() =~= msg@);
            }
            return Ok((msg, cur + 2));
        }
        if n > blen - (cur + 2) {
            return Err(MgError::Protocol(0));
        }
        let ghost old_msg = msg@;
        push_slice_range(&mut msg, buf, cur + 2, cur + 2 + n);
        proof {
            if unchunk(buf@, cur + 2 + n) is Some {
                let (rest, q) = unchunk(buf@, cur + 2 + n)->Some_0;
                assert((old_msg + buf@.subrange(cur + 2, cur + 2 + n)) + rest =~= old_msg + (
                buf@.subrange(cur + 2, cur + 2 + n) + rest));
            }
        }
        cur = cur + 2 + n;
    }
}

/// Framing round-trip: at the start of any byte string that begins with the
/// framed form of `m`, reading one framed message yields exactly `m` and
/// consumes exactly the framed form.
pub proof fn lemma_unchunk_chunks(m: Seq<u8>, s: Seq<u8>, pos: int)
    requires
        0 <= pos,
        pos + chunks_of(m).len() <= s.len(),
        s.subrange(pos, pos + chunks_of(m).len()) == chunks_of(m),
    ensures
        unchunk(s, pos) == Some((m, pos + chunks_of(m).len())),
    decreases m.len(),
{
    lemma_pow256_values();
    lemma_subrange_index(s, pos, chunks_of(m));
    if m.len() == 0 {
        assert(s.subrange(pos, pos + 2) =~= seq![0u8, 0u8]);
        assert(from_be(seq![0u8, 0u8]) == 0) by {
            reveal_with_fuel(from_be, 3);
            assert(seq![0u8, 0u8].drop_last() =~= seq![0u8]);
            assert(seq![0u8].drop_last() =~= Seq::<u8>::empty());
        };
        assert(m =~= Seq::<u8>::empty());
    } else if m.len() <= max_chunk() {
        let hdr = be_bytes(m.len(), 2);
        lemma_be_bytes_len(m.len(), 2);
        assert(chunks_of(m) =~= hdr + (m + seq![0u8, 0u8]));
        lemma_subrange_split(s, pos, hdr, m + seq![0u8, 0u8]);
        assert(s.subrange(pos, pos + 2) == hdr);
        lemma_from_be_bytes(m.len(), 2);
        let p1 = pos + 2;
        lemma_subrange_split(s, p1, m, seq![0u8, 0u8]);
        let p2 = p1 + m.len();
        assert(s.subrange(p2, p2 + 2) =~= seq![0u8, 0u8]);
        assert(from_be(seq![0u8, 0u8]) == 0) by {
            reveal_with_fuel(from_be, 3);
            assert(seq![0u8, 0u8].drop_last() =~= seq![0u8]);
            assert(seq![0u8].drop_last() =~= Seq::<u8>::empty());
        };
        assert(unchunk(s, p2) == Some((Seq::<u8>::empty(), p2 + 2)));
        assert(m + Seq::<u8>::empty() =~= m);
    } else {
        let hdr = be_bytes(max_chunk(), 2);
        lemma_be_bytes_len(max_chunk(), 2);
        let head = m.take(max_chunk() as int);
        let tail = m.skip(max_chunk() as int);
        assert(chunks_of(m) =~= hdr + (head + chunks_of(tail)));
        lemma_subrange_split(s, pos, hdr, head + chunks_of(tail));
        lemma_from_be_bytes(max_chunk(), 2);
        let p1 = pos + 2;
        lemma_subrange_split(s, p1, head, chunks_of(tail));
        let p2 = p1 + head.len();
        lemma_unchunk_chunks(tail, s, p2);
        assert(head + tail =~= m);
    }
}

/// Frame-then-unframe round-trip, from position zero with nothing after.
pub proof fn lemma_frame_round_trip(m: Seq<u8>)
    ensures
        unchunk(chunks_of(m), 0) == Some((m, chunks_of(m).len() as int)),
{
    let s = chunks_of(m);
    assert(s.subrange(0, s.len() as int) =~= s);
    lemma_unchunk_chunks(m, s, 0);
}

} // verus!
