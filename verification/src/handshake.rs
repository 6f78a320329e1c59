//! The version-negotiation handshake: a 4-byte magic preamble, four
//! big-endian candidate version words, and the server's 4-byte choice.

use vstd::prelude::*;
use crate::bytes::{be_bytes, from_be, lemma_from_be_bound, push_be, read_be};
use crate::error::MgError;
use crate::packstream::lemma_pow256_values;
use crate::transport::Transport;

verus! {

/// One candidate version word: the caller's `i`-th preference, or zero where
/// fewer than four were given.
pub open spec fn version_word(vs: Seq<u32>, i: int) -> nat {
    if 0 <= i < vs.len() {
        vs[i] as nat
    } else {
        0
    }
}

/// The full handshake request: magic preamble, then exactly four version
/// words in preference order, zero-padded.
pub open spec fn handshake_request_spec(vs: Seq<u32>) -> Seq<u8> {
    seq![0x60u8, 0x60u8, 0xB0u8, 0x17u8] + be_bytes(version_word(vs, 0), 4) + be_bytes(
        version_word(vs, 1),
        4,
    ) + be_bytes(version_word(vs, 2), 4) + be_bytes(version_word(vs, 3), 4)
}

/// Builds the handshake request bytes for the given candidate versions in
/// preference order; only the first four are offered, missing slots are zero.
#[verifier::loop_isolation(false)]
pub fn handshake_request(versions: &[u32]) -> (r: Vec<u8>)
    ensures
        r@ == handshake_request_spec(versions@),
{
    proof {
        lemma_pow256_values();
    }
    let mut out: Vec<u8> = Vec::new();
    out.push(0x60u8);
    out.push(0x60u8);
    out.push(0xB0u8);
    out.push(0x17u8);
    let vlen = versions.len();
    let mut i: usize = 0;
    while i < 4
        invariant
            i <= 4,
            vlen == versions@.len(),
            out@ == seq![0x60u8, 0x60u8, 0xB0u8, 0x17u8] + words_up_to(versions@, i as int),
        decreases 4 - i,
    {
        let w: u32 = if i < vlen {
            versions[i]
        } else {
            0
        };
        push_be(&mut out, w as u64, 4);
        proof {
            assert(words_up_to(versions@, i + 1) =~= words_up_to(versions@, i as int)
                + be_bytes(version_word(versions@, i as int), 4));
            assert(out@ =~= seq![0x60u8, 0x60u8, 0xB0u8, 0x17u8] + words_up_to(
                versions@,
                i + 1,
            ));
        }
        i = i + 1;
    }
    proof {
        assert(handshake_request_spec(versions@) =~= seq![0x60u8, 0x60u8, 0xB0u8, 0x17u8]
            + words_up_to(versions@, 4)) by {
            reveal_with_fuel(words_up_to, 5);
        };
        assert(out@ =~= handshake_request_spec(versions@));
    }
    out
}

/// The first `k` of the four version words, concatenated.
pub open spec fn words_up_to(vs: Seq<u32>, k: int) -> Seq<u8>
    decreases k,
{
    if k <= 0 {
        seq![]
    } else {
        words_up_to(vs, k - 1) + be_bytes(version_word(vs, k - 1), 4)
    }
}

/// Interprets the server's 4-byte answer: the agreed version, or a `Protocol`
/// error exactly where the server chose none (a zero word).
pub fn parse_version_response(b: &[u8]) -> (r: Result<u32, MgError>)
    requires
        b@.len() == 4,
    ensures
        match r {
            Ok(v) => v as nat == from_be(b@) && v != 0,
            Err(e) => from_be(b@) == 0 && e == MgError::Protocol(0),
        },
{
    proof {
        lemma_from_be_bound(b@.subrange(0, 4));
        lemma_pow256_values();
        assert(b@.subrange(0, 4) =~= b@);
    }
    let u = read_be(b, 0, 4);
    if u == 0 {
        Err(MgError::Protocol(0))
    } else {
        Ok(u as u32)
    }
}

/// Performs the handshake over `t`: writes the magic preamble and the four
/// candidate version words, reads the server's 4-byte choice, and accepts it
/// as-is unless it is zero. On success the agreed version is nonzero. A zero
/// answer, or a transport that closes before the 4 reply bytes arrive, is a
/// `Protocol` error; a failed write of the request is a `Transport` error.
pub fn negotiate<T: Transport>(t: &mut T, versions: &[u32]) -> (r: Result<u32, MgError>)
    ensures
        match r {
            Ok(v) => v != 0,
            Err(e) => e is Transport || e is Protocol,
        },
{
    let req = handshake_request(versions);
    match t.write_all(req.as_slice()) {
        Ok(()) => (),
        Err(_) => {
            return Err(MgError::Transport);
        },
    }
    let resp = match t.read_exact(4) {
        Ok(b) => b,
        Err(_) => {
            return Err(MgError::Protocol(0));
        },
    };
    parse_version_response(resp.as_slice())
}

} // verus!
