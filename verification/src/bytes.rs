//! Big-endian byte-string encodings of unsigned integers, shared by the
//! codec, the chunk framer and the handshake.

use vstd::prelude::*;
use vstd::arithmetic::div_mod::lemma_div_denominator;

verus! {

/// 256 to the power `n`.
pub open spec fn pow256(n: nat) -> nat
    decreases n,
{
    if n == 0 {
        1
    } else {
        256 * pow256((n - 1) as nat)
    }
}

/// The `n`-byte big-endian encoding of `u` (of `u % 256^n` where `u` does not
/// fit).
pub open spec fn be_bytes(u: nat, n: nat) -> Seq<u8>
    decreases n,
{
    if n == 0 {
        seq![]
    } else {
        be_bytes(u / 256, (n - 1) as nat) + seq![(u % 256) as u8]
    }
}

/// The unsigned integer a big-endian byte string denotes.
pub open spec fn from_be(s: Seq<u8>) -> nat
    decreases s.len(),
{
    if s.len() == 0 {
        0
    } else {
        from_be(s.drop_last()) * 256 + s.last() as nat
    }
}

pub proof fn lemma_be_bytes_len(u: nat, n: nat)
    ensures
        be_bytes(u, n).len() == n,
    decreases n,
{
    if n > 0 {
        lemma_be_bytes_len(u / 256, (n - 1) as nat);
    }
}

pub proof fn lemma_pow256_pos(n: nat)
    ensures
        pow256(n) >= 1,
    decreases n,
{
    if n > 0 {
        lemma_pow256_pos((n - 1) as nat);
    }
}

pub proof fn lemma_pow256_mono(a: nat, b: nat)
    requires
        a <= b,
    ensures
        pow256(a) <= pow256(b),
    decreases b,
{
    if a < b && b > 0 {
        lemma_pow256_mono(a, (b - 1) as nat);
    }
}

/// Decoding inverts encoding for values that fit in `n` bytes.
pub proof fn lemma_from_be_bytes(u: nat, n: nat)
    requires
        u < pow256(n),
    ensures
        from_be(be_bytes(u, n)) == u,
    decreases n,
{
    if n > 0 {
        let m = (n - 1) as nat;
        assert(u / 256 < pow256(m)) by {
            assert(u < 256 * pow256(m));
        };
        lemma_from_be_bytes(u / 256, m);
        let s = be_bytes(u, n);
        lemma_be_bytes_len(u / 256, m);
        assert(s.drop_last() =~= be_bytes(u / 256, m));
        assert(s.last() == (u % 256) as u8);
        assert(from_be(s) == (u / 256) * 256 + u % 256);
    }
}

/// Every `n`-byte string denotes a value below `256^n`.
pub proof fn lemma_from_be_bound(s: Seq<u8>)
    ensures
        from_be(s) < pow256(s.len()),
    decreases s.len(),
{
    if s.len() > 0 {
        lemma_from_be_bound(s.drop_last());
    }
}

/// Byte `k` (most-significant first) of the encoding is digit `n-1-k` of `u`
/// in base 256.
pub proof fn lemma_be_bytes_index(u: nat, n: nat, k: nat)
    requires
        k < n,
    ensures
        be_bytes(u, n)[k as int] == ((u / pow256((n - 1 - k) as nat)) % 256) as u8,
    decreases n,
{
    lemma_be_bytes_len(u / 256, (n - 1) as nat);
    if k == n - 1 {
        assert(pow256(0) == 1);
        assert(u / 1 == u);
        assert(be_bytes(u, n)[k as int] == (u % 256) as u8);
    } else {
        lemma_be_bytes_index(u / 256, (n - 1) as nat, k);
        let m = (n - 1 - k) as nat;
        assert((u / 256) / pow256((m - 1) as nat) == u / pow256(m)) by {
            lemma_pow256_pos((m - 1) as nat);
            lemma_div_denominator(u as int, 256, pow256((m - 1) as nat) as int);
            assert(256 * pow256((m - 1) as nat) == pow256(m));
        };
        assert(be_bytes(u, n)[k as int] == be_bytes(u / 256, (n - 1) as nat)[k as int]);
    }
}

/// Appends the `n`-byte big-endian encoding of `u`; `u` must fit.
pub fn push_be(out: &mut Vec<u8>, u: u64, n: usize)
    requires
        n <= 8,
        (u as nat) < pow256(n as nat),
    ensures
        final(out)@ == old(out)@ + be_bytes(u as nat, n as nat),
{
    let ghost prefix = out@;
    // Low-order digits of u, least significant first.
    let mut tmp: Vec<u8> = Vec::new();
    let mut rem: u64 = u;
    let mut i: usize = 0;
    proof {
        assert(pow256(0) == 1);
        assert((u as nat) / 1 == u as nat);
    }
    while i < n
        invariant
            i <= n <= 8,
            tmp@.len() == i,
            rem as nat == (u as nat) / pow256(i as nat),
            forall|j: int|
                0 <= j < i ==> tmp@[j] == (((u as nat) / pow256(j as nat)) % 256) as u8,
        decreases n - i,
    {
        tmp.push((rem % 256) as u8);
        rem = rem / 256;
        proof {
            lemma_pow256_pos(i as nat);
            lemma_div_denominator(u as int, pow256(i as nat) as int, 256);
            assert(pow256(i as nat) * 256 == 256 * pow256(i as nat)) by (nonlinear_arith);
            assert(rem as nat == (u as nat) / pow256((i + 1) as nat));
        }
        i = i + 1;
    }
    let mut k: usize = 0;
    while k < n
        invariant
            k <= n <= 8,
            tmp@.len() == n,
            (u as nat) < pow256(n as nat),
            forall|j: int|
                0 <= j < n ==> tmp@[j] == (((u as nat) / pow256(j as nat)) % 256) as u8,
            out@ == prefix + be_bytes(u as nat, n as nat).take(k as int),
        decreases n - k,
    {
        let b: u8 = tmp[n - 1 - k];
        out.push(b);
        proof {
            lemma_be_bytes_len(u as nat, n as nat);
            lemma_be_bytes_index(u as nat, n as nat, k as nat);
            assert(be_bytes(u as nat, n as nat).take(k as int + 1) =~= be_bytes(
                u as nat,
                n as nat,
            ).take(k as int) + seq![b]);
        }
        k = k + 1;
    }
    proof {
        lemma_be_bytes_len(u as nat, n as nat);
        assert(be_bytes(u as nat, n as nat).take(n as int) =~= be_bytes(u as nat, n as nat));
    }
}

/// Reads the `n`-byte big-endian integer at `pos`.
pub fn read_be(buf: &[u8], pos: usize, n: usize) -> (r: u64)
    requires
        n <= 8,
        pos + n <= buf@.len(),
    ensures
        r as nat == from_be(buf@.subrange(pos as int, pos + n)),
{
    let blen: usize = buf.len();
    let mut acc: u64 = 0;
    let mut i: usize = 0;
    while i < n
        invariant
            i <= n <= 8,
            pos + n <= buf@.len(),
            blen == buf@.len(),
            acc as nat == from_be(buf@.subrange(pos as int, pos + i)),
            (acc as nat) < pow256(i as nat),
        decreases n - i,
    {
        proof {
            lemma_pow256_mono(i as nat, 7);
            reveal_with_fuel(pow256, 9);
            assert(pow256(7) == 0x100000000000000);
        }
        let b: u8 = buf[pos + i];
        acc = acc * 256 + (b as u64);
        proof {
            let s1 = buf@.subrange(pos as int, pos + i);
            let s2 = buf@.subrange(pos as int, pos + i + 1);
            assert(s2.drop_last() =~= s1);
            assert(s2.last() == b);
        }
        i = i + 1;
    }
    acc
}

} // verus!
