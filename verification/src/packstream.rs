//! The PackStream value codec: a deterministic, smallest-marker binary
//! encoding of `MgValue`, and its exact decoder.
//!
//! The wire grammar, per value: one marker byte, then (depending on the
//! marker's class) a size field, a signature byte, payload bytes and nested
//! values. Sizes are big-endian; integers use two's complement.

use vstd::prelude::*;
use crate::bytes::{pow256, be_bytes, from_be, lemma_be_bytes_len, lemma_pow256_mono,
    lemma_from_be_bytes, lemma_from_be_bound, push_be, read_be};
use crate::value::{MgValue, Val, view_val, view_vals, view_entries, lemma_view_vals,
    lemma_view_vals_push, lemma_view_entries, lemma_view_entries_push};
use crate::error::MgError;

verus! {

/// Two's-complement payload of a signed value in `w` bytes.
pub open spec fn twoc(i: int, w: nat) -> nat {
    if i >= 0 {
        i as nat
    } else {
        (i + pow256(w)) as nat
    }
}

/// The signed value a `w`-byte two's-complement payload denotes.
pub open spec fn sgn(u: nat, w: nat) -> int {
    if 2 * u < pow256(w) {
        u as int
    } else {
        u - pow256(w)
    }
}

/// Size header of a string, list or dictionary: a tiny marker embedding the
/// size, or a marker followed by a 1-, 2- or 4-byte big-endian size.
pub open spec fn header(tiny: u8, m8: u8, m16: u8, m32: u8, n: nat) -> Seq<u8> {
    if n < 16 {
        seq![((tiny as nat) + n) as u8]
    } else if n < 0x100 {
        seq![m8] + be_bytes(n, 1)
    } else if n < 0x10000 {
        seq![m16] + be_bytes(n, 2)
    } else {
        seq![m32] + be_bytes(n, 4)
    }
}

/// Encoding of a string value (also of a dictionary key).
pub open spec fn enc_str(s: Seq<u8>) -> Seq<u8> {
    header(0x80, 0xD0, 0xD1, 0xD2, s.len()) + s
}

/// Encoding of an integer: the most compact marker that fits the value.
pub open spec fn enc_int(i: int) -> Seq<u8> {
    if -16 <= i <= 127 {
        seq![twoc(i, 1) as u8]
    } else if -128 <= i <= -17 {
        seq![0xC8u8] + be_bytes(twoc(i, 1), 1)
    } else if -0x8000 <= i <= 0x7FFF {
        seq![0xC9u8] + be_bytes(twoc(i, 2), 2)
    } else if -0x80000000 <= i <= 0x7FFFFFFF {
        seq![0xCAu8] + be_bytes(twoc(i, 4), 4)
    } else {
        seq![0xCBu8] + be_bytes(twoc(i, 8), 8)
    }
}

/// The encoding of a value.
pub open spec fn enc(v: Val) -> Seq<u8>
    decreases v, 0nat,
{
    match v {
        Val::Null => seq![0xC0u8],
        Val::Bool(b) => if b {
            seq![0xC3u8]
        } else {
            seq![0xC2u8]
        },
        Val::Int(i) => enc_int(i as int),
        Val::Float(bits) => seq![0xC1u8] + be_bytes(bits as nat, 8),
        Val::Str(s) => enc_str(s),
        Val::List(xs) => header(0x90, 0xD4, 0xD5, 0xD6, xs.len()) + enc_list(xs),
        Val::Dict(es) => header(0xA0, 0xD8, 0xD9, 0xDA, es.len()) + enc_entries(es),
        Val::Structure(sig, fs) => struct_header(fs.len()) + seq![sig] + enc_list(fs),
    }
}

/// Size header of a structure: tiny, 1-byte or 2-byte size tier.
pub open spec fn struct_header(n: nat) -> Seq<u8> {
    if n < 16 {
        seq![(0xB0 + n) as u8]
    } else if n < 0x100 {
        seq![0xDCu8] + be_bytes(n, 1)
    } else {
        seq![0xDDu8] + be_bytes(n, 2)
    }
}

/// Concatenated encodings of a sequence of values.
pub open spec fn enc_list(xs: Seq<Val>) -> Seq<u8>
    decreases xs, 1nat,
{
    if xs.len() == 0 {
        seq![]
    } else {
        enc(xs[0]) + enc_list(xs.drop_first())
    }
}

/// Concatenated encodings of a sequence of key-value entries.
pub open spec fn enc_entries(es: Seq<(Seq<u8>, Val)>) -> Seq<u8>
    decreases es, 1nat,
{
    if es.len() == 0 {
        seq![]
    } else {
        enc_str(es[0].0) + enc(es[0].1) + enc_entries(es.drop_first())
    }
}

/// Whether a value's sizes fit the wire format: strings, lists and
/// dictionaries up to 2^32 - 1 elements, structures up to 2^16 - 1 fields.
pub open spec fn enc_fits(v: Val) -> bool
    decreases v, 0nat,
{
    match v {
        Val::Null => true,
        Val::Bool(_) => true,
        Val::Int(_) => true,
        Val::Float(_) => true,
        Val::Str(s) => s.len() < 0x100000000,
        Val::List(xs) => xs.len() < 0x100000000 && fits_list(xs),
        Val::Dict(es) => es.len() < 0x100000000 && fits_entries(es),
        Val::Structure(_, fs) => fs.len() < 0x10000 && fits_list(fs),
    }
}

pub open spec fn fits_list(xs: Seq<Val>) -> bool
    decreases xs, 1nat,
{
    if xs.len() == 0 {
        true
    } else {
        enc_fits(xs[0]) && fits_list(xs.drop_first())
    }
}

pub open spec fn fits_entries(es: Seq<(Seq<u8>, Val)>) -> bool
    decreases es, 1nat,
{
    if es.len() == 0 {
        true
    } else {
        es[0].0.len() < 0x100000000 && enc_fits(es[0].1) && fits_entries(es.drop_first())
    }
}

/// Whether a marker byte is assigned in the wire format's marker table.
pub open spec fn marker_assigned(m: u8) -> bool {
    m <= 0xBF || m == 0xC0 || m == 0xC1 || m == 0xC2 || m == 0xC3 || m == 0xC8 || m == 0xC9 || m
        == 0xCA || m == 0xCB || m == 0xD0 || m == 0xD1 || m == 0xD2 || m == 0xD4 || m == 0xD5 || m
        == 0xD6 || m == 0xD8 || m == 0xD9 || m == 0xDA || m == 0xDC || m == 0xDD || m >= 0xF0
}

/// Reads the `w`-byte big-endian size field at `pos`, if it is in bounds.
pub open spec fn dec_size(s: Seq<u8>, pos: int, w: nat) -> Option<(nat, int)> {
    if pos + w <= s.len() {
        Some((from_be(s.subrange(pos, pos + w)), pos + w))
    } else {
        None
    }
}

/// Reads the `n` string payload bytes at `pos`, if they are in bounds.
pub open spec fn dec_str_payload(s: Seq<u8>, pos: int, n: nat) -> Option<(Val, int)> {
    if pos + n <= s.len() {
        Some((Val::Str(s.subrange(pos, pos + n)), pos + n))
    } else {
        None
    }
}

/// Reads a dictionary key at `pos`: a string-classed marker and its payload.
pub open spec fn dec_key(s: Seq<u8>, pos: int) -> Option<(Seq<u8>, int)> {
    if !(0 <= pos < s.len()) {
        None
    } else {
        let m = s[pos];
        let hdr: Option<(nat, int)> = if 0x80 <= m <= 0x8F {
            Some(((m - 0x80) as nat, pos + 1))
        } else if m == 0xD0 {
            dec_size(s, pos + 1, 1)
        } else if m == 0xD1 {
            dec_size(s, pos + 1, 2)
        } else if m == 0xD2 {
            dec_size(s, pos + 1, 4)
        } else {
            None
        };
        match hdr {
            Option::None => None,
            Option::Some((n, p)) => if p + n <= s.len() {
                Some((s.subrange(p, p + n), p + n))
            } else {
                None
            },
        }
    }
}

/// Decodes the one value whose encoding starts at `pos`; `None` where the
/// bytes are malformed or truncated. Returns the value and the position just
/// past its encoding.
pub open spec fn dec(s: Seq<u8>, pos: int) -> Option<(Val, int)>
    decreases s.len() - pos, 0nat,
{
    if !(0 <= pos < s.len()) {
        None
    } else {
        let m = s[pos];
        if m <= 0x7F {
            Some((Val::Int(m as i64), pos + 1))
        } else if m <= 0x8F {
            dec_str_payload(s, pos + 1, (m - 0x80) as nat)
        } else if m <= 0x9F {
            dec_list_at(s, pos + 1, (m - 0x90) as nat)
        } else if m <= 0xAF {
            dec_dict_at(s, pos + 1, (m - 0xA0) as nat)
        } else if m <= 0xBF {
            dec_struct_at(s, pos + 1, (m - 0xB0) as nat)
        } else if m == 0xC0 {
            Some((Val::Null, pos + 1))
        } else if m == 0xC1 {
            match dec_size(s, pos + 1, 8) {
                Option::None => None,
                Option::Some((u, p)) => Some((Val::Float(u as u64), p)),
            }
        } else if m == 0xC2 {
            Some((Val::Bool(false), pos + 1))
        } else if m == 0xC3 {
            Some((Val::Bool(true), pos + 1))
        } else if m == 0xC8 || m == 0xC9 || m == 0xCA || m == 0xCB {
            let w: nat = if m == 0xC8 {
                1
            } else if m == 0xC9 {
                2
            } else if m == 0xCA {
                4
            } else {
                8
            };
            match dec_size(s, pos + 1, w) {
                Option::None => None,
                Option::Some((u, p)) => Some((Val::Int(sgn(u, w) as i64), p)),
            }
        } else if m == 0xD0 || m == 0xD1 || m == 0xD2 {
            let w: nat = if m == 0xD0 {
                1
            } else if m == 0xD1 {
                2
            } else {
                4
            };
            match dec_size(s, pos + 1, w) {
                Option::None => None,
                Option::Some((n, p)) => dec_str_payload(s, p, n),
            }
        } else if m == 0xD4 || m == 0xD5 || m == 0xD6 {
            let w: nat = if m == 0xD4 {
                1
            } else if m == 0xD5 {
                2
            } else {
                4
            };
            match dec_size(s, pos + 1, w) {
                Option::None => None,
                Option::Some((n, p)) => dec_list_at(s, p, n),
            }
        } else if m == 0xD8 || m == 0xD9 || m == 0xDA {
            let w: nat = if m == 0xD8 {
                1
            } else if m == 0xD9 {
                2
            } else {
                4
            };
            match dec_size(s, pos + 1, w) {
                Option::None => None,
                Option::Some((n, p)) => dec_dict_at(s, p, n),
            }
        } else if m == 0xDC || m == 0xDD {
            let w: nat = if m == 0xDC {
                1
            } else {
                2
            };
            match dec_size(s, pos + 1, w) {
                Option::None => None,
                Option::Some((n, p)) => dec_struct_at(s, p, n),
            }
        } else if m >= 0xF0 {
            Some((Val::Int((m - 256) as i64), pos + 1))
        } else {
            None
        }
    }
}

/// Decodes `n` list elements starting at `pos`.
pub open spec fn dec_list_at(s: Seq<u8>, pos: int, n: nat) -> Option<(Val, int)>
    decreases s.len() - pos, 2nat + 2 * n,
{
    if !(0 <= pos <= s.len()) {
        None
    } else {
        match dec_elems(s, pos, n) {
            Option::None => None,
            Option::Some((vs, p)) => Some((Val::List(vs), p)),
        }
    }
}

/// Decodes `n` key-value entries starting at `pos`.
pub open spec fn dec_dict_at(s: Seq<u8>, pos: int, n: nat) -> Option<(Val, int)>
    decreases s.len() - pos, 2nat + 2 * n,
{
    if !(0 <= pos <= s.len()) {
        None
    } else {
        match dec_entries(s, pos, n) {
            Option::None => None,
            Option::Some((es, p)) => Some((Val::Dict(es), p)),
        }
    }
}

/// Decodes a signature byte and `n` structure fields starting at `pos`.
pub open spec fn dec_struct_at(s: Seq<u8>, pos: int, n: nat) -> Option<(Val, int)>
    decreases s.len() - pos, 2nat + 2 * n,
{
    if !(0 <= pos < s.len()) {
        None
    } else {
        let sig = s[pos];
        match dec_elems(s, pos + 1, n) {
            Option::None => None,
            Option::Some((vs, p)) => Some((Val::Structure(sig, vs), p)),
        }
    }
}

/// Decodes `count` consecutive values starting at `pos`.
pub open spec fn dec_elems(s: Seq<u8>, pos: int, count: nat) -> Option<(Seq<Val>, int)>
    decreases s.len() - pos, 1nat + 2 * count,
{
    if count == 0 {
        Some((seq![], pos))
    } else if !(0 <= pos <= s.len()) {
        None
    } else {
        match dec(s, pos) {
            Option::None => None,
            Option::Some((v, p)) => if pos < p <= s.len() {
                match dec_elems(s, p, (count - 1) as nat) {
                    Option::None => None,
                    Option::Some((vs, p2)) => Some((seq![v] + vs, p2)),
                }
            } else {
                None
            },
        }
    }
}

/// Decodes `count` consecutive key-value entries starting at `pos`.
pub open spec fn dec_entries(s: Seq<u8>, pos: int, count: nat) -> Option<(Seq<(Seq<u8>, Val)>, int)>
    decreases s.len() - pos, 1nat + 2 * count,
{
    if count == 0 {
        Some((seq![], pos))
    } else if !(0 <= pos <= s.len()) {
        None
    } else {
        match dec_key(s, pos) {
            Option::None => None,
            Option::Some((k, pk)) => if pos < pk <= s.len() {
                match dec(s, pk) {
                    Option::None => None,
                    Option::Some((v, pv)) => if pk < pv <= s.len() {
                        match dec_entries(s, pv, (count - 1) as nat) {
                            Option::None => None,
                            Option::Some((es, p2)) => Some((seq![(k, v)] + es, p2)),
                        }
                    } else {
                        None
                    },
                }
            } else {
                None
            },
        }
    }
}

/// Length of a size header per tier.
proof fn lemma_header_len(tiny: u8, m8: u8, m16: u8, m32: u8, n: nat)
    ensures
        header(tiny, m8, m16, m32, n).len() == if n < 16 {
            1int
        } else if n < 0x100 {
            2int
        } else if n < 0x10000 {
            3int
        } else {
            5int
        },
{
    lemma_be_bytes_len(n, 1);
    lemma_be_bytes_len(n, 2);
    lemma_be_bytes_len(n, 4);
}

proof fn lemma_struct_header_len(n: nat)
    ensures
        struct_header(n).len() == if n < 16 {
            1int
        } else if n < 0x100 {
            2int
        } else {
            3int
        },
{
    lemma_be_bytes_len(n, 1);
    lemma_be_bytes_len(n, 2);
}

/// Every encoding starts with a marker byte.
proof fn lemma_enc_len_pos(v: Val)
    ensures
        enc(v).len() >= 1,
{
    match v {
        Val::List(xs) => {
            lemma_header_len(0x90, 0xD4, 0xD5, 0xD6, xs.len());
        },
        Val::Dict(es) => {
            lemma_header_len(0xA0, 0xD8, 0xD9, 0xDA, es.len());
        },
        Val::Structure(_, fs) => {
            lemma_struct_header_len(fs.len());
        },
        _ => {},
    }
}

/// A subrange equal to a concatenation splits into subranges equal to the
/// parts.
pub proof fn lemma_subrange_split(s: Seq<u8>, pos: int, x: Seq<u8>, y: Seq<u8>)
    requires
        0 <= pos,
        pos + x.len() + y.len() <= s.len(),
        s.subrange(pos, pos + x.len() + y.len()) == x + y,
    ensures
        s.subrange(pos, pos + x.len()) == x,
        s.subrange(pos + x.len(), pos + x.len() + y.len()) == y,
{
    let whole = s.subrange(pos, pos + x.len() + y.len());
    assert(s.subrange(pos, pos + x.len()) =~= x) by {
        assert(forall|i: int|
            0 <= i < x.len() ==> s.subrange(pos, pos + x.len())[i] == whole[i] && whole[i] == (x
                + y)[i]);
    };
    assert(s.subrange(pos + x.len(), pos + x.len() + y.len()) =~= y) by {
        assert(forall|i: int|
            0 <= i < y.len() ==> #[trigger] s.subrange(pos + x.len(), pos + x.len() + y.len())[i]
                == whole[i + x.len()] && whole[i + x.len()] == (x + y)[i + x.len()]);
    };
}

/// A size field written by `be_bytes` reads back as the size.
proof fn lemma_rt_size(s: Seq<u8>, pos: int, u: nat, w: nat)
    requires
        u < pow256(w),
        0 <= pos,
        pos + w <= s.len(),
        s.subrange(pos, pos + w) == be_bytes(u, w),
    ensures
        dec_size(s, pos, w) == Some((u, pos + w)),
{
    lemma_from_be_bytes(u, w);
}

/// Pointwise reading of a subrange equality.
pub proof fn lemma_subrange_index(s: Seq<u8>, pos: int, t: Seq<u8>)
    requires
        0 <= pos,
        pos + t.len() <= s.len(),
        s.subrange(pos, pos + t.len()) == t,
    ensures
        forall|j: int| pos <= j < pos + t.len() ==> #[trigger] s[j] == t[j - pos],
{
    let sub = s.subrange(pos, pos + t.len());
    assert forall|j: int| pos <= j < pos + t.len() implies #[trigger] s[j] == t[j - pos] by {
        assert(sub[j - pos] == s[j]);
        assert(sub[j - pos] == t[j - pos]);
    }
}

/// The powers of 256 this codec cares about, as literals.
pub proof fn lemma_pow256_values()
    ensures
        pow256(1) == 0x100,
        pow256(2) == 0x10000,
        pow256(4) == 0x100000000,
        pow256(8) == 0x10000000000000000,
{
    reveal_with_fuel(pow256, 9);
}

/// A size header written by `header` reads back as its tier and size: the
/// marker byte is at `pos` and the size field, if any, follows it.
proof fn lemma_header_at(s: Seq<u8>, pos: int, n: nat, w: nat)
    requires
        w == 1 || w == 2 || w == 4,
        n < pow256(w),
        0 <= pos,
        pos + 1 + w <= s.len(),
        s.subrange(pos + 1, pos + 1 + w) == be_bytes(n, w),
    ensures
        dec_size(s, pos + 1, w) == Some((n, pos + 1 + w)),
{
    lemma_rt_size(s, pos + 1, n, w);
}

/// A dictionary key written by `enc_str` reads back as itself.
proof fn lemma_rt_key(k: Seq<u8>, s: Seq<u8>, pos: int)
    requires
        k.len() < 0x100000000,
        0 <= pos,
        pos + enc_str(k).len() <= s.len(),
        s.subrange(pos, pos + enc_str(k).len()) == enc_str(k),
    ensures
        dec_key(s, pos) == Some((k, pos + enc_str(k).len())),
{
    let n = k.len();
    let hdr = header(0x80, 0xD0, 0xD1, 0xD2, n);
    lemma_header_len(0x80, 0xD0, 0xD1, 0xD2, n);
    lemma_pow256_values();
    lemma_subrange_split(s, pos, hdr, k);
    lemma_subrange_index(s, pos, hdr);
    let p0 = pos + hdr.len();
    assert(s.subrange(p0, p0 + n) == k);
    if n < 16 {
        assert(s[pos] == ((0x80 as nat + n) as u8));
    } else {
        let w: nat = if n < 0x100 {
            1
        } else if n < 0x10000 {
            2
        } else {
            4
        };
        lemma_be_bytes_len(n, w);
        assert(hdr == seq![hdr[0]] + be_bytes(n, w)) by {
            assert(hdr =~= seq![hdr[0]] + be_bytes(n, w));
        };
        lemma_subrange_split(s, pos, seq![hdr[0]], be_bytes(n, w));
        lemma_header_at(s, pos, n, w);
        assert(s[pos] == hdr[0]);
    }
}

/// A three-tier size header reads back as its tier marker and size.
proof fn lemma_rt_header(s: Seq<u8>, pos: int, tiny: u8, m8: u8, m16: u8, m32: u8, n: nat)
    requires
        n < 0x100000000,
        0 <= pos,
        pos + header(tiny, m8, m16, m32, n).len() <= s.len(),
        s.subrange(pos, pos + header(tiny, m8, m16, m32, n).len()) == header(
            tiny,
            m8,
            m16,
            m32,
            n,
        ),
    ensures
        n < 16 ==> s[pos] == ((tiny as nat) + n) as u8,
        16 <= n < 0x100 ==> s[pos] == m8 && dec_size(s, pos + 1, 1) == Some((n, pos + 2)),
        0x100 <= n < 0x10000 ==> s[pos] == m16 && dec_size(s, pos + 1, 2) == Some((n, pos + 3)),
        0x10000 <= n ==> s[pos] == m32 && dec_size(s, pos + 1, 4) == Some((n, pos + 5)),
{
    let hdr = header(tiny, m8, m16, m32, n);
    lemma_header_len(tiny, m8, m16, m32, n);
    lemma_pow256_values();
    lemma_subrange_index(s, pos, hdr);
    if n >= 16 {
        let w: nat = if n < 0x100 {
            1
        } else if n < 0x10000 {
            2
        } else {
            4
        };
        lemma_be_bytes_len(n, w);
        assert(hdr =~= seq![hdr[0]] + be_bytes(n, w));
        lemma_subrange_split(s, pos, seq![hdr[0]], be_bytes(n, w));
        lemma_rt_size(s, pos + 1, n, w);
    }
}

/// A structure size header reads back as its tier marker and size.
proof fn lemma_rt_struct_header(s: Seq<u8>, pos: int, n: nat)
    requires
        n < 0x10000,
        0 <= pos,
        pos + struct_header(n).len() <= s.len(),
        s.subrange(pos, pos + struct_header(n).len()) == struct_header(n),
    ensures
        n < 16 ==> s[pos] == (0xB0 + n) as u8,
        16 <= n < 0x100 ==> s[pos] == 0xDC && dec_size(s, pos + 1, 1) == Some((n, pos + 2)),
        0x100 <= n ==> s[pos] == 0xDD && dec_size(s, pos + 1, 2) == Some((n, pos + 3)),
{
    let hdr = struct_header(n);
    lemma_struct_header_len(n);
    lemma_pow256_values();
    lemma_subrange_index(s, pos, hdr);
    if n >= 16 {
        let w: nat = if n < 0x100 {
            1
        } else {
            2
        };
        lemma_be_bytes_len(n, w);
        assert(hdr =~= seq![hdr[0]] + be_bytes(n, w));
        lemma_subrange_split(s, pos, seq![hdr[0]], be_bytes(n, w));
        lemma_rt_size(s, pos + 1, n, w);
    }
}

/// An encoded integer reads back as itself.
proof fn lemma_rt_int(i: i64, s: Seq<u8>, pos: int)
    requires
        0 <= pos,
        pos + enc_int(i as int).len() <= s.len(),
        s.subrange(pos, pos + enc_int(i as int).len()) == enc_int(i as int),
    ensures
        dec(s, pos) == Some((Val::Int(i), pos + enc_int(i as int).len())),
{
    let ii = i as int;
    let e = enc_int(ii);
    lemma_pow256_values();
    lemma_subrange_index(s, pos, e);
    if -16 <= ii <= 127 {
        assert(s[pos] == twoc(ii, 1) as u8);
        if ii >= 0 {
            assert(s[pos] == ii as u8);
        } else {
            assert(s[pos] == (ii + 256) as u8);
            assert(s[pos] >= 0xF0);
            assert((s[pos] - 256) as i64 == i);
        }
    } else {
        let w: nat = if -128 <= ii <= -17 {
            1
        } else if -0x8000 <= ii <= 0x7FFF {
            2
        } else if -0x80000000 <= ii <= 0x7FFFFFFF {
            4
        } else {
            8
        };
        let u = twoc(ii, w);
        lemma_be_bytes_len(u, w);
        assert(e =~= seq![e[0]] + be_bytes(u, w));
        lemma_subrange_split(s, pos, seq![e[0]], be_bytes(u, w));
        lemma_rt_size(s, pos + 1, u, w);
        assert(sgn(u, w) == ii);
    }
}

/// Round trip of one value: whatever the bytes around it, decoding at the
/// start of an encoded value yields that value and stops right after it.
#[verifier::rlimit(100)]
#[verifier::spinoff_prover]
pub proof fn lemma_rt(v: Val, s: Seq<u8>, pos: int)
    requires
        enc_fits(v),
        0 <= pos,
        pos + enc(v).len() <= s.len(),
        s.subrange(pos, pos + enc(v).len()) == enc(v),
    ensures
        dec(s, pos) == Some((v, pos + enc(v).len())),
    decreases v, 0nat,
{
    let e = enc(v);
    lemma_enc_len_pos(v);
    lemma_subrange_index(s, pos, e);
    lemma_pow256_values();
    match v {
        Val::Null => {
            assert(s[pos] == 0xC0);
        },
        Val::Bool(b) => {
            assert(s[pos] == if b {
                0xC3u8
            } else {
                0xC2u8
            });
        },
        Val::Int(i) => {
            lemma_rt_int(i, s, pos);
        },
        Val::Float(bits) => {
            lemma_be_bytes_len(bits as nat, 8);
            assert(e =~= seq![0xC1u8] + be_bytes(bits as nat, 8));
            lemma_subrange_split(s, pos, seq![0xC1u8], be_bytes(bits as nat, 8));
            lemma_rt_size(s, pos + 1, bits as nat, 8);
        },
        Val::Str(sb) => {
            lemma_rt_key(sb, s, pos);
            let hdr = header(0x80, 0xD0, 0xD1, 0xD2, sb.len());
            lemma_header_len(0x80, 0xD0, 0xD1, 0xD2, sb.len());
            lemma_subrange_split(s, pos, hdr, sb);
            lemma_rt_header(s, pos, 0x80, 0xD0, 0xD1, 0xD2, sb.len());
        },
        Val::List(xs) => {
            let n = xs.len();
            let hdr = header(0x90, 0xD4, 0xD5, 0xD6, n);
            lemma_header_len(0x90, 0xD4, 0xD5, 0xD6, n);
            lemma_subrange_split(s, pos, hdr, enc_list(xs));
            lemma_rt_header(s, pos, 0x90, 0xD4, 0xD5, 0xD6, n);
            let p0 = pos + hdr.len();
            lemma_rt_elems(xs, s, p0);
        },
        Val::Dict(es) => {
            let n = es.len();
            let hdr = header(0xA0, 0xD8, 0xD9, 0xDA, n);
            lemma_header_len(0xA0, 0xD8, 0xD9, 0xDA, n);
            lemma_subrange_split(s, pos, hdr, enc_entries(es));
            lemma_rt_header(s, pos, 0xA0, 0xD8, 0xD9, 0xDA, n);
            let p0 = pos + hdr.len();
            lemma_rt_entries(es, s, p0);
        },
        Val::Structure(sig, fs) => {
            let n = fs.len();
            let hdr = struct_header(n);
            lemma_struct_header_len(n);
            assert(e =~= hdr + (seq![sig] + enc_list(fs)));
            lemma_subrange_split(s, pos, hdr, seq![sig] + enc_list(fs));
            lemma_rt_struct_header(s, pos, n);
            let p0 = pos + hdr.len();
            lemma_subrange_split(s, p0, seq![sig], enc_list(fs));
            lemma_subrange_index(s, p0, seq![sig]);
            assert(s[p0] == sig);
            lemma_rt_elems(fs, s, p0 + 1);
        },
    }
}

/// Round trip of a run of consecutive encoded values.
proof fn lemma_rt_elems(xs: Seq<Val>, s: Seq<u8>, pos: int)
    requires
        fits_list(xs),
        0 <= pos,
        pos + enc_list(xs).len() <= s.len(),
        s.subrange(pos, pos + enc_list(xs).len()) == enc_list(xs),
    ensures
        dec_elems(s, pos, xs.len()) == Some((xs, pos + enc_list(xs).len())),
    decreases xs, 1nat,
{
    if xs.len() == 0 {
        assert(xs =~= Seq::<Val>::empty());
        assert(dec_elems(s, pos, 0) == Some((Seq::<Val>::empty(), pos)));
    } else {
        let x0 = xs[0];
        let rest = xs.drop_first();
        let e0 = enc(x0);
        let er = enc_list(rest);
        lemma_subrange_split(s, pos, e0, er);
        lemma_rt(x0, s, pos);
        lemma_enc_len_pos(x0);
        let p1 = pos + e0.len();
        lemma_rt_elems(rest, s, p1);
        assert(seq![x0] + rest =~= xs);
    }
}

/// Round trip of a run of consecutive encoded key-value entries.
proof fn lemma_rt_entries(es: Seq<(Seq<u8>, Val)>, s: Seq<u8>, pos: int)
    requires
        fits_entries(es),
        0 <= pos,
        pos + enc_entries(es).len() <= s.len(),
        s.subrange(pos, pos + enc_entries(es).len()) == enc_entries(es),
    ensures
        dec_entries(s, pos, es.len()) == Some((es, pos + enc_entries(es).len())),
    decreases es, 1nat,
{
    if es.len() == 0 {
        assert(es =~= Seq::<(Seq<u8>, Val)>::empty());
        assert(dec_entries(s, pos, 0) == Some((Seq::<(Seq<u8>, Val)>::empty(), pos)));
    } else {
        let k = es[0].0;
        let v = es[0].1;
        let rest = es.drop_first();
        let ek = enc_str(k);
        let ev = enc(v);
        let er = enc_entries(rest);
        assert(enc_entries(es) =~= (ek + ev) + er);
        lemma_subrange_split(s, pos, ek + ev, er);
        lemma_subrange_split(s, pos, ek, ev);
        lemma_header_len(0x80, 0xD0, 0xD1, 0xD2, k.len());
        lemma_rt_key(k, s, pos);
        let pk = pos + ek.len();
        lemma_rt(v, s, pk);
        lemma_enc_len_pos(v);
        let pv = pk + ev.len();
        lemma_rt_entries(rest, s, pv);
        assert(seq![(k, v)] + rest =~= es);
    }
}

/// `enc_list` distributes over `push`.
proof fn lemma_enc_list_push(s: Seq<Val>, x: Val)
    ensures
        enc_list(s.push(x)) == enc_list(s) + enc(x),
        fits_list(s.push(x)) == (fits_list(s) && enc_fits(x)),
    decreases s.len(),
{
    reveal_with_fuel(enc_list, 2);
    reveal_with_fuel(fits_list, 2);
    let t = s.push(x);
    if s.len() == 0 {
        assert(t.drop_first() =~= Seq::<Val>::empty());
        assert(s =~= Seq::<Val>::empty());
        assert(enc_list(t) =~= enc_list(s) + enc(x));
    } else {
        assert(t.drop_first() =~= s.drop_first().push(x));
        lemma_enc_list_push(s.drop_first(), x);
        assert(enc_list(t) =~= enc_list(s) + enc(x));
    }
}

/// `enc_entries` distributes over `push`.
proof fn lemma_enc_entries_push(s: Seq<(Seq<u8>, Val)>, e: (Seq<u8>, Val))
    ensures
        enc_entries(s.push(e)) == enc_entries(s) + (enc_str(e.0) + enc(e.1)),
        fits_entries(s.push(e)) == (fits_entries(s) && e.0.len() < 0x100000000 && enc_fits(e.1)),
    decreases s.len(),
{
    reveal_with_fuel(enc_entries, 2);
    reveal_with_fuel(fits_entries, 2);
    let t = s.push(e);
    if s.len() == 0 {
        assert(t.drop_first() =~= Seq::<(Seq<u8>, Val)>::empty());
        assert(s =~= Seq::<(Seq<u8>, Val)>::empty());
        assert(enc_entries(t) =~= enc_entries(s) + (enc_str(e.0) + enc(e.1)));
    } else {
        assert(t.drop_first() =~= s.drop_first().push(e));
        lemma_enc_entries_push(s.drop_first(), e);
        assert(enc_entries(t) =~= enc_entries(s) + (enc_str(e.0) + enc(e.1)));
    }
}

/// `fits_list` holds exactly where every element fits.
proof fn lemma_fits_list_index(s: Seq<Val>)
    ensures
        fits_list(s) <==> (forall|i: int| 0 <= i < s.len() ==> enc_fits(s[i])),
    decreases s.len(),
{
    if s.len() > 0 {
        lemma_fits_list_index(s.drop_first());
        assert(forall|i: int| 1 <= i < s.len() ==> s[i] == s.drop_first()[i - 1]);
    }
}

/// `fits_entries` holds exactly where every key and value fits.
proof fn lemma_fits_entries_index(s: Seq<(Seq<u8>, Val)>)
    ensures
        fits_entries(s) <==> (forall|i: int|
            0 <= i < s.len() ==> s[i].0.len() < 0x100000000 && enc_fits(s[i].1)),
    decreases s.len(),
{
    if s.len() > 0 {
        lemma_fits_entries_index(s.drop_first());
        assert(forall|i: int| 1 <= i < s.len() ==> s[i] == s.drop_first()[i - 1]);
    }
}

/// Appends a three-tier size header.
fn push_header(out: &mut Vec<u8>, tiny: u8, m8: u8, m16: u8, m32: u8, n: usize)
    requires
        tiny as int + 15 < 256,
        n < 0x100000000,
    ensures
        final(out)@ == old(out)@ + header(tiny, m8, m16, m32, n as nat),
{
    proof {
        lemma_pow256_values();
    }
    if n < 16 {
        out.push(tiny + (n as u8));
        assert(final(out)@ =~= old(out)@ + header(tiny, m8, m16, m32, n as nat));
    } else if n < 0x100 {
        out.push(m8);
        push_be(out, n as u64, 1);
        assert(final(out)@ =~= old(out)@ + header(tiny, m8, m16, m32, n as nat));
    } else if n < 0x10000 {
        out.push(m16);
        push_be(out, n as u64, 2);
        assert(final(out)@ =~= old(out)@ + header(tiny, m8, m16, m32, n as nat));
    } else {
        out.push(m32);
        push_be(out, n as u64, 4);
        assert(final(out)@ =~= old(out)@ + header(tiny, m8, m16, m32, n as nat));
    }
}

/// Appends a structure size header.
fn push_struct_header(out: &mut Vec<u8>, n: usize)
    requires
        n < 0x10000,
    ensures
        final(out)@ == old(out)@ + struct_header(n as nat),
{
    proof {
        lemma_pow256_values();
    }
    if n < 16 {
        out.push(0xB0u8 + (n as u8));
        assert(final(out)@ =~= old(out)@ + struct_header(n as nat));
    } else if n < 0x100 {
        out.push(0xDCu8);
        push_be(out, n as u64, 1);
        assert(final(out)@ =~= old(out)@ + struct_header(n as nat));
    } else {
        out.push(0xDDu8);
        push_be(out, n as u64, 2);
        assert(final(out)@ =~= old(out)@ + struct_header(n as nat));
    }
}

/// Appends all of `data`.
fn push_bytes(out: &mut Vec<u8>, data: &Vec<u8>)
    ensures
        final(out)@ == old(out)@ + data@,
{
    let n = data.len();
    let mut i: usize = 0;
    while i < n
        invariant
            i <= n == data@.len(),
            out@ == old(out)@ + data@.take(i as int),
        decreases n - i,
    {
        out.push(data[i]);
        proof {
            assert(data@.take(i + 1) =~= data@.take(i as int).push(data@[i as int]));
            assert(out@ =~= old(out)@ + data@.take(i + 1));
        }
        i = i + 1;
    }
    proof {
        assert(data@.take(n as int) =~= data@);
    }
}

/// Appends the smallest-marker encoding of an integer.
fn push_int(out: &mut Vec<u8>, i: i64)
    ensures
        final(out)@ == old(out)@ + enc_int(i as int),
{
    proof {
        lemma_pow256_values();
    }
    if -16 <= i && i <= 127 {
        if i >= 0 {
            out.push(i as u8);
        } else {
            out.push((i + 256) as u8);
        }
        assert(final(out)@ =~= old(out)@ + enc_int(i as int));
    } else if -128 <= i && i <= -17 {
        out.push(0xC8u8);
        push_be(out, (i + 256) as u64, 1);
        assert((i + 256) as u64 as nat == twoc(i as int, 1));
        assert(final(out)@ =~= old(out)@ + enc_int(i as int));
    } else if -0x8000 <= i && i <= 0x7FFF {
        out.push(0xC9u8);
        let u: u64 = if i >= 0 {
            i as u64
        } else {
            (i + 0x10000) as u64
        };
        assert(u as nat == twoc(i as int, 2));
        push_be(out, u, 2);
        assert(final(out)@ =~= old(out)@ + enc_int(i as int));
    } else if -0x80000000 <= i && i <= 0x7FFFFFFF {
        out.push(0xCAu8);
        let u: u64 = if i >= 0 {
            i as u64
        } else {
            (i + 0x100000000) as u64
        };
        assert(u as nat == twoc(i as int, 4));
        push_be(out, u, 4);
        assert(final(out)@ =~= old(out)@ + enc_int(i as int));
    } else {
        out.push(0xCBu8);
        let u: u64 = if i >= 0 {
            i as u64
        } else {
            let lo: i64 = i + 0x4000000000000000;
            let lo2: i64 = lo + 0x4000000000000000;
            (lo2 as u64) + 0x8000000000000000u64
        };
        assert(u as nat == twoc(i as int, 8));
        push_be(out, u, 8);
        assert(final(out)@ =~= old(out)@ + enc_int(i as int));
    }
}

/// Encodes `v` after the bytes already in `out`. Fails, leaving `out` in an
/// unspecified partial state, exactly where some size in `v` exceeds what the
/// wire format can carry.
#[verifier::loop_isolation(false)]
#[verifier::rlimit(100)]
#[verifier::spinoff_prover]
pub fn encode_into(v: &MgValue, out: &mut Vec<u8>) -> (r: Result<(), MgError>)
    ensures
        match r {
            Ok(()) => enc_fits(view_val(*v)) && final(out)@ == old(out)@ + enc(view_val(*v)),
            Err(e) => !enc_fits(view_val(*v)) && e is Protocol,
        },
    decreases *v,
{
    match v {
        MgValue::Null => {
            out.push(0xC0u8);
            assert(final(out)@ =~= old(out)@ + enc(view_val(*v)));
            Ok(())
        },
        MgValue::Bool(b) => {
            if *b {
                out.push(0xC3u8);
            } else {
                out.push(0xC2u8);
            }
            assert(final(out)@ =~= old(out)@ + enc(view_val(*v)));
            Ok(())
        },
        MgValue::Int(i) => {
            push_int(out, *i);
            Ok(())
        },
        MgValue::Float(bits) => {
            proof {
                lemma_pow256_values();
            }
            out.push(0xC1u8);
            push_be(out, *bits, 8);
            assert(final(out)@ =~= old(out)@ + enc(view_val(*v)));
            Ok(())
        },
        MgValue::Str(sb) => {
            if sb.len() as u64 >= 0x100000000u64 {
                return Err(MgError::Protocol(0));
            }
            push_header(out, 0x80, 0xD0, 0xD1, 0xD2, sb.len());
            push_bytes(out, sb);
            assert(final(out)@ =~= old(out)@ + enc(view_val(*v)));
            Ok(())
        },
        MgValue::List(xs) => {
            let n = xs.len();
            if n as u64 >= 0x100000000u64 {
                proof {
                    lemma_view_vals(xs@);
                }
                return Err(MgError::Protocol(0));
            }
            push_header(out, 0x90, 0xD4, 0xD5, 0xD6, n);
            let ghost with_hdr = out@;
            let mut idx: usize = 0;
            while idx < n
                invariant
                    idx <= n == xs@.len(),
                    out@ == with_hdr + enc_list(view_vals(xs@.take(idx as int))),
                    fits_list(view_vals(xs@.take(idx as int))),
                decreases n - idx,
            {
                proof {
                    assert(decreases_to!(*v => (*v)->List_0));
                    assert((*v)->List_0 == *xs);
                    assert(decreases_to!(*xs => xs[idx as int]));
                }
                match encode_into(&xs[idx], out) {
                    Ok(()) => (),
                    Err(e) => {
                        proof {
                            lemma_view_vals(xs@);
                            lemma_fits_list_index(view_vals(xs@));
                            assert(view_vals(xs@)[idx as int] == view_val(xs@[idx as int]));
                        }
                        return Err(e);
                    },
                };
                proof {
                    assert(xs@.take(idx + 1) =~= xs@.take(idx as int).push(xs@[idx as int]));
                    lemma_view_vals_push(xs@.take(idx as int), xs@[idx as int]);
                    assert(view_vals(xs@.take(idx as int)).push(view_val(xs@[idx as int]))
                        =~= view_vals(xs@.take(idx as int)) + seq![view_val(xs@[idx as int])]);
                    lemma_enc_list_push(
                        view_vals(xs@.take(idx as int)),
                        view_val(xs@[idx as int]),
                    );
                    assert(out@ =~= with_hdr + enc_list(view_vals(xs@.take(idx + 1))));
                }
                idx = idx + 1;
            }
            proof {
                assert(xs@.take(n as int) =~= xs@);
                lemma_view_vals(xs@);
                assert(final(out)@ =~= old(out)@ + enc(view_val(*v)));
            }
            Ok(())
        },
        MgValue::Dict(es) => {
            let n = es.len();
            if n as u64 >= 0x100000000u64 {
                proof {
                    lemma_view_entries(es@);
                }
                return Err(MgError::Protocol(0));
            }
            push_header(out, 0xA0, 0xD8, 0xD9, 0xDA, n);
            let ghost with_hdr = out@;
            let mut idx: usize = 0;
            while idx < n
                invariant
                    idx <= n == es@.len(),
                    out@ == with_hdr + enc_entries(view_entries(es@.take(idx as int))),
                    fits_entries(view_entries(es@.take(idx as int))),
                decreases n - idx,
            {
                let key = &es[idx].0;
                if key.len() as u64 >= 0x100000000u64 {
                    proof {
                        lemma_view_entries(es@);
                        lemma_fits_entries_index(view_entries(es@));
                        assert(view_entries(es@)[idx as int] == (
                            es@[idx as int].0@,
                            view_val(es@[idx as int].1),
                        ));
                    }
                    return Err(MgError::Protocol(0));
                }
                let ghost before_entry = out@;
                push_header(out, 0x80, 0xD0, 0xD1, 0xD2, key.len());
                push_bytes(out, key);
                assert(out@ == before_entry + enc_str(es@[idx as int].0@)) by {
                    assert(out@ =~= before_entry + enc_str(es@[idx as int].0@));
                };
                proof {
                    assert(decreases_to!(*v => (*v)->Dict_0));
                    assert((*v)->Dict_0 == *es);
                    assert(decreases_to!(*es => es[idx as int]));
                    assert(decreases_to!(es[idx as int] => es[idx as int].1));
                }
                match encode_into(&es[idx].1, out) {
                    Ok(()) => (),
                    Err(e) => {
                        proof {
                            lemma_view_entries(es@);
                            lemma_fits_entries_index(view_entries(es@));
                            assert(view_entries(es@)[idx as int] == (
                                es@[idx as int].0@,
                                view_val(es@[idx as int].1),
                            ));
                        }
                        return Err(e);
                    },
                };
                proof {
                    assert(es@.take(idx + 1) =~= es@.take(idx as int).push(es@[idx as int]));
                    lemma_view_entries_push(es@.take(idx as int), es@[idx as int]);
                    assert(view_entries(es@.take(idx as int)).push(
                        (es@[idx as int].0@, view_val(es@[idx as int].1)),
                    ) =~= view_entries(es@.take(idx as int)) + seq![
                        (es@[idx as int].0@, view_val(es@[idx as int].1)),
                    ]);
                    lemma_enc_entries_push(
                        view_entries(es@.take(idx as int)),
                        (es@[idx as int].0@, view_val(es@[idx as int].1)),
                    );
                    assert(out@ =~= with_hdr + enc_entries(view_entries(es@.take(idx + 1))));
                }
                idx = idx + 1;
            }
            proof {
                assert(es@.take(n as int) =~= es@);
                lemma_view_entries(es@);
                assert(final(out)@ =~= old(out)@ + enc(view_val(*v)));
            }
            Ok(())
        },
        MgValue::Structure(sig, fs) => {
            let n = fs.len();
            if n >= 0x10000 {
                proof {
                    lemma_view_vals(fs@);
                }
                return Err(MgError::Protocol(0));
            }
            push_struct_header(out, n);
            out.push(*sig);
            let ghost with_hdr = out@;
            let mut idx: usize = 0;
            while idx < n
                invariant
                    idx <= n == fs@.len(),
                    out@ == with_hdr + enc_list(view_vals(fs@.take(idx as int))),
                    fits_list(view_vals(fs@.take(idx as int))),
                decreases n - idx,
            {
                proof {
                    assert(decreases_to!(*v => (*v)->Structure_1));
                    assert((*v)->Structure_1 == *fs);
                    assert(decreases_to!(*fs => fs[idx as int]));
                }
                match encode_into(&fs[idx], out) {
                    Ok(()) => (),
                    Err(e) => {
                        proof {
                            lemma_view_vals(fs@);
                            lemma_fits_list_index(view_vals(fs@));
                            assert(view_vals(fs@)[idx as int] == view_val(fs@[idx as int]));
                        }
                        return Err(e);
                    },
                };
                proof {
                    assert(fs@.take(idx + 1) =~= fs@.take(idx as int).push(fs@[idx as int]));
                    lemma_view_vals_push(fs@.take(idx as int), fs@[idx as int]);
                    assert(view_vals(fs@.take(idx as int)).push(view_val(fs@[idx as int]))
                        =~= view_vals(fs@.take(idx as int)) + seq![view_val(fs@[idx as int])]);
                    lemma_enc_list_push(
                        view_vals(fs@.take(idx as int)),
                        view_val(fs@[idx as int]),
                    );
                    assert(out@ =~= with_hdr + enc_list(view_vals(fs@.take(idx + 1))));
                }
                idx = idx + 1;
            }
            proof {
                assert(fs@.take(n as int) =~= fs@);
                lemma_view_vals(fs@);
                assert(final(out)@ =~= old(out)@ + enc(view_val(*v)));
            }
            Ok(())
        },
    }
}

/// Encodes one value to a fresh byte vector; the encoding is deterministic
/// and uses the smallest marker that fits each size. Fails exactly where some
/// size in `v` exceeds what the wire format can carry.
pub fn encode(v: &MgValue) -> (r: Result<Vec<u8>, MgError>)
    ensures
        match r {
            Ok(b) => enc_fits(view_val(*v)) && b@ == enc(view_val(*v)),
            Err(e) => !enc_fits(view_val(*v)) && e is Protocol,
        },
{
    let mut out: Vec<u8> = Vec::new();
    match encode_into(v, &mut out) {
        Ok(()) => {
            assert(out@ =~= enc(view_val(*v)));
            Ok(out)
        },
        Err(e) => Err(e),
    }
}

/// Copies the `n` bytes at `pos` out of `buf`; fails where they run past the
/// end.
fn read_bytes(buf: &[u8], pos: usize, n: usize) -> (r: Result<(Vec<u8>, usize), MgError>)
    requires
        pos <= buf@.len(),
    ensures
        match r {
            Ok((b, p2)) => pos + n <= buf@.len() && b@ == buf@.subrange(pos as int, pos + n)
                && p2 == pos + n,
            Err(e) => pos + n > buf@.len() && e is Protocol,
        },
{
    let blen = buf.len();
    if n > blen - pos {
        return Err(MgError::Protocol(0));
    }
    let mut b: Vec<u8> = Vec::new();
    let mut j: usize = 0;
    while j < n
        invariant
            j <= n,
            blen == buf@.len(),
            pos + n <= blen,
            b@ == buf@.subrange(pos as int, pos + j),
        decreases n - j,
    {
        b.push(buf[pos + j]);
        proof {
            assert(buf@.subrange(pos as int, pos + j + 1) =~= buf@.subrange(
                pos as int,
                pos + j,
            ).push(buf@[pos + j]));
        }
        j = j + 1;
    }
    Ok((b, pos + n))
}

/// Reads a 1-, 2- or 4-byte big-endian size field.
fn read_size(buf: &[u8], pos: usize, w: usize) -> (r: Result<(usize, usize), MgError>)
    requires
        w == 1 || w == 2 || w == 4,
        pos <= buf@.len(),
    ensures
        match r {
            Ok((n, p2)) => dec_size(buf@, pos as int, w as nat) == Some((n as nat, p2 as int))
                && n < 0x100000000 && p2 == pos + w && p2 <= buf@.len(),
            Err(e) => dec_size(buf@, pos as int, w as nat) is None && e is Protocol,
        },
{
    let blen = buf.len();
    if w > blen - pos {
        return Err(MgError::Protocol(0));
    }
    let u = read_be(buf, pos, w);
    proof {
        lemma_from_be_bound(buf@.subrange(pos as int, pos + w));
        lemma_pow256_values();
        lemma_pow256_mono(w as nat, 4);
    }
    Ok((u as usize, pos + w))
}

/// Decodes a dictionary key: a string-classed value.
fn decode_key(buf: &[u8], pos: usize) -> (r: Result<(Vec<u8>, usize), MgError>)
    ensures
        match r {
            Ok((k, p2)) => dec_key(buf@, pos as int) == Some((k@, p2 as int)) && pos < p2
                <= buf@.len(),
            Err(e) => dec_key(buf@, pos as int) is None && e is Protocol,
        },
{
    let blen = buf.len();
    if pos >= blen {
        return Err(MgError::Protocol(0));
    }
    let m = buf[pos];
    let sized: (usize, usize) = if 0x80 <= m && m <= 0x8F {
        ((m - 0x80) as usize, pos + 1)
    } else if m == 0xD0 || m == 0xD1 || m == 0xD2 {
        let w: usize = if m == 0xD0 {
            1
        } else if m == 0xD1 {
            2
        } else {
            4
        };
        match read_size(buf, pos + 1, w) {
            Ok(np) => np,
            Err(e) => {
                return Err(e);
            },
        }
    } else {
        return Err(MgError::Protocol(m));
    };
    let (n, p) = sized;
    match read_bytes(buf, p, n) {
        Ok((k, p2)) => Ok((k, p2)),
        Err(e) => Err(e),
    }
}

/// Decodes `count` consecutive values.
#[verifier::loop_isolation(false)]
#[verifier::rlimit(100)]
#[verifier::spinoff_prover]
fn decode_elems(buf: &[u8], pos: usize, count: usize) -> (r: Result<
    (Vec<MgValue>, usize),
    MgError,
>)
    requires
        pos <= buf@.len(),
    ensures
        match r {
            Ok((vs, p2)) => dec_elems(buf@, pos as int, count as nat) == Some(
                (view_vals(vs@), p2 as int),
            ) && vs@.len() == count && pos <= p2 <= buf@.len(),
            Err(e) => dec_elems(buf@, pos as int, count as nat) is None && e is Protocol,
        },
    decreases buf@.len() - pos, 1nat + count,
{
    let mut vs: Vec<MgValue> = Vec::new();
    let mut cur: usize = pos;
    let mut i: usize = 0;
    while i < count
        invariant
            i <= count,
            pos <= cur <= buf@.len(),
            vs@.len() == i,
            dec_elems(buf@, pos as int, count as nat) == (match dec_elems(
                buf@,
                cur as int,
                (count - i) as nat,
            ) {
                Option::None => None::<(Seq<Val>, int)>,
                Option::Some((ws, q)) => Some((view_vals(vs@) + ws, q)),
            }),
        decreases count - i,
    {
        let step = match decode_at(buf, cur) {
            Ok(vp) => vp,
            Err(e) => {
                return Err(e);
            },
        };
        let (v, p2) = step;
        proof {
            lemma_view_vals_push(vs@, v);
            if dec_elems(buf@, p2 as int, (count - i - 1) as nat) is Some {
                let (ws, q) = dec_elems(buf@, p2 as int, (count - i - 1) as nat)->Some_0;
                assert(view_vals(vs@.push(v)) + ws =~= view_vals(vs@) + (seq![view_val(v)]
                    + ws));
            }
        }
        vs.push(v);
        cur = p2;
        i = i + 1;
    }
    proof {
        assert(view_vals(vs@) + Seq::<Val>::empty() =~= view_vals(vs@));
        lemma_view_vals(vs@);
    }
    Ok((vs, cur))
}

/// Decodes `count` consecutive key-value entries.
#[verifier::loop_isolation(false)]
#[verifier::rlimit(100)]
#[verifier::spinoff_prover]
fn decode_entries(buf: &[u8], pos: usize, count: usize) -> (r: Result<
    (Vec<(Vec<u8>, MgValue)>, usize),
    MgError,
>)
    requires
        pos <= buf@.len(),
    ensures
        match r {
            Ok((es, p2)) => dec_entries(buf@, pos as int, count as nat) == Some(
                (view_entries(es@), p2 as int),
            ) && es@.len() == count && pos <= p2 <= buf@.len(),
            Err(e) => dec_entries(buf@, pos as int, count as nat) is None && e is Protocol,
        },
    decreases buf@.len() - pos, 1nat + count,
{
    let mut es: Vec<(Vec<u8>, MgValue)> = Vec::new();
    let mut cur: usize = pos;
    let mut i: usize = 0;
    while i < count
        invariant
            i <= count,
            pos <= cur <= buf@.len(),
            es@.len() == i,
            dec_entries(buf@, pos as int, count as nat) == (match dec_entries(
                buf@,
                cur as int,
                (count - i) as nat,
            ) {
                Option::None => None::<(Seq<(Seq<u8>, Val)>, int)>,
                Option::Some((fs, q)) => Some((view_entries(es@) + fs, q)),
            }),
        decreases count - i,
    {
        let kp = match decode_key(buf, cur) {
            Ok(kp) => kp,
            Err(e) => {
                return Err(e);
            },
        };
        let (k, pk) = kp;
        let step = match decode_at(buf, pk) {
            Ok(vp) => vp,
            Err(e) => {
                return Err(e);
            },
        };
        let (v, pv) = step;
        proof {
            lemma_view_entries_push(es@, (k, v));
            if dec_entries(buf@, pv as int, (count - i - 1) as nat) is Some {
                let (fs, q) = dec_entries(buf@, pv as int, (count - i - 1) as nat)->Some_0;
                assert(view_entries(es@.push((k, v))) + fs =~= view_entries(es@) + (seq![
                    (k@, view_val(v)),
                ] + fs));
            }
        }
        es.push((k, v));
        cur = pv;
        i = i + 1;
    }
    proof {
        assert(view_entries(es@) + Seq::<(Seq<u8>, Val)>::empty() =~= view_entries(es@));
        lemma_view_entries(es@);
    }
    Ok((es, cur))
}

/// Decodes the one value whose encoding starts at `pos`: exactly where the
/// mathematical decoder succeeds, with the same value and end position; every
/// failure is a `Protocol` error carrying the offending byte.
#[verifier::loop_isolation(false)]
#[verifier::rlimit(100)]
#[verifier::spinoff_prover]
pub fn decode_at(buf: &[u8], pos: usize) -> (r: Result<(MgValue, usize), MgError>)
    ensures
        match r {
            Ok((v, p2)) => dec(buf@, pos as int) == Some((view_val(v), p2 as int)) && pos < p2
                <= buf@.len(),
            Err(e) => dec(buf@, pos as int) is None && e is Protocol && (0 <= pos
                < buf@.len() && !marker_assigned(buf@[pos as int]) ==> e == MgError::Protocol(
                buf@[pos as int],
            )),
        },
    decreases buf@.len() - pos, 0nat,
{
    let blen = buf.len();
    if pos >= blen {
        return Err(MgError::Protocol(0));
    }
    let m = buf[pos];
    if m <= 0x7F {
        Ok((MgValue::Int(m as i64), pos + 1))
    } else if m <= 0x8F {
        match read_bytes(buf, pos + 1, (m - 0x80) as usize) {
            Ok((b, p2)) => Ok((MgValue::Str(b), p2)),
            Err(e) => Err(e),
        }
    } else if m <= 0x9F {
        match decode_elems(buf, pos + 1, (m - 0x90) as usize) {
            Ok((vs, p2)) => Ok((MgValue::List(vs), p2)),
            Err(e) => Err(e),
        }
    } else if m <= 0xAF {
        match decode_entries(buf, pos + 1, (m - 0xA0) as usize) {
            Ok((es, p2)) => Ok((MgValue::Dict(es), p2)),
            Err(e) => Err(e),
        }
    } else if m <= 0xBF {
        decode_struct_fields(buf, pos + 1, (m - 0xB0) as usize)
    } else if m == 0xC0 {
        Ok((MgValue::Null, pos + 1))
    } else if m == 0xC1 {
        if 8 > blen - (pos + 1) {
            return Err(MgError::Protocol(m));
        }
        let u = read_be(buf, pos + 1, 8);
        proof {
            lemma_from_be_bound(buf@.subrange(pos + 1, pos + 9));
            lemma_pow256_values();
        }
        Ok((MgValue::Float(u), pos + 9))
    } else if m == 0xC2 {
        Ok((MgValue::Bool(false), pos + 1))
    } else if m == 0xC3 {
        Ok((MgValue::Bool(true), pos + 1))
    } else if m == 0xC8 || m == 0xC9 || m == 0xCA || m == 0xCB {
        let w: usize = if m == 0xC8 {
            1
        } else if m == 0xC9 {
            2
        } else if m == 0xCA {
            4
        } else {
            8
        };
        if w > blen - (pos + 1) {
            return Err(MgError::Protocol(m));
        }
        let u = read_be(buf, pos + 1, w);
        proof {
            lemma_from_be_bound(buf@.subrange(pos + 1, pos + 1 + w));
            lemma_pow256_values();
        }
        let i: i64 = if w == 1 {
            if u < 0x80 {
                u as i64
            } else {
                (u as i64) - 0x100
            }
        } else if w == 2 {
            if u < 0x8000 {
                u as i64
            } else {
                (u as i64) - 0x10000
            }
        } else if w == 4 {
            if u < 0x80000000 {
                u as i64
            } else {
                (u as i64) - 0x100000000
            }
        } else {
            if u < 0x8000000000000000 {
                u as i64
            } else {
                (((u - 0x8000000000000000) as i64) - 0x4000000000000000) - 0x4000000000000000
            }
        };
        assert(i as int == sgn(from_be(buf@.subrange(pos + 1, pos + 1 + w)), w as nat));
        Ok((MgValue::Int(i), pos + 1 + w))
    } else if m == 0xD0 || m == 0xD1 || m == 0xD2 {
        let w: usize = if m == 0xD0 {
            1
        } else if m == 0xD1 {
            2
        } else {
            4
        };
        let sized = match read_size(buf, pos + 1, w) {
            Ok(np) => np,
            Err(e) => {
                return Err(e);
            },
        };
        match read_bytes(buf, sized.1, sized.0) {
            Ok((b, p2)) => Ok((MgValue::Str(b), p2)),
            Err(e) => Err(e),
        }
    } else if m == 0xD4 || m == 0xD5 || m == 0xD6 {
        let w: usize = if m == 0xD4 {
            1
        } else if m == 0xD5 {
            2
        } else {
            4
        };
        let sized = match read_size(buf, pos + 1, w) {
            Ok(np) => np,
            Err(e) => {
                return Err(e);
            },
        };
        match decode_elems(buf, sized.1, sized.0) {
            Ok((vs, p2)) => Ok((MgValue::List(vs), p2)),
            Err(e) => Err(e),
        }
    } else if m == 0xD8 || m == 0xD9 || m == 0xDA {
        let w: usize = if m == 0xD8 {
            1
        } else if m == 0xD9 {
            2
        } else {
            4
        };
        let sized = match read_size(buf, pos + 1, w) {
            Ok(np) => np,
            Err(e) => {
                return Err(e);
            },
        };
        match decode_entries(buf, sized.1, sized.0) {
            Ok((es, p2)) => Ok((MgValue::Dict(es), p2)),
            Err(e) => Err(e),
        }
    } else if m == 0xDC || m == 0xDD {
        let w: usize = if m == 0xDC {
            1
        } else {
            2
        };
        let sized = match read_size(buf, pos + 1, w) {
            Ok(np) => np,
            Err(e) => {
                return Err(e);
            },
        };
        decode_struct_fields(buf, sized.1, sized.0)
    } else if m >= 0xF0 {
        Ok((MgValue::Int((m as i64) - 0x100), pos + 1))
    } else {
        Err(MgError::Protocol(m))
    }
}

/// Decodes a structure's signature byte and its `n` fields.
fn decode_struct_fields(buf: &[u8], pos: usize, n: usize) -> (r: Result<
    (MgValue, usize),
    MgError,
>)
    requires
        pos <= buf@.len(),
    ensures
        match r {
            Ok((v, p2)) => dec_struct_at(buf@, pos as int, n as nat) == Some(
                (view_val(v), p2 as int),
            ) && pos < p2 <= buf@.len(),
            Err(e) => dec_struct_at(buf@, pos as int, n as nat) is None && e is Protocol,
        },
    decreases buf@.len() - pos, 3nat + 2 * n,
{
    let blen = buf.len();
    if pos >= blen {
        return Err(MgError::Protocol(0));
    }
    let sig = buf[pos];
    match decode_elems(buf, pos + 1, n) {
        Ok((vs, p2)) => Ok((MgValue::Structure(sig, vs), p2)),
        Err(e) => Err(e),
    }
}

/// Decodes the single value at the start of `buf`, returning it with the
/// number of bytes consumed. Succeeds exactly where the mathematical decoder
/// does; every failure is a `Protocol` error, and an unassigned marker byte
/// travels in the error. Dictionary entries come back in wire order and
/// duplicate keys are not rejected (see `crate::value::wf_keys`).
pub fn decode(buf: &[u8]) -> (r: Result<(MgValue, usize), MgError>)
    ensures
        match r {
            Ok((v, c)) => dec(buf@, 0) == Some((view_val(v), c as int)) && 0 < c <= buf@.len(),
            Err(e) => dec(buf@, 0) is None && e is Protocol && (buf@.len() > 0
                && !marker_assigned(buf@[0]) ==> e == MgError::Protocol(buf@[0])),
        },
{
    decode_at(buf, 0)
}

/// A truncated key fails to parse.
proof fn lemma_trunc_key(k: Seq<u8>, s: Seq<u8>, pos: int)
    requires
        k.len() < 0x100000000,
        0 <= pos <= s.len(),
        s.len() < pos + enc_str(k).len(),
        s.subrange(pos, s.len() as int) == enc_str(k).take(s.len() - pos),
    ensures
        dec_key(s, pos) is None,
{
    let e = enc_str(k);
    let n = k.len();
    let hdr = header(0x80, 0xD0, 0xD1, 0xD2, n);
    lemma_header_len(0x80, 0xD0, 0xD1, 0xD2, n);
    lemma_pow256_values();
    lemma_subrange_index(s, pos, e.take(s.len() - pos));
    if pos < s.len() {
        assert(s[pos] == e[0]);
        if n < 16 {
            assert(s[pos] == ((0x80 as nat + n) as u8));
            assert(pos + 1 + n > s.len());
        } else {
            let w: int = if n < 0x100 {
                1
            } else if n < 0x10000 {
                2
            } else {
                4
            };
            lemma_be_bytes_len(n, w as nat);
            assert(hdr =~= seq![hdr[0]] + be_bytes(n, w as nat));
            if s.len() < pos + 1 + w {
                assert(dec_size(s, pos + 1, w as nat) is None);
            } else {
                assert(s.subrange(pos + 1, pos + 1 + w) =~= be_bytes(n, w as nat));
                lemma_rt_size(s, pos + 1, n, w as nat);
                assert(pos + 1 + w + n > s.len());
            }
        }
    }
}

/// A truncated value fails to decode: whatever stands at `pos` agrees with
/// the start of the encoding of `v`, but the buffer ends before the
/// encoding does.
proof fn lemma_trunc(v: Val, s: Seq<u8>, pos: int)
    requires
        enc_fits(v),
        0 <= pos <= s.len(),
        s.len() < pos + enc(v).len(),
        s.subrange(pos, s.len() as int) == enc(v).take(s.len() - pos),
    ensures
        dec(s, pos) is None,
    decreases v, 0nat,
{
    let e = enc(v);
    let avail = s.len() - pos;
    lemma_pow256_values();
    lemma_subrange_index(s, pos, e.take(avail as int));
    if pos < s.len() {
        assert(s[pos] == e[0]);
        match v {
            Val::Null => {},
            Val::Bool(_) => {},
            Val::Int(i) => {
                let ii = i as int;
                if -16 <= ii <= 127 {
                } else {
                    let w: int = if -128 <= ii <= -17 {
                        1
                    } else if -0x8000 <= ii <= 0x7FFF {
                        2
                    } else if -0x80000000 <= ii <= 0x7FFFFFFF {
                        4
                    } else {
                        8
                    };
                    lemma_be_bytes_len(twoc(ii, w as nat), w as nat);
                    assert(s.len() < pos + 1 + w);
                    assert(dec_size(s, pos + 1, w as nat) is None);
                }
            },
            Val::Float(bits) => {
                lemma_be_bytes_len(bits as nat, 8);
                assert(dec_size(s, pos + 1, 8) is None);
            },
            Val::Str(sb) => {
                lemma_trunc_key(sb, s, pos);
            },
            Val::List(xs) => {
                let n = xs.len();
                let hdr = header(0x90, 0xD4, 0xD5, 0xD6, n);
                lemma_header_len(0x90, 0xD4, 0xD5, 0xD6, n);
                assert(e.take(hdr.len() as int) =~= hdr);
                assert(e.skip(hdr.len() as int) =~= enc_list(xs));
                lemma_trunc_after_header(s, pos, hdr, 0x90, 0xD4, 0xD5, 0xD6, n, e);
                if s.len() >= pos + hdr.len() {
                    let p0 = pos + hdr.len();
                    lemma_trunc_elems(xs, s, p0, e, hdr.len() as int);
                }
            },
            Val::Dict(es) => {
                let n = es.len();
                let hdr = header(0xA0, 0xD8, 0xD9, 0xDA, n);
                lemma_header_len(0xA0, 0xD8, 0xD9, 0xDA, n);
                assert(e.take(hdr.len() as int) =~= hdr);
                assert(e.skip(hdr.len() as int) =~= enc_entries(es));
                lemma_trunc_after_header(s, pos, hdr, 0xA0, 0xD8, 0xD9, 0xDA, n, e);
                if s.len() >= pos + hdr.len() {
                    let p0 = pos + hdr.len();
                    lemma_trunc_entries(es, s, p0, e, hdr.len() as int);
                }
            },
            Val::Structure(sig, fs) => {
                let n = fs.len();
                let hdr = struct_header(n);
                lemma_struct_header_len(n);
                if s.len() < pos + hdr.len() {
                    if n >= 16 {
                        let w: nat = if n < 0x100 {
                            1
                        } else {
                            2
                        };
                        lemma_be_bytes_len(n, w);
                        assert(dec_size(s, pos + 1, w) is None);
                    }
                } else {
                    assert(s.subrange(pos, pos + hdr.len()) =~= hdr);
                    lemma_rt_struct_header(s, pos, n);
                    let p0 = pos + hdr.len();
                    if s.len() == p0 {
                        assert(dec_struct_at(s, p0, n) is None);
                    } else {
                        assert(s[p0] == e[hdr.len() as int]);
                        assert(e[hdr.len() as int] == sig) by {
                            assert(e =~= hdr + (seq![sig] + enc_list(fs)));
                        };
                        assert(e.skip(hdr.len() + 1 as int) =~= enc_list(fs)) by {
                            assert(e =~= hdr + (seq![sig] + enc_list(fs)));
                        };
                        lemma_trunc_elems(fs, s, p0 + 1, e, hdr.len() + 1 as int);
                    }
                }
            },
        }
    }
}

/// The header of a sized value either fails to read (truncated size field)
/// or reads back its size; shared by the list and dictionary cases.
proof fn lemma_trunc_after_header(
    s: Seq<u8>,
    pos: int,
    hdr: Seq<u8>,
    tiny: u8,
    m8: u8,
    m16: u8,
    m32: u8,
    n: nat,
    e: Seq<u8>,
)
    requires
        n < 0x100000000,
        hdr == header(tiny, m8, m16, m32, n),
        0 <= pos < s.len(),
        s.len() < pos + e.len(),
        hdr.len() <= e.len(),
        e.take(hdr.len() as int) == hdr,
        s.subrange(pos, s.len() as int) == e.take(s.len() - pos),
    ensures
        s.len() >= pos + hdr.len() ==> (n < 16 ==> s[pos] == ((tiny as nat) + n) as u8) && (16
            <= n < 0x100 ==> s[pos] == m8 && dec_size(s, pos + 1, 1) == Some((n, pos + 2))) && (
        0x100 <= n < 0x10000 ==> s[pos] == m16 && dec_size(s, pos + 1, 2) == Some((n, pos + 3)))
            && (0x10000 <= n ==> s[pos] == m32 && dec_size(s, pos + 1, 4) == Some((n, pos + 5))),
        s.len() < pos + hdr.len() ==> (16 <= n < 0x100 ==> dec_size(s, pos + 1, 1) is None) && (
        0x100 <= n < 0x10000 ==> dec_size(s, pos + 1, 2) is None) && (0x10000 <= n ==> dec_size(
            s,
            pos + 1,
            4,
        ) is None),
{
    lemma_header_len(tiny, m8, m16, m32, n);
    lemma_pow256_values();
    lemma_subrange_index(s, pos, e.take(s.len() - pos));
    if s.len() >= pos + hdr.len() {
        assert(s.subrange(pos, pos + hdr.len()) =~= hdr);
        lemma_rt_header(s, pos, tiny, m8, m16, m32, n);
    }
}

/// A truncated run of encoded values fails to decode.
proof fn lemma_trunc_elems(xs: Seq<Val>, s: Seq<u8>, pos: int, e: Seq<u8>, off: int)
    requires
        fits_list(xs),
        0 <= pos <= s.len(),
        0 <= off,
        pos - off + e.len() > s.len(),
        e.len() == off + enc_list(xs).len(),
        e.skip(off) == enc_list(xs),
        s.subrange(pos - off, s.len() as int) == e.take(s.len() - (pos - off)),
        0 <= pos - off,
    ensures
        dec_elems(s, pos, xs.len()) is None,
    decreases xs, 2nat,
{
    lemma_subrange_index(s, pos - off, e.take(s.len() - (pos - off)));
    assert(s.len() - pos < enc_list(xs).len());
    if xs.len() == 0 {
        assert(false);
    } else {
        let x0 = xs[0];
        let rest = xs.drop_first();
        let e0 = enc(x0);
        let er = enc_list(rest);
        lemma_enc_len_pos(x0);
        assert(enc_list(xs) == e0 + er);
        assert(forall|j: int|
            pos <= j < s.len() ==> #[trigger] s[j] == enc_list(xs)[j - pos]) by {
            assert(forall|j: int|
                pos <= j < s.len() ==> #[trigger] s[j] == e.take(s.len() - (pos - off))[j - (pos
                    - off)]);
        };
        if s.len() < pos + e0.len() {
            assert(s.subrange(pos, s.len() as int) =~= e0.take(s.len() - pos)) by {
                assert(forall|i: int|
                    0 <= i < s.len() - pos ==> #[trigger] s.subrange(pos, s.len() as int)[i]
                        == s[pos + i] && enc_list(xs)[i] == e0[i]);
            };
            lemma_trunc(x0, s, pos);
        } else {
            assert(s.subrange(pos, pos + e0.len()) =~= e0) by {
                assert(forall|i: int|
                    0 <= i < e0.len() ==> #[trigger] s.subrange(pos, pos + e0.len())[i] == s[pos
                        + i] && enc_list(xs)[i] == e0[i]);
            };
            lemma_rt(x0, s, pos);
            let p1 = pos + e0.len();
            assert(e.skip(off + e0.len()) =~= er) by {
                assert(forall|i: int|
                    0 <= i < er.len() ==> #[trigger] e.skip(off + e0.len())[i] == e.skip(off)[
                    e0.len() + i] && enc_list(xs)[e0.len() + i] == er[i]);
            };
            lemma_trunc_elems(rest, s, p1, e, off + e0.len());
        }
    }
}

/// A truncated run of encoded key-value entries fails to decode.
#[verifier::rlimit(100)]
#[verifier::spinoff_prover]
proof fn lemma_trunc_entries(es: Seq<(Seq<u8>, Val)>, s: Seq<u8>, pos: int, e: Seq<u8>, off: int)
    requires
        fits_entries(es),
        0 <= pos <= s.len(),
        0 <= off,
        pos - off + e.len() > s.len(),
        e.len() == off + enc_entries(es).len(),
        e.skip(off) == enc_entries(es),
        s.subrange(pos - off, s.len() as int) == e.take(s.len() - (pos - off)),
        0 <= pos - off,
    ensures
        dec_entries(s, pos, es.len()) is None,
    decreases es, 2nat,
{
    lemma_subrange_index(s, pos - off, e.take(s.len() - (pos - off)));
    assert(s.len() - pos < enc_entries(es).len());
    if es.len() == 0 {
        assert(false);
    } else {
        let k = es[0].0;
        let v = es[0].1;
        let rest = es.drop_first();
        let ek = enc_str(k);
        let ev = enc(v);
        let er = enc_entries(rest);
        lemma_enc_len_pos(v);
        lemma_header_len(0x80, 0xD0, 0xD1, 0xD2, k.len());
        assert(enc_entries(es) == ek + ev + er);
        assert(ek + ev + er =~= ek + (ev + er));
        assert(forall|j: int|
            pos <= j < s.len() ==> #[trigger] s[j] == enc_entries(es)[j - pos]) by {
            assert(forall|j: int|
                pos <= j < s.len() ==> #[trigger] s[j] == e.take(s.len() - (pos - off))[j - (pos
                    - off)]);
        };
        if s.len() < pos + ek.len() {
            assert(s.subrange(pos, s.len() as int) =~= ek.take(s.len() - pos)) by {
                assert(forall|i: int|
                    0 <= i < s.len() - pos ==> #[trigger] s.subrange(pos, s.len() as int)[i]
                        == s[pos + i] && enc_entries(es)[i] == ek[i]);
            };
            lemma_trunc_key(k, s, pos);
        } else {
            assert(s.subrange(pos, pos + ek.len()) =~= ek) by {
                assert(forall|i: int|
                    0 <= i < ek.len() ==> #[trigger] s.subrange(pos, pos + ek.len())[i] == s[pos
                        + i] && enc_entries(es)[i] == ek[i]);
            };
            lemma_rt_key(k, s, pos);
            let pk = pos + ek.len();
            if s.len() < pk + ev.len() {
                assert(s.subrange(pk, s.len() as int) =~= ev.take(s.len() - pk)) by {
                    assert(forall|i: int|
                        0 <= i < s.len() - pk ==> #[trigger] s.subrange(pk, s.len() as int)[i]
                            == s[pk + i] && enc_entries(es)[ek.len() + i] == ev[i]);
                };
                lemma_trunc(v, s, pk);
            } else {
                assert(s.subrange(pk, pk + ev.len()) =~= ev) by {
                    assert(forall|i: int|
                        0 <= i < ev.len() ==> #[trigger] s.subrange(pk, pk + ev.len())[i] == s[pk
                            + i] && enc_entries(es)[ek.len() + i] == ev[i]);
                };
                lemma_rt(v, s, pk);
                let pv = pk + ev.len();
                assert(e.skip(off + ek.len() + ev.len()) =~= er) by {
                    assert(forall|i: int|
                        0 <= i < er.len() ==> #[trigger] e.skip(off + ek.len() + ev.len())[i]
                            == e.skip(off)[ek.len() + ev.len() + i] && enc_entries(es)[ek.len()
                            + ev.len() + i] == er[i]);
                };
                lemma_trunc_entries(rest, s, pv, e, off + ek.len() + ev.len());
            }
        }
    }
}

/// Truncation law: a buffer that ends anywhere strictly inside the encoding
/// of a value fails to decode; by the decoder's contract that failure is a
/// `Protocol` error, and no bytes past the end are ever read.
pub proof fn lemma_truncated_prefix(v: Val, i: int)
    requires
        enc_fits(v),
        0 <= i < enc(v).len(),
    ensures
        dec(enc(v).take(i), 0) is None,
{
    let s = enc(v).take(i);
    assert(s.subrange(0, s.len() as int) =~= enc(v).take(s.len() - 0));
    lemma_trunc(v, s, 0);
}

/// Round-trip law: decoding an encoded value, whatever bytes follow it,
/// yields exactly that value and consumes exactly its encoding.
pub proof fn lemma_round_trip(v: Val, rest: Seq<u8>)
    requires
        enc_fits(v),
    ensures
        dec(enc(v) + rest, 0) == Some((v, enc(v).len() as int)),
{
    let s = enc(v) + rest;
    assert(s.subrange(0, enc(v).len() as int) =~= enc(v));
    lemma_rt(v, s, 0);
}

} // verus!
