//! The structure signature table: which signature bytes a server may send at
//! the negotiated protocol version, and the decode-time check that every
//! structure in a received value carries a known signature. An unknown
//! signature is an explicit `Protocol` error carrying that byte, never a
//! silent pass-through.

use vstd::prelude::*;
use crate::error::MgError;
use crate::packstream::{dec, decode};
use crate::value::{MgValue, Val, view_val, view_vals, view_entries, lemma_view_vals,
    lemma_view_entries};

verus! {

/// The signature-to-meaning table, parameterized by the negotiated version.
/// Always known: the response envelopes SUCCESS (0x70), RECORD (0x71),
/// IGNORED (0x7E) and FAILURE (0x7F), and the graph entities Node (0x4E),
/// Relationship (0x52), UnboundRelationship (0x72) and Path (0x50). From
/// protocol version 2 on, the temporal and spatial entities: Date (0x44),
/// Duration (0x45), DateTime (0x46), Time (0x54), Point2D (0x58), Point3D
/// (0x59), LocalDateTime (0x64), DateTimeZoneId (0x66), LocalTime (0x74).
pub open spec fn known_signature_spec(version: u32, sig: u8) -> bool {
    sig == 0x70 || sig == 0x71 || sig == 0x7E || sig == 0x7F || sig == 0x4E || sig == 0x52 || sig
        == 0x72 || sig == 0x50 || (version >= 2 && (sig == 0x44 || sig == 0x45 || sig == 0x46
        || sig == 0x54 || sig == 0x58 || sig == 0x59 || sig == 0x64 || sig == 0x66 || sig
        == 0x74))
}

/// Whether every structure in `v`, at any depth, carries a known signature.
pub open spec fn sigs_known(version: u32, v: Val) -> bool
    decreases v, 0nat,
{
    match v {
        Val::List(xs) => sigs_known_list(version, xs),
        Val::Dict(es) => sigs_known_entries(version, es),
        Val::Structure(sig, fs) => known_signature_spec(version, sig) && sigs_known_list(
            version,
            fs,
        ),
        _ => true,
    }
}

pub open spec fn sigs_known_list(version: u32, xs: Seq<Val>) -> bool
    decreases xs, 1nat,
{
    if xs.len() == 0 {
        true
    } else {
        sigs_known(version, xs[0]) && sigs_known_list(version, xs.drop_first())
    }
}

pub open spec fn sigs_known_entries(version: u32, es: Seq<(Seq<u8>, Val)>) -> bool
    decreases es, 1nat,
{
    if es.len() == 0 {
        true
    } else {
        sigs_known(version, es[0].1) && sigs_known_entries(version, es.drop_first())
    }
}

/// `sigs_known_list` holds exactly where it holds of every element.
proof fn lemma_sigs_list_index(version: u32, xs: Seq<Val>)
    ensures
        sigs_known_list(version, xs) <==> (forall|i: int|
            0 <= i < xs.len() ==> sigs_known(version, xs[i])),
    decreases xs.len(),
{
    if xs.len() > 0 {
        lemma_sigs_list_index(version, xs.drop_first());
        assert(forall|i: int| 1 <= i < xs.len() ==> xs[i] == xs.drop_first()[i - 1]);
    }
}

/// `sigs_known_entries` holds exactly where it holds of every value.
proof fn lemma_sigs_entries_index(version: u32, es: Seq<(Seq<u8>, Val)>)
    ensures
        sigs_known_entries(version, es) <==> (forall|i: int|
            0 <= i < es.len() ==> sigs_known(version, es[i].1)),
    decreases es.len(),
{
    if es.len() > 0 {
        lemma_sigs_entries_index(version, es.drop_first());
        assert(forall|i: int| 1 <= i < es.len() ==> es[i] == es.drop_first()[i - 1]);
    }
}

/// Looks a signature byte up in the table for the given version.
pub fn known_signature(version: u32, sig: u8) -> (r: bool)
    ensures
        r == known_signature_spec(version, sig),
{
    sig == 0x70 || sig == 0x71 || sig == 0x7E || sig == 0x7F || sig == 0x4E || sig == 0x52 || sig
        == 0x72 || sig == 0x50 || (version >= 2 && (sig == 0x44 || sig == 0x45 || sig == 0x46
        || sig == 0x54 || sig == 0x58 || sig == 0x59 || sig == 0x64 || sig == 0x66 || sig
        == 0x74))
}

/// Validates every structure signature in `v` against the table for the
/// given version: succeeds exactly where all are known, and fails with a
/// `Protocol` error carrying an unknown signature byte.
#[verifier::loop_isolation(false)]
#[verifier::rlimit(100)]
#[verifier::spinoff_prover]
pub fn check_signatures(version: u32, v: &MgValue) -> (r: Result<(), MgError>)
    ensures
        r is Ok <==> sigs_known(version, view_val(*v)),
        r matches Err(e) ==> (e matches MgError::Protocol(b) && !known_signature_spec(version, b)),
    decreases *v,
{
    match v {
        MgValue::Null => Ok(()),
        MgValue::Bool(_) => Ok(()),
        MgValue::Int(_) => Ok(()),
        MgValue::Float(_) => Ok(()),
        MgValue::Str(_) => Ok(()),
        MgValue::List(xs) => {
            let n = xs.len();
            let mut idx: usize = 0;
            while idx < n
                invariant
                    idx <= n == xs@.len(),
                    sigs_known_list(version, view_vals(xs@.take(idx as int))),
                decreases n - idx,
            {
                proof {
                    assert(decreases_to!(*v => (*v)->List_0));
                    assert((*v)->List_0 == *xs);
                    assert(decreases_to!(*xs => xs[idx as int]));
                }
                match check_signatures(version, &xs[idx]) {
                    Ok(()) => (),
                    Err(e) => {
                        proof {
                            lemma_view_vals(xs@);
                            lemma_sigs_list_index(version, view_vals(xs@));
                            assert(view_vals(xs@)[idx as int] == view_val(xs@[idx as int]));
                        }
                        return Err(e);
                    },
                }
                proof {
                    let t0 = xs@.take(idx as int);
                    let t1 = xs@.take(idx + 1);
                    lemma_sigs_list_index(version, view_vals(t0));
                    lemma_sigs_list_index(version, view_vals(t1));
                    lemma_view_vals(t0);
                    lemma_view_vals(t1);
                    assert forall|i: int| 0 <= i < t1.len() implies sigs_known(
                        version,
                        #[trigger] view_vals(t1)[i],
                    ) by {
                        assert(view_vals(t1)[i] == view_val(xs@[i]));
                        if i < idx {
                            assert(view_vals(t0)[i] == view_val(xs@[i]));
                        }
                    }
                }
                idx = idx + 1;
            }
            proof {
                assert(xs@.take(n as int) =~= xs@);
            }
            Ok(())
        },
        MgValue::Dict(es) => {
            let n = es.len();
            let mut idx: usize = 0;
            while idx < n
                invariant
                    idx <= n == es@.len(),
                    sigs_known_entries(version, view_entries(es@.take(idx as int))),
                decreases n - idx,
            {
                proof {
                    assert(decreases_to!(*v => (*v)->Dict_0));
                    assert((*v)->Dict_0 == *es);
                    assert(decreases_to!(*es => es[idx as int]));
                    assert(decreases_to!(es[idx as int] => es[idx as int].1));
                }
                match check_signatures(version, &es[idx].1) {
                    Ok(()) => (),
                    Err(e) => {
                        proof {
                            lemma_view_entries(es@);
                            lemma_sigs_entries_index(version, view_entries(es@));
                            assert(view_entries(es@)[idx as int] == (
                                es@[idx as int].0@,
                                view_val(es@[idx as int].1),
                            ));
                        }
                        return Err(e);
                    },
                }
                proof {
                    let t0 = es@.take(idx as int);
                    let t1 = es@.take(idx + 1);
                    lemma_sigs_entries_index(version, view_entries(t0));
                    lemma_sigs_entries_index(version, view_entries(t1));
                    lemma_view_entries(t0);
                    lemma_view_entries(t1);
                    assert forall|i: int| 0 <= i < t1.len() implies sigs_known(
                        version,
                        (#[trigger] view_entries(t1)[i]).1,
                    ) by {
                        assert(view_entries(t1)[i] == (es@[i].0@, view_val(es@[i].1)));
                        if i < idx {
                            assert(view_entries(t0)[i] == (es@[i].0@, view_val(es@[i].1)));
                        }
                    }
                }
                idx = idx + 1;
            }
            proof {
                assert(es@.take(n as int) =~= es@);
            }
            Ok(())
        },
        MgValue::Structure(sig, fs) => {
            if !known_signature(version, *sig) {
                return Err(MgError::Protocol(*sig));
            }
            let n = fs.len();
            let mut idx: usize = 0;
            while idx < n
                invariant
                    idx <= n == fs@.len(),
                    sigs_known_list(version, view_vals(fs@.take(idx as int))),
                decreases n - idx,
            {
                proof {
                    assert(decreases_to!(*v => (*v)->Structure_1));
                    assert((*v)->Structure_1 == *fs);
                    assert(decreases_to!(*fs => fs[idx as int]));
                }
                match check_signatures(version, &fs[idx]) {
                    Ok(()) => (),
                    Err(e) => {
                        proof {
                            lemma_view_vals(fs@);
                            lemma_sigs_list_index(version, view_vals(fs@));
                            assert(view_vals(fs@)[idx as int] == view_val(fs@[idx as int]));
                        }
                        return Err(e);
                    },
                }
                proof {
                    let t0 = fs@.take(idx as int);
                    let t1 = fs@.take(idx + 1);
                    lemma_sigs_list_index(version, view_vals(t0));
                    lemma_sigs_list_index(version, view_vals(t1));
                    lemma_view_vals(t0);
                    lemma_view_vals(t1);
                    assert forall|i: int| 0 <= i < t1.len() implies sigs_known(
                        version,
                        #[trigger] view_vals(t1)[i],
                    ) by {
                        assert(view_vals(t1)[i] == view_val(fs@[i]));
                        if i < idx {
                            assert(view_vals(t0)[i] == view_val(fs@[i]));
                        }
                    }
                }
                idx = idx + 1;
            }
            proof {
                assert(fs@.take(n as int) =~= fs@);
            }
            Ok(())
        },
    }
}

/// Decodes the single value at the start of `buf` and validates every
/// structure signature in it against the table for the given version:
/// succeeds exactly where the bytes decode and all signatures are known.
/// Every failure is a `Protocol` error; an unknown signature is explicit,
/// carrying that signature byte.
pub fn decode_validated(version: u32, buf: &[u8]) -> (r: Result<(MgValue, usize), MgError>)
    ensures
        match r {
            Ok((v, c)) => dec(buf@, 0) == Some((view_val(v), c as int)) && 0 < c <= buf@.len()
                && sigs_known(version, view_val(v)),
            Err(e) => e is Protocol && (match dec(buf@, 0) {
                Option::None => true,
                Option::Some((w, _)) => !sigs_known(version, w),
            }),
        },
{
    let (v, c) = match decode(buf) {
        Ok(vc) => vc,
        Err(e) => {
            return Err(e);
        },
    };
    match check_signatures(version, &v) {
        Ok(()) => Ok((v, c)),
        Err(e) => Err(e),
    }
}

} // verus!
