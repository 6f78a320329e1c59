//! The tagged-union representation of all protocol values, and its
//! mathematical model.

use vstd::prelude::*;

verus! {

/// A protocol value. The set of variants is closed: a decoded value always
/// matches exactly one of them.
///
/// Floats travel as their raw IEEE-754 bit pattern (the codec moves the 8
/// bytes verbatim and never does float arithmetic). Strings are UTF-8 byte
/// sequences. Dictionaries are association lists with string (UTF-8 byte)
/// keys; their invariant — pairwise distinct keys, order without meaning —
/// is the spec predicate [`wf_keys`], which the codec preserves but does not
/// enforce (see its doc comment). The derived equality compares entry lists
/// as written, order included.
#[derive(Debug, PartialEq)]
pub enum MgValue {
    Null,
    Bool(bool),
    Int(i64),
    Float(u64),
    Str(Vec<u8>),
    List(Vec<MgValue>),
    Dict(Vec<(Vec<u8>, MgValue)>),
    Structure(u8, Vec<MgValue>),
}

/// The mathematical model of an `MgValue`.
pub enum Val {
    Null,
    Bool(bool),
    Int(i64),
    Float(u64),
    Str(Seq<u8>),
    List(Seq<Val>),
    Dict(Seq<(Seq<u8>, Val)>),
    Structure(u8, Seq<Val>),
}

/// Model of one `MgValue`.
pub open spec fn view_val(v: MgValue) -> Val
    decreases v,
{
    match v {
        MgValue::Null => Val::Null,
        MgValue::Bool(b) => Val::Bool(b),
        MgValue::Int(i) => Val::Int(i),
        MgValue::Float(bits) => Val::Float(bits),
        MgValue::Str(s) => Val::Str(s@),
        MgValue::List(xs) => Val::List(view_vals(xs@)),
        MgValue::Dict(es) => Val::Dict(view_entries(es@)),
        MgValue::Structure(sig, fs) => Val::Structure(sig, view_vals(fs@)),
    }
}

/// Pointwise model of a sequence of values.
pub open spec fn view_vals(s: Seq<MgValue>) -> Seq<Val>
    decreases s,
{
    if s.len() == 0 {
        seq![]
    } else {
        seq![view_val(s[0])] + view_vals(s.drop_first())
    }
}

/// Pointwise model of a sequence of key-value entries.
pub open spec fn view_entries(s: Seq<(Vec<u8>, MgValue)>) -> Seq<(Seq<u8>, Val)>
    decreases s,
{
    if s.len() == 0 {
        seq![]
    } else {
        seq![(s[0].0@, view_val(s[0].1))] + view_entries(s.drop_first())
    }
}

/// Unfolds the pointwise model: its length, each element, and how it grows
/// under `push`.
/// The dictionary invariant: pairwise distinct keys. Entry order carries no
/// meaning beyond the wire layout.
pub open spec fn keys_unique(es: Seq<(Seq<u8>, Val)>) -> bool {
    forall|i: int, j: int| 0 <= i < j < es.len() ==> es[i].0 != es[j].0
}

/// Well-formedness of a value: every dictionary in it, at any depth, has
/// pairwise distinct keys. The codec preserves entries exactly as given —
/// encoding writes them in order, decoding returns them in wire order, and
/// neither deduplicates — so both preserve this invariant, but neither
/// enforces it: a decoded dictionary with repeated keys is returned as-is.
pub open spec fn wf_keys(v: Val) -> bool
    decreases v, 0nat,
{
    match v {
        Val::List(xs) => wf_keys_list(xs),
        Val::Dict(es) => keys_unique(es) && wf_keys_entries(es),
        Val::Structure(_, fs) => wf_keys_list(fs),
        _ => true,
    }
}

pub open spec fn wf_keys_list(xs: Seq<Val>) -> bool
    decreases xs, 1nat,
{
    if xs.len() == 0 {
        true
    } else {
        wf_keys(xs[0]) && wf_keys_list(xs.drop_first())
    }
}

pub open spec fn wf_keys_entries(es: Seq<(Seq<u8>, Val)>) -> bool
    decreases es, 1nat,
{
    if es.len() == 0 {
        true
    } else {
        wf_keys(es[0].1) && wf_keys_entries(es.drop_first())
    }
}

pub proof fn lemma_view_vals(s: Seq<MgValue>)
    ensures
        view_vals(s).len() == s.len(),
        forall|i: int| 0 <= i < s.len() ==> view_vals(s)[i] == view_val(s[i]),
    decreases s.len(),
{
    if s.len() > 0 {
        lemma_view_vals(s.drop_first());
    }
}

pub proof fn lemma_view_vals_push(s: Seq<MgValue>, v: MgValue)
    ensures
        view_vals(s.push(v)) == view_vals(s) + seq![view_val(v)],
    decreases s.len(),
{
    let t = s.push(v);
    if s.len() == 0 {
        assert(view_vals(t) == seq![view_val(v)] + view_vals(t.drop_first()));
        assert(t.drop_first() =~= Seq::<MgValue>::empty());
        assert(view_vals(t) =~= view_vals(s) + seq![view_val(v)]);
    } else {
        assert(t.drop_first() =~= s.drop_first().push(v));
        lemma_view_vals_push(s.drop_first(), v);
        assert(view_vals(t) =~= view_vals(s) + seq![view_val(v)]);
    }
}

pub proof fn lemma_view_entries(s: Seq<(Vec<u8>, MgValue)>)
    ensures
        view_entries(s).len() == s.len(),
        forall|i: int| 0 <= i < s.len()
            ==> view_entries(s)[i] == (s[i].0@, view_val(s[i].1)),
    decreases s.len(),
{
    if s.len() > 0 {
        lemma_view_entries(s.drop_first());
    }
}

pub proof fn lemma_view_entries_push(s: Seq<(Vec<u8>, MgValue)>, e: (Vec<u8>, MgValue))
    ensures
        view_entries(s.push(e)) == view_entries(s) + seq![(e.0@, view_val(e.1))],
    decreases s.len(),
{
    let t = s.push(e);
    if s.len() == 0 {
        reveal_with_fuel(view_entries, 2);
        assert(t.drop_first() =~= Seq::<(Vec<u8>, MgValue)>::empty());
        assert(view_entries(t) =~~= view_entries(s) + seq![(e.0@, view_val(e.1))]);
    } else {
        assert(t.drop_first() =~= s.drop_first().push(e));
        lemma_view_entries_push(s.drop_first(), e);
        lemma_view_entries(s);
        lemma_view_entries(t);
        let rhs = view_entries(s) + seq![(e.0@, view_val(e.1))];
        assert(view_entries(t).len() == rhs.len());
        assert forall|i: int| 0 <= i < rhs.len() implies view_entries(t)[i] == rhs[i] by {
            if i < s.len() {
                assert(t[i] == s[i]);
                assert(view_entries(t)[i] == (t[i].0@, view_val(t[i].1)));
                assert(rhs[i] == view_entries(s)[i]);
            } else {
                assert(t[i] == e);
                assert(view_entries(t)[i] == (t[i].0@, view_val(t[i].1)));
                assert(rhs[i] == (e.0@, view_val(e.1)));
            }
        }
        assert(view_entries(t) =~= rhs);
    }
}

} // verus!
