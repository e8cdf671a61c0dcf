//! The host value adapter: conversion between the codec's value model and
//! a host language's dynamic values (null, bool, integer, float, text,
//! bytes, sequence, mapping), as a pair of recursive structural transforms.
//!
//! `from_host` is the dispatch side: every host shape has exactly one value
//! shape, and the only value a host can present that the wire format cannot
//! carry is an integer outside the CBOR integer range. `to_host` is total.
use vstd::prelude::*;

use crate::decode::copy_range;
use crate::decode::insert_entry;
use crate::lemmas::lemma_insert_all_props;
use crate::lemmas::lemma_insert_all_sorted_id;
use crate::lemmas::lemma_insert_all_push;
use crate::lemmas::lemma_view_elems;
use crate::lemmas::lemma_view_pairs;
use crate::lemmas::lemma_wf_pairs_index;
use crate::model::Node;
use crate::model::Value;
use crate::model::insert_all;
use crate::model::u64_bound;
use crate::model::wf;
use crate::model::wf_pairs;

verus! {

broadcast use vstd::std_specs::vec::group_vec_axioms, vstd::seq::group_seq_axioms;

/// A host dynamic value, as the embedding layer hands it over: plain data
/// with no host-runtime handles. A float is carried as its IEEE 754 bit
/// pattern.
#[derive(Debug, PartialEq, Eq)]
pub enum HostValue {
    Null,
    Bool(bool),
    Int(i128),
    Float(u64),
    Str(String),
    Bytes(Vec<u8>),
    List(Vec<HostValue>),
    Dict(Vec<(HostValue, HostValue)>),
}

/// The mathematical shape of a host value.
pub enum HNode {
    Null,
    Bool(bool),
    Int(int),
    Float(u64),
    Str(Seq<char>),
    Bytes(Seq<u8>),
    List(Seq<HNode>),
    Dict(Seq<(HNode, HNode)>),
}

impl HostValue {
    /// The mathematical value this host tree denotes.
    pub open spec fn view(self) -> HNode
        decreases self,
    {
        match self {
            HostValue::Null => HNode::Null,
            HostValue::Bool(b) => HNode::Bool(b),
            HostValue::Int(i) => HNode::Int(i as int),
            HostValue::Float(bits) => HNode::Float(bits),
            HostValue::Str(s) => HNode::Str(s@),
            HostValue::Bytes(b) => HNode::Bytes(b@),
            HostValue::List(l) => {
                proof {
                    assert(decreases_to!(self => l));
                }
                HNode::List(Self::view_elems(l@))
            },
            HostValue::Dict(d) => {
                proof {
                    assert(decreases_to!(self => d));
                }
                HNode::Dict(Self::view_pairs(d@))
            },
        }
    }

    /// The denotations of a sequence of host values.
    pub open spec fn view_elems(s: Seq<HostValue>) -> Seq<HNode>
        decreases s,
    {
        if s.len() == 0 {
            Seq::empty()
        } else {
            seq![s[0].view()] + Self::view_elems(s.subrange(1, s.len() as int))
        }
    }

    /// The denotations of a sequence of host pairs.
    pub open spec fn view_pairs(s: Seq<(HostValue, HostValue)>) -> Seq<(HNode, HNode)>
        decreases s,
    {
        if s.len() == 0 {
            Seq::empty()
        } else {
            seq![(s[0].0.view(), s[0].1.view())] + Self::view_pairs(s.subrange(1, s.len() as int))
        }
    }
}

/// Why a host value could not be converted: it holds an integer outside
/// the CBOR integer range, and the error names that integer.
#[derive(Debug, Clone, Copy, PartialEq, Eq)]
pub enum AdapterError {
    IntegerOutOfRange(i128),
}

/// The node a host value converts to: same shape throughout, a dict
/// passing through ordered insertion.
pub open spec fn h2n(h: HNode) -> Node
    decreases h,
{
    match h {
        HNode::Null => Node::Null,
        HNode::Bool(b) => Node::Bool(b),
        HNode::Int(i) => Node::Int(i),
        HNode::Float(bits) => Node::Float(bits),
        HNode::Str(s) => Node::Text(s),
        HNode::Bytes(b) => Node::Bytes(b),
        HNode::List(l) => Node::Array(h2n_list(l)),
        HNode::Dict(d) => Node::Mapping(insert_all(h2n_pairs(d))),
    }
}

/// Element-wise conversion of a sequence of host nodes.
pub open spec fn h2n_list(s: Seq<HNode>) -> Seq<Node>
    decreases s,
{
    if s.len() == 0 {
        Seq::empty()
    } else {
        seq![h2n(s[0])] + h2n_list(s.subrange(1, s.len() as int))
    }
}

/// Pair-wise conversion of a sequence of host pairs, in their given order.
pub open spec fn h2n_pairs(s: Seq<(HNode, HNode)>) -> Seq<(Node, Node)>
    decreases s,
{
    if s.len() == 0 {
        Seq::empty()
    } else {
        seq![(h2n(s[0].0), h2n(s[0].1))] + h2n_pairs(s.subrange(1, s.len() as int))
    }
}

/// A host value every integer of which lies in the CBOR integer range:
/// exactly the host values `from_host` accepts.
pub open spec fn ok_host(h: HNode) -> bool
    decreases h,
{
    match h {
        HNode::Int(i) => -u64_bound() <= i < u64_bound(),
        HNode::List(l) => ok_list(l),
        HNode::Dict(d) => ok_pairs(d),
        _ => true,
    }
}

/// Every host node of the sequence is acceptable.
pub open spec fn ok_list(s: Seq<HNode>) -> bool
    decreases s,
{
    s.len() == 0 || (ok_host(s[0]) && ok_list(s.subrange(1, s.len() as int)))
}

/// Every key and value of the sequence is acceptable.
pub open spec fn ok_pairs(s: Seq<(HNode, HNode)>) -> bool
    decreases s,
{
    s.len() == 0 || (ok_host(s[0].0) && ok_host(s[0].1) && ok_pairs(s.subrange(1, s.len() as int)))
}

/// Element-by-element reading of `HostValue::view_elems`.
pub proof fn lemma_hview_elems(s: Seq<HostValue>)
    ensures
        HostValue::view_elems(s).len() == s.len(),
        forall|i: int| 0 <= i < s.len() ==> HostValue::view_elems(s)[i] == s[i].view(),
    decreases s.len(),
{
    if s.len() > 0 {
        lemma_hview_elems(s.subrange(1, s.len() as int));
    }
}

/// Pair-by-pair reading of `HostValue::view_pairs`.
pub proof fn lemma_hview_pairs(s: Seq<(HostValue, HostValue)>)
    ensures
        HostValue::view_pairs(s).len() == s.len(),
        forall|i: int|
            0 <= i < s.len() ==> HostValue::view_pairs(s)[i] == (s[i].0.view(), s[i].1.view()),
    decreases s.len(),
{
    if s.len() > 0 {
        lemma_hview_pairs(s.subrange(1, s.len() as int));
    }
}

/// Element-by-element reading of `h2n_list`.
pub proof fn lemma_h2n_list_index(s: Seq<HNode>)
    ensures
        h2n_list(s).len() == s.len(),
        forall|i: int| 0 <= i < s.len() ==> h2n_list(s)[i] == h2n(s[i]),
    decreases s.len(),
{
    if s.len() > 0 {
        lemma_h2n_list_index(s.subrange(1, s.len() as int));
    }
}

/// Pair-by-pair reading of `h2n_pairs`.
pub proof fn lemma_h2n_pairs_index(s: Seq<(HNode, HNode)>)
    ensures
        h2n_pairs(s).len() == s.len(),
        forall|i: int| 0 <= i < s.len() ==> h2n_pairs(s)[i] == (h2n(s[i].0), h2n(s[i].1)),
    decreases s.len(),
{
    if s.len() > 0 {
        lemma_h2n_pairs_index(s.subrange(1, s.len() as int));
    }
}

/// `ok_list` says exactly that each element is acceptable.
pub proof fn lemma_ok_list_index(s: Seq<HNode>)
    ensures
        ok_list(s) <==> (forall|i: int| 0 <= i < s.len() ==> ok_host(s[i])),
    decreases s.len(),
{
    if s.len() > 0 {
        lemma_ok_list_index(s.subrange(1, s.len() as int));
        if ok_host(s[0]) && ok_list(s.subrange(1, s.len() as int)) {
            assert forall|i: int| 0 <= i < s.len() implies ok_host(s[i]) by {
                if i > 0 {
                    assert(s.subrange(1, s.len() as int)[i - 1] == s[i]);
                }
            }
        }
        if forall|i: int| 0 <= i < s.len() ==> ok_host(s[i]) {
            assert forall|i: int| 0 <= i < s.subrange(1, s.len() as int).len() implies ok_host(
                s.subrange(1, s.len() as int)[i],
            ) by {
                assert(s.subrange(1, s.len() as int)[i] == s[i + 1]);
            }
        }
    }
}

/// `ok_pairs` says exactly that each key and each value is acceptable.
pub proof fn lemma_ok_pairs_index(s: Seq<(HNode, HNode)>)
    ensures
        ok_pairs(s) <==> (forall|i: int| 0 <= i < s.len() ==> ok_host(s[i].0) && ok_host(s[i].1)),
    decreases s.len(),
{
    if s.len() > 0 {
        lemma_ok_pairs_index(s.subrange(1, s.len() as int));
        if ok_host(s[0].0) && ok_host(s[0].1) && ok_pairs(s.subrange(1, s.len() as int)) {
            assert forall|i: int| 0 <= i < s.len() implies ok_host(s[i].0) && ok_host(s[i].1) by {
                if i > 0 {
                    assert(s.subrange(1, s.len() as int)[i - 1] == s[i]);
                }
            }
        }
        if forall|i: int| 0 <= i < s.len() ==> ok_host(s[i].0) && ok_host(s[i].1) {
            assert forall|i: int|
                0 <= i < s.subrange(1, s.len() as int).len() implies ok_host(
                s.subrange(1, s.len() as int)[i].0,
            ) && ok_host(s.subrange(1, s.len() as int)[i].1) by {
                assert(s.subrange(1, s.len() as int)[i] == s[i + 1]);
            }
        }
    }
}

/// Converts a host value into a codec value.
///
/// Succeeds if and only if every integer in the host tree lies in the CBOR
/// integer range; the result is then well-formed and denotes the converted
/// tree, its dicts in canonical order. On failure the error names an
/// offending integer.
#[verifier::loop_isolation(false)]
pub fn from_host(h: &HostValue) -> (r: Result<Value, AdapterError>)
    ensures
        r is Ok <==> ok_host(h.view()),
        (match r {
            Ok(v) => v.view() == h2n(h.view()) && wf(v.view()),
            Err(e) => {
                let AdapterError::IntegerOutOfRange(x) = e;
                !(-u64_bound() <= x < u64_bound())
            },
        }),
    decreases h,
{
    match h {
        HostValue::Null => Ok(Value::Null),
        HostValue::Bool(b) => Ok(Value::Bool(*b)),
        HostValue::Int(i) => {
            let iv: i128 = *i;
            if -0x1_0000_0000_0000_0000i128 <= iv && iv <= 0xffff_ffff_ffff_ffffi128 {
                Ok(Value::Integer(iv))
            } else {
                Err(AdapterError::IntegerOutOfRange(iv))
            }
        },
        HostValue::Float(bits) => Ok(Value::Float(*bits)),
        HostValue::Str(s) => {
            let bl = s.as_str().as_bytes().len();
            assert(vstd::utf8::encode_utf8(s@).len() < u64_bound());
            Ok(Value::Text(s.clone()))
        },
        HostValue::Bytes(b) => {
            let n = b.len();
            let out = copy_range(b.as_slice(), 0, n);
            proof {
                assert(out@ =~= b@);
            }
            Ok(Value::Bytes(out))
        },
        HostValue::List(l) => {
            proof {
                lemma_hview_elems(l@);
                lemma_ok_list_index(HostValue::view_elems(l@));
                lemma_h2n_list_index(HostValue::view_elems(l@));
            }
            let ghost hv = HostValue::view_elems(l@);
            let mut items: Vec<Value> = Vec::new();
            let mut i: usize = 0;
            while i < l.len()
                invariant
                    i <= l.len(),
                    items@.len() == i,
                    forall|t: int| 0 <= t < i ==> ok_host(hv[t]),
                    forall|t: int|
                        0 <= t < i ==> items@[t].view() == h2n(hv[t]) && wf(items@[t].view()),
                decreases l.len() - i,
            {
                proof {
                    assert(decreases_to!(h => h->List_0));
                    assert(decreases_to!(h->List_0 => h->List_0@));
                    assert(decreases_to!(h->List_0@ => h->List_0@[i as int]));
                    assert(decreases_to!(h => l@[i as int]));
                }
                match from_host(&l[i]) {
                    Ok(cv) => {
                        items.push(cv);
                    },
                    Err(e) => {
                        proof {
                            assert(!ok_host(hv[i as int]));
                        }
                        return Err(e);
                    },
                }
                i = i + 1;
            }
            proof {
                lemma_view_elems(items@);
                crate::lemmas::lemma_wf_list_index(Value::view_elems(items@));
                assert(Value::view_elems(items@) =~= h2n_list(hv));
            }
            Ok(Value::Array(items))
        },
        HostValue::Dict(d) => {
            proof {
                lemma_hview_pairs(d@);
                lemma_ok_pairs_index(HostValue::view_pairs(d@));
                lemma_h2n_pairs_index(HostValue::view_pairs(d@));
            }
            let ghost hp = HostValue::view_pairs(d@);
            let mut entries: Vec<(Value, Value)> = Vec::new();
            let ghost mut raw: Seq<(Node, Node)> = Seq::empty();
            let mut i: usize = 0;
            proof {
                assert(Value::view_pairs(entries@) =~= Seq::<(Node, Node)>::empty());
            }
            while i < d.len()
                invariant
                    i <= d.len(),
                    raw.len() == i,
                    wf_pairs(raw),
                    raw == h2n_pairs(hp.subrange(0, i as int)),
                    forall|t: int| 0 <= t < i ==> ok_host(hp[t].0) && ok_host(hp[t].1),
                    Value::view_pairs(entries@) == insert_all(raw),
                decreases d.len() - i,
            {
                proof {
                    assert(decreases_to!(h => h->Dict_0));
                    assert(decreases_to!(h->Dict_0 => h->Dict_0@));
                    assert(decreases_to!(h->Dict_0@ => h->Dict_0@[i as int]));
                    assert(decreases_to!(h->Dict_0@[i as int] => h->Dict_0@[i as int].0));
                    assert(decreases_to!(h->Dict_0@[i as int] => h->Dict_0@[i as int].1));
                    assert(decreases_to!(h => d@[i as int].0));
                    assert(decreases_to!(h => d@[i as int].1));
                }
                let pair = &d[i];
                let kv = match from_host(&pair.0) {
                    Ok(cv) => cv,
                    Err(e) => {
                        proof {
                            assert(!ok_host(hp[i as int].0));
                        }
                        return Err(e);
                    },
                };
                let vv = match from_host(&pair.1) {
                    Ok(cv) => cv,
                    Err(e) => {
                        proof {
                            assert(!ok_host(hp[i as int].1));
                        }
                        return Err(e);
                    },
                };
                proof {
                    lemma_wf_pairs_index(raw);
                    lemma_wf_pairs_index(raw.push((kv.view(), vv.view())));
                    lemma_insert_all_push(raw, kv.view(), vv.view());
                    lemma_insert_all_props(raw);
                    assert(hp.subrange(0, i as int).push(hp[i as int]) =~= hp.subrange(
                        0,
                        i as int + 1,
                    ));
                    lemma_h2n_pairs_index(hp.subrange(0, i as int));
                    lemma_h2n_pairs_index(hp.subrange(0, i as int + 1));
                    assert(raw.push((kv.view(), vv.view())) =~= h2n_pairs(
                        hp.subrange(0, i as int + 1),
                    ));
                }
                insert_entry(&mut entries, kv, vv);
                proof {
                    raw = raw.push((kv.view(), vv.view()));
                }
                i = i + 1;
            }
            proof {
                assert(hp.subrange(0, hp.len() as int) =~= hp);
                lemma_insert_all_props(raw);
                lemma_wf_pairs_index(insert_all(raw));
                lemma_view_pairs(entries@);
            }
            Ok(Value::Mapping(entries))
        },
    }
}

/// The host value a node converts back to: same shape throughout, a map's
/// entries kept in their canonical order.
pub open spec fn n2h(n: Node) -> HNode
    decreases n,
{
    match n {
        Node::Null => HNode::Null,
        Node::Bool(b) => HNode::Bool(b),
        Node::Int(i) => HNode::Int(i),
        Node::Float(bits) => HNode::Float(bits),
        Node::Text(s) => HNode::Str(s),
        Node::Bytes(b) => HNode::Bytes(b),
        Node::Array(l) => HNode::List(n2h_list(l)),
        Node::Mapping(d) => HNode::Dict(n2h_pairs(d)),
    }
}

/// Element-wise back-conversion of a sequence of nodes.
pub open spec fn n2h_list(s: Seq<Node>) -> Seq<HNode>
    decreases s,
{
    if s.len() == 0 {
        Seq::empty()
    } else {
        seq![n2h(s[0])] + n2h_list(s.subrange(1, s.len() as int))
    }
}

/// Pair-wise back-conversion of a sequence of entry pairs.
pub open spec fn n2h_pairs(s: Seq<(Node, Node)>) -> Seq<(HNode, HNode)>
    decreases s,
{
    if s.len() == 0 {
        Seq::empty()
    } else {
        seq![(n2h(s[0].0), n2h(s[0].1))] + n2h_pairs(s.subrange(1, s.len() as int))
    }
}

/// Element-by-element reading of `n2h_list`.
pub proof fn lemma_n2h_list_index(s: Seq<Node>)
    ensures
        n2h_list(s).len() == s.len(),
        forall|i: int| 0 <= i < s.len() ==> n2h_list(s)[i] == n2h(s[i]),
    decreases s.len(),
{
    if s.len() > 0 {
        lemma_n2h_list_index(s.subrange(1, s.len() as int));
    }
}

/// Pair-by-pair reading of `n2h_pairs`.
pub proof fn lemma_n2h_pairs_index(s: Seq<(Node, Node)>)
    ensures
        n2h_pairs(s).len() == s.len(),
        forall|i: int| 0 <= i < s.len() ==> n2h_pairs(s)[i] == (n2h(s[i].0), n2h(s[i].1)),
    decreases s.len(),
{
    if s.len() > 0 {
        lemma_n2h_pairs_index(s.subrange(1, s.len() as int));
    }
}

/// Converts a codec value back into a host value. Total: every value the
/// model can hold has a host shape.
#[verifier::loop_isolation(false)]
pub fn to_host(v: &Value) -> (h: HostValue)
    ensures
        h.view() == n2h(v.view()),
    decreases v,
{
    match v {
        Value::Null => HostValue::Null,
        Value::Bool(b) => HostValue::Bool(*b),
        Value::Integer(i) => HostValue::Int(*i),
        Value::Float(bits) => HostValue::Float(*bits),
        Value::Text(s) => HostValue::Str(s.clone()),
        Value::Bytes(b) => {
            let n = b.len();
            let out = copy_range(b.as_slice(), 0, n);
            proof {
                assert(out@ =~= b@);
            }
            HostValue::Bytes(out)
        },
        Value::Array(a) => {
            proof {
                lemma_view_elems(a@);
                lemma_n2h_list_index(Value::view_elems(a@));
            }
            let ghost vs = Value::view_elems(a@);
            let mut items: Vec<HostValue> = Vec::new();
            let mut i: usize = 0;
            while i < a.len()
                invariant
                    i <= a.len(),
                    items@.len() == i,
                    forall|t: int| 0 <= t < i ==> items@[t].view() == n2h(vs[t]),
                decreases a.len() - i,
            {
                proof {
                    assert(decreases_to!(v => v->Array_0));
                    assert(decreases_to!(v->Array_0 => v->Array_0@));
                    assert(decreases_to!(v->Array_0@ => v->Array_0@[i as int]));
                    assert(decreases_to!(v => a@[i as int]));
                }
                let hv = to_host(&a[i]);
                items.push(hv);
                i = i + 1;
            }
            proof {
                lemma_hview_elems(items@);
                assert(HostValue::view_elems(items@) =~= n2h_list(vs));
            }
            HostValue::List(items)
        },
        Value::Mapping(m) => {
            proof {
                lemma_view_pairs(m@);
                lemma_n2h_pairs_index(Value::view_pairs(m@));
            }
            let ghost vp = Value::view_pairs(m@);
            let mut items: Vec<(HostValue, HostValue)> = Vec::new();
            let mut i: usize = 0;
            while i < m.len()
                invariant
                    i <= m.len(),
                    items@.len() == i,
                    forall|t: int|
                        0 <= t < i ==> (items@[t].0.view(), items@[t].1.view()) == (
                            n2h(vp[t].0),
                            n2h(vp[t].1),
                        ),
                decreases m.len() - i,
            {
                proof {
                    assert(decreases_to!(v => v->Mapping_0));
                    assert(decreases_to!(v->Mapping_0 => v->Mapping_0@));
                    assert(decreases_to!(v->Mapping_0@ => v->Mapping_0@[i as int]));
                    assert(decreases_to!(v->Mapping_0@[i as int] => v->Mapping_0@[i as int].0));
                    assert(decreases_to!(v->Mapping_0@[i as int] => v->Mapping_0@[i as int].1));
                    assert(decreases_to!(v => m@[i as int].0));
                    assert(decreases_to!(v => m@[i as int].1));
                }
                let pair = &m[i];
                let hk = to_host(&pair.0);
                let hv = to_host(&pair.1);
                items.push((hk, hv));
                i = i + 1;
            }
            proof {
                lemma_hview_pairs(items@);
                assert(HostValue::view_pairs(items@) =~= n2h_pairs(vp));
            }
            HostValue::Dict(items)
        },
    }
}

/// A host value in the adapter's canonical shape: every dict already
/// stands in the canonical key order of its converted keys.
pub open spec fn host_canonical(h: HNode) -> bool
    decreases h,
{
    match h {
        HNode::List(l) => canonical_list(l),
        HNode::Dict(d) => crate::model::sorted_keys(h2n_pairs(d)) && canonical_pairs(d),
        _ => true,
    }
}

/// Every host node of the sequence is canonical.
pub open spec fn canonical_list(s: Seq<HNode>) -> bool
    decreases s,
{
    s.len() == 0 || (host_canonical(s[0]) && canonical_list(s.subrange(1, s.len() as int)))
}

/// Every key and value of the sequence is canonical.
pub open spec fn canonical_pairs(s: Seq<(HNode, HNode)>) -> bool
    decreases s,
{
    s.len() == 0 || (host_canonical(s[0].0) && host_canonical(s[0].1) && canonical_pairs(
        s.subrange(1, s.len() as int),
    ))
}

/// Round trip via host: converting a representable host value in and back
/// out returns it unchanged. Representable means every integer lies in the
/// CBOR integer range (the adapter's documented narrowing) and every dict
/// already stands in canonical key order, which is the order conversion
/// imposes. Together with the contracts of `from_host` and `to_host`, this
/// says that `to_host(from_host(h))` denotes the same host tree as `h`.
pub proof fn lemma_host_round_trip(h: HNode)
    requires
        ok_host(h),
        host_canonical(h),
    ensures
        n2h(h2n(h)) == h,
    decreases h,
{
    match h {
        HNode::List(l) => {
            lemma_host_round_trip_list(l);
        },
        HNode::Dict(d) => {
            lemma_insert_all_sorted_id(h2n_pairs(d));
            lemma_host_round_trip_pairs(d);
        },
        _ => {},
    }
}

/// Round trip of each element of a host sequence.
proof fn lemma_host_round_trip_list(s: Seq<HNode>)
    requires
        ok_list(s),
        canonical_list(s),
    ensures
        n2h_list(h2n_list(s)) == s,
    decreases s,
{
    if s.len() == 0 {
        assert(n2h_list(h2n_list(s)) =~= s);
    } else {
        let tail = s.subrange(1, s.len() as int);
        lemma_host_round_trip(s[0]);
        lemma_host_round_trip_list(tail);
        let c = h2n_list(s);
        assert(c[0] == h2n(s[0]));
        assert(c.subrange(1, c.len() as int) =~= h2n_list(tail));
        assert(n2h_list(c) == seq![n2h(c[0])] + n2h_list(c.subrange(1, c.len() as int)));
        assert(n2h_list(h2n_list(s)) =~= s);
    }
}

/// Round trip of each pair of a host sequence.
proof fn lemma_host_round_trip_pairs(s: Seq<(HNode, HNode)>)
    requires
        ok_pairs(s),
        canonical_pairs(s),
    ensures
        n2h_pairs(h2n_pairs(s)) == s,
    decreases s,
{
    if s.len() == 0 {
        assert(n2h_pairs(h2n_pairs(s)) =~= s);
    } else {
        let tail = s.subrange(1, s.len() as int);
        lemma_host_round_trip(s[0].0);
        lemma_host_round_trip(s[0].1);
        lemma_host_round_trip_pairs(tail);
        let c = h2n_pairs(s);
        assert(c[0] == (h2n(s[0].0), h2n(s[0].1)));
        assert(c.subrange(1, c.len() as int) =~= h2n_pairs(tail));
        assert(n2h_pairs(c) == seq![(n2h(c[0].0), n2h(c[0].1))] + n2h_pairs(
            c.subrange(1, c.len() as int),
        ));
        assert(n2h_pairs(h2n_pairs(s)) =~= s);
    }
}

} // verus!
