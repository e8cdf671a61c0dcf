//! The encoder: a well-formed value tree to its canonical CBOR bytes.
//!
//! Every scalar and every length is emitted in the shortest head form that
//! carries it exactly; map entries are emitted in the order the value holds
//! them, which well-formedness keeps sorted by the canonical key order.
use vstd::prelude::*;

use crate::lemmas::lemma_enc_list_push;
use crate::lemmas::lemma_enc_pairs_push;
use crate::lemmas::lemma_view_elems;
use crate::lemmas::lemma_view_pairs;
use crate::lemmas::lemma_wf_list_index;
use crate::lemmas::lemma_wf_pairs_index;
use crate::model::Node;
use crate::model::Value;
use crate::model::be2;
use crate::model::be4;
use crate::model::be8;
use crate::model::enc;
use crate::model::enc_list;
use crate::model::enc_pairs;
use crate::model::head;
use crate::model::wf;

verus! {

broadcast use vstd::std_specs::vec::group_vec_axioms, vstd::seq::group_seq_axioms;

/// Appends the two big-endian bytes of the low 16 bits of `x`.
fn write_be2(out: &mut Vec<u8>, x: u64)
    ensures
        final(out)@ == old(out)@ + be2(x),
{
    out.push(((x >> 8) & 0xff) as u8);
    out.push((x & 0xff) as u8);
    assert(out@ =~= old(out)@ + be2(x));
}

/// Appends the four big-endian bytes of the low 32 bits of `x`.
fn write_be4(out: &mut Vec<u8>, x: u64)
    ensures
        final(out)@ == old(out)@ + be4(x),
{
    out.push(((x >> 24) & 0xff) as u8);
    out.push(((x >> 16) & 0xff) as u8);
    out.push(((x >> 8) & 0xff) as u8);
    out.push((x & 0xff) as u8);
    assert(out@ =~= old(out)@ + be4(x));
}

/// Appends the eight big-endian bytes of `x`.
fn write_be8(out: &mut Vec<u8>, x: u64)
    ensures
        final(out)@ == old(out)@ + be8(x),
{
    out.push(((x >> 56) & 0xff) as u8);
    out.push(((x >> 48) & 0xff) as u8);
    out.push(((x >> 40) & 0xff) as u8);
    out.push(((x >> 32) & 0xff) as u8);
    out.push(((x >> 24) & 0xff) as u8);
    out.push(((x >> 16) & 0xff) as u8);
    out.push(((x >> 8) & 0xff) as u8);
    out.push((x & 0xff) as u8);
    assert(out@ =~= old(out)@ + be8(x));
}

/// Appends the minimal-length head for the given major type and argument.
fn write_head(out: &mut Vec<u8>, major: u8, arg: u64)
    ensures
        final(out)@ == old(out)@ + head(major, arg),
{
    if arg < 24 {
        out.push((major << 5) | ((arg & 0x1f) as u8));
        assert(out@ =~= old(out)@ + head(major, arg));
    } else if arg <= 0xff {
        out.push((major << 5) | 24);
        out.push((arg & 0xff) as u8);
        assert(out@ =~= old(out)@ + head(major, arg));
    } else if arg <= 0xffff {
        out.push((major << 5) | 25);
        write_be2(out, arg);
        assert(out@ =~= old(out)@ + head(major, arg));
    } else if arg <= 0xffff_ffff {
        out.push((major << 5) | 26);
        write_be4(out, arg);
        assert(out@ =~= old(out)@ + head(major, arg));
    } else {
        out.push((major << 5) | 27);
        write_be8(out, arg);
        assert(out@ =~= old(out)@ + head(major, arg));
    }
}

/// Appends the bytes of `b` to `out`.
fn write_bytes(out: &mut Vec<u8>, b: &[u8])
    ensures
        final(out)@ == old(out)@ + b@,
{
    let mut j: usize = 0;
    while j < b.len()
        invariant
            j <= b.len(),
            out@ == old(out)@ + b@.subrange(0, j as int),
        decreases b.len() - j,
    {
        out.push(b[j]);
        assert(out@ =~= old(out)@ + b@.subrange(0, j + 1));
        j = j + 1;
    }
    assert(out@ =~= old(out)@ + b@);
}

/// Appends the canonical encoding of `v` to `out`.
#[verifier::loop_isolation(false)]
fn encode_into(v: &Value, out: &mut Vec<u8>)
    requires
        wf(v.view()),
    ensures
        final(out)@ == old(out)@ + enc(v.view()),
    decreases v,
{
    match v {
        Value::Null => {
            out.push(0xf6);
            assert(out@ =~= old(out)@ + enc(v.view()));
        },
        Value::Bool(b) => {
            if *b {
                out.push(0xf5);
            } else {
                out.push(0xf4);
            }
            assert(out@ =~= old(out)@ + enc(v.view()));
        },
        Value::Integer(i) => {
            let iv: i128 = *i;
            if iv >= 0 {
                write_head(out, 0, iv as u64);
            } else {
                let m: i128 = -1 - iv;
                write_head(out, 1, m as u64);
            }
        },
        Value::Float(bits) => {
            out.push(0xfb);
            write_be8(out, *bits);
            assert(out@ =~= old(out)@ + enc(v.view()));
        },
        Value::Bytes(b) => {
            write_head(out, 2, b.len() as u64);
            write_bytes(out, b.as_slice());
            assert(out@ =~= old(out)@ + enc(v.view()));
        },
        Value::Text(s) => {
            let bs = s.as_str().as_bytes();
            write_head(out, 3, bs.len() as u64);
            write_bytes(out, bs);
            assert(out@ =~= old(out)@ + enc(v.view()));
        },
        Value::Array(a) => {
            proof {
                lemma_view_elems(a@);
                lemma_wf_list_index(Value::view_elems(a@));
            }
            let ghost vs = Value::view_elems(a@);
            let ghost base = out@;
            write_head(out, 4, a.len() as u64);
            let mut i: usize = 0;
            proof {
                assert(vs.subrange(0, 0) =~= Seq::<Node>::empty());
            }
            while i < a.len()
                invariant
                    i <= a.len(),
                    vs == Value::view_elems(a@),
                    vs.len() == a@.len(),
                    forall|t: int| 0 <= t < a@.len() ==> vs[t] == a@[t].view(),
                    forall|t: int| 0 <= t < vs.len() ==> wf(vs[t]),
                    out@ == base + head(4, a@.len() as u64) + enc_list(vs.subrange(0, i as int)),
                decreases a.len() - i,
            {
                proof {
                    assert(decreases_to!(v => v->Array_0));
                    assert(decreases_to!(v->Array_0 => v->Array_0@));
                    assert(decreases_to!(v->Array_0@ => v->Array_0@[i as int]));
                    assert(decreases_to!(v => a@[i as int]));
                }
                encode_into(&a[i], out);
                proof {
                    lemma_enc_list_push(vs.subrange(0, i as int), vs[i as int]);
                    assert(vs.subrange(0, i as int).push(vs[i as int]) =~= vs.subrange(
                        0,
                        i as int + 1,
                    ));
                    assert(out@ =~= base + head(4, a@.len() as u64) + enc_list(
                        vs.subrange(0, i as int + 1),
                    ));
                }
                i = i + 1;
            }
            proof {
                assert(vs.subrange(0, vs.len() as int) =~= vs);
                assert(out@ =~= old(out)@ + enc(v.view()));
            }
        },
        Value::Mapping(m) => {
            proof {
                lemma_view_pairs(m@);
                lemma_wf_pairs_index(Value::view_pairs(m@));
            }
            let ghost vp = Value::view_pairs(m@);
            let ghost base = out@;
            write_head(out, 5, m.len() as u64);
            let mut i: usize = 0;
            proof {
                assert(vp.subrange(0, 0) =~= Seq::<(Node, Node)>::empty());
            }
            while i < m.len()
                invariant
                    i <= m.len(),
                    vp == Value::view_pairs(m@),
                    vp.len() == m@.len(),
                    forall|t: int| 0 <= t < m@.len() ==> vp[t] == (m@[t].0.view(), m@[t].1.view()),
                    forall|t: int| 0 <= t < vp.len() ==> wf(vp[t].0) && wf(vp[t].1),
                    out@ == base + head(5, m@.len() as u64) + enc_pairs(vp.subrange(0, i as int)),
                decreases m.len() - i,
            {
                let pair = &m[i];
                proof {
                    assert(decreases_to!(v => v->Mapping_0));
                    assert(decreases_to!(v->Mapping_0 => v->Mapping_0@));
                    assert(decreases_to!(v->Mapping_0@ => v->Mapping_0@[i as int]));
                    assert(decreases_to!(v->Mapping_0@[i as int] => v->Mapping_0@[i as int].0));
                    assert(decreases_to!(v->Mapping_0@[i as int] => v->Mapping_0@[i as int].1));
                    assert(decreases_to!(v => m@[i as int].0));
                    assert(decreases_to!(v => m@[i as int].1));
                }
                encode_into(&pair.0, out);
                encode_into(&pair.1, out);
                proof {
                    lemma_enc_pairs_push(
                        vp.subrange(0, i as int),
                        vp[i as int].0,
                        vp[i as int].1,
                    );
                    assert(vp.subrange(0, i as int).push(vp[i as int]) =~= vp.subrange(
                        0,
                        i as int + 1,
                    ));
                    assert(out@ =~= base + head(5, m@.len() as u64) + enc_pairs(
                        vp.subrange(0, i as int + 1),
                    ));
                }
                i = i + 1;
            }
            proof {
                assert(vp.subrange(0, vp.len() as int) =~= vp);
                assert(out@ =~= old(out)@ + enc(v.view()));
            }
        },
    }
}

/// Encodes a well-formed value as its canonical CBOR byte sequence.
///
/// Encoding is total on well-formed values: it cannot fail.
pub fn encode(v: &Value) -> (out: Vec<u8>)
    requires
        wf(v.view()),
    ensures
        out@ == enc(v.view()),
{
    let mut out: Vec<u8> = Vec::new();
    encode_into(v, &mut out);
    assert(out@ =~= enc(v.view()));
    out
}

} // verus!
