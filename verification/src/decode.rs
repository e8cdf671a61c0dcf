//! The decoder: untrusted bytes to a well-formed value, or an error.
//!
//! Exactly one top-level item is accepted. Integer arguments are read in any
//! head form, minimal or not; map entries may arrive in any order and are
//! put into canonical order as they are read, a later duplicate key
//! replacing the earlier entry.
use vstd::prelude::*;

use crate::encode::encode;
use crate::lemmas::lemma_insert_all_props;
use crate::lemmas::lemma_insert_all_push;
use crate::lemmas::lemma_lex_skip;
use crate::lemmas::lemma_view_elems;
use crate::lemmas::lemma_view_elems_push;
use crate::lemmas::lemma_view_pairs;
use crate::lemmas::lemma_view_pairs_push;
use crate::lemmas::lemma_wf_list_index;
use crate::lemmas::lemma_wf_pairs_index;
use crate::model::Node;
use crate::model::Parsed;
use crate::model::Value;
use crate::model::dec;
use crate::model::dec_head;
use crate::model::dec_list;
use crate::model::dec_pairs;
use crate::model::enc;
use crate::model::insert_all;
use crate::model::insert_pair;
use crate::model::lex_lt;
use crate::model::wf;
use crate::model::wf_pairs;

verus! {

broadcast use vstd::std_specs::vec::group_vec_axioms, vstd::seq::group_seq_axioms;

/// Why a byte sequence was rejected.
#[derive(Debug, Clone, Copy, PartialEq, Eq)]
pub enum DecodeError {
    /// The bytes end before the item they declare does.
    UnexpectedEnd,
    /// A head outside the supported profile: a reserved or indefinite-length
    /// form, a tag, or an unsupported simple or float width.
    Unsupported,
    /// A text string whose bytes are not valid UTF-8.
    InvalidUtf8,
    /// Bytes left over after the one top-level item.
    TrailingData,
}

/// Relies on `String::from_utf8`: it succeeds exactly on bytes that are
/// valid UTF-8, and returns the string those bytes encode.
#[verifier::external_body]
fn bytes_to_string(bytes: Vec<u8>) -> (r: Option<String>)
    ensures
        vstd::utf8::valid_utf8(bytes@) ==> r is Some && r->0@ == vstd::utf8::decode_utf8(bytes@),
        !vstd::utf8::valid_utf8(bytes@) ==> r is None,
{
    match String::from_utf8(bytes) {
        Ok(s) => Some(s),
        Err(_) => None,
    }
}

/// Reads one head at `pos`.
fn decode_head_at(b: &[u8], pos: usize) -> (r: Result<(u8, u8, u64, usize), DecodeError>)
    ensures
        (match r {
            Ok((major, ai, arg, end)) => dec_head(b@, pos as int) == Parsed::Found(
                (major, ai, arg),
                end as int,
            ) && pos < end <= b@.len(),
            Err(e) => !(dec_head(b@, pos as int) is Found) && (e == DecodeError::UnexpectedEnd
                <==> dec_head(b@, pos as int) is End) && (e == DecodeError::Unsupported
                <==> dec_head(b@, pos as int) is Unsup),
        }),
{
    if pos >= b.len() {
        return Err(DecodeError::UnexpectedEnd);
    }
    let ib = b[pos];
    let major = ib >> 5;
    let ai = ib & 0x1f;
    if ai < 24 {
        Ok((major, ai, ai as u64, pos + 1))
    } else if ai == 24 {
        if b.len() - pos >= 2 {
            Ok((major, ai, b[pos + 1] as u64, pos + 2))
        } else {
            Err(DecodeError::UnexpectedEnd)
        }
    } else if ai == 25 {
        if b.len() - pos >= 3 {
            let arg = ((b[pos + 1] as u64) << 8) | (b[pos + 2] as u64);
            Ok((major, ai, arg, pos + 3))
        } else {
            Err(DecodeError::UnexpectedEnd)
        }
    } else if ai == 26 {
        if b.len() - pos >= 5 {
            let arg = ((b[pos + 1] as u64) << 24) | ((b[pos + 2] as u64) << 16) | ((b[pos
                + 3] as u64) << 8) | (b[pos + 4] as u64);
            Ok((major, ai, arg, pos + 5))
        } else {
            Err(DecodeError::UnexpectedEnd)
        }
    } else if ai == 27 {
        if b.len() - pos >= 9 {
            let arg = ((b[pos + 1] as u64) << 56) | ((b[pos + 2] as u64) << 48) | ((b[pos
                + 3] as u64) << 40) | ((b[pos + 4] as u64) << 32) | ((b[pos + 5] as u64) << 24) | ((
            b[pos + 6] as u64) << 16) | ((b[pos + 7] as u64) << 8) | (b[pos + 8] as u64);
            Ok((major, ai, arg, pos + 9))
        } else {
            Err(DecodeError::UnexpectedEnd)
        }
    } else {
        Err(DecodeError::Unsupported)
    }
}

/// Copies `n` bytes of `b` starting at `start` into a fresh vector.
pub(crate) fn copy_range(b: &[u8], start: usize, n: usize) -> (out: Vec<u8>)
    requires
        start + n <= b@.len(),
    ensures
        out@ == b@.subrange(start as int, start as int + n as int),
{
    let mut out: Vec<u8> = Vec::new();
    let len = b.len();
    let mut j: usize = 0;
    while j < n
        invariant
            j <= n,
            len == b@.len(),
            start + n <= b@.len(),
            out@ == b@.subrange(start as int, start as int + j as int),
        decreases n - j,
    {
        out.push(b[start + j]);
        assert(out@ =~= b@.subrange(start as int, start as int + (j + 1) as int));
        j = j + 1;
    }
    out
}

/// How one key stands to another in the canonical key order.
enum KeyOrder {
    Below,
    Same,
    Above,
}

/// Compares two well-formed keys in the canonical key order: by the bytes
/// of their canonical encodings, lexicographically.
fn cmp_keys(a: &Value, b: &Value) -> (c: KeyOrder)
    requires
        wf(a.view()),
        wf(b.view()),
    ensures
        c is Below <==> lex_lt(enc(a.view()), enc(b.view())),
        c is Same <==> enc(a.view()) == enc(b.view()),
        c is Above <==> lex_lt(enc(b.view()), enc(a.view())),
{
    let ea = encode(a);
    let eb = encode(b);
    let mut j: usize = 0;
    let min: usize = if ea.len() < eb.len() {
        ea.len()
    } else {
        eb.len()
    };
    while j < min
        invariant
            j <= min,
            min <= ea@.len(),
            min <= eb@.len(),
            ea@ == enc(a.view()),
            eb@ == enc(b.view()),
            forall|t: int| 0 <= t < j ==> ea@[t] == eb@[t],
        decreases min - j,
    {
        if ea[j] < eb[j] {
            proof {
                lemma_lex_skip(ea@, eb@, j as int);
                lemma_lex_skip(eb@, ea@, j as int);
            }
            return KeyOrder::Below;
        }
        if ea[j] > eb[j] {
            proof {
                lemma_lex_skip(ea@, eb@, j as int);
                lemma_lex_skip(eb@, ea@, j as int);
            }
            return KeyOrder::Above;
        }
        j = j + 1;
    }
    proof {
        lemma_lex_skip(ea@, eb@, min as int);
        lemma_lex_skip(eb@, ea@, min as int);
    }
    if ea.len() < eb.len() {
        KeyOrder::Below
    } else if ea.len() > eb.len() {
        KeyOrder::Above
    } else {
        proof {
            assert(ea@ =~= eb@);
        }
        KeyOrder::Same
    }
}

/// Puts one entry into a map's entry vector at its canonical place: before
/// the first greater key, or in place of an equal one.
#[verifier::loop_isolation(false)]
pub(crate) fn insert_entry(entries: &mut Vec<(Value, Value)>, k: Value, v: Value)
    requires
        wf(k.view()),
        wf(v.view()),
        wf_pairs(Value::view_pairs(old(entries)@)),
    ensures
        Value::view_pairs(final(entries)@) == insert_pair(
            Value::view_pairs(old(entries)@),
            k.view(),
            v.view(),
        ),
{
    let ghost vp = Value::view_pairs(entries@);
    proof {
        lemma_view_pairs(entries@);
        lemma_wf_pairs_index(vp);
    }
    let mut idx: usize = 0;
    proof {
        assert(entries@.subrange(0, entries@.len() as int) =~= entries@);
        assert(Value::view_pairs(entries@.subrange(0, 0)) =~= Seq::<(Node, Node)>::empty());
    }
    while idx < entries.len()
        invariant
            idx <= entries.len(),
            entries@ == old(entries)@,
            insert_pair(vp, k.view(), v.view()) == Value::view_pairs(
                entries@.subrange(0, idx as int),
            ) + insert_pair(
                Value::view_pairs(entries@.subrange(idx as int, entries@.len() as int)),
                k.view(),
                v.view(),
            ),
        decreases entries.len() - idx,
    {
        let ghost suffix = entries@.subrange(idx as int, entries@.len() as int);
        let ghost vsuf = Value::view_pairs(suffix);
        proof {
            lemma_view_pairs(suffix);
            lemma_view_pairs(entries@.subrange(0, idx as int));
            assert(suffix[0] == entries@[idx as int]);
            assert(vp[idx as int] == (entries@[idx as int].0.view(), entries@[idx as int].1.view()));
            assert(wf(entries@[idx as int].0.view()));
        }
        let c = cmp_keys(&k, &entries[idx].0);
        match c {
            KeyOrder::Below => {
                entries.insert(idx, (k, v));
                proof {
                    lemma_view_pairs(entries@);
                    lemma_view_pairs(old(entries)@);
                    assert(insert_pair(vsuf, k.view(), v.view()) =~= seq![
                        (k.view(), v.view()),
                    ] + vsuf);
                    assert(Value::view_pairs(final(entries)@) =~= insert_pair(
                        vp,
                        k.view(),
                        v.view(),
                    ));
                }
                return ;
            },
            KeyOrder::Same => {
                entries[idx] = (k, v);
                proof {
                    lemma_view_pairs(entries@);
                    lemma_view_pairs(old(entries)@);
                    lemma_view_pairs(
                        old(entries)@.subrange(idx as int + 1, old(entries)@.len() as int),
                    );
                    assert(vsuf.subrange(1, vsuf.len() as int) =~= Value::view_pairs(
                        old(entries)@.subrange(idx as int + 1, old(entries)@.len() as int),
                    ));
                    assert(insert_pair(vsuf, k.view(), v.view()) =~= seq![
                        (k.view(), v.view()),
                    ] + vsuf.subrange(1, vsuf.len() as int));
                    assert(Value::view_pairs(final(entries)@) =~= insert_pair(
                        vp,
                        k.view(),
                        v.view(),
                    ));
                }
                return ;
            },
            KeyOrder::Above => {
                proof {
                    let next = entries@.subrange(idx as int + 1, entries@.len() as int);
                    lemma_view_pairs(next);
                    assert(vsuf.subrange(1, vsuf.len() as int) =~= Value::view_pairs(next));
                    assert(insert_pair(vsuf, k.view(), v.view()) == seq![vsuf[0]] + insert_pair(
                        Value::view_pairs(next),
                        k.view(),
                        v.view(),
                    ));
                    assert(Value::view_pairs(entries@.subrange(0, idx as int)).push(vsuf[0])
                        =~= Value::view_pairs(entries@.subrange(0, idx as int + 1))) by {
                        lemma_view_pairs(entries@.subrange(0, idx as int));
                        lemma_view_pairs(entries@.subrange(0, idx as int + 1));
                    }
                    assert(insert_pair(vp, k.view(), v.view()) =~= Value::view_pairs(
                        entries@.subrange(0, idx as int + 1),
                    ) + insert_pair(
                        Value::view_pairs(entries@.subrange(idx as int + 1, entries@.len() as int)),
                        k.view(),
                        v.view(),
                    ));
                }
                idx = idx + 1;
            },
        }
    }
    proof {
        let empty_suffix = entries@.subrange(entries@.len() as int, entries@.len() as int);
        assert(empty_suffix =~= Seq::<(Value, Value)>::empty());
        assert(Value::view_pairs(empty_suffix) =~= Seq::<(Node, Node)>::empty());
        assert(insert_pair(Seq::<(Node, Node)>::empty(), k.view(), v.view()) =~= seq![
            (k.view(), v.view()),
        ]);
    }
    entries.push((k, v));
    proof {
        lemma_view_pairs_push(old(entries)@, k, v);
        assert(Value::view_pairs(final(entries)@) =~= insert_pair(vp, k.view(), v.view()));
    }
}

/// Reads one data item at `pos`.
#[verifier::loop_isolation(false)]
#[verifier::rlimit(60)]
fn decode_item(b: &[u8], pos: usize) -> (r: Result<(Value, usize), DecodeError>)
    ensures
        (match r {
            Ok((v, end)) => dec(b@, pos as int) == Parsed::Found(v.view(), end as int) && pos < end
                <= b@.len() && wf(v.view()),
            Err(e) => !(dec(b@, pos as int) is Found) && (e == DecodeError::UnexpectedEnd <==> dec(
                b@,
                pos as int,
            ) is End) && (e == DecodeError::Unsupported <==> dec(b@, pos as int) is Unsup) && (e
                == DecodeError::InvalidUtf8 <==> dec(b@, pos as int) is BadText),
        }),
    decreases b@.len() - pos,
{
    let (major, ai, arg, p1) = match decode_head_at(b, pos) {
        Ok(t) => t,
        Err(e) => {
            return Err(e);
        },
    };
    if major == 0 {
        Ok((Value::Integer(arg as i128), p1))
    } else if major == 1 {
        let iv: i128 = -1 - (arg as i128);
        Ok((Value::Integer(iv), p1))
    } else if major == 2 {
        if arg <= (b.len() - p1) as u64 {
            let n = arg as usize;
            let buf = copy_range(b, p1, n);
            Ok((Value::Bytes(buf), p1 + n))
        } else {
            Err(DecodeError::UnexpectedEnd)
        }
    } else if major == 3 {
        if arg <= (b.len() - p1) as u64 {
            let n = arg as usize;
            let buf = copy_range(b, p1, n);
            let ghost bs = buf@;
            match bytes_to_string(buf) {
                Some(s) => {
                    proof {
                        vstd::utf8::decode_utf8_encode_utf8(bs);
                    }
                    Ok((Value::Text(s), p1 + n))
                },
                None => Err(DecodeError::InvalidUtf8),
            }
        } else {
            Err(DecodeError::UnexpectedEnd)
        }
    } else if major == 4 {
        let mut items: Vec<Value> = Vec::new();
        let mut count: u64 = 0;
        let mut cur: usize = p1;
        proof {
            assert(Value::view_elems(items@) =~= Seq::<Node>::empty());
            assert(Value::view_elems(items@) + Seq::<Node>::empty() =~= Value::view_elems(
                items@,
            ));
        }
        while count < arg
            invariant
                count <= arg,
                pos < cur <= b@.len(),
                items@.len() == count,
                forall|t: int| 0 <= t < items@.len() ==> wf(items@[t].view()),
                (match dec_list(b@, cur as int, arg - count) {
                    Parsed::Found(rest, e) => dec_list(b@, p1 as int, arg as int)
                        == Parsed::Found(Value::view_elems(items@) + rest, e),
                    Parsed::End => dec_list(b@, p1 as int, arg as int) is End,
                    Parsed::Unsup => dec_list(b@, p1 as int, arg as int) is Unsup,
                    Parsed::BadText => dec_list(b@, p1 as int, arg as int) is BadText,
                }),
            decreases arg - count,
        {
            match decode_item(b, cur) {
                Ok((item, e)) => {
                    proof {
                        lemma_view_elems(items@);
                        lemma_view_elems_push(items@, item);
                        if dec_list(b@, e as int, arg - count - 1) is Found {
                            let rest2 = dec_list(b@, e as int, arg - count - 1)->Found_0;
                            assert(Value::view_elems(items@) + (seq![item.view()] + rest2)
                                =~= Value::view_elems(items@.push(item)) + rest2);
                        }
                    }
                    items.push(item);
                    cur = e;
                    count = count + 1;
                },
                Err(e) => {
                    return Err(e);
                },
            }
        }
        proof {
            lemma_view_elems(items@);
            lemma_wf_list_index(Value::view_elems(items@));
            assert(Value::view_elems(items@) + Seq::<Node>::empty() =~= Value::view_elems(
                items@,
            ));
        }
        Ok((Value::Array(items), cur))
    } else if major == 5 {
        let mut entries: Vec<(Value, Value)> = Vec::new();
        let mut count: u64 = 0;
        let mut cur: usize = p1;
        let ghost mut raw: Seq<(Node, Node)> = Seq::empty();
        proof {
            assert(Value::view_pairs(entries@) =~= Seq::<(Node, Node)>::empty());
            assert(raw + Seq::<(Node, Node)>::empty() =~= raw);
        }
        while count < arg
            invariant
                count <= arg,
                pos < cur <= b@.len(),
                raw.len() == count,
                wf_pairs(raw),
                Value::view_pairs(entries@) == insert_all(raw),
                (match dec_pairs(b@, cur as int, arg - count) {
                    Parsed::Found(rest, e) => dec_pairs(b@, p1 as int, arg as int)
                        == Parsed::Found(raw + rest, e),
                    Parsed::End => dec_pairs(b@, p1 as int, arg as int) is End,
                    Parsed::Unsup => dec_pairs(b@, p1 as int, arg as int) is Unsup,
                    Parsed::BadText => dec_pairs(b@, p1 as int, arg as int) is BadText,
                }),
            decreases arg - count,
        {
            let (kv, e1) = match decode_item(b, cur) {
                Ok(t) => t,
                Err(e) => {
                    return Err(e);
                },
            };
            let (vv, e2) = match decode_item(b, e1) {
                Ok(t) => t,
                Err(e) => {
                    return Err(e);
                },
            };
            proof {
                lemma_wf_pairs_index(raw);
                lemma_wf_pairs_index(raw.push((kv.view(), vv.view())));
                lemma_insert_all_push(raw, kv.view(), vv.view());
                lemma_insert_all_props(raw);
                if dec_pairs(b@, e2 as int, arg - count - 1) is Found {
                    let rest2 = dec_pairs(b@, e2 as int, arg - count - 1)->Found_0;
                    assert(raw + (seq![(kv.view(), vv.view())] + rest2) =~= raw.push(
                        (kv.view(), vv.view()),
                    ) + rest2);
                }
            }
            insert_entry(&mut entries, kv, vv);
            proof {
                raw = raw.push((kv.view(), vv.view()));
            }
            cur = e2;
            count = count + 1;
        }
        proof {
            lemma_insert_all_props(raw);
            lemma_wf_pairs_index(insert_all(raw));
            lemma_view_pairs(entries@);
            assert(raw + Seq::<(Node, Node)>::empty() =~= raw);
        }
        Ok((Value::Mapping(entries), cur))
    } else if major == 6 {
        Err(DecodeError::Unsupported)
    } else {
        if ai == 20 {
            Ok((Value::Bool(false), p1))
        } else if ai == 21 {
            Ok((Value::Bool(true), p1))
        } else if ai == 22 {
            Ok((Value::Null, p1))
        } else if ai == 27 {
            Ok((Value::Float(arg), p1))
        } else {
            Err(DecodeError::Unsupported)
        }
    }
}

/// Decodes exactly one CBOR data item from `bytes`.
///
/// Succeeds if and only if the bytes hold one complete item of the
/// supported profile and nothing after it; the decoded value is
/// well-formed, and each error names what went wrong.
pub fn decode(bytes: &[u8]) -> (r: Result<Value, DecodeError>)
    ensures
        (match r {
            Ok(v) => dec(bytes@, 0) == Parsed::Found(v.view(), bytes@.len() as int) && wf(v.view()),
            Err(e) => {
                &&& (e == DecodeError::UnexpectedEnd <==> dec(bytes@, 0) is End)
                &&& (e == DecodeError::Unsupported <==> dec(bytes@, 0) is Unsup)
                &&& (e == DecodeError::InvalidUtf8 <==> dec(bytes@, 0) is BadText)
                &&& (e == DecodeError::TrailingData <==> (dec(bytes@, 0) is Found && dec(
                    bytes@,
                    0,
                )->1 != bytes@.len()))
            },
        }),
{
    match decode_item(bytes, 0) {
        Ok((v, end)) => {
            if end == bytes.len() {
                Ok(v)
            } else {
                Err(DecodeError::TrailingData)
            }
        },
        Err(e) => Err(e),
    }
}

} // verus!
