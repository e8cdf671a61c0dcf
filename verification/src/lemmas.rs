//! Facts about the model: the key order is a strict total order, the
//! structural spec functions relate to indexing, and ordered insertion
//! behaves as a map.
use vstd::prelude::*;

use crate::model::Node;
use crate::model::Value;
use crate::model::enc;
use crate::model::enc_list;
use crate::model::enc_pairs;
use crate::model::head;
use crate::model::insert_all;
use crate::model::insert_pair;
use crate::model::key_lt;
use crate::model::lex_lt;
use crate::model::sorted_keys;
use crate::model::wf;
use crate::model::wf_list;
use crate::model::wf_pairs;

verus! {

broadcast use vstd::std_specs::vec::group_vec_axioms, vstd::seq::group_seq_axioms;

/// No byte sequence is below itself.
pub proof fn lemma_lex_irrefl(a: Seq<u8>)
    ensures
        !lex_lt(a, a),
    decreases a.len(),
{
    if a.len() > 0 {
        lemma_lex_irrefl(a.subrange(1, a.len() as int));
    }
}

/// The order runs one way only.
pub proof fn lemma_lex_asym(a: Seq<u8>, b: Seq<u8>)
    requires
        lex_lt(a, b),
    ensures
        !lex_lt(b, a),
    decreases a.len(),
{
    if a.len() > 0 && b.len() > 0 && a[0] == b[0] {
        lemma_lex_asym(a.subrange(1, a.len() as int), b.subrange(1, b.len() as int));
    }
}

/// The order is transitive.
pub proof fn lemma_lex_trans(a: Seq<u8>, b: Seq<u8>, c: Seq<u8>)
    requires
        lex_lt(a, b),
        lex_lt(b, c),
    ensures
        lex_lt(a, c),
    decreases a.len(),
{
    if a.len() > 0 && b.len() > 0 && c.len() > 0 && a[0] == b[0] && b[0] == c[0] {
        lemma_lex_trans(
            a.subrange(1, a.len() as int),
            b.subrange(1, b.len() as int),
            c.subrange(1, c.len() as int),
        );
    }
}

/// Two sequences neither of which is below the other are equal.
pub proof fn lemma_lex_connect(a: Seq<u8>, b: Seq<u8>)
    requires
        !lex_lt(a, b),
        !lex_lt(b, a),
    ensures
        a == b,
    decreases a.len(),
{
    if a.len() == 0 || b.len() == 0 {
        assert(a =~= b);
    } else {
        lemma_lex_connect(a.subrange(1, a.len() as int), b.subrange(1, b.len() as int));
        assert(a =~= seq![a[0]] + a.subrange(1, a.len() as int));
        assert(b =~= seq![b[0]] + b.subrange(1, b.len() as int));
    }
}

/// A window of `b` equal to a concatenation splits into windows equal to
/// the parts.
pub proof fn lemma_subrange_split(b: Seq<u8>, pos: int, x: Seq<u8>, y: Seq<u8>)
    requires
        0 <= pos,
        pos + x.len() + y.len() <= b.len(),
        b.subrange(pos, pos + x.len() + y.len()) == x + y,
    ensures
        b.subrange(pos, pos + x.len() as int) == x,
        b.subrange(pos + x.len() as int, pos + x.len() + y.len()) == y,
{
    let whole = b.subrange(pos, pos + x.len() + y.len());
    assert forall|i: int| 0 <= i < x.len() implies b.subrange(pos, pos + x.len() as int)[i]
        == x[i] by {
        assert(whole[i] == (x + y)[i]);
    }
    assert(b.subrange(pos, pos + x.len() as int) =~= x);
    assert forall|i: int|
        0 <= i < y.len() implies b.subrange(pos + x.len() as int, pos + x.len() + y.len())[i]
        == y[i] by {
        assert(whole[x.len() + i] == (x + y)[x.len() + i]);
    }
    assert(b.subrange(pos + x.len() as int, pos + x.len() + y.len()) =~= y);
}

/// A shared prefix does not decide the order: it falls to the remainders.
pub proof fn lemma_lex_skip(a: Seq<u8>, b: Seq<u8>, j: int)
    requires
        0 <= j <= a.len(),
        j <= b.len(),
        forall|t: int| 0 <= t < j ==> a[t] == b[t],
    ensures
        lex_lt(a, b) == lex_lt(a.subrange(j, a.len() as int), b.subrange(j, b.len() as int)),
    decreases j,
{
    if j == 0 {
        assert(a.subrange(0, a.len() as int) =~= a);
        assert(b.subrange(0, b.len() as int) =~= b);
    } else {
        let at = a.subrange(1, a.len() as int);
        let bt = b.subrange(1, b.len() as int);
        lemma_lex_skip(at, bt, j - 1);
        assert(at.subrange(j - 1, at.len() as int) =~= a.subrange(j, a.len() as int));
        assert(bt.subrange(j - 1, bt.len() as int) =~= b.subrange(j, b.len() as int));
    }
}

/// Element-by-element reading of `view_elems`.
pub proof fn lemma_view_elems(s: Seq<Value>)
    ensures
        Value::view_elems(s).len() == s.len(),
        forall|i: int| 0 <= i < s.len() ==> Value::view_elems(s)[i] == s[i].view(),
    decreases s.len(),
{
    if s.len() > 0 {
        lemma_view_elems(s.subrange(1, s.len() as int));
    }
}

/// Pair-by-pair reading of `view_pairs`.
pub proof fn lemma_view_pairs(s: Seq<(Value, Value)>)
    ensures
        Value::view_pairs(s).len() == s.len(),
        forall|i: int|
            0 <= i < s.len() ==> Value::view_pairs(s)[i] == (s[i].0.view(), s[i].1.view()),
    decreases s.len(),
{
    if s.len() > 0 {
        lemma_view_pairs(s.subrange(1, s.len() as int));
    }
}

/// Appending a value appends its denotation.
pub proof fn lemma_view_elems_push(s: Seq<Value>, x: Value)
    ensures
        Value::view_elems(s.push(x)) == Value::view_elems(s).push(x.view()),
{
    lemma_view_elems(s);
    lemma_view_elems(s.push(x));
    assert(Value::view_elems(s.push(x)) =~= Value::view_elems(s).push(x.view()));
}

/// Appending a pair appends its denotation.
pub proof fn lemma_view_pairs_push(s: Seq<(Value, Value)>, k: Value, v: Value)
    ensures
        Value::view_pairs(s.push((k, v))) == Value::view_pairs(s).push((k.view(), v.view())),
{
    lemma_view_pairs(s);
    lemma_view_pairs(s.push((k, v)));
    assert(Value::view_pairs(s.push((k, v))) =~= Value::view_pairs(s).push((k.view(), v.view())));
}

/// Building a map pair by pair is inserting the last pair into the map of
/// the rest.
pub proof fn lemma_insert_all_push(s: Seq<(Node, Node)>, k: Node, v: Node)
    ensures
        insert_all(s.push((k, v))) == insert_pair(insert_all(s), k, v),
{
    let t = s.push((k, v));
    assert(t.drop_last() =~= s);
    assert(t.last() == (k, v));
}

/// `wf_list` says exactly that each element is well-formed.
pub proof fn lemma_wf_list_index(s: Seq<Node>)
    ensures
        wf_list(s) <==> (forall|i: int| 0 <= i < s.len() ==> wf(s[i])),
    decreases s.len(),
{
    if s.len() > 0 {
        lemma_wf_list_index(s.subrange(1, s.len() as int));
        if wf(s[0]) && wf_list(s.subrange(1, s.len() as int)) {
            assert forall|i: int| 0 <= i < s.len() implies wf(s[i]) by {
                if i > 0 {
                    assert(s.subrange(1, s.len() as int)[i - 1] == s[i]);
                }
            }
        }
        if forall|i: int| 0 <= i < s.len() ==> wf(s[i]) {
            assert forall|i: int| 0 <= i < s.subrange(1, s.len() as int).len() implies wf(
                s.subrange(1, s.len() as int)[i],
            ) by {
                assert(s.subrange(1, s.len() as int)[i] == s[i + 1]);
            }
        }
    }
}

/// `wf_pairs` says exactly that each key and each value is well-formed.
pub proof fn lemma_wf_pairs_index(s: Seq<(Node, Node)>)
    ensures
        wf_pairs(s) <==> (forall|i: int| 0 <= i < s.len() ==> wf(s[i].0) && wf(s[i].1)),
    decreases s.len(),
{
    if s.len() > 0 {
        lemma_wf_pairs_index(s.subrange(1, s.len() as int));
        if wf(s[0].0) && wf(s[0].1) && wf_pairs(s.subrange(1, s.len() as int)) {
            assert forall|i: int| 0 <= i < s.len() implies wf(s[i].0) && wf(s[i].1) by {
                if i > 0 {
                    assert(s.subrange(1, s.len() as int)[i - 1] == s[i]);
                }
            }
        }
        if forall|i: int| 0 <= i < s.len() ==> wf(s[i].0) && wf(s[i].1) {
            assert forall|i: int|
                0 <= i < s.subrange(1, s.len() as int).len() implies wf(
                s.subrange(1, s.len() as int)[i].0,
            ) && wf(s.subrange(1, s.len() as int)[i].1) by {
                assert(s.subrange(1, s.len() as int)[i] == s[i + 1]);
            }
        }
    }
}

/// A head is one to nine bytes.
pub proof fn lemma_head_len(major: u8, arg: u64)
    ensures
        1 <= head(major, arg).len() <= 9,
{
}

/// Every encoding is at least one byte.
pub proof fn lemma_enc_len_pos(n: Node)
    ensures
        enc(n).len() >= 1,
{
    match n {
        Node::Int(i) => {
            if i >= 0 {
                lemma_head_len(0, i as u64);
            } else {
                lemma_head_len(1, (-1 - i) as u64);
            }
        },
        _ => {},
    }
}

/// Appending one node extends the concatenated encoding at its end.
pub proof fn lemma_enc_list_push(s: Seq<Node>, x: Node)
    ensures
        enc_list(s.push(x)) == enc_list(s) + enc(x),
    decreases s.len(),
{
    if s.len() == 0 {
        let t = s.push(x);
        assert(t[0] == x);
        assert(t.subrange(1, 1) =~= Seq::<Node>::empty());
        assert(enc_list(t) == enc(t[0]) + enc_list(t.subrange(1, 1)));
        assert(enc_list(t) =~= enc(x));
        assert(enc_list(s) + enc(x) =~= enc(x));
    } else {
        lemma_enc_list_push(s.subrange(1, s.len() as int), x);
        assert(s.push(x).subrange(1, s.len() as int + 1) =~= s.subrange(1, s.len() as int).push(x));
        assert(s.push(x)[0] == s[0]);
        assert(enc_list(s.push(x)) =~= enc_list(s) + enc(x));
    }
}

/// Appending one pair extends the concatenated encoding at its end.
pub proof fn lemma_enc_pairs_push(s: Seq<(Node, Node)>, k: Node, v: Node)
    ensures
        enc_pairs(s.push((k, v))) == enc_pairs(s) + enc(k) + enc(v),
    decreases s.len(),
{
    if s.len() == 0 {
        let t = s.push((k, v));
        assert(t[0] == (k, v));
        assert(t.subrange(1, 1) =~= Seq::<(Node, Node)>::empty());
        assert(enc_pairs(t) == enc(t[0].0) + enc(t[0].1) + enc_pairs(t.subrange(1, 1)));
        assert(enc_pairs(t) =~= enc_pairs(s) + enc(k) + enc(v));
    } else {
        lemma_enc_pairs_push(s.subrange(1, s.len() as int), k, v);
        assert(s.push((k, v)).subrange(1, s.len() as int + 1) =~= s.subrange(1, s.len() as int).push(
            (k, v),
        ));
        assert(s.push((k, v))[0] == s[0]);
        assert(enc_pairs(s.push((k, v))) =~= enc_pairs(s) + enc(k) + enc(v));
    }
}

/// Each entry of an insertion result is the new pair or one of the old ones.
pub proof fn lemma_insert_pair_elems(s: Seq<(Node, Node)>, k: Node, v: Node)
    ensures
        insert_pair(s, k, v).len() <= s.len() + 1,
        s.len() <= insert_pair(s, k, v).len(),
        forall|j: int|
            0 <= j < insert_pair(s, k, v).len() ==> insert_pair(s, k, v)[j] == (k, v)
                || s.contains(insert_pair(s, k, v)[j]),
    decreases s.len(),
{
    if s.len() > 0 && !lex_lt(enc(k), enc(s[0].0)) && enc(k) != enc(s[0].0) {
        let tail = s.subrange(1, s.len() as int);
        lemma_insert_pair_elems(tail, k, v);
        assert forall|j: int|
            0 <= j < insert_pair(s, k, v).len() implies insert_pair(s, k, v)[j] == (k, v)
            || s.contains(insert_pair(s, k, v)[j]) by {
            if j > 0 {
                let e = insert_pair(tail, k, v)[j - 1];
                assert(insert_pair(s, k, v)[j] == e);
                if e != (k, v) {
                    let i = choose|i: int| 0 <= i < tail.len() && tail[i] == e;
                    assert(s[i + 1] == e);
                }
            }
        }
    } else {
        assert forall|j: int|
            0 <= j < insert_pair(s, k, v).len() implies insert_pair(s, k, v)[j] == (k, v)
            || s.contains(insert_pair(s, k, v)[j]) by {
            if s.len() > 0 && j > 0 {
                if lex_lt(enc(k), enc(s[0].0)) {
                    assert(insert_pair(s, k, v)[j] == s[j - 1]);
                } else {
                    assert(insert_pair(s, k, v)[j] == s.subrange(1, s.len() as int)[j - 1]);
                    assert(insert_pair(s, k, v)[j] == s[j]);
                }
            }
        }
    }
}

/// Inserting a pair keeps the entries sorted.
pub proof fn lemma_insert_pair_sorted(s: Seq<(Node, Node)>, k: Node, v: Node)
    requires
        sorted_keys(s),
    ensures
        sorted_keys(insert_pair(s, k, v)),
    decreases s.len(),
{
    let r = insert_pair(s, k, v);
    if s.len() == 0 {
    } else if lex_lt(enc(k), enc(s[0].0)) {
        assert forall|i: int, j: int| 0 <= i < j < r.len() implies key_lt(r[i].0, r[j].0) by {
            if i == 0 {
                assert(r[j] == s[j - 1]);
                if j == 1 {
                } else {
                    assert(key_lt(s[0].0, s[j - 1].0));
                    lemma_lex_trans(enc(k), enc(s[0].0), enc(s[j - 1].0));
                }
            } else {
                assert(r[i] == s[i - 1] && r[j] == s[j - 1]);
            }
        }
    } else if enc(k) == enc(s[0].0) {
        let tail = s.subrange(1, s.len() as int);
        assert forall|i: int, j: int| 0 <= i < j < r.len() implies key_lt(r[i].0, r[j].0) by {
            if i == 0 {
                assert(r[j] == tail[j - 1] && tail[j - 1] == s[j]);
                assert(key_lt(s[0].0, s[j].0));
            } else {
                assert(r[i] == s[i] && r[j] == s[j]);
            }
        }
    } else {
        let tail = s.subrange(1, s.len() as int);
        assert forall|i: int, j: int|
            0 <= i < j < tail.len() implies key_lt(tail[i].0, tail[j].0) by {
            assert(tail[i] == s[i + 1] && tail[j] == s[j + 1]);
        }
        lemma_insert_pair_sorted(tail, k, v);
        lemma_insert_pair_elems(tail, k, v);
        if !lex_lt(enc(s[0].0), enc(k)) {
            lemma_lex_connect(enc(k), enc(s[0].0));
        }
        assert(key_lt(s[0].0, k));
        assert forall|i: int, j: int| 0 <= i < j < r.len() implies key_lt(r[i].0, r[j].0) by {
            if i == 0 {
                let e = insert_pair(tail, k, v)[j - 1];
                assert(r[j] == e);
                if e == (k, v) {
                } else {
                    let t = choose|t: int| 0 <= t < tail.len() && tail[t] == e;
                    assert(s[t + 1] == e);
                    assert(key_lt(s[0].0, s[t + 1].0));
                }
            } else {
                assert(r[i] == insert_pair(tail, k, v)[i - 1]);
                assert(r[j] == insert_pair(tail, k, v)[j - 1]);
            }
        }
    }
}

/// Inserting a well-formed pair among well-formed pairs leaves all well-formed.
pub proof fn lemma_insert_pair_wf(s: Seq<(Node, Node)>, k: Node, v: Node)
    requires
        wf_pairs(s),
        wf(k),
        wf(v),
    ensures
        wf_pairs(insert_pair(s, k, v)),
{
    let r = insert_pair(s, k, v);
    lemma_insert_pair_elems(s, k, v);
    lemma_wf_pairs_index(s);
    lemma_wf_pairs_index(r);
    assert forall|i: int| 0 <= i < r.len() implies wf(r[i].0) && wf(r[i].1) by {
        if r[i] != (k, v) {
            let t = choose|t: int| 0 <= t < s.len() && s[t] == r[i];
        }
    }
}

/// A pair whose key is above every key of the entries lands at their end.
pub proof fn lemma_insert_pair_append(s: Seq<(Node, Node)>, k: Node, v: Node)
    requires
        forall|i: int| 0 <= i < s.len() ==> key_lt(s[i].0, k),
    ensures
        insert_pair(s, k, v) == s + seq![(k, v)],
    decreases s.len(),
{
    if s.len() == 0 {
        assert(insert_pair(s, k, v) =~= s + seq![(k, v)]);
    } else {
        lemma_lex_asym(enc(s[0].0), enc(k));
        lemma_lex_irrefl(enc(k));
        let tail = s.subrange(1, s.len() as int);
        assert forall|i: int| 0 <= i < tail.len() implies key_lt(tail[i].0, k) by {
            assert(tail[i] == s[i + 1]);
        }
        lemma_insert_pair_append(tail, k, v);
        assert(insert_pair(s, k, v) =~= s + seq![(k, v)]);
    }
}

/// Inserting entries that already stand in strictly ascending key order
/// rebuilds exactly those entries.
pub proof fn lemma_insert_all_sorted_id(s: Seq<(Node, Node)>)
    requires
        sorted_keys(s),
    ensures
        insert_all(s) == s,
    decreases s.len(),
{
    if s.len() > 0 {
        let front = s.drop_last();
        assert(sorted_keys(front));
        lemma_insert_all_sorted_id(front);
        assert forall|i: int| 0 <= i < front.len() implies key_lt(front[i].0, s.last().0) by {
            assert(front[i] == s[i]);
        }
        lemma_insert_pair_append(front, s.last().0, s.last().1);
        assert(insert_all(s) =~= s);
    }
}

/// What ordered insertion builds is a sorted, well-formed entry sequence,
/// no longer than what went in.
pub proof fn lemma_insert_all_props(s: Seq<(Node, Node)>)
    requires
        wf_pairs(s),
    ensures
        sorted_keys(insert_all(s)),
        wf_pairs(insert_all(s)),
        insert_all(s).len() <= s.len(),
    decreases s.len(),
{
    if s.len() > 0 {
        let front = s.drop_last();
        lemma_wf_pairs_index(s);
        lemma_wf_pairs_index(front);
        assert forall|i: int| 0 <= i < front.len() implies wf(front[i].0) && wf(front[i].1) by {
            assert(front[i] == s[i]);
        }
        lemma_insert_all_props(front);
        lemma_insert_pair_sorted(insert_all(front), s.last().0, s.last().1);
        lemma_insert_pair_wf(insert_all(front), s.last().0, s.last().1);
        lemma_insert_pair_elems(insert_all(front), s.last().0, s.last().1);
    }
}

} // verus!
