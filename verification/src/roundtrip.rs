//! The codec's central laws: decoding inverts encoding, the encoding is
//! injective on well-formed values, and a map's encoding depends only on
//! which key-value pairs it holds, not on any insertion order.
use vstd::prelude::*;

use crate::lemmas::lemma_enc_len_pos;
use crate::lemmas::lemma_insert_all_sorted_id;
use crate::lemmas::lemma_lex_irrefl;
use crate::lemmas::lemma_subrange_split;
use crate::lemmas::lemma_lex_asym;
use crate::model::Node;
use crate::model::Parsed;
use crate::model::be8;
use crate::model::dec;
use crate::model::dec_head;
use crate::model::dec_list;
use crate::model::dec_pairs;
use crate::model::enc;
use crate::model::enc_list;
use crate::model::enc_pairs;
use crate::model::head;
use crate::model::key_lt;
use crate::model::sorted_keys;
use crate::model::wf;
use crate::model::wf_list;
use crate::model::wf_pairs;

verus! {

broadcast use vstd::std_specs::vec::group_vec_axioms, vstd::seq::group_seq_axioms;

/// The additional information a minimal head carries for this argument.
pub open spec fn head_ai(arg: u64) -> u8 {
    if arg < 24 {
        arg as u8
    } else if arg <= 0xff {
        24
    } else if arg <= 0xffff {
        25
    } else if arg <= 0xffff_ffff {
        26
    } else {
        27
    }
}

/// Reading a head back from where a minimal head was written yields the
/// major type and argument it was written with.
proof fn lemma_dec_head_enc(major: u8, arg: u64, b: Seq<u8>, pos: int)
    requires
        major < 8,
        0 <= pos,
        pos + head(major, arg).len() <= b.len(),
        b.subrange(pos, pos + head(major, arg).len() as int) == head(major, arg),
    ensures
        dec_head(b, pos) == Parsed::Found(
            (major, head_ai(arg), arg),
            pos + head(major, arg).len(),
        ),
{
    let hd = head(major, arg);
    assert(b[pos] == hd[0]);
    if arg < 24 {
        assert((((major << 5) | ((arg & 0x1f) as u8)) >> 5) == major && (((major << 5) | ((arg
            & 0x1f) as u8)) & 0x1f) == ((arg & 0x1f) as u8) && ((arg & 0x1f) as u8) < 24 && (((arg
            & 0x1f) as u8) as u64) == arg) by (bit_vector)
            requires
                major < 8,
                arg < 24,
        ;
    } else if arg <= 0xff {
        assert(b[pos + 1] == hd[1]);
        assert((((major << 5) | 24) >> 5) == major && (((major << 5) | 24) & 0x1f) == 24 && (((arg
            & 0xff) as u8) as u64) == arg) by (bit_vector)
            requires
                major < 8,
                arg <= 0xff,
        ;
    } else if arg <= 0xffff {
        assert(b[pos + 1] == hd[1] && b[pos + 2] == hd[2]);
        assert((((major << 5) | 25) >> 5) == major && (((major << 5) | 25) & 0x1f) == 25 && (((((
        arg >> 8) & 0xff) as u8) as u64) << 8 | ((((arg) & 0xff) as u8) as u64)) == arg) by (bit_vector)
            requires
                major < 8,
                arg <= 0xffff,
        ;
        assert(hd[1] == ((arg >> 8) & 0xff) as u8 && hd[2] == (arg & 0xff) as u8);
    } else if arg <= 0xffff_ffff {
        assert(b[pos + 1] == hd[1] && b[pos + 2] == hd[2] && b[pos + 3] == hd[3] && b[pos + 4]
            == hd[4]);
        assert((((major << 5) | 26) >> 5) == major && (((major << 5) | 26) & 0x1f) == 26 && (((((
        arg >> 24) & 0xff) as u8) as u64) << 24 | ((((arg >> 16) & 0xff) as u8) as u64) << 16 | ((((
        arg >> 8) & 0xff) as u8) as u64) << 8 | (((arg & 0xff) as u8) as u64)) == arg) by (bit_vector)
            requires
                major < 8,
                arg <= 0xffff_ffff,
        ;
    } else {
        assert(b[pos + 1] == hd[1] && b[pos + 2] == hd[2] && b[pos + 3] == hd[3] && b[pos + 4]
            == hd[4] && b[pos + 5] == hd[5] && b[pos + 6] == hd[6] && b[pos + 7] == hd[7] && b[pos
            + 8] == hd[8]);
        assert((((major << 5) | 27) >> 5) == major && (((major << 5) | 27) & 0x1f) == 27 && (((((
        arg >> 56) & 0xff) as u8) as u64) << 56 | ((((arg >> 48) & 0xff) as u8) as u64) << 48 | ((((
        arg >> 40) & 0xff) as u8) as u64) << 40 | ((((arg >> 32) & 0xff) as u8) as u64) << 32 | ((((
        arg >> 24) & 0xff) as u8) as u64) << 24 | ((((arg >> 16) & 0xff) as u8) as u64) << 16 | ((((
        arg >> 8) & 0xff) as u8) as u64) << 8 | (((arg & 0xff) as u8) as u64)) == arg) by (bit_vector)
            requires
                major < 8,
                arg > 0xffff_ffff,
        ;
    }
}

/// Reading back an eight-byte float payload yields its bit pattern.
proof fn lemma_dec_float_enc(bits: u64, b: Seq<u8>, pos: int)
    requires
        0 <= pos,
        pos + 9 <= b.len(),
        b.subrange(pos, pos + 9) == seq![0xfbu8] + be8(bits),
    ensures
        dec_head(b, pos) == Parsed::Found((7u8, 27u8, bits), pos + 9),
{
    let hd = seq![0xfbu8] + be8(bits);
    assert(b[pos] == hd[0]);
    assert(b[pos + 1] == hd[1] && b[pos + 2] == hd[2] && b[pos + 3] == hd[3] && b[pos + 4] == hd[4]
        && b[pos + 5] == hd[5] && b[pos + 6] == hd[6] && b[pos + 7] == hd[7] && b[pos + 8]
        == hd[8]);
    assert((0xfbu8 >> 5) == 7 && (0xfbu8 & 0x1f) == 27 && ((((bits >> 56) & 0xff) as u8) as u64)
        << 56 | ((((bits >> 48) & 0xff) as u8) as u64) << 48 | ((((bits >> 40) & 0xff) as u8) as u64)
        << 40 | ((((bits >> 32) & 0xff) as u8) as u64) << 32 | ((((bits >> 24)
        & 0xff) as u8) as u64) << 24 | ((((bits >> 16) & 0xff) as u8) as u64) << 16 | ((((bits >> 8)
        & 0xff) as u8) as u64) << 8 | (((bits & 0xff) as u8) as u64) == bits) by (bit_vector);
}

/// Decoding from where a well-formed node was encoded yields that node and
/// stops just past its bytes, whatever surrounds them.
pub proof fn lemma_dec_enc(n: Node, b: Seq<u8>, pos: int)
    requires
        wf(n),
        0 <= pos,
        pos + enc(n).len() <= b.len(),
        b.subrange(pos, pos + enc(n).len() as int) == enc(n),
    ensures
        dec(b, pos) == Parsed::Found(n, pos + enc(n).len()),
    decreases n,
{
    let e = enc(n);
    match n {
        Node::Null => {
            assert(b[pos] == e[0]);
            assert((0xf6u8 >> 5) == 7 && (0xf6u8 & 0x1f) == 22) by (bit_vector);
        },
        Node::Bool(v) => {
            assert(b[pos] == e[0]);
            assert((0xf4u8 >> 5) == 7 && (0xf4u8 & 0x1f) == 20) by (bit_vector);
            assert((0xf5u8 >> 5) == 7 && (0xf5u8 & 0x1f) == 21) by (bit_vector);
        },
        Node::Int(i) => {
            if i >= 0 {
                lemma_dec_head_enc(0, i as u64, b, pos);
                assert((i as u64) as int == i);
            } else {
                lemma_dec_head_enc(1, (-1 - i) as u64, b, pos);
                assert(((-1 - i) as u64) as int == -1 - i);
            }
        },
        Node::Float(bits) => {
            lemma_dec_float_enc(bits, b, pos);
        },
        Node::Bytes(payload) => {
            let hd = head(2, payload.len() as u64);
            lemma_subrange_split(b, pos, hd, payload);
            lemma_dec_head_enc(2, payload.len() as u64, b, pos);
        },
        Node::Text(t) => {
            let eu = vstd::utf8::encode_utf8(t);
            let hd = head(3, eu.len() as u64);
            lemma_subrange_split(b, pos, hd, eu);
            lemma_dec_head_enc(3, eu.len() as u64, b, pos);
            vstd::utf8::encode_utf8_valid_utf8(t);
            vstd::utf8::encode_utf8_decode_utf8(t);
        },
        Node::Array(elems) => {
            let hd = head(4, elems.len() as u64);
            lemma_subrange_split(b, pos, hd, enc_list(elems));
            lemma_dec_head_enc(4, elems.len() as u64, b, pos);
            let p1 = pos + hd.len() as int;
            assert((elems.len() as u64) as int == elems.len() as int);
            lemma_dec_enc_list(elems, b, p1);
        },
        Node::Mapping(entries) => {
            let hd = head(5, entries.len() as u64);
            lemma_subrange_split(b, pos, hd, enc_pairs(entries));
            lemma_dec_head_enc(5, entries.len() as u64, b, pos);
            let p1 = pos + hd.len() as int;
            assert((entries.len() as u64) as int == entries.len() as int);
            lemma_dec_enc_pairs(entries, b, p1);
            lemma_insert_all_sorted_id(entries);
        },
    }
}

/// Decoding a count of items from where they were encoded one after the
/// other yields exactly those items.
proof fn lemma_dec_enc_list(s: Seq<Node>, b: Seq<u8>, pos: int)
    requires
        wf_list(s),
        0 <= pos,
        pos + enc_list(s).len() <= b.len(),
        b.subrange(pos, pos + enc_list(s).len() as int) == enc_list(s),
    ensures
        dec_list(b, pos, s.len() as int) == Parsed::Found(s, pos + enc_list(s).len()),
    decreases s,
{
    if s.len() == 0 {
        assert(s =~= Seq::<Node>::empty());
    } else {
        let e0 = enc(s[0]);
        let tail = s.subrange(1, s.len() as int);
        let rest = enc_list(tail);
        assert(enc_list(s) == e0 + rest);
        lemma_subrange_split(b, pos, e0, rest);
        lemma_dec_enc(s[0], b, pos);
        lemma_enc_len_pos(s[0]);
        let p2 = pos + e0.len() as int;
        lemma_dec_enc_list(tail, b, p2);
        let c = s.len() as int;
        assert(dec(b, pos) == Parsed::Found(s[0], p2));
        assert(pos < p2 <= b.len());
        assert(tail.len() as int == c - 1);
        assert(dec_list(b, p2, c - 1) == Parsed::Found(tail, p2 + rest.len()));
        assert(dec_list(b, pos, c) == Parsed::Found(seq![s[0]] + tail, p2 + rest.len()));
        assert(seq![s[0]] + tail =~= s);
        assert(pos + enc_list(s).len() == p2 + rest.len());
    }
}

/// Decoding a count of pairs from where they were encoded key then value
/// yields exactly those pairs, in their order.
proof fn lemma_dec_enc_pairs(s: Seq<(Node, Node)>, b: Seq<u8>, pos: int)
    requires
        wf_pairs(s),
        0 <= pos,
        pos + enc_pairs(s).len() <= b.len(),
        b.subrange(pos, pos + enc_pairs(s).len() as int) == enc_pairs(s),
    ensures
        dec_pairs(b, pos, s.len() as int) == Parsed::Found(s, pos + enc_pairs(s).len()),
    decreases s,
{
    if s.len() == 0 {
        assert(s =~= Seq::<(Node, Node)>::empty());
    } else {
        let ek = enc(s[0].0);
        let ev = enc(s[0].1);
        let tail = s.subrange(1, s.len() as int);
        let rest = enc_pairs(tail);
        assert(enc_pairs(s) =~= ek + ev + rest);
        assert(ek + ev + rest =~= (ek + ev) + rest);
        lemma_subrange_split(b, pos, ek + ev, rest);
        assert(b.subrange(pos, pos + (ek + ev).len() as int) == ek + ev);
        lemma_subrange_split(b, pos, ek, ev);
        lemma_dec_enc(s[0].0, b, pos);
        lemma_enc_len_pos(s[0].0);
        let p2 = pos + ek.len() as int;
        lemma_dec_enc(s[0].1, b, p2);
        lemma_enc_len_pos(s[0].1);
        let p3 = p2 + ev.len() as int;
        lemma_dec_enc_pairs(tail, b, p3);
        let c = s.len() as int;
        assert(dec(b, pos) == Parsed::Found(s[0].0, p2));
        assert(dec(b, p2) == Parsed::Found(s[0].1, p3));
        assert(pos < p2 < p3 <= b.len());
        assert(tail.len() as int == c - 1);
        assert(dec_pairs(b, p3, c - 1) == Parsed::Found(tail, p3 + rest.len()));
        assert(dec_pairs(b, pos, c) == Parsed::Found(seq![s[0]] + tail, p3 + rest.len()));
        assert(seq![s[0]] + tail =~= s);
        assert(pos + enc_pairs(s).len() == p3 + rest.len());
    }
}

/// Round trip: the canonical encoding of every well-formed value decodes
/// back to exactly that value, consuming all of its bytes. Together with
/// the contracts of `encode` and `decode`, this says that
/// `decode(encode(v))` returns `Ok` of a value denoting the same node tree
/// as `v`.
pub proof fn lemma_round_trip(n: Node)
    requires
        wf(n),
    ensures
        dec(enc(n), 0) == Parsed::Found(n, enc(n).len() as int),
{
    let e = enc(n);
    assert(e.subrange(0, e.len() as int) =~= e);
    lemma_dec_enc(n, e, 0);
}

/// The canonical encoding is one-to-one on well-formed values.
pub proof fn lemma_enc_injective(a: Node, b: Node)
    requires
        wf(a),
        wf(b),
        enc(a) == enc(b),
    ensures
        a == b,
{
    lemma_round_trip(a);
    lemma_round_trip(b);
}

/// Minimal-length encoding: how many bytes an unsigned integer's canonical
/// encoding takes, stepping up exactly at each width boundary.
pub proof fn lemma_minimal_int_length(x: int)
    requires
        0 <= x < crate::model::u64_bound(),
    ensures
        x <= 23 ==> enc(Node::Int(x)).len() == 1,
        24 <= x <= 0xff ==> enc(Node::Int(x)).len() == 2,
        0x100 <= x <= 0xffff ==> enc(Node::Int(x)).len() == 3,
        0x1_0000 <= x <= 0xffff_ffff ==> enc(Node::Int(x)).len() == 5,
        0x1_0000_0000 <= x ==> enc(Node::Int(x)).len() == 9,
{
    assert((x as u64) as int == x);
}

/// The finite map a sequence of key-value pairs denotes, a later pair with
/// the same key replacing an earlier one.
pub open spec fn entries_map(s: Seq<(Node, Node)>) -> Map<Node, Node>
    decreases s.len(),
{
    if s.len() == 0 {
        Map::empty()
    } else {
        entries_map(s.drop_last()).insert(s.last().0, s.last().1)
    }
}

/// What the denoted map holds: exactly the keys of the sequence, each at
/// the value it was paired with (keys here are distinct).
proof fn lemma_entries_map_index(s: Seq<(Node, Node)>)
    requires
        sorted_keys(s),
    ensures
        forall|k: Node| #[trigger]
            entries_map(s).dom().contains(k) <==> exists|i: int|
                0 <= i < s.len() && s[i].0 == k,
        forall|i: int|
            0 <= i < s.len() ==> #[trigger] entries_map(s)[s[i].0] == s[i].1,
    decreases s.len(),
{
    if s.len() > 0 {
        let front = s.drop_last();
        let lastk = s.last().0;
        assert(sorted_keys(front));
        lemma_entries_map_index(front);
        assert forall|i: int| 0 <= i < s.len() implies #[trigger] entries_map(s)[s[i].0]
            == s[i].1 by {
            if i < s.len() - 1 {
                assert(key_lt(s[i].0, lastk));
                lemma_lex_irrefl(enc(s[i].0));
                assert(s[i].0 != lastk);
                assert(front[i] == s[i]);
                assert(entries_map(front)[front[i].0] == front[i].1);
            }
        }
        assert forall|k: Node|
            #[trigger] entries_map(s).dom().contains(k) implies exists|i: int|
            0 <= i < s.len() && s[i].0 == k by {
            if k != lastk {
                assert(entries_map(front).dom().contains(k));
                let i = choose|i: int| 0 <= i < front.len() && front[i].0 == k;
                assert(s[i] == front[i]);
                assert(0 <= i < s.len() && s[i].0 == k);
            } else {
                assert(s[s.len() - 1].0 == k);
            }
        }
        assert forall|k: Node|
            (exists|i: int| 0 <= i < s.len() && s[i].0 == k) implies #[trigger] entries_map(
            s,
        ).dom().contains(k) by {
            let i = choose|i: int| 0 <= i < s.len() && s[i].0 == k;
            if i < s.len() - 1 {
                assert(front[i] == s[i]);
                assert(0 <= i < front.len() && front[i].0 == k);
                assert(entries_map(front).dom().contains(k));
            }
        }
    }
}

/// Map canonicalization: two sorted entry sequences that denote the same
/// finite map are the same sequence, so the values holding them encode to
/// identical bytes. Entries arriving in any insertion order pass through
/// ordered insertion, so a map's bytes depend only on which pairs it holds.
pub proof fn lemma_mapping_encoding_canonical(m1: Seq<(Node, Node)>, m2: Seq<(Node, Node)>)
    requires
        sorted_keys(m1),
        sorted_keys(m2),
        entries_map(m1) == entries_map(m2),
    ensures
        m1 == m2,
        enc(Node::Mapping(m1)) == enc(Node::Mapping(m2)),
    decreases m1.len() + m2.len(),
{
    lemma_entries_map_index(m1);
    lemma_entries_map_index(m2);
    if m1.len() == 0 && m2.len() == 0 {
        assert(m1 =~= m2);
    } else if m1.len() == 0 {
        assert(entries_map(m2).dom().contains(m2.last().0));
        assert(entries_map(m1).dom().contains(m2.last().0));
        assert(false);
    } else if m2.len() == 0 {
        assert(entries_map(m1).dom().contains(m1.last().0));
        assert(entries_map(m2).dom().contains(m1.last().0));
        assert(false);
    } else {
        let k1 = m1.last().0;
        let k2 = m2.last().0;
        assert(entries_map(m1).dom().contains(k1));
        assert(entries_map(m2).dom().contains(k2));
        assert(entries_map(m2).dom().contains(k1));
        assert(entries_map(m1).dom().contains(k2));
        let j = choose|j: int| 0 <= j < m2.len() && m2[j].0 == k1;
        let i = choose|i: int| 0 <= i < m1.len() && m1[i].0 == k2;
        if j < m2.len() - 1 && i < m1.len() - 1 {
            assert(key_lt(m2[j].0, k2));
            assert(key_lt(m1[i].0, k1));
            lemma_lex_asym(enc(k1), enc(k2));
            assert(false);
        }
        assert(k1 == k2);
        assert(entries_map(m1)[m1[m1.len() - 1].0] == m1[m1.len() - 1].1);
        assert(entries_map(m2)[m2[m2.len() - 1].0] == m2[m2.len() - 1].1);
        assert(m1.last().1 == m2.last().1);
        let f1 = m1.drop_last();
        let f2 = m2.drop_last();
        assert(sorted_keys(f1));
        assert(sorted_keys(f2));
        lemma_entries_map_index(f1);
        lemma_entries_map_index(f2);
        assert forall|k: Node|
            #[trigger] entries_map(f1).dom().contains(k) implies entries_map(f2).dom().contains(k)
            && entries_map(f1)[k] == entries_map(f2)[k] by {
            let t = choose|t: int| 0 <= t < f1.len() && f1[t].0 == k;
            assert(key_lt(f1[t].0, k1));
            lemma_lex_irrefl(enc(k));
            assert(k != k1);
            assert(m1[t] == f1[t]);
            assert(0 <= t < m1.len() && m1[t].0 == k);
            assert(entries_map(m1).dom().contains(k));
            assert(entries_map(m2).dom().contains(k));
            let u = choose|u: int| 0 <= u < m2.len() && m2[u].0 == k;
            assert(u < m2.len() - 1);
            assert(f2[u] == m2[u]);
            assert(0 <= u < f2.len() && f2[u].0 == k);
            assert(entries_map(f2).dom().contains(k));
            assert(entries_map(f1)[f1[t].0] == f1[t].1);
            assert(entries_map(m1)[m1[t].0] == m1[t].1);
            assert(entries_map(f2)[f2[u].0] == f2[u].1);
            assert(entries_map(m2)[m2[u].0] == m2[u].1);
        }
        assert forall|k: Node|
            #[trigger] entries_map(f2).dom().contains(k) implies entries_map(f1).dom().contains(
            k,
        ) by {
            let t = choose|t: int| 0 <= t < f2.len() && f2[t].0 == k;
            assert(key_lt(f2[t].0, k1));
            lemma_lex_irrefl(enc(k));
            assert(k != k1);
            assert(m2[t] == f2[t]);
            assert(0 <= t < m2.len() && m2[t].0 == k);
            assert(entries_map(m2).dom().contains(k));
            assert(entries_map(m1).dom().contains(k));
            let u = choose|u: int| 0 <= u < m1.len() && m1[u].0 == k;
            assert(u < m1.len() - 1);
            assert(f1[u] == m1[u]);
            assert(0 <= u < f1.len() && f1[u].0 == k);
            assert(entries_map(f1).dom().contains(k));
        }
        assert(entries_map(f1).dom() =~= entries_map(f2).dom());
        assert(entries_map(f1) =~= entries_map(f2));
        lemma_mapping_encoding_canonical(f1, f2);
        assert forall|t: int| 0 <= t < m1.len() implies m1[t] == m2[t] by {
            if t < m1.len() - 1 {
                assert(m1[t] == f1[t]);
                assert(m2[t] == f2[t]);
            }
        }
        assert(m1 =~= m2);
    }
}

} // verus!
