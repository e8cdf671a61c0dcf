//! The CBOR value model: the executable tagged union `Value`, its
//! mathematical mirror `Node`, and well-formedness.
//!
//! This crate uses the unified value design: one signed integer variant wide
//! enough for every CBOR integer (major types 0 and 1), so mapping keys are
//! full values. Floats are carried as their raw IEEE 754 bit pattern, which
//! the codec treats as an opaque 64-bit quantity.
use vstd::prelude::*;

verus! {

broadcast use vstd::std_specs::vec::group_vec_axioms, vstd::seq::group_seq_axioms;

/// A CBOR data item.
#[derive(Debug, PartialEq, Eq)]
pub enum Value {
    /// The null simple value.
    Null,
    /// A boolean simple value.
    Bool(bool),
    /// An integer in the range `-2^64 ..= 2^64 - 1` (major types 0 and 1).
    Integer(i128),
    /// A 64-bit IEEE 754 float, carried as its bit pattern.
    Float(u64),
    /// A byte string.
    Bytes(Vec<u8>),
    /// A UTF-8 text string.
    Text(String),
    /// A heterogeneous array of values.
    Array(Vec<Value>),
    /// A map; entries are kept sorted by the canonical key order.
    Mapping(Vec<(Value, Value)>),
}

/// The mathematical shape of a CBOR data item: what a `Value` denotes.
pub enum Node {
    Null,
    Bool(bool),
    Int(int),
    Float(u64),
    Bytes(Seq<u8>),
    Text(Seq<char>),
    Array(Seq<Node>),
    Mapping(Seq<(Node, Node)>),
}

impl Value {
    /// The mathematical value this tree denotes.
    pub open spec fn view(self) -> Node
        decreases self,
    {
        match self {
            Value::Null => Node::Null,
            Value::Bool(b) => Node::Bool(b),
            Value::Integer(i) => Node::Int(i as int),
            Value::Float(bits) => Node::Float(bits),
            Value::Bytes(b) => Node::Bytes(b@),
            Value::Text(s) => Node::Text(s@),
            Value::Array(a) => {
                proof {
                    assert(decreases_to!(self => a));
                }
                Node::Array(Self::view_elems(a@))
            },
            Value::Mapping(m) => {
                proof {
                    assert(decreases_to!(self => m));
                }
                Node::Mapping(Self::view_pairs(m@))
            },
        }
    }

    /// The denotations of a sequence of values, element by element.
    pub open spec fn view_elems(s: Seq<Value>) -> Seq<Node>
        decreases s,
    {
        if s.len() == 0 {
            Seq::empty()
        } else {
            seq![s[0].view()] + Self::view_elems(s.subrange(1, s.len() as int))
        }
    }

    /// The denotations of a sequence of entry pairs, pair by pair.
    pub open spec fn view_pairs(s: Seq<(Value, Value)>) -> Seq<(Node, Node)>
        decreases s,
    {
        if s.len() == 0 {
            Seq::empty()
        } else {
            seq![(s[0].0.view(), s[0].1.view())] + Self::view_pairs(s.subrange(1, s.len() as int))
        }
    }
}

/// One more than the largest argument a CBOR head can carry.
pub open spec fn u64_bound() -> int {
    0x1_0000_0000_0000_0000
}

/// Big-endian bytes of the low 16 bits of `x`.
pub open spec fn be2(x: u64) -> Seq<u8> {
    seq![((x >> 8) & 0xff) as u8, (x & 0xff) as u8]
}

/// Big-endian bytes of the low 32 bits of `x`.
pub open spec fn be4(x: u64) -> Seq<u8> {
    seq![
        ((x >> 24) & 0xff) as u8,
        ((x >> 16) & 0xff) as u8,
        ((x >> 8) & 0xff) as u8,
        (x & 0xff) as u8,
    ]
}

/// Big-endian bytes of `x`.
pub open spec fn be8(x: u64) -> Seq<u8> {
    seq![
        ((x >> 56) & 0xff) as u8,
        ((x >> 48) & 0xff) as u8,
        ((x >> 40) & 0xff) as u8,
        ((x >> 32) & 0xff) as u8,
        ((x >> 24) & 0xff) as u8,
        ((x >> 16) & 0xff) as u8,
        ((x >> 8) & 0xff) as u8,
        (x & 0xff) as u8,
    ]
}

/// The minimal-length CBOR head for the given major type and argument:
/// the shortest additional-information form that carries `arg` exactly.
pub open spec fn head(major: u8, arg: u64) -> Seq<u8> {
    if arg < 24 {
        seq![(major << 5) | ((arg & 0x1f) as u8)]
    } else if arg <= 0xff {
        seq![(major << 5) | 24] + seq![(arg & 0xff) as u8]
    } else if arg <= 0xffff {
        seq![(major << 5) | 25] + be2(arg)
    } else if arg <= 0xffff_ffff {
        seq![(major << 5) | 26] + be4(arg)
    } else {
        seq![(major << 5) | 27] + be8(arg)
    }
}

/// The canonical encoding of a node: minimal-length heads throughout, and
/// a map's entries emitted in the order they are held (well-formedness keeps
/// them sorted by the canonical key order).
pub open spec fn enc(n: Node) -> Seq<u8>
    decreases n,
{
    match n {
        Node::Null => seq![0xf6u8],
        Node::Bool(b) => if b {
            seq![0xf5u8]
        } else {
            seq![0xf4u8]
        },
        Node::Int(i) => if i >= 0 {
            head(0, i as u64)
        } else {
            head(1, (-1 - i) as u64)
        },
        Node::Float(bits) => seq![0xfbu8] + be8(bits),
        Node::Bytes(b) => head(2, b.len() as u64) + b,
        Node::Text(t) => head(3, vstd::utf8::encode_utf8(t).len() as u64) + vstd::utf8::encode_utf8(
            t,
        ),
        Node::Array(elems) => head(4, elems.len() as u64) + enc_list(elems),
        Node::Mapping(entries) => head(5, entries.len() as u64) + enc_pairs(entries),
    }
}

/// The concatenated encodings of a sequence of nodes.
pub open spec fn enc_list(s: Seq<Node>) -> Seq<u8>
    decreases s,
{
    if s.len() == 0 {
        Seq::empty()
    } else {
        enc(s[0]) + enc_list(s.subrange(1, s.len() as int))
    }
}

/// The concatenated encodings of a sequence of entry pairs, key then value.
pub open spec fn enc_pairs(s: Seq<(Node, Node)>) -> Seq<u8>
    decreases s,
{
    if s.len() == 0 {
        Seq::empty()
    } else {
        enc(s[0].0) + enc(s[0].1) + enc_pairs(s.subrange(1, s.len() as int))
    }
}

/// Strict bytewise lexicographic order on byte sequences.
pub open spec fn lex_lt(a: Seq<u8>, b: Seq<u8>) -> bool
    decreases a.len(),
{
    if b.len() == 0 {
        false
    } else if a.len() == 0 {
        true
    } else if a[0] < b[0] {
        true
    } else if a[0] > b[0] {
        false
    } else {
        lex_lt(a.subrange(1, a.len() as int), b.subrange(1, b.len() as int))
    }
}

/// The canonical key order: keys compare by the bytes of their canonical
/// encodings, lexicographically.
pub open spec fn key_lt(a: Node, b: Node) -> bool {
    lex_lt(enc(a), enc(b))
}

/// Map entries stand in strictly ascending canonical key order.
pub open spec fn sorted_keys(s: Seq<(Node, Node)>) -> bool {
    forall|i: int, j: int| 0 <= i < j < s.len() ==> key_lt(s[i].0, s[j].0)
}

/// A well-formed node: every integer lies in the CBOR integer range, every
/// length fits the wire format's 64-bit argument, and every map is sorted
/// by the canonical key order (so its keys are distinct).
pub open spec fn wf(n: Node) -> bool
    decreases n,
{
    match n {
        Node::Null => true,
        Node::Bool(_) => true,
        Node::Int(i) => -u64_bound() <= i < u64_bound(),
        Node::Float(_) => true,
        Node::Bytes(b) => b.len() < u64_bound(),
        Node::Text(t) => vstd::utf8::encode_utf8(t).len() < u64_bound(),
        Node::Array(elems) => elems.len() < u64_bound() && wf_list(elems),
        Node::Mapping(entries) => entries.len() < u64_bound() && wf_pairs(entries) && sorted_keys(
            entries,
        ),
    }
}

/// Every node of the sequence is well-formed.
pub open spec fn wf_list(s: Seq<Node>) -> bool
    decreases s,
{
    s.len() == 0 || (wf(s[0]) && wf_list(s.subrange(1, s.len() as int)))
}

/// Every key and value of the sequence is well-formed.
pub open spec fn wf_pairs(s: Seq<(Node, Node)>) -> bool
    decreases s,
{
    s.len() == 0 || (wf(s[0].0) && wf(s[0].1) && wf_pairs(s.subrange(1, s.len() as int)))
}

/// Insertion into a key-sorted entry sequence: the new entry lands at its
/// ordered position, and on an equal key the new value replaces the old one.
pub open spec fn insert_pair(s: Seq<(Node, Node)>, k: Node, v: Node) -> Seq<(Node, Node)>
    decreases s.len(),
{
    if s.len() == 0 {
        seq![(k, v)]
    } else if lex_lt(enc(k), enc(s[0].0)) {
        seq![(k, v)] + s
    } else if enc(k) == enc(s[0].0) {
        seq![(k, v)] + s.subrange(1, s.len() as int)
    } else {
        seq![s[0]] + insert_pair(s.subrange(1, s.len() as int), k, v)
    }
}

/// The map built by inserting the pairs one after the other, first to last.
pub open spec fn insert_all(s: Seq<(Node, Node)>) -> Seq<(Node, Node)>
    decreases s.len(),
{
    if s.len() == 0 {
        Seq::empty()
    } else {
        insert_pair(insert_all(s.drop_last()), s.last().0, s.last().1)
    }
}

/// The outcome of parsing at a position: an item and the position after it,
/// or the way the bytes fall short.
pub enum Parsed<T> {
    /// A complete item, and the index just past its last byte.
    Found(T, int),
    /// The bytes end before the item does.
    End,
    /// A head outside the supported profile: a reserved or indefinite-length
    /// form, a tag, or an unsupported simple or float width.
    Unsup,
    /// A text string whose bytes are not valid UTF-8.
    BadText,
}

/// The big-endian 16-bit value at `pos`.
pub open spec fn read_be2(b: Seq<u8>, pos: int) -> u64 {
    ((b[pos] as u64) << 8) | (b[pos + 1] as u64)
}

/// The big-endian 32-bit value at `pos`.
pub open spec fn read_be4(b: Seq<u8>, pos: int) -> u64 {
    ((b[pos] as u64) << 24) | ((b[pos + 1] as u64) << 16) | ((b[pos + 2] as u64) << 8) | (b[pos
        + 3] as u64)
}

/// The big-endian 64-bit value at `pos`.
pub open spec fn read_be8(b: Seq<u8>, pos: int) -> u64 {
    ((b[pos] as u64) << 56) | ((b[pos + 1] as u64) << 48) | ((b[pos + 2] as u64) << 40) | ((b[pos
        + 3] as u64) << 32) | ((b[pos + 4] as u64) << 24) | ((b[pos + 5] as u64) << 16) | ((b[pos
        + 6] as u64) << 8) | (b[pos + 7] as u64)
}

/// Parsing of one head at `pos`: the major type in the high 3 bits, the
/// additional information in the low 5, then 0, 1, 2, 4 or 8 bytes of
/// big-endian argument as the additional information dictates.
pub open spec fn dec_head(b: Seq<u8>, pos: int) -> Parsed<(u8, u8, u64)> {
    if !(0 <= pos < b.len()) {
        Parsed::End
    } else {
        let ib = b[pos];
        let major = ib >> 5;
        let ai = ib & 0x1f;
        if ai < 24 {
            Parsed::Found((major, ai, ai as u64), pos + 1)
        } else if ai == 24 {
            if pos + 2 <= b.len() {
                Parsed::Found((major, ai, b[pos + 1] as u64), pos + 2)
            } else {
                Parsed::End
            }
        } else if ai == 25 {
            if pos + 3 <= b.len() {
                Parsed::Found((major, ai, read_be2(b, pos + 1)), pos + 3)
            } else {
                Parsed::End
            }
        } else if ai == 26 {
            if pos + 5 <= b.len() {
                Parsed::Found((major, ai, read_be4(b, pos + 1)), pos + 5)
            } else {
                Parsed::End
            }
        } else if ai == 27 {
            if pos + 9 <= b.len() {
                Parsed::Found((major, ai, read_be8(b, pos + 1)), pos + 9)
            } else {
                Parsed::End
            }
        } else {
            Parsed::Unsup
        }
    }
}

/// Parsing of one data item at `pos`. Integer arguments are accepted in any
/// head form, minimal or not; the supported profile is major types 0 to 5,
/// and of major type 7 the simple values false, true and null and the 64-bit
/// float.
pub open spec fn dec(b: Seq<u8>, pos: int) -> Parsed<Node>
    decreases b.len() - pos, 0int,
{
    match dec_head(b, pos) {
        Parsed::Found((major, ai, arg), p1) => {
            if p1 <= pos || p1 > b.len() {
                Parsed::Unsup
            } else if major == 0 {
                Parsed::Found(Node::Int(arg as int), p1)
            } else if major == 1 {
                Parsed::Found(Node::Int(-1 - arg as int), p1)
            } else if major == 2 {
                if p1 + arg <= b.len() {
                    Parsed::Found(Node::Bytes(b.subrange(p1, p1 + arg)), p1 + arg)
                } else {
                    Parsed::End
                }
            } else if major == 3 {
                if p1 + arg <= b.len() {
                    if vstd::utf8::valid_utf8(b.subrange(p1, p1 + arg)) {
                        Parsed::Found(
                            Node::Text(vstd::utf8::decode_utf8(b.subrange(p1, p1 + arg))),
                            p1 + arg,
                        )
                    } else {
                        Parsed::BadText
                    }
                } else {
                    Parsed::End
                }
            } else if major == 4 {
                match dec_list(b, p1, arg as int) {
                    Parsed::Found(elems, p2) => Parsed::Found(Node::Array(elems), p2),
                    Parsed::End => Parsed::End,
                    Parsed::Unsup => Parsed::Unsup,
                    Parsed::BadText => Parsed::BadText,
                }
            } else if major == 5 {
                match dec_pairs(b, p1, arg as int) {
                    Parsed::Found(prs, p2) => Parsed::Found(Node::Mapping(insert_all(prs)), p2),
                    Parsed::End => Parsed::End,
                    Parsed::Unsup => Parsed::Unsup,
                    Parsed::BadText => Parsed::BadText,
                }
            } else if major == 6 {
                Parsed::Unsup
            } else {
                if ai == 20 {
                    Parsed::Found(Node::Bool(false), p1)
                } else if ai == 21 {
                    Parsed::Found(Node::Bool(true), p1)
                } else if ai == 22 {
                    Parsed::Found(Node::Null, p1)
                } else if ai == 27 {
                    Parsed::Found(Node::Float(arg), p1)
                } else {
                    Parsed::Unsup
                }
            }
        },
        Parsed::End => Parsed::End,
        Parsed::Unsup => Parsed::Unsup,
        Parsed::BadText => Parsed::BadText,
    }
}

/// Parsing of `c` consecutive data items starting at `pos`, in input order.
/// Parsing always advances, so the branches that stop a non-advancing step
/// are never reached; they only bound the recursion.
pub open spec fn dec_list(b: Seq<u8>, pos: int, c: int) -> Parsed<Seq<Node>>
    decreases b.len() - pos, c,
{
    if c <= 0 {
        Parsed::Found(Seq::empty(), pos)
    } else {
        match dec(b, pos) {
            Parsed::Found(n, p2) => {
                if p2 <= pos || p2 > b.len() {
                    Parsed::Unsup
                } else {
                    match dec_list(b, p2, c - 1) {
                        Parsed::Found(rest, p3) => Parsed::Found(seq![n] + rest, p3),
                        Parsed::End => Parsed::End,
                        Parsed::Unsup => Parsed::Unsup,
                        Parsed::BadText => Parsed::BadText,
                    }
                }
            },
            Parsed::End => Parsed::End,
            Parsed::Unsup => Parsed::Unsup,
            Parsed::BadText => Parsed::BadText,
        }
    }
}

/// Parsing of `c` consecutive key-value pairs starting at `pos`, in input
/// order, each a full item for the key and one for the value.
pub open spec fn dec_pairs(b: Seq<u8>, pos: int, c: int) -> Parsed<Seq<(Node, Node)>>
    decreases b.len() - pos, c,
{
    if c <= 0 {
        Parsed::Found(Seq::empty(), pos)
    } else {
        match dec(b, pos) {
            Parsed::Found(k, p2) => {
                if p2 <= pos || p2 > b.len() {
                    Parsed::Unsup
                } else {
                    match dec(b, p2) {
                        Parsed::Found(v, p3) => {
                            if p3 <= p2 || p3 > b.len() {
                                Parsed::Unsup
                            } else {
                                match dec_pairs(b, p3, c - 1) {
                                    Parsed::Found(rest, p4) => Parsed::Found(
                                        seq![(k, v)] + rest,
                                        p4,
                                    ),
                                    Parsed::End => Parsed::End,
                                    Parsed::Unsup => Parsed::Unsup,
                                    Parsed::BadText => Parsed::BadText,
                                }
                            }
                        },
                        Parsed::End => Parsed::End,
                        Parsed::Unsup => Parsed::Unsup,
                        Parsed::BadText => Parsed::BadText,
                    }
                }
            },
            Parsed::End => Parsed::End,
            Parsed::Unsup => Parsed::Unsup,
            Parsed::BadText => Parsed::BadText,
        }
    }
}

} // verus!
