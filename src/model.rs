use vstd::prelude::*;
use vstd::utf8::encode_utf8;

verus! {

/// Properties of a node, relationship or map: key/value entries in wire order.
pub type PropsModel = Seq<(Seq<char>, PackValue)>;

/// A node as fields: identity, labels, properties.
pub type NodeModel = (i64, Seq<Seq<char>>, PropsModel);

/// A relationship as fields: identity, start identity, end identity, type, properties.
pub type RelModel = (i64, i64, i64, Seq<char>, PropsModel);

/// An unbound relationship as fields: identity, type, properties.
pub type UnboundModel = (i64, Seq<char>, PropsModel);

/// The mathematical model of a PackStream value.
pub enum PackValue {
    Null,
    Boolean(bool),
    Integer(i64),
    /// The IEEE-754 bit pattern of a 64-bit float.
    Float(u64),
    Text(Seq<char>),
    List(Seq<PackValue>),
    Dict(PropsModel),
    Node(NodeModel),
    Relationship(RelModel),
    UnboundRelationship(UnboundModel),
    Path(Seq<NodeModel>, Seq<UnboundModel>, Seq<i64>),
}

pub open spec fn be16(x: u16) -> Seq<u8> {
    seq![(x >> 8u16) as u8, x as u8]
}

pub open spec fn be32(x: u32) -> Seq<u8> {
    seq![(x >> 24u32) as u8, (x >> 16u32) as u8, (x >> 8u32) as u8, x as u8]
}

pub open spec fn be64(x: u64) -> Seq<u8> {
    seq![
        (x >> 56u64) as u8,
        (x >> 48u64) as u8,
        (x >> 40u64) as u8,
        (x >> 32u64) as u8,
        (x >> 24u64) as u8,
        (x >> 16u64) as u8,
        (x >> 8u64) as u8,
        x as u8,
    ]
}

/// The canonical encoding of an integer: the smallest width whose signed range holds it.
pub open spec fn int_bytes(i: i64) -> Seq<u8> {
    if -16 <= i && i <= 127 {
        seq![i as u8]
    } else if -0x80 <= i && i < 0x80 {
        seq![0xC8u8, i as u8]
    } else if -0x8000 <= i && i < 0x8000 {
        seq![0xC9u8] + be16(i as u16)
    } else if -0x8000_0000 <= i && i < 0x8000_0000 {
        seq![0xCAu8] + be32(i as u32)
    } else {
        seq![0xCBu8] + be64(i as u64)
    }
}

/// Marker and size prefix of a string, list or map of `n` items (`n` below 2^32).
pub open spec fn size_header(n: nat, tiny: u8, m8: u8, m16: u8, m32: u8) -> Seq<u8> {
    if n < 16 {
        seq![(tiny + n) as u8]
    } else if n < 0x100 {
        seq![m8, n as u8]
    } else if n < 0x1_0000 {
        seq![m16] + be16(n as u16)
    } else {
        seq![m32] + be32(n as u32)
    }
}

pub open spec fn list_header(n: nat) -> Seq<u8> {
    size_header(n, 0x90, 0xD4, 0xD5, 0xD6)
}

pub open spec fn map_header(n: nat) -> Seq<u8> {
    size_header(n, 0xA0, 0xD8, 0xD9, 0xDA)
}

pub open spec fn text_bytes(s: Seq<char>) -> Seq<u8> {
    size_header(encode_utf8(s).len(), 0x80, 0xD0, 0xD1, 0xD2) + encode_utf8(s)
}

/// Marker and signature of a structure with fewer than 16 fields.
pub open spec fn struct_header(n: nat, sig: u8) -> Seq<u8> {
    seq![(0xB0 + n) as u8, sig]
}

pub open spec fn pack_texts(s: Seq<Seq<char>>) -> Seq<u8>
    decreases s.len(),
{
    if s.len() == 0 {
        Seq::empty()
    } else {
        pack_texts(s.drop_last()) + text_bytes(s.last())
    }
}

pub open spec fn pack_ints(s: Seq<i64>) -> Seq<u8>
    decreases s.len(),
{
    if s.len() == 0 {
        Seq::empty()
    } else {
        pack_ints(s.drop_last()) + int_bytes(s.last())
    }
}

/// The encoding of a value.
pub open spec fn pack(v: PackValue) -> Seq<u8>
    decreases v,
{
    match v {
        PackValue::Null => seq![0xC0u8],
        PackValue::Boolean(b) => seq![if b { 0xC3u8 } else { 0xC2u8 }],
        PackValue::Integer(i) => int_bytes(i),
        PackValue::Float(f) => seq![0xC1u8] + be64(f),
        PackValue::Text(s) => text_bytes(s),
        PackValue::List(l) => list_header(l.len()) + pack_seq(l),
        PackValue::Dict(m) => map_header(m.len()) + pack_entries(m),
        PackValue::Node(n) => pack_node(n),
        PackValue::Relationship(r) => struct_header(5, 0x52) + int_bytes(r.0) + int_bytes(r.1)
            + int_bytes(r.2) + text_bytes(r.3) + map_header(r.4.len()) + pack_entries(r.4),
        PackValue::UnboundRelationship(u) => pack_unbound(u),
        PackValue::Path(nodes, rels, ids) => struct_header(3, 0x50) + list_header(nodes.len())
            + pack_nodes(nodes) + list_header(rels.len()) + pack_unbounds(rels) + list_header(
            ids.len(),
        ) + pack_ints(ids),
    }
}

pub open spec fn pack_seq(s: Seq<PackValue>) -> Seq<u8>
    decreases s,
{
    if s.len() == 0 {
        Seq::empty()
    } else {
        pack_seq(s.drop_last()) + pack(s.last())
    }
}

pub open spec fn pack_entries(m: PropsModel) -> Seq<u8>
    decreases m,
{
    if m.len() == 0 {
        Seq::empty()
    } else {
        pack_entries(m.drop_last()) + text_bytes(m.last().0) + pack(m.last().1)
    }
}

pub open spec fn pack_node(n: NodeModel) -> Seq<u8>
    decreases n,
{
    struct_header(3, 0x4E) + int_bytes(n.0) + list_header(n.1.len()) + pack_texts(n.1) + map_header(
        n.2.len(),
    ) + pack_entries(n.2)
}

pub open spec fn pack_unbound(u: UnboundModel) -> Seq<u8>
    decreases u,
{
    struct_header(3, 0x72) + int_bytes(u.0) + text_bytes(u.1) + map_header(u.2.len()) + pack_entries(u.2)
}

pub open spec fn pack_nodes(s: Seq<NodeModel>) -> Seq<u8>
    decreases s,
{
    if s.len() == 0 {
        Seq::empty()
    } else {
        pack_nodes(s.drop_last()) + pack_node(s.last())
    }
}

pub open spec fn pack_unbounds(s: Seq<UnboundModel>) -> Seq<u8>
    decreases s,
{
    if s.len() == 0 {
        Seq::empty()
    } else {
        pack_unbounds(s.drop_last()) + pack_unbound(s.last())
    }
}

/// Whether a count fits the 32-bit size field of the wire format.
pub open spec fn size_fits(n: nat) -> bool {
    n < 0x1_0000_0000
}

pub open spec fn text_fits(s: Seq<char>) -> bool {
    size_fits(encode_utf8(s).len())
}

pub open spec fn texts_fit(s: Seq<Seq<char>>) -> bool {
    size_fits(s.len()) && forall|i: int| 0 <= i < s.len() ==> text_fits(#[trigger] s[i])
}

/// Whether every string, list and map inside `v` has fewer than 2^32 items,
/// so that `v` can be encoded.
pub open spec fn fits(v: PackValue) -> bool
    decreases v,
{
    match v {
        PackValue::Text(s) => text_fits(s),
        PackValue::List(l) => size_fits(l.len()) && seq_fits(l),
        PackValue::Dict(m) => size_fits(m.len()) && entries_fit(m),
        PackValue::Node(n) => node_fits(n),
        PackValue::Relationship(r) => text_fits(r.3) && size_fits(r.4.len()) && entries_fit(r.4),
        PackValue::UnboundRelationship(u) => unbound_fits(u),
        PackValue::Path(nodes, rels, ids) => size_fits(nodes.len()) && nodes_fit(nodes)
            && size_fits(rels.len()) && unbounds_fit(rels) && size_fits(ids.len()),
        _ => true,
    }
}

pub open spec fn seq_fits(s: Seq<PackValue>) -> bool
    decreases s,
{
    s.len() > 0 ==> seq_fits(s.drop_last()) && fits(s.last())
}

pub open spec fn entries_fit(m: PropsModel) -> bool
    decreases m,
{
    m.len() > 0 ==> entries_fit(m.drop_last()) && text_fits(m.last().0) && fits(m.last().1)
}

pub open spec fn node_fits(n: NodeModel) -> bool
    decreases n,
{
    texts_fit(n.1) && size_fits(n.2.len()) && entries_fit(n.2)
}

pub open spec fn unbound_fits(u: UnboundModel) -> bool
    decreases u,
{
    text_fits(u.1) && size_fits(u.2.len()) && entries_fit(u.2)
}

pub open spec fn nodes_fit(s: Seq<NodeModel>) -> bool
    decreases s,
{
    s.len() > 0 ==> nodes_fit(s.drop_last()) && node_fits(s.last())
}

pub open spec fn unbounds_fit(s: Seq<UnboundModel>) -> bool
    decreases s,
{
    s.len() > 0 ==> unbounds_fit(s.drop_last()) && unbound_fits(s.last())
}

/// Whether no two entries share a key.
pub open spec fn keys_unique(m: PropsModel) -> bool {
    forall|i: int, j: int| 0 <= i < j < m.len() ==> m[i].0 != m[j].0
}

/// Whether `v` is a well-formed value (the keys of each map unique) that the
/// decoder reads back within `d` levels of nesting.
pub open spec fn within(v: PackValue, d: nat) -> bool
    decreases v,
{
    d >= 1 && match v {
        PackValue::List(l) => seq_within(l, (d - 1) as nat),
        PackValue::Dict(m) => keys_unique(m) && entries_within(m, (d - 1) as nat),
        PackValue::Node(n) => node_within(n, d),
        PackValue::Relationship(r) => d >= 2 && keys_unique(r.4) && entries_within(
            r.4,
            (d - 2) as nat,
        ),
        PackValue::UnboundRelationship(u) => unbound_within(u, d),
        PackValue::Path(nodes, rels, ids) => d >= 2 && nodes_within(nodes, (d - 2) as nat)
            && unbounds_within(rels, (d - 2) as nat) && (ids.len() > 0 ==> d >= 3),
        _ => true,
    }
}

pub open spec fn seq_within(s: Seq<PackValue>, d: nat) -> bool
    decreases s,
{
    s.len() > 0 ==> seq_within(s.drop_last(), d) && within(s.last(), d)
}

pub open spec fn entries_within(m: PropsModel, d: nat) -> bool
    decreases m,
{
    m.len() > 0 ==> entries_within(m.drop_last(), d) && within(m.last().1, d)
}

pub open spec fn node_within(n: NodeModel, d: nat) -> bool
    decreases n,
{
    d >= 2 && (n.1.len() > 0 ==> d >= 3) && keys_unique(n.2) && entries_within(n.2, (d - 2) as nat)
}

pub open spec fn unbound_within(u: UnboundModel, d: nat) -> bool
    decreases u,
{
    d >= 2 && keys_unique(u.2) && entries_within(u.2, (d - 2) as nat)
}

pub open spec fn nodes_within(s: Seq<NodeModel>, d: nat) -> bool
    decreases s,
{
    s.len() > 0 ==> nodes_within(s.drop_last(), d) && node_within(s.last(), d)
}

pub open spec fn unbounds_within(s: Seq<UnboundModel>, d: nat) -> bool
    decreases s,
{
    s.len() > 0 ==> unbounds_within(s.drop_last(), d) && unbound_within(s.last(), d)
}

pub proof fn lemma_seq_fits_each(s: Seq<PackValue>, j: int)
    requires
        seq_fits(s),
        0 <= j < s.len(),
    ensures
        fits(s[j]),
    decreases s.len(),
{
    if j < s.len() - 1 {
        lemma_seq_fits_each(s.drop_last(), j);
    }
}

pub proof fn lemma_entries_fit_each(m: PropsModel, j: int)
    requires
        entries_fit(m),
        0 <= j < m.len(),
    ensures
        text_fits(m[j].0),
        fits(m[j].1),
    decreases m.len(),
{
    if j < m.len() - 1 {
        lemma_entries_fit_each(m.drop_last(), j);
    }
}

pub proof fn lemma_nodes_fit_each(s: Seq<NodeModel>, j: int)
    requires
        nodes_fit(s),
        0 <= j < s.len(),
    ensures
        node_fits(s[j]),
    decreases s.len(),
{
    if j < s.len() - 1 {
        lemma_nodes_fit_each(s.drop_last(), j);
    }
}

pub proof fn lemma_unbounds_fit_each(s: Seq<UnboundModel>, j: int)
    requires
        unbounds_fit(s),
        0 <= j < s.len(),
    ensures
        unbound_fits(s[j]),
    decreases s.len(),
{
    if j < s.len() - 1 {
        lemma_unbounds_fit_each(s.drop_last(), j);
    }
}

} // verus!
