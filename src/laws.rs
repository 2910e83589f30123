use vstd::prelude::*;
use vstd::utf8::{encode_utf8, encode_utf8_decode_utf8, encode_utf8_valid_utf8};
use crate::error::Error;
use crate::model::{
    be16, be32, be64, entries_fit, entries_within, fits, int_bytes, keys_unique, list_header,
    map_header, node_fits, node_within, nodes_fit, nodes_within, pack, pack_entries, pack_ints,
    pack_node, pack_nodes, pack_seq, pack_texts, pack_unbound, pack_unbounds, seq_fits,
    seq_within, size_fits, size_header, struct_header, text_bytes, text_fits,
    unbound_fits, unbound_within, unbounds_fit, unbounds_within, within, NodeModel, PackValue,
    PropsModel, UnboundModel,
};
use crate::parse::{
    arity, classify, first_key_at, in_tiny, ints_of, is_marker, is_text_marker, map_put,
    nodes_of, parse, parse_entries, parse_items, parse_key, parse_size, parse_text, read_be16,
    read_be32, read_be64, texts_of, unbounds_of, MAX_DEPTH,
};

verus! {

/// `x` stands in `b` from position `p` on.
pub open spec fn at(b: Seq<u8>, p: int, x: Seq<u8>) -> bool {
    0 <= p && p + x.len() <= b.len() && b.subrange(p, p + x.len()) == x
}

proof fn lemma_at_split(b: Seq<u8>, p: int, x: Seq<u8>, y: Seq<u8>)
    requires
        at(b, p, x + y),
    ensures
        at(b, p, x),
        at(b, p + x.len(), y),
{
    assert(b.subrange(p, p + x.len()) =~= (x + y).subrange(0, x.len() as int));
    assert(b.subrange(p + x.len(), p + x.len() + y.len()) =~= (x + y).subrange(
        x.len() as int,
        (x + y).len() as int,
    ));
    assert((x + y).subrange(0, x.len() as int) =~= x);
    assert((x + y).subrange(x.len() as int, (x + y).len() as int) =~= y);
}

proof fn lemma_at_index(b: Seq<u8>, p: int, x: Seq<u8>, i: int)
    requires
        at(b, p, x),
        0 <= i < x.len(),
    ensures
        b[p + i] == x[i],
{
    assert(b.subrange(p, p + x.len())[i] == b[p + i]);
}

proof fn lemma_be16_read(b: Seq<u8>, p: int, x: u16)
    requires
        at(b, p, be16(x)),
    ensures
        read_be16(b, p) == x,
{
    lemma_at_index(b, p, be16(x), 0);
    lemma_at_index(b, p, be16(x), 1);
    let b0 = b[p];
    let b1 = b[p + 1];
    assert(((b0 as u16) << 8u16) | (b1 as u16) == x) by (bit_vector)
        requires
            b0 == (x >> 8u16) as u8,
            b1 == x as u8,
    ;
}

proof fn lemma_be32_read(b: Seq<u8>, p: int, x: u32)
    requires
        at(b, p, be32(x)),
    ensures
        read_be32(b, p) == x,
{
    lemma_at_index(b, p, be32(x), 0);
    lemma_at_index(b, p, be32(x), 1);
    lemma_at_index(b, p, be32(x), 2);
    lemma_at_index(b, p, be32(x), 3);
    let b0 = b[p];
    let b1 = b[p + 1];
    let b2 = b[p + 2];
    let b3 = b[p + 3];
    assert(((b0 as u32) << 24u32) | ((b1 as u32) << 16u32) | ((b2 as u32) << 8u32) | (b3 as u32)
        == x) by (bit_vector)
        requires
            b0 == (x >> 24u32) as u8,
            b1 == (x >> 16u32) as u8,
            b2 == (x >> 8u32) as u8,
            b3 == x as u8,
    ;
}

proof fn lemma_be64_read(b: Seq<u8>, p: int, x: u64)
    requires
        at(b, p, be64(x)),
    ensures
        read_be64(b, p) == x,
{
    let hi = (x >> 32u64) as u32;
    let lo = x as u32;
    assert(be64(x) =~= be32(hi) + be32(lo)) by {
        assert((x >> 56u64) as u8 == (hi >> 24u32) as u8) by (bit_vector)
            requires
                hi == (x >> 32u64) as u32,
        ;
        assert((x >> 48u64) as u8 == (hi >> 16u32) as u8) by (bit_vector)
            requires
                hi == (x >> 32u64) as u32,
        ;
        assert((x >> 40u64) as u8 == (hi >> 8u32) as u8) by (bit_vector)
            requires
                hi == (x >> 32u64) as u32,
        ;
        assert((x >> 32u64) as u8 == hi as u8) by (bit_vector)
            requires
                hi == (x >> 32u64) as u32,
        ;
        assert((x >> 24u64) as u8 == (lo >> 24u32) as u8) by (bit_vector)
            requires
                lo == x as u32,
        ;
        assert((x >> 16u64) as u8 == (lo >> 16u32) as u8) by (bit_vector)
            requires
                lo == x as u32,
        ;
        assert((x >> 8u64) as u8 == (lo >> 8u32) as u8) by (bit_vector)
            requires
                lo == x as u32,
        ;
        assert(x as u8 == lo as u8) by (bit_vector)
            requires
                lo == x as u32,
        ;
    }
    lemma_at_split(b, p, be32(hi), be32(lo));
    lemma_be32_read(b, p, hi);
    lemma_be32_read(b, p + 4, lo);
    assert(((hi as u64) << 32u64) | (lo as u64) == x) by (bit_vector)
        requires
            hi == (x >> 32u64) as u32,
            lo == x as u32,
    ;
}

proof fn lemma_int_parse(b: Seq<u8>, p: int, i: i64, d: nat)
    requires
        at(b, p, int_bytes(i)),
        d >= 1,
    ensures
        parse(b, p, d) == Ok::<(PackValue, int), Error>(
            (PackValue::Integer(i), p + int_bytes(i).len()),
        ),
{
    lemma_at_index(b, p, int_bytes(i), 0);
    if -16 <= i && i <= 127 {
        let m = b[p];
        assert(m == i as u8);
        assert((m <= 0x7F || m >= 0xF0) && (m as i8) as i64 == i) by (bit_vector)
            requires
                m == i as u8,
                -16 <= i <= 127,
        ;
    } else if -0x80 <= i && i < 0x80 {
        lemma_at_index(b, p, int_bytes(i), 1);
        let m = b[p + 1];
        assert((m as i8) as i64 == i) by (bit_vector)
            requires
                m == i as u8,
                -0x80 <= i < 0x80,
        ;
    } else if -0x8000 <= i && i < 0x8000 {
        lemma_at_split(b, p, seq![0xC9u8], be16(i as u16));
        lemma_be16_read(b, p + 1, i as u16);
        let x = i as u16;
        assert((x as i16) as i64 == i) by (bit_vector)
            requires
                x == i as u16,
                -0x8000 <= i < 0x8000,
        ;
    } else if -0x8000_0000 <= i && i < 0x8000_0000 {
        lemma_at_split(b, p, seq![0xCAu8], be32(i as u32));
        lemma_be32_read(b, p + 1, i as u32);
        let x = i as u32;
        assert((x as i32) as i64 == i) by (bit_vector)
            requires
                x == i as u32,
                -0x8000_0000 <= i < 0x8000_0000,
        ;
    } else {
        lemma_at_split(b, p, seq![0xCBu8], be64(i as u64));
        lemma_be64_read(b, p + 1, i as u64);
        let x = i as u64;
        assert(x as i64 == i) by (bit_vector)
            requires
                x == i as u64,
        ;
    }
}

/// Reading back a size header written for `n`.
proof fn lemma_size_parse(b: Seq<u8>, p: int, n: nat, tiny: u8, m8: u8, m16: u8, m32: u8)
    requires
        size_fits(n),
        at(b, p, size_header(n, tiny, m8, m16, m32)),
        tiny % 16 == 0,
        tiny <= 0xC0,
        !in_tiny(m8, tiny),
        !in_tiny(m16, tiny),
        !in_tiny(m32, tiny),
        m8 != m16,
        m32 != m8,
        m32 != m16,
    ensures
        b[p] == size_header(n, tiny, m8, m16, m32)[0],
        parse_size(b, p + 1, b[p], tiny, m8, m16) == Ok::<(nat, int), Error>(
            (n, p + size_header(n, tiny, m8, m16, m32).len()),
        ),
{
    let h = size_header(n, tiny, m8, m16, m32);
    lemma_at_index(b, p, h, 0);
    if n < 16 {
    } else if n < 0x100 {
        lemma_at_index(b, p, h, 1);
    } else if n < 0x1_0000 {
        lemma_at_split(b, p, seq![m16], be16(n as u16));
        lemma_be16_read(b, p + 1, n as u16);
    } else {
        lemma_at_split(b, p, seq![m32], be32(n as u32));
        lemma_be32_read(b, p + 1, n as u32);
    }
}

proof fn lemma_text_parse(b: Seq<u8>, p: int, s: Seq<char>)
    requires
        text_fits(s),
        at(b, p, text_bytes(s)),
    ensures
        is_text_marker(b[p]),
        parse_text(b, p) == Ok::<(Seq<char>, int), Error>((s, p + text_bytes(s).len())),
{
    let e = encode_utf8(s);
    let h = size_header(e.len(), 0x80, 0xD0, 0xD1, 0xD2);
    lemma_at_split(b, p, h, e);
    lemma_size_parse(b, p, e.len(), 0x80, 0xD0, 0xD1, 0xD2);
    encode_utf8_valid_utf8(s);
    encode_utf8_decode_utf8(s);
}

proof fn lemma_text_value_parse(b: Seq<u8>, p: int, s: Seq<char>, d: nat)
    requires
        text_fits(s),
        at(b, p, text_bytes(s)),
        d >= 1,
    ensures
        parse(b, p, d) == Ok::<(PackValue, int), Error>(
            (PackValue::Text(s), p + text_bytes(s).len()),
        ),
{
    lemma_text_parse(b, p, s);
}

proof fn lemma_dict_parse(b: Seq<u8>, p: int, m: PropsModel, d: nat, end: int)
    requires
        d >= 1,
        size_fits(m.len()),
        at(b, p, map_header(m.len())),
        parse_entries(b, p + map_header(m.len()).len(), m.len(), (d - 1) as nat) == Ok::<
            (PropsModel, int),
            Error,
        >((m, end)),
    ensures
        parse(b, p, d) == Ok::<(PackValue, int), Error>((PackValue::Dict(m), end)),
{
    lemma_size_parse(b, p, m.len(), 0xA0, 0xD8, 0xD9, 0xDA);
}

proof fn lemma_struct_parse(
    b: Seq<u8>,
    p: int,
    sig: u8,
    f: Seq<PackValue>,
    d: nat,
    end: int,
    v: PackValue,
)
    requires
        d >= 1,
        f.len() < 16,
        arity(sig) == Some(f.len()),
        at(b, p, struct_header(f.len(), sig)),
        parse_items(b, p + 2, f.len(), (d - 1) as nat) == Ok::<(Seq<PackValue>, int), Error>(
            (f, end),
        ),
        classify(sig, f) == Ok::<PackValue, Error>(v),
    ensures
        parse(b, p, d) == Ok::<(PackValue, int), Error>((v, end)),
{
    lemma_at_index(b, p, struct_header(f.len(), sig), 0);
    lemma_at_index(b, p, struct_header(f.len(), sig), 1);
}

proof fn lemma_scalar_parse(b: Seq<u8>, p: int, v: PackValue, d: nat)
    requires
        v is Null || v is Boolean || v is Float,
        d >= 1,
        at(b, p, pack(v)),
    ensures
        parse(b, p, d) == Ok::<(PackValue, int), Error>((v, p + pack(v).len())),
{
    lemma_at_index(b, p, pack(v), 0);
    if let PackValue::Float(f) = v {
        lemma_at_split(b, p, seq![0xC1u8], be64(f));
        lemma_be64_read(b, p + 1, f);
    }
}

pub open spec fn texts_as_values(s: Seq<Seq<char>>) -> Seq<PackValue> {
    Seq::new(s.len(), |i: int| PackValue::Text(s[i]))
}

pub open spec fn ints_as_values(s: Seq<i64>) -> Seq<PackValue> {
    Seq::new(s.len(), |i: int| PackValue::Integer(s[i]))
}

pub open spec fn nodes_as_values(s: Seq<NodeModel>) -> Seq<PackValue> {
    Seq::new(s.len(), |i: int| PackValue::Node(s[i]))
}

pub open spec fn unbounds_as_values(s: Seq<UnboundModel>) -> Seq<PackValue> {
    Seq::new(s.len(), |i: int| PackValue::UnboundRelationship(s[i]))
}

proof fn lemma_texts_parse(b: Seq<u8>, p: int, s: Seq<Seq<char>>, d: nat)
    requires
        forall|i: int| 0 <= i < s.len() ==> text_fits(#[trigger] s[i]),
        s.len() > 0 ==> d >= 1,
        at(b, p, pack_texts(s)),
    ensures
        parse_items(b, p, s.len(), d) == Ok::<(Seq<PackValue>, int), Error>(
            (texts_as_values(s), p + pack_texts(s).len()),
        ),
    decreases s.len(),
{
    if s.len() > 0 {
        let s0 = s.drop_last();
        lemma_at_split(b, p, pack_texts(s0), text_bytes(s.last()));
        assert forall|i: int| 0 <= i < s0.len() implies text_fits(#[trigger] s0[i]) by {
            assert(s0[i] == s[i]);
        }
        lemma_texts_parse(b, p, s0, d);
        lemma_text_value_parse(b, p + pack_texts(s0).len(), s.last(), d);
        assert(texts_as_values(s0).push(PackValue::Text(s.last())) =~= texts_as_values(s));
    } else {
        assert(texts_as_values(s) =~= Seq::<PackValue>::empty());
    }
}

proof fn lemma_ints_parse(b: Seq<u8>, p: int, s: Seq<i64>, d: nat)
    requires
        s.len() > 0 ==> d >= 1,
        at(b, p, pack_ints(s)),
    ensures
        parse_items(b, p, s.len(), d) == Ok::<(Seq<PackValue>, int), Error>(
            (ints_as_values(s), p + pack_ints(s).len()),
        ),
    decreases s.len(),
{
    if s.len() > 0 {
        let s0 = s.drop_last();
        lemma_at_split(b, p, pack_ints(s0), int_bytes(s.last()));
        lemma_ints_parse(b, p, s0, d);
        lemma_int_parse(b, p + pack_ints(s0).len(), s.last(), d);
        assert(ints_as_values(s0).push(PackValue::Integer(s.last())) =~= ints_as_values(s));
    } else {
        assert(ints_as_values(s) =~= Seq::<PackValue>::empty());
    }
}

/// Reading back the encoding of a value.
proof fn lemma_value_parse(b: Seq<u8>, p: int, v: PackValue, d: nat)
    requires
        fits(v),
        within(v, d),
        at(b, p, pack(v)),
    ensures
        parse(b, p, d) == Ok::<(PackValue, int), Error>((v, p + pack(v).len())),
    decreases v, 2nat,
{
    match v {
        PackValue::Integer(i) => {
            lemma_int_parse(b, p, i, d);
        },
        PackValue::Text(s) => {
            lemma_text_value_parse(b, p, s, d);
        },
        PackValue::List(l) => {
            let h = list_header(l.len());
            lemma_at_split(b, p, h, pack_seq(l));
            lemma_items_parse(b, p + h.len(), l, (d - 1) as nat);
            lemma_list_parse(b, p, l, d, p + pack(v).len());
        },
        PackValue::Dict(m) => {
            let h = map_header(m.len());
            lemma_at_split(b, p, h, pack_entries(m));
            lemma_entries_parse(b, p + h.len(), m, (d - 1) as nat);
            lemma_dict_parse(b, p, m, d, p + pack(v).len());
        },
        PackValue::Node(n) => {
            lemma_node_parse(b, p, n, d);
        },
        PackValue::Relationship(r) => {
            lemma_relationship_parse(b, p, r, d);
        },
        PackValue::UnboundRelationship(u) => {
            lemma_unbound_parse(b, p, u, d);
        },
        PackValue::Path(nodes, rels, ids) => {
            lemma_path_parse(b, p, v, d);
        },
        _ => {
            lemma_scalar_parse(b, p, v, d);
        },
    }
}

proof fn lemma_items_parse(b: Seq<u8>, p: int, s: Seq<PackValue>, d: nat)
    requires
        seq_fits(s),
        seq_within(s, d),
        at(b, p, pack_seq(s)),
    ensures
        parse_items(b, p, s.len(), d) == Ok::<(Seq<PackValue>, int), Error>(
            (s, p + pack_seq(s).len()),
        ),
    decreases s, 0nat,
{
    if s.len() > 0 {
        let s0 = s.drop_last();
        lemma_at_split(b, p, pack_seq(s0), pack(s.last()));
        lemma_items_parse(b, p, s0, d);
        lemma_value_parse(b, p + pack_seq(s0).len(), s.last(), d);
        assert(s0.push(s.last()) =~= s);
    } else {
        assert(s =~= Seq::<PackValue>::empty());
    }
}

proof fn lemma_entries_parse(b: Seq<u8>, p: int, m: PropsModel, d: nat)
    requires
        entries_fit(m),
        entries_within(m, d),
        keys_unique(m),
        at(b, p, pack_entries(m)),
    ensures
        parse_entries(b, p, m.len(), d) == Ok::<(PropsModel, int), Error>(
            (m, p + pack_entries(m).len()),
        ),
    decreases m, 0nat,
{
    if m.len() > 0 {
        let m0 = m.drop_last();
        let (k, v) = m.last();
        lemma_at_split(b, p, pack_entries(m0) + text_bytes(k), pack(v));
        lemma_at_split(b, p, pack_entries(m0), text_bytes(k));
        assert(keys_unique(m0));
        lemma_entries_parse(b, p, m0, d);
        let q = p + pack_entries(m0).len();
        lemma_text_parse(b, q, k);
        assert(parse_key(b, q) == Ok::<(Seq<char>, int), Error>((k, q + text_bytes(k).len())));
        lemma_value_parse(b, q + text_bytes(k).len(), v, d);
        assert forall|j: int| 0 <= j < m0.len() implies m0[j].0 != k by {
            assert(m[j].0 != m[m.len() - 1].0);
        }
        assert(map_put(m0, k, v) =~= m);
    } else {
        assert(m =~= Seq::<(Seq<char>, PackValue)>::empty());
    }
}

#[verifier::rlimit(60)]
proof fn lemma_node_parse(b: Seq<u8>, p: int, n: NodeModel, d: nat)
    requires
        node_fits(n),
        node_within(n, d),
        at(b, p, pack_node(n)),
    ensures
        parse(b, p, d) == Ok::<(PackValue, int), Error>(
            (PackValue::Node(n), p + pack_node(n).len()),
        ),
    decreases n, 0nat,
{
    let (id, labels, props) = n;
    let h = struct_header(3, 0x4E);
    let ib = int_bytes(id);
    let lh = list_header(labels.len());
    let lt = pack_texts(labels);
    let mh = map_header(props.len());
    let me = pack_entries(props);
    lemma_at_split(b, p, h + ib + lh + lt + mh, me);
    lemma_at_split(b, p, h + ib + lh + lt, mh);
    lemma_at_split(b, p, h + ib + lh, lt);
    lemma_at_split(b, p, h + ib, lh);
    lemma_at_split(b, p, h, ib);
    lemma_at_index(b, p, h, 0);
    lemma_at_index(b, p, h, 1);
    let e = (d - 1) as nat;
    let pos1 = p + 2;
    let pos2 = pos1 + ib.len();
    let pos3 = pos2 + lh.len() + lt.len();
    let pos4 = pos3 + mh.len() + me.len();
    lemma_int_parse(b, pos1, id, e);
    lemma_texts_parse(b, pos2 + lh.len(), labels, (e - 1) as nat);
    lemma_list_parse(b, pos2, texts_as_values(labels), e, pos3);
    lemma_entries_parse(b, pos3 + mh.len(), props, (e - 1) as nat);
    lemma_dict_parse(b, pos3, props, e, pos4);
    let f = seq![
        PackValue::Integer(id),
        PackValue::List(texts_as_values(labels)),
        PackValue::Dict(props),
    ];
    assert(parse_items(b, pos1, 0, e) == Ok::<(Seq<PackValue>, int), Error>((seq![], pos1)));
    assert(parse_items(b, pos1, 1, e) == Ok::<(Seq<PackValue>, int), Error>((f.take(1), pos2))) by {
        assert(seq![].push(f[0]) =~= f.take(1));
    }
    assert(parse_items(b, pos1, 2, e) == Ok::<(Seq<PackValue>, int), Error>((f.take(2), pos3))) by {
        assert(f.take(1).push(f[1]) =~= f.take(2));
    }
    assert(parse_items(b, pos1, 3, e) == Ok::<(Seq<PackValue>, int), Error>((f, pos4))) by {
        assert(f.take(2).push(f[2]) =~= f);
    }
    assert(texts_of(texts_as_values(labels)) =~= labels);
    assert(classify(0x4E, f) == Ok::<PackValue, Error>(PackValue::Node(n)));
    lemma_struct_parse(b, p, 0x4E, f, d, pos4, PackValue::Node(n));
}

#[verifier::rlimit(80)]
proof fn lemma_relationship_parse(
    b: Seq<u8>,
    p: int,
    r: (i64, i64, i64, Seq<char>, PropsModel),
    d: nat,
)
    requires
        fits(PackValue::Relationship(r)),
        within(PackValue::Relationship(r), d),
        at(b, p, pack(PackValue::Relationship(r))),
    ensures
        parse(b, p, d) == Ok::<(PackValue, int), Error>(
            (PackValue::Relationship(r), p + pack(PackValue::Relationship(r)).len()),
        ),
    decreases r, 0nat,
{
    let (a, s0, e0, t, props) = r;
    let h = struct_header(5, 0x52);
    let i0 = int_bytes(a);
    let i1 = int_bytes(s0);
    let i2 = int_bytes(e0);
    let tb = text_bytes(t);
    let mh = map_header(props.len());
    let me = pack_entries(props);
    lemma_at_split(b, p, h + i0 + i1 + i2 + tb + mh, me);
    lemma_at_split(b, p, h + i0 + i1 + i2 + tb, mh);
    lemma_at_split(b, p, h + i0 + i1 + i2, tb);
    lemma_at_split(b, p, h + i0 + i1, i2);
    lemma_at_split(b, p, h + i0, i1);
    lemma_at_split(b, p, h, i0);
    lemma_at_index(b, p, h, 0);
    lemma_at_index(b, p, h, 1);
    let e = (d - 1) as nat;
    let pos1 = p + 2;
    let pos2 = pos1 + i0.len();
    let pos3 = pos2 + i1.len();
    let pos4 = pos3 + i2.len();
    let pos5 = pos4 + tb.len();
    let pos6 = pos5 + mh.len() + me.len();
    lemma_int_parse(b, pos1, a, e);
    lemma_int_parse(b, pos2, s0, e);
    lemma_int_parse(b, pos3, e0, e);
    lemma_text_value_parse(b, pos4, t, e);
    lemma_entries_parse(b, pos5 + mh.len(), props, (e - 1) as nat);
    lemma_dict_parse(b, pos5, props, e, pos6);
    let f = seq![
        PackValue::Integer(a),
        PackValue::Integer(s0),
        PackValue::Integer(e0),
        PackValue::Text(t),
        PackValue::Dict(props),
    ];
    assert(parse_items(b, pos1, 0, e) == Ok::<(Seq<PackValue>, int), Error>((seq![], pos1)));
    assert(parse_items(b, pos1, 1, e) == Ok::<(Seq<PackValue>, int), Error>((f.take(1), pos2))) by {
        assert(seq![].push(f[0]) =~= f.take(1));
    }
    assert(parse_items(b, pos1, 2, e) == Ok::<(Seq<PackValue>, int), Error>((f.take(2), pos3))) by {
        assert(f.take(1).push(f[1]) =~= f.take(2));
    }
    assert(parse_items(b, pos1, 3, e) == Ok::<(Seq<PackValue>, int), Error>((f.take(3), pos4))) by {
        assert(f.take(2).push(f[2]) =~= f.take(3));
    }
    assert(parse_items(b, pos1, 4, e) == Ok::<(Seq<PackValue>, int), Error>((f.take(4), pos5))) by {
        assert(f.take(3).push(f[3]) =~= f.take(4));
    }
    assert(parse_items(b, pos1, 5, e) == Ok::<(Seq<PackValue>, int), Error>((f, pos6))) by {
        assert(f.take(4).push(f[4]) =~= f);
    }
    assert(classify(0x52, f) == Ok::<PackValue, Error>(PackValue::Relationship(r)));
    lemma_struct_parse(b, p, 0x52, f, d, pos6, PackValue::Relationship(r));
}

#[verifier::rlimit(60)]
proof fn lemma_unbound_parse(b: Seq<u8>, p: int, u: UnboundModel, d: nat)
    requires
        unbound_fits(u),
        unbound_within(u, d),
        at(b, p, pack_unbound(u)),
    ensures
        parse(b, p, d) == Ok::<(PackValue, int), Error>(
            (PackValue::UnboundRelationship(u), p + pack_unbound(u).len()),
        ),
    decreases u, 0nat,
{
    let (id, t, props) = u;
    let h = struct_header(3, 0x72);
    let ib = int_bytes(id);
    let tb = text_bytes(t);
    let mh = map_header(props.len());
    let me = pack_entries(props);
    lemma_at_split(b, p, h + ib + tb + mh, me);
    lemma_at_split(b, p, h + ib + tb, mh);
    lemma_at_split(b, p, h + ib, tb);
    lemma_at_split(b, p, h, ib);
    lemma_at_index(b, p, h, 0);
    lemma_at_index(b, p, h, 1);
    let e = (d - 1) as nat;
    let pos1 = p + 2;
    let pos2 = pos1 + ib.len();
    let pos3 = pos2 + tb.len();
    let pos4 = pos3 + mh.len() + me.len();
    lemma_int_parse(b, pos1, id, e);
    lemma_text_value_parse(b, pos2, t, e);
    lemma_entries_parse(b, pos3 + mh.len(), props, (e - 1) as nat);
    lemma_dict_parse(b, pos3, props, e, pos4);
    let f = seq![PackValue::Integer(id), PackValue::Text(t), PackValue::Dict(props)];
    assert(parse_items(b, pos1, 0, e) == Ok::<(Seq<PackValue>, int), Error>((seq![], pos1)));
    assert(parse_items(b, pos1, 1, e) == Ok::<(Seq<PackValue>, int), Error>((f.take(1), pos2))) by {
        assert(seq![].push(f[0]) =~= f.take(1));
    }
    assert(parse_items(b, pos1, 2, e) == Ok::<(Seq<PackValue>, int), Error>((f.take(2), pos3))) by {
        assert(f.take(1).push(f[1]) =~= f.take(2));
    }
    assert(parse_items(b, pos1, 3, e) == Ok::<(Seq<PackValue>, int), Error>((f, pos4))) by {
        assert(f.take(2).push(f[2]) =~= f);
    }
    assert(classify(0x72, f) == Ok::<PackValue, Error>(PackValue::UnboundRelationship(u)));
    lemma_struct_parse(b, p, 0x72, f, d, pos4, PackValue::UnboundRelationship(u));
}

proof fn lemma_nodes_parse(b: Seq<u8>, p: int, s: Seq<NodeModel>, d: nat)
    requires
        nodes_fit(s),
        nodes_within(s, d),
        at(b, p, pack_nodes(s)),
    ensures
        parse_items(b, p, s.len(), d) == Ok::<(Seq<PackValue>, int), Error>(
            (nodes_as_values(s), p + pack_nodes(s).len()),
        ),
    decreases s, 0nat,
{
    if s.len() > 0 {
        let s0 = s.drop_last();
        lemma_at_split(b, p, pack_nodes(s0), pack_node(s.last()));
        lemma_nodes_parse(b, p, s0, d);
        lemma_node_parse(b, p + pack_nodes(s0).len(), s.last(), d);
        assert(nodes_as_values(s0).push(PackValue::Node(s.last())) =~= nodes_as_values(s));
    } else {
        assert(nodes_as_values(s) =~= Seq::<PackValue>::empty());
    }
}

proof fn lemma_unbounds_parse(b: Seq<u8>, p: int, s: Seq<UnboundModel>, d: nat)
    requires
        unbounds_fit(s),
        unbounds_within(s, d),
        at(b, p, pack_unbounds(s)),
    ensures
        parse_items(b, p, s.len(), d) == Ok::<(Seq<PackValue>, int), Error>(
            (unbounds_as_values(s), p + pack_unbounds(s).len()),
        ),
    decreases s, 0nat,
{
    if s.len() > 0 {
        let s0 = s.drop_last();
        lemma_at_split(b, p, pack_unbounds(s0), pack_unbound(s.last()));
        lemma_unbounds_parse(b, p, s0, d);
        lemma_unbound_parse(b, p + pack_unbounds(s0).len(), s.last(), d);
        assert(unbounds_as_values(s0).push(PackValue::UnboundRelationship(s.last()))
            =~= unbounds_as_values(s));
    } else {
        assert(unbounds_as_values(s) =~= Seq::<PackValue>::empty());
    }
}

proof fn lemma_list_parse(b: Seq<u8>, p: int, vals: Seq<PackValue>, d: nat, end: int)
    requires
        d >= 1,
        size_fits(vals.len()),
        at(b, p, list_header(vals.len())),
        parse_items(b, p + list_header(vals.len()).len(), vals.len(), (d - 1) as nat) == Ok::<
            (Seq<PackValue>, int),
            Error,
        >((vals, end)),
    ensures
        parse(b, p, d) == Ok::<(PackValue, int), Error>((PackValue::List(vals), end)),
{
    lemma_size_parse(b, p, vals.len(), 0x90, 0xD4, 0xD5, 0xD6);
}

#[verifier::rlimit(60)]
proof fn lemma_path_parse(b: Seq<u8>, p: int, v: PackValue, d: nat)
    requires
        v is Path,
        fits(v),
        within(v, d),
        at(b, p, pack(v)),
    ensures
        parse(b, p, d) == Ok::<(PackValue, int), Error>((v, p + pack(v).len())),
    decreases v, 1nat,
{
    let nodes = v->Path_0;
    let rels = v->Path_1;
    let ids = v->Path_2;
    let h = struct_header(3, 0x50);
    let nh = list_header(nodes.len());
    let nb = pack_nodes(nodes);
    let rh = list_header(rels.len());
    let rb = pack_unbounds(rels);
    let ih = list_header(ids.len());
    let ib = pack_ints(ids);
    lemma_at_split(b, p, h + nh + nb + rh + rb + ih, ib);
    lemma_at_split(b, p, h + nh + nb + rh + rb, ih);
    lemma_at_split(b, p, h + nh + nb + rh, rb);
    lemma_at_split(b, p, h + nh + nb, rh);
    lemma_at_split(b, p, h + nh, nb);
    lemma_at_split(b, p, h, nh);
    lemma_at_index(b, p, h, 0);
    lemma_at_index(b, p, h, 1);
    let e = (d - 1) as nat;
    let pos1 = p + 2;
    let pos2 = pos1 + nh.len() + nb.len();
    let pos3 = pos2 + rh.len() + rb.len();
    let pos4 = pos3 + ih.len() + ib.len();
    lemma_nodes_parse(b, pos1 + nh.len(), nodes, (e - 1) as nat);
    lemma_list_parse(b, pos1, nodes_as_values(nodes), e, pos2);
    lemma_unbounds_parse(b, pos2 + rh.len(), rels, (e - 1) as nat);
    lemma_list_parse(b, pos2, unbounds_as_values(rels), e, pos3);
    lemma_ints_parse(b, pos3 + ih.len(), ids, (e - 1) as nat);
    lemma_list_parse(b, pos3, ints_as_values(ids), e, pos4);
    let f = seq![
        PackValue::List(nodes_as_values(nodes)),
        PackValue::List(unbounds_as_values(rels)),
        PackValue::List(ints_as_values(ids)),
    ];
    assert(parse_items(b, pos1, 0, e) == Ok::<(Seq<PackValue>, int), Error>((seq![], pos1)));
    assert(parse_items(b, pos1, 1, e) == Ok::<(Seq<PackValue>, int), Error>((f.take(1), pos2))) by {
        assert(seq![].push(f[0]) =~= f.take(1));
    }
    assert(parse_items(b, pos1, 2, e) == Ok::<(Seq<PackValue>, int), Error>((f.take(2), pos3))) by {
        assert(f.take(1).push(f[1]) =~= f.take(2));
    }
    assert(parse_items(b, pos1, 3, e) == Ok::<(Seq<PackValue>, int), Error>((f, pos4))) by {
        assert(f.take(2).push(f[2]) =~= f);
    }
    assert(nodes_of(nodes_as_values(nodes)) =~= nodes);
    assert(unbounds_of(unbounds_as_values(rels)) =~= rels);
    assert(ints_of(ints_as_values(ids)) =~= ids);
    assert(classify(0x50, f) == Ok::<PackValue, Error>(v));
    lemma_struct_parse(b, p, 0x50, f, d, pos4, v);
}

/// Round trip: decoding the encoding of a well-formed value that fits the wire
/// format and nests at most `MAX_DEPTH` levels gives the value back, and takes
/// exactly its bytes, whatever bytes follow.
pub proof fn lemma_round_trip(v: PackValue, rest: Seq<u8>)
    requires
        fits(v),
        within(v, MAX_DEPTH as nat),
    ensures
        parse(pack(v) + rest, 0, MAX_DEPTH as nat) == Ok::<(PackValue, int), Error>(
            (v, pack(v).len() as int),
        ),
{
    let b = pack(v) + rest;
    assert(b.subrange(0, pack(v).len() as int) =~= pack(v));
    lemma_value_parse(b, 0, v, MAX_DEPTH as nat);
}

/// Idempotence: re-encoding a decoded encoding gives the same bytes.
pub proof fn lemma_reencode(v: PackValue)
    requires
        fits(v),
        within(v, MAX_DEPTH as nat),
    ensures
        parse(pack(v), 0, MAX_DEPTH as nat) is Ok,
        pack(parse(pack(v), 0, MAX_DEPTH as nat)->Ok_0.0) == pack(v),
{
    lemma_round_trip(v, Seq::empty());
    assert(pack(v) + Seq::<u8>::empty() =~= pack(v));
}

/// Minimum width: every encoding of an integer that the decoder accepts is at
/// least as long as the one the encoder writes.
pub proof fn lemma_int_minimal_width(b: Seq<u8>, d: nat, i: i64, n: int)
    requires
        parse(b, 0, d) == Ok::<(PackValue, int), Error>((PackValue::Integer(i), n)),
    ensures
        n >= int_bytes(i).len(),
{
    let m = b[0];
    if m <= 0x7F || m >= 0xF0 {
        assert(-16 <= (m as i8) as i64 && (m as i8) as i64 <= 127) by (bit_vector)
            requires
                m <= 0x7F || m >= 0xF0,
        ;
    }
}

/// A byte outside the marker table never starts a value: the decoder refuses it
/// as an invalid marker.
pub proof fn lemma_unknown_marker(b: Seq<u8>, d: nat)
    requires
        b.len() > 0,
        d >= 1,
        !is_marker(b[0]),
    ensures
        parse(b, 0, d) == Err::<(PackValue, int), Error>(Error::InvalidMarker(b[0])),
{
}

/// Every input that decodes starts with a byte of the marker table.
pub proof fn lemma_decoded_starts_with_marker(b: Seq<u8>, d: nat)
    requires
        parse(b, 0, d) is Ok,
    ensures
        b.len() > 0,
        is_marker(b[0]),
{
}

/// Putting an entry into entries with unique keys leaves the keys unique, and
/// the key then stands in the entries with the new value.
pub proof fn lemma_put_keeps_keys_unique(m: PropsModel, k: Seq<char>, v: PackValue)
    requires
        keys_unique(m),
    ensures
        keys_unique(map_put(m, k, v)),
        exists|i: int| 0 <= i < map_put(m, k, v).len() && map_put(m, k, v)[i] == (k, v),
{
    if exists|i: int| 0 <= i < m.len() && m[i].0 == k {
        let w = choose|i: int| 0 <= i < m.len() && m[i].0 == k;
        assert(first_key_at(m, k, w)) by {
            assert forall|j: int| 0 <= j < w implies m[j].0 != k by {
                assert(m[j].0 != m[w].0);
            }
        }
        let c = choose|c: int| first_key_at(m, k, c);
        assert(map_put(m, k, v)[c] == (k, v));
    } else {
        assert(map_put(m, k, v)[m.len() as int] == (k, v));
    }
}

} // verus!
