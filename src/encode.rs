use vstd::prelude::*;
use vstd::string::StrSliceExecFns;
use crate::error::{is_too_large, Error};
use crate::model::{
    be16, be32, be64, PackValue, entries_fit, fits, int_bytes, lemma_entries_fit_each, lemma_nodes_fit_each,
    lemma_seq_fits_each, lemma_unbounds_fit_each, map_header, node_fits, nodes_fit,
    pack, pack_entries, pack_ints, pack_node, pack_nodes, pack_seq, pack_texts, pack_unbound,
    pack_unbounds, seq_fits, size_fits, size_header, text_bytes, text_fits,
    texts_fit, unbound_fits, unbounds_fit,
};
use crate::value::{
    entries_view, lemma_entries_view_index, lemma_nodes_view_index, lemma_unbounds_view_index,
    lemma_values_view_index, nodes_view, strings_view, unbounds_view, values_view, BoltMap, Node,
    Path, Relationship, UnboundRelationship, Value,
};

verus! {

fn push_u16(out: &mut Vec<u8>, x: u16)
    ensures
        final(out)@ == old(out)@ + be16(x),
{
    out.push((x >> 8u16) as u8);
    out.push(x as u8);
    assert(final(out)@ =~= old(out)@ + be16(x));
}

fn push_u32(out: &mut Vec<u8>, x: u32)
    ensures
        final(out)@ == old(out)@ + be32(x),
{
    out.push((x >> 24u32) as u8);
    out.push((x >> 16u32) as u8);
    out.push((x >> 8u32) as u8);
    out.push(x as u8);
    assert(final(out)@ =~= old(out)@ + be32(x));
}

fn push_u64(out: &mut Vec<u8>, x: u64)
    ensures
        final(out)@ == old(out)@ + be64(x),
{
    out.push((x >> 56u64) as u8);
    out.push((x >> 48u64) as u8);
    out.push((x >> 40u64) as u8);
    out.push((x >> 32u64) as u8);
    out.push((x >> 24u64) as u8);
    out.push((x >> 16u64) as u8);
    out.push((x >> 8u64) as u8);
    out.push(x as u8);
    assert(final(out)@ =~= old(out)@ + be64(x));
}

/// Appends an integer in the smallest width whose signed range holds it.
pub fn write_int(out: &mut Vec<u8>, i: i64)
    ensures
        final(out)@ == old(out)@ + int_bytes(i),
{
    if -16 <= i && i <= 127 {
        out.push(i as u8);
        assert(final(out)@ =~= old(out)@ + int_bytes(i));
    } else if -0x80 <= i && i < 0x80 {
        out.push(0xC8u8);
        out.push(i as u8);
        assert(final(out)@ =~= old(out)@ + int_bytes(i));
    } else if -0x8000 <= i && i < 0x8000 {
        out.push(0xC9u8);
        push_u16(out, i as u16);
        assert(final(out)@ =~= old(out)@ + int_bytes(i));
    } else if -0x8000_0000 <= i && i < 0x8000_0000 {
        out.push(0xCAu8);
        push_u32(out, i as u32);
        assert(final(out)@ =~= old(out)@ + int_bytes(i));
    } else {
        out.push(0xCBu8);
        push_u64(out, i as u64);
        assert(final(out)@ =~= old(out)@ + int_bytes(i));
    }
}

fn write_header(out: &mut Vec<u8>, n: usize, tiny: u8, m8: u8, m16: u8, m32: u8)
    requires
        size_fits(n as nat),
        tiny % 16 == 0,
    ensures
        final(out)@ == old(out)@ + size_header(n as nat, tiny, m8, m16, m32),
{
    if n < 16 {
        out.push(tiny + n as u8);
    } else if n < 0x100 {
        out.push(m8);
        out.push(n as u8);
    } else if n < 0x1_0000 {
        out.push(m16);
        push_u16(out, n as u16);
    } else {
        out.push(m32);
        push_u32(out, n as u32);
    }
    assert(final(out)@ =~= old(out)@ + size_header(n as nat, tiny, m8, m16, m32));
}

fn check_size(n: usize) -> (r: Result<(), Error>)
    ensures
        r is Ok <==> size_fits(n as nat),
        r is Err ==> is_too_large(r),
{
    if n as u64 > 0xFFFF_FFFFu64 {
        Err(Error::ValueTooLarge(n))
    } else {
        Ok(())
    }
}

/// Appends a string: its marker, its byte length, then its UTF-8 bytes.
pub fn write_text(out: &mut Vec<u8>, s: &String) -> (r: Result<(), Error>)
    ensures
        r is Ok <==> text_fits(s@),
        r is Ok ==> final(out)@ == old(out)@ + text_bytes(s@),
        r is Err ==> is_too_large(r),
{
    let mut bytes = s.as_str().as_bytes_vec();
    let n = bytes.len();
    check_size(n)?;
    write_header(out, n, 0x80, 0xD0, 0xD1, 0xD2);
    out.append(&mut bytes);
    assert(final(out)@ =~= old(out)@ + text_bytes(s@));
    Ok(())
}

fn write_ints(out: &mut Vec<u8>, ids: &Vec<i64>)
    ensures
        final(out)@ == old(out)@ + pack_ints(ids@),
{
    let mut i: usize = 0;
    while i < ids.len()
        invariant
            0 <= i <= ids@.len(),
            out@ == old(out)@ + pack_ints(ids@.take(i as int)),
        decreases ids@.len() - i,
    {
        write_int(out, ids[i]);
        assert(ids@.take(i + 1).drop_last() =~= ids@.take(i as int));
        i += 1;
        assert(out@ =~= old(out)@ + pack_ints(ids@.take(i as int)));
    }
    assert(ids@.take(ids@.len() as int) =~= ids@);
}

fn write_texts(out: &mut Vec<u8>, s: &Vec<String>) -> (r: Result<(), Error>)
    ensures
        r is Ok <==> (forall|j: int| 0 <= j < s@.len() ==> text_fits(#[trigger] s@[j]@)),
        r is Ok ==> final(out)@ == old(out)@ + pack_texts(strings_view(s@)),
        r is Err ==> is_too_large(r),
{
    let mut i: usize = 0;
    while i < s.len()
        invariant
            0 <= i <= s@.len(),
            forall|j: int| 0 <= j < i ==> text_fits(#[trigger] s@[j]@),
            out@ == old(out)@ + pack_texts(strings_view(s@.take(i as int))),
        decreases s@.len() - i,
    {
        write_text(out, &s[i])?;
        assert(strings_view(s@.take(i + 1)).drop_last() =~= strings_view(s@.take(i as int)));
        i += 1;
        assert(out@ =~= old(out)@ + pack_texts(strings_view(s@.take(i as int))));
    }
    assert(s@.take(s@.len() as int) =~= s@);
    Ok(())
}

/// Appends the encoding of a value.
pub fn write_value(out: &mut Vec<u8>, v: &Value) -> (r: Result<(), Error>)
    ensures
        r is Ok <==> fits(v.view_model()),
        r is Ok ==> final(out)@ == old(out)@ + pack(v.view_model()),
        r is Err ==> is_too_large(r),
    decreases v,
{
    match v {
        Value::Null => {
            out.push(0xC0u8);
        },
        Value::Boolean(b) => {
            out.push(if *b { 0xC3u8 } else { 0xC2u8 });
        },
        Value::Integer(i) => {
            write_int(out, *i);
        },
        Value::Float(f) => {
            out.push(0xC1u8);
            push_u64(out, *f);
        },
        Value::String(s) => {
            write_text(out, s)?;
        },
        Value::List(l) => {
            proof {
                crate::value::lemma_values_view_len(l@);
            }
            check_size(l.len())?;
            write_header(out, l.len(), 0x90, 0xD4, 0xD5, 0xD6);
            write_values(out, l)?;
        },
        Value::BoltMap(m) => {
            proof {
                crate::value::lemma_entries_view_len(m.value@);
            }
            write_map(out, m)?;
        },
        Value::Node(n) => {
            write_node(out, n)?;
        },
        Value::Relationship(rel) => {
            write_relationship(out, rel)?;
        },
        Value::UnboundRelationship(u) => {
            write_unbound(out, u)?;
        },
        Value::Path(p) => {
            write_path(out, p)?;
        },
    }
    assert(final(out)@ =~= old(out)@ + pack(v.view_model()));
    Ok(())
}

fn write_values(out: &mut Vec<u8>, l: &Vec<Value>) -> (r: Result<(), Error>)
    ensures
        r is Ok <==> seq_fits(values_view(l@)),
        r is Ok ==> final(out)@ == old(out)@ + pack_seq(values_view(l@)),
        r is Err ==> is_too_large(r),
    decreases l,
{
    let mut i: usize = 0;
    while i < l.len()
        invariant
            0 <= i <= l@.len(),
            seq_fits(values_view(l@.take(i as int))),
            out@ == old(out)@ + pack_seq(values_view(l@.take(i as int))),
        decreases l@.len() - i,
    {
        let r = write_value(out, &l[i]);
        if r.is_err() {
            proof {
                if seq_fits(values_view(l@)) {
                    lemma_values_view_index(l@, i as int);
                    lemma_seq_fits_each(values_view(l@), i as int);
                }
            }
            return r;
        }
        assert(l@.take(i + 1).drop_last() =~= l@.take(i as int));
        assert(values_view(l@.take(i + 1)).drop_last() =~= values_view(l@.take(i as int)));
        i += 1;
        assert(out@ =~= old(out)@ + pack_seq(values_view(l@.take(i as int))));
    }
    assert(l@.take(l@.len() as int) =~= l@);
    Ok(())
}

fn write_entries(out: &mut Vec<u8>, m: &Vec<(String, Value)>) -> (r: Result<(), Error>)
    ensures
        r is Ok <==> entries_fit(entries_view(m@)),
        r is Ok ==> final(out)@ == old(out)@ + pack_entries(entries_view(m@)),
        r is Err ==> is_too_large(r),
    decreases m,
{
    let mut i: usize = 0;
    while i < m.len()
        invariant
            0 <= i <= m@.len(),
            entries_fit(entries_view(m@.take(i as int))),
            out@ == old(out)@ + pack_entries(entries_view(m@.take(i as int))),
        decreases m@.len() - i,
    {
        let r = write_text(out, &m[i].0);
        if r.is_err() {
            proof {
                if entries_fit(entries_view(m@)) {
                    lemma_entries_view_index(m@, i as int);
                    lemma_entries_fit_each(entries_view(m@), i as int);
                }
            }
            return r;
        }
        let r = write_value(out, &m[i].1);
        if r.is_err() {
            proof {
                if entries_fit(entries_view(m@)) {
                    lemma_entries_view_index(m@, i as int);
                    lemma_entries_fit_each(entries_view(m@), i as int);
                }
            }
            return r;
        }
        assert(m@.take(i + 1).drop_last() =~= m@.take(i as int));
        assert(entries_view(m@.take(i + 1)).drop_last() =~= entries_view(m@.take(i as int)));
        i += 1;
        assert(out@ =~= old(out)@ + pack_entries(entries_view(m@.take(i as int))));
    }
    assert(m@.take(m@.len() as int) =~= m@);
    Ok(())
}

pub(crate) fn write_map(out: &mut Vec<u8>, m: &BoltMap) -> (r: Result<(), Error>)
    ensures
        r is Ok <==> size_fits(m.value@.len() as nat) && entries_fit(entries_view(m.value@)),
        r is Ok ==> final(out)@ == old(out)@ + map_header(m.value@.len() as nat) + pack_entries(
            entries_view(m.value@),
        ),
        r is Err ==> is_too_large(r),
    decreases m,
{
    check_size(m.value.len())?;
    write_header(out, m.value.len(), 0xA0, 0xD8, 0xD9, 0xDA);
    write_entries(out, &m.value)?;
    assert(final(out)@ =~= old(out)@ + map_header(m.value@.len() as nat) + pack_entries(
        entries_view(m.value@),
    ));
    Ok(())
}

fn write_node(out: &mut Vec<u8>, n: &Node) -> (r: Result<(), Error>)
    ensures
        r is Ok <==> node_fits(n.view_model()),
        r is Ok ==> final(out)@ == old(out)@ + pack_node(n.view_model()),
        r is Err ==> is_too_large(r),
    decreases n,
{
    proof {
        crate::value::lemma_entries_view_len(n.properties.value@);
        assert(texts_fit(strings_view(n.labels@)) <==> size_fits(n.labels@.len() as nat) && (
        forall|j: int| 0 <= j < n.labels@.len() ==> text_fits(#[trigger] n.labels@[j]@))) by {
            if forall|j: int| 0 <= j < n.labels@.len() ==> text_fits(#[trigger] n.labels@[j]@) {
                assert forall|j: int| 0 <= j < strings_view(n.labels@).len() implies text_fits(
                    #[trigger] strings_view(n.labels@)[j],
                ) by {
                    assert(text_fits(n.labels@[j]@));
                }
            }
            if texts_fit(strings_view(n.labels@)) {
                assert forall|j: int| 0 <= j < n.labels@.len() implies text_fits(
                    #[trigger] n.labels@[j]@,
                ) by {
                    assert(text_fits(strings_view(n.labels@)[j]));
                }
            }
        }
    }
    out.push(0xB3u8);
    out.push(0x4Eu8);
    write_int(out, n.node_identity);
    check_size(n.labels.len())?;
    write_header(out, n.labels.len(), 0x90, 0xD4, 0xD5, 0xD6);
    write_texts(out, &n.labels)?;
    write_map(out, &n.properties)?;
    assert(final(out)@ =~= old(out)@ + pack_node(n.view_model()));
    Ok(())
}

#[verifier::rlimit(40)]
fn write_relationship(out: &mut Vec<u8>, rel: &Relationship) -> (r: Result<(), Error>)
    ensures
        r is Ok <==> fits(PackValue::Relationship(rel.view_model())),
        r is Ok ==> final(out)@ == old(out)@ + pack(PackValue::Relationship(rel.view_model())),
        r is Err ==> is_too_large(r),
    decreases rel,
{
    proof {
        crate::value::lemma_entries_view_len(rel.properties.value@);
    }
    out.push(0xB5u8);
    out.push(0x52u8);
    write_int(out, rel.rel_identity);
    write_int(out, rel.start_node_identity);
    write_int(out, rel.end_node_identity);
    write_text(out, &rel.rel_type)?;
    write_map(out, &rel.properties)?;
    assert(final(out)@ =~= old(out)@ + pack(PackValue::Relationship(rel.view_model())));
    Ok(())
}

fn write_path(out: &mut Vec<u8>, p: &Path) -> (r: Result<(), Error>)
    ensures
        r is Ok <==> fits(
            PackValue::Path(nodes_view(p.nodes@), unbounds_view(p.relationships@), p.sequence@),
        ),
        r is Ok ==> final(out)@ == old(out)@ + pack(
            PackValue::Path(nodes_view(p.nodes@), unbounds_view(p.relationships@), p.sequence@),
        ),
        r is Err ==> is_too_large(r),
    decreases p,
{
    proof {
        crate::value::lemma_nodes_view_len(p.nodes@);
        crate::value::lemma_unbounds_view_len(p.relationships@);
    }
    out.push(0xB3u8);
    out.push(0x50u8);
    check_size(p.nodes.len())?;
    write_header(out, p.nodes.len(), 0x90, 0xD4, 0xD5, 0xD6);
    write_nodes(out, &p.nodes)?;
    check_size(p.relationships.len())?;
    write_header(out, p.relationships.len(), 0x90, 0xD4, 0xD5, 0xD6);
    write_unbounds(out, &p.relationships)?;
    check_size(p.sequence.len())?;
    write_header(out, p.sequence.len(), 0x90, 0xD4, 0xD5, 0xD6);
    write_ints(out, &p.sequence);
    assert(final(out)@ =~= old(out)@ + pack(
        PackValue::Path(nodes_view(p.nodes@), unbounds_view(p.relationships@), p.sequence@),
    ));
    Ok(())
}

fn write_unbound(out: &mut Vec<u8>, u: &UnboundRelationship) -> (r: Result<(), Error>)
    ensures
        r is Ok <==> unbound_fits(u.view_model()),
        r is Ok ==> final(out)@ == old(out)@ + pack_unbound(u.view_model()),
        r is Err ==> is_too_large(r),
    decreases u,
{
    proof {
        crate::value::lemma_entries_view_len(u.properties.value@);
    }
    out.push(0xB3u8);
    out.push(0x72u8);
    write_int(out, u.rel_identity);
    write_text(out, &u.rel_type)?;
    write_map(out, &u.properties)?;
    assert(final(out)@ =~= old(out)@ + pack_unbound(u.view_model()));
    Ok(())
}

fn write_nodes(out: &mut Vec<u8>, s: &Vec<Node>) -> (r: Result<(), Error>)
    ensures
        r is Ok <==> nodes_fit(nodes_view(s@)),
        r is Ok ==> final(out)@ == old(out)@ + pack_nodes(nodes_view(s@)),
        r is Err ==> is_too_large(r),
    decreases s,
{
    let mut i: usize = 0;
    while i < s.len()
        invariant
            0 <= i <= s@.len(),
            nodes_fit(nodes_view(s@.take(i as int))),
            out@ == old(out)@ + pack_nodes(nodes_view(s@.take(i as int))),
        decreases s@.len() - i,
    {
        let r = write_node(out, &s[i]);
        if r.is_err() {
            proof {
                if nodes_fit(nodes_view(s@)) {
                    lemma_nodes_view_index(s@, i as int);
                    lemma_nodes_fit_each(nodes_view(s@), i as int);
                }
            }
            return r;
        }
        assert(s@.take(i + 1).drop_last() =~= s@.take(i as int));
        assert(nodes_view(s@.take(i + 1)).drop_last() =~= nodes_view(s@.take(i as int)));
        i += 1;
        assert(out@ =~= old(out)@ + pack_nodes(nodes_view(s@.take(i as int))));
    }
    assert(s@.take(s@.len() as int) =~= s@);
    Ok(())
}

fn write_unbounds(out: &mut Vec<u8>, s: &Vec<UnboundRelationship>) -> (r: Result<(), Error>)
    ensures
        r is Ok <==> unbounds_fit(unbounds_view(s@)),
        r is Ok ==> final(out)@ == old(out)@ + pack_unbounds(unbounds_view(s@)),
        r is Err ==> is_too_large(r),
    decreases s,
{
    let mut i: usize = 0;
    while i < s.len()
        invariant
            0 <= i <= s@.len(),
            unbounds_fit(unbounds_view(s@.take(i as int))),
            out@ == old(out)@ + pack_unbounds(unbounds_view(s@.take(i as int))),
        decreases s@.len() - i,
    {
        let r = write_unbound(out, &s[i]);
        if r.is_err() {
            proof {
                if unbounds_fit(unbounds_view(s@)) {
                    lemma_unbounds_view_index(s@, i as int);
                    lemma_unbounds_fit_each(unbounds_view(s@), i as int);
                }
            }
            return r;
        }
        assert(s@.take(i + 1).drop_last() =~= s@.take(i as int));
        assert(unbounds_view(s@.take(i + 1)).drop_last() =~= unbounds_view(s@.take(i as int)));
        i += 1;
        assert(out@ =~= old(out)@ + pack_unbounds(unbounds_view(s@.take(i as int))));
    }
    assert(s@.take(s@.len() as int) =~= s@);
    Ok(())
}

/// Encodes a value: fails with `ValueTooLarge` exactly when some string, list
/// or map inside it holds 2^32 items or more.
pub fn encode(v: &Value) -> (r: Result<Vec<u8>, Error>)
    ensures
        r is Ok <==> fits(v.view_model()),
        r matches Ok(bytes) ==> bytes@ == pack(v.view_model()),
        r is Err ==> is_too_large(r),
{
    let mut out: Vec<u8> = Vec::new();
    match write_value(&mut out, v) {
        Ok(()) => {
            assert(out@ =~= pack(v.view_model()));
            Ok(out)
        },
        Err(e) => Err(e),
    }
}

} // verus!
