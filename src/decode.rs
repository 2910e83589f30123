use vstd::prelude::*;
use vstd::slice::slice_subrange;
use vstd::string::{StringExecFns, StringSliceAdditionalSpecFns};
use vstd::utf8::{encode_utf8_decode_utf8, valid_utf8};
use crate::error::Error;
use crate::model::{PackValue, PropsModel};
use crate::parse::{
    MAX_DEPTH,
    all_int, all_node, all_text, all_unbound, arity, classify, first_key_at, ints_of,
    is_list_marker, is_map_marker, is_struct_marker, is_text_marker, lemma_entries_err,
    lemma_items_err, map_put, nodes_of, parse, parse_entries, parse_items, parse_key, parse_size,
    parse_text, read_be16, read_be32, read_be64, texts_of, unbounds_of,
};
use crate::value::{
    entries_view, lemma_entries_view_index, lemma_entries_view_len, lemma_entries_view_update,
    lemma_nodes_view_index, lemma_nodes_view_len, lemma_unbounds_view_index,
    lemma_unbounds_view_len, lemma_values_view_index, lemma_values_view_len, nodes_view,
    strings_view, unbounds_view, values_view, BoltMap, Node, Path, Relationship,
    UnboundRelationship, Value,
};

verus! {

/// Relies on std::str::from_utf8: it succeeds exactly on valid UTF-8, and the
/// string it returns consists of the same bytes.
#[verifier::external_body]
fn str_from_utf8(v: &[u8]) -> (r: Option<&str>)
    ensures
        r is Some <==> valid_utf8(v@),
        r matches Some(s) ==> s.spec_bytes() == v@,
{
    std::str::from_utf8(v).ok()
}

fn read_u16(b: &[u8], p: usize) -> (r: u16)
    requires
        p + 2 <= b@.len(),
    ensures
        r == read_be16(b@, p as int),
{
    ((b[p] as u16) << 8u16) | (b[p + 1] as u16)
}

fn read_u32(b: &[u8], p: usize) -> (r: u32)
    requires
        p + 4 <= b@.len(),
    ensures
        r == read_be32(b@, p as int),
{
    ((b[p] as u32) << 24u32) | ((b[p + 1] as u32) << 16u32) | ((b[p + 2] as u32) << 8u32) | (b[p
        + 3] as u32)
}

fn read_u64(b: &[u8], p: usize) -> (r: u64)
    requires
        p + 8 <= b@.len(),
    ensures
        r == read_be64(b@, p as int),
{
    let _len = b.len();
    ((read_u32(b, p) as u64) << 32u64) | (read_u32(b, p + 4) as u64)
}

/// Reads the item count that follows marker `m`, from position `p`.
fn decode_size(b: &[u8], p: usize, m: u8, tiny: u8, m8: u8, m16: u8) -> (r: Result<
    (usize, usize),
    Error,
>)
    requires
        p <= b@.len(),
        tiny <= 0xF0,
    ensures
        match r {
            Ok((n, q)) => parse_size(b@, p as int, m, tiny, m8, m16) == Ok::<(nat, int), Error>(
                (n as nat, q as int),
            ) && q <= b@.len(),
            Err(e) => parse_size(b@, p as int, m, tiny, m8, m16) == Err::<(nat, int), Error>(e),
        },
{
    if tiny <= m && m <= tiny + 15 {
        Ok(((m - tiny) as usize, p))
    } else if m == m8 {
        if p < b.len() {
            Ok((b[p] as usize, p + 1))
        } else {
            Err(Error::Truncated)
        }
    } else if m == m16 {
        if b.len() - p >= 2 {
            Ok((read_u16(b, p) as usize, p + 2))
        } else {
            Err(Error::Truncated)
        }
    } else {
        if b.len() - p >= 4 {
            Ok((read_u32(b, p) as usize, p + 4))
        } else {
            Err(Error::Truncated)
        }
    }
}

/// Decodes the string whose marker stands at `p`.
pub fn decode_text(b: &[u8], p: usize) -> (r: Result<(String, usize), Error>)
    requires
        p < b@.len(),
        is_text_marker(b@[p as int]),
    ensures
        match r {
            Ok((s, q)) => parse_text(b@, p as int) == Ok::<(Seq<char>, int), Error>(
                (s@, q as int),
            ) && q <= b@.len(),
            Err(e) => parse_text(b@, p as int) == Err::<(Seq<char>, int), Error>(e),
        },
{
    let _len = b.len();
    let (n, q) = decode_size(b, p + 1, b[p], 0x80, 0xD0, 0xD1)?;
    if n > b.len() - q {
        return Err(Error::Truncated);
    }
    let bytes = slice_subrange(b, q, q + n);
    match str_from_utf8(bytes) {
        None => Err(Error::Utf8),
        Some(s) => {
            let out = <String as StringExecFns>::from_str(s);
            proof {
                encode_utf8_decode_utf8(s@);
            }
            Ok((out, q + n))
        },
    }
}

/// Decodes a map key, a string, at `p`.
fn decode_key(b: &[u8], p: usize) -> (r: Result<(String, usize), Error>)
    ensures
        match r {
            Ok((s, q)) => parse_key(b@, p as int) == Ok::<(Seq<char>, int), Error>(
                (s@, q as int),
            ) && q <= b@.len(),
            Err(e) => parse_key(b@, p as int) == Err::<(Seq<char>, int), Error>(e),
        },
{
    if p >= b.len() {
        Err(Error::Truncated)
    } else if !(0x80 <= b[p] && b[p] <= 0x8F || b[p] == 0xD0 || b[p] == 0xD1 || b[p] == 0xD2) {
        Err(Error::InvalidMarker(b[p]))
    } else {
        decode_text(b, p)
    }
}

/// Puts `(k, v)` into the entries: the first entry with key `k` takes the new
/// value in its place, or the pair goes at the end.
pub fn put_entry(m: &mut Vec<(String, Value)>, k: String, v: Value)
    ensures
        entries_view(final(m)@) == map_put(entries_view(old(m)@), k@, v.view_model()),
{
    proof {
        lemma_entries_view_len(old(m)@);
    }
    let ghost e = entries_view(old(m)@);
    let mut i: usize = 0;
    while i < m.len()
        invariant
            0 <= i <= m@.len(),
            m@ == old(m)@,
            e == entries_view(m@),
            e.len() == m@.len(),
            forall|j: int| 0 <= j < i ==> e[j].0 != k@,
        decreases m@.len() - i,
    {
        proof {
            lemma_entries_view_index(m@, i as int);
        }
        if m[i].0 == k {
            let ghost kv = k@;
            let ghost vv = v.view_model();
            proof {
                lemma_entries_view_update(m@, i as int, (k, v));
                assert(first_key_at(e, kv, i as int));
                let c = choose|c: int| first_key_at(e, kv, c);
                if c < i {
                } else if c > i {
                    assert(e[i as int].0 == kv);
                }
            }
            m[i] = (k, v);
            return ;
        }
        i += 1;
    }
    let ghost kv = k@;
    let ghost vv = v.view_model();
    m.push((k, v));
    proof {
        assert(m@.drop_last() =~= old(m)@);
    }
}

/// Decodes the value that starts at `p`, nested at most `d` levels deep.
pub fn decode_value(b: &[u8], p: usize, d: u32) -> (r: Result<(Value, usize), Error>)
    ensures
        match r {
            Ok((v, q)) => parse(b@, p as int, d as nat) == Ok::<(PackValue, int), Error>(
                (v.view_model(), q as int),
            ) && q <= b@.len(),
            Err(e) => parse(b@, p as int, d as nat) == Err::<(PackValue, int), Error>(e),
        },
    decreases d, 1usize,
{
    let len = b.len();
    if p >= len {
        return Err(Error::Truncated);
    }
    if d == 0 {
        return Err(Error::NestingTooDeep);
    }
    let m = b[p];
    if m == 0xC0 {
        Ok((Value::Null, p + 1))
    } else if m == 0xC2 || m == 0xC3 {
        Ok((Value::Boolean(m == 0xC3), p + 1))
    } else if m <= 0x7F || m >= 0xF0 {
        Ok((Value::Integer((m as i8) as i64), p + 1))
    } else if m == 0xC8 {
        if len - p >= 2 {
            Ok((Value::Integer((b[p + 1] as i8) as i64), p + 2))
        } else {
            Err(Error::Truncated)
        }
    } else if m == 0xC9 {
        if len - p >= 3 {
            Ok((Value::Integer((read_u16(b, p + 1) as i16) as i64), p + 3))
        } else {
            Err(Error::Truncated)
        }
    } else if m == 0xCA {
        if len - p >= 5 {
            Ok((Value::Integer((read_u32(b, p + 1) as i32) as i64), p + 5))
        } else {
            Err(Error::Truncated)
        }
    } else if m == 0xCB {
        if len - p >= 9 {
            Ok((Value::Integer(read_u64(b, p + 1) as i64), p + 9))
        } else {
            Err(Error::Truncated)
        }
    } else if m == 0xC1 {
        if len - p >= 9 {
            Ok((Value::Float(read_u64(b, p + 1)), p + 9))
        } else {
            Err(Error::Truncated)
        }
    } else if 0x80 <= m && m <= 0x8F || m == 0xD0 || m == 0xD1 || m == 0xD2 {
        let (s, q) = decode_text(b, p)?;
        Ok((Value::String(s), q))
    } else if 0x90 <= m && m <= 0x9F || m == 0xD4 || m == 0xD5 || m == 0xD6 {
        decode_list(b, p, d)
    } else if 0xA0 <= m && m <= 0xAF || m == 0xD8 || m == 0xD9 || m == 0xDA {
        decode_map(b, p, d)
    } else if 0xB0 <= m && m <= 0xBF || m == 0xDC || m == 0xDD {
        decode_structure(b, p, d)
    } else {
        Err(Error::InvalidMarker(m))
    }
}

fn decode_list(b: &[u8], p: usize, d: u32) -> (r: Result<(Value, usize), Error>)
    requires
        p < b@.len(),
        d > 0,
        is_list_marker(b@[p as int]),
    ensures
        match r {
            Ok((v, q)) => parse(b@, p as int, d as nat) == Ok::<(PackValue, int), Error>(
                (v.view_model(), q as int),
            ) && q <= b@.len(),
            Err(e) => parse(b@, p as int, d as nat) == Err::<(PackValue, int), Error>(e),
        },
    decreases d, 0usize,
{
    let _len = b.len();
    let (n, q) = decode_size(b, p + 1, b[p], 0x90, 0xD4, 0xD5)?;
    let (items, r) = decode_items(b, q, n, d - 1)?;
    Ok((Value::List(items), r))
}

fn decode_map(b: &[u8], p: usize, d: u32) -> (r: Result<(Value, usize), Error>)
    requires
        p < b@.len(),
        d > 0,
        is_map_marker(b@[p as int]),
    ensures
        match r {
            Ok((v, q)) => parse(b@, p as int, d as nat) == Ok::<(PackValue, int), Error>(
                (v.view_model(), q as int),
            ) && q <= b@.len(),
            Err(e) => parse(b@, p as int, d as nat) == Err::<(PackValue, int), Error>(e),
        },
    decreases d, 0usize,
{
    let _len = b.len();
    let (n, q) = decode_size(b, p + 1, b[p], 0xA0, 0xD8, 0xD9)?;
    let (entries, r) = decode_entries(b, q, n, d - 1)?;
    Ok((Value::BoltMap(BoltMap { value: entries }), r))
}

fn decode_structure(b: &[u8], p: usize, d: u32) -> (r: Result<(Value, usize), Error>)
    requires
        p < b@.len(),
        d > 0,
        is_struct_marker(b@[p as int]),
    ensures
        match r {
            Ok((v, q)) => parse(b@, p as int, d as nat) == Ok::<(PackValue, int), Error>(
                (v.view_model(), q as int),
            ) && q <= b@.len(),
            Err(e) => parse(b@, p as int, d as nat) == Err::<(PackValue, int), Error>(e),
        },
    decreases d, 0usize,
{
    let _len = b.len();
    let (n, q) = decode_size(b, p + 1, b[p], 0xB0, 0xDC, 0xDD)?;
    if q >= b.len() {
        return Err(Error::Truncated);
    }
    let sig = b[q];
    let k: usize = if sig == 0x4E || sig == 0x72 || sig == 0x50 {
        3
    } else if sig == 0x52 {
        5
    } else {
        return Err(Error::InvalidSignature(sig));
    };
    if k != n {
        return Err(Error::InvalidStructure(sig));
    }
    let (fields, r) = decode_items(b, q + 1, n, d - 1)?;
    let v = build_structure(sig, fields)?;
    Ok((v, r))
}

/// Decodes `n` values one after another from `p`.
fn decode_items(b: &[u8], p: usize, n: usize, d: u32) -> (r: Result<(Vec<Value>, usize), Error>)
    requires
        p <= b@.len(),
    ensures
        match r {
            Ok((items, q)) => parse_items(b@, p as int, n as nat, d as nat) == Ok::<
                (Seq<PackValue>, int),
                Error,
            >((values_view(items@), q as int)) && q <= b@.len() && items@.len() == n,
            Err(e) => parse_items(b@, p as int, n as nat, d as nat) == Err::<
                (Seq<PackValue>, int),
                Error,
            >(e),
        },
    decreases d, 2usize,
{
    let mut items: Vec<Value> = Vec::new();
    let mut q = p;
    let mut i: usize = 0;
    while i < n
        invariant
            0 <= i <= n,
            q <= b@.len(),
            items@.len() == i,
            parse_items(b@, p as int, i as nat, d as nat) == Ok::<(Seq<PackValue>, int), Error>(
                (values_view(items@), q as int),
            ),
        decreases n - i,
    {
        match decode_value(b, q, d) {
            Err(e) => {
                proof {
                    lemma_items_err(b@, p as int, (i + 1) as nat, n as nat, d as nat);
                }
                return Err(e);
            },
            Ok((v, q2)) => {
                let ghost old_items = items@;
                items.push(v);
                proof {
                    assert(items@.drop_last() =~= old_items);
                }
                q = q2;
            },
        }
        i += 1;
    }
    Ok((items, q))
}

/// Decodes `n` key/value entries one after another from `p`.
fn decode_entries(b: &[u8], p: usize, n: usize, d: u32) -> (r: Result<
    (Vec<(String, Value)>, usize),
    Error,
>)
    requires
        p <= b@.len(),
    ensures
        match r {
            Ok((entries, q)) => parse_entries(b@, p as int, n as nat, d as nat) == Ok::<
                (PropsModel, int),
                Error,
            >((entries_view(entries@), q as int)) && q <= b@.len(),
            Err(e) => parse_entries(b@, p as int, n as nat, d as nat) == Err::<
                (PropsModel, int),
                Error,
            >(e),
        },
    decreases d, 2usize,
{
    let mut entries: Vec<(String, Value)> = Vec::new();
    let mut q = p;
    let mut i: usize = 0;
    while i < n
        invariant
            0 <= i <= n,
            q <= b@.len(),
            parse_entries(b@, p as int, i as nat, d as nat) == Ok::<(PropsModel, int), Error>(
                (entries_view(entries@), q as int),
            ),
        decreases n - i,
    {
        match decode_key(b, q) {
            Err(e) => {
                proof {
                    lemma_entries_err(b@, p as int, (i + 1) as nat, n as nat, d as nat);
                }
                return Err(e);
            },
            Ok((k, q1)) => {
                match decode_value(b, q1, d) {
                    Err(e) => {
                        proof {
                            lemma_entries_err(b@, p as int, (i + 1) as nat, n as nat, d as nat);
                        }
                        return Err(e);
                    },
                    Ok((v, q2)) => {
                        put_entry(&mut entries, k, v);
                        q = q2;
                    },
                }
            },
        }
        i += 1;
    }
    Ok((entries, q))
}

/// The strings of a list whose items are all strings.
fn into_strings(items: Vec<Value>) -> (r: Option<Vec<String>>)
    ensures
        r is Some <==> all_text(values_view(items@)),
        r matches Some(x) ==> strings_view(x@) == texts_of(values_view(items@)),
{
    let ghost orig = items@;
    proof {
        lemma_values_view_len(orig);
    }
    let mut rest = items;
    let mut out: Vec<String> = Vec::new();
    while rest.len() > 0
        invariant
            out@.len() <= orig.len(),
            orig == items@,
            rest@ == orig.subrange(out@.len() as int, orig.len() as int),
            forall|j: int|
                0 <= j < out@.len() ==> values_view(orig)[j] == PackValue::Text(
                    #[trigger] out@[j]@,
                ),
        decreases rest@.len(),
    {
        let ghost k = out@.len() as int;
        proof {
            lemma_values_view_index(orig, k);
        }
        let x = rest.remove(0);
        assert(x == orig[k]);
        assert(values_view(orig)[k] == x.view_model());
        match x {
            Value::String(s) => {
                out.push(s);
            },
            _ => {
                assert(!(values_view(orig)[k] is Text));
                assert(!all_text(values_view(orig)));
                return None;
            },
        }
    }
    assert forall|j: int| 0 <= j < orig.len() implies (#[trigger] values_view(orig)[j]) is Text by {
        assert(values_view(orig)[j] == PackValue::Text(out@[j]@));
    }
    assert(strings_view(out@) =~= texts_of(values_view(orig)));
    Some(out)
}

/// The nodes of a list whose items are all nodes.
fn into_nodes(items: Vec<Value>) -> (r: Option<Vec<Node>>)
    ensures
        r is Some <==> all_node(values_view(items@)),
        r matches Some(x) ==> nodes_view(x@) == nodes_of(values_view(items@)),
{
    let ghost orig = items@;
    proof {
        lemma_values_view_len(orig);
    }
    let mut rest = items;
    let mut out: Vec<Node> = Vec::new();
    while rest.len() > 0
        invariant
            out@.len() <= orig.len(),
            orig == items@,
            rest@ == orig.subrange(out@.len() as int, orig.len() as int),
            forall|j: int|
                0 <= j < out@.len() ==> values_view(orig)[j] == PackValue::Node(
                    #[trigger] out@[j].view_model(),
                ),
        decreases rest@.len(),
    {
        let ghost k = out@.len() as int;
        proof {
            lemma_values_view_index(orig, k);
        }
        let x = rest.remove(0);
        assert(x == orig[k]);
        assert(values_view(orig)[k] == x.view_model());
        match x {
            Value::Node(n) => {
                out.push(n);
            },
            _ => {
                assert(!(values_view(orig)[k] is Node));
                assert(!all_node(values_view(orig)));
                return None;
            },
        }
    }
    assert forall|j: int| 0 <= j < orig.len() implies (#[trigger] values_view(orig)[j]) is Node by {
        assert(values_view(orig)[j] == PackValue::Node(out@[j].view_model()));
    }
    proof {
        lemma_nodes_view_len(out@);
        assert forall|j: int| 0 <= j < out@.len() implies #[trigger] nodes_view(out@)[j]
            == nodes_of(values_view(orig))[j] by {
            lemma_nodes_view_index(out@, j);
        }
    }
    assert(nodes_view(out@) =~= nodes_of(values_view(orig)));
    Some(out)
}

/// The unbound relationships of a list whose items are all unbound relationships.
fn into_unbounds(items: Vec<Value>) -> (r: Option<Vec<UnboundRelationship>>)
    ensures
        r is Some <==> all_unbound(values_view(items@)),
        r matches Some(x) ==> unbounds_view(x@) == unbounds_of(values_view(items@)),
{
    let ghost orig = items@;
    proof {
        lemma_values_view_len(orig);
    }
    let mut rest = items;
    let mut out: Vec<UnboundRelationship> = Vec::new();
    while rest.len() > 0
        invariant
            out@.len() <= orig.len(),
            orig == items@,
            rest@ == orig.subrange(out@.len() as int, orig.len() as int),
            forall|j: int|
                0 <= j < out@.len() ==> values_view(orig)[j] == PackValue::UnboundRelationship(
                    #[trigger] out@[j].view_model(),
                ),
        decreases rest@.len(),
    {
        let ghost k = out@.len() as int;
        proof {
            lemma_values_view_index(orig, k);
        }
        let x = rest.remove(0);
        assert(x == orig[k]);
        assert(values_view(orig)[k] == x.view_model());
        match x {
            Value::UnboundRelationship(u) => {
                out.push(u);
            },
            _ => {
                assert(!(values_view(orig)[k] is UnboundRelationship));
                assert(!all_unbound(values_view(orig)));
                return None;
            },
        }
    }
    assert forall|j: int| 0 <= j < orig.len() implies (#[trigger] values_view(
        orig,
    )[j]) is UnboundRelationship by {
        assert(values_view(orig)[j] == PackValue::UnboundRelationship(out@[j].view_model()));
    }
    proof {
        lemma_unbounds_view_len(out@);
        assert forall|j: int| 0 <= j < out@.len() implies #[trigger] unbounds_view(out@)[j]
            == unbounds_of(values_view(orig))[j] by {
            lemma_unbounds_view_index(out@, j);
        }
    }
    assert(unbounds_view(out@) =~= unbounds_of(values_view(orig)));
    Some(out)
}

/// The integers of a list whose items are all integers.
fn into_ints(items: Vec<Value>) -> (r: Option<Vec<i64>>)
    ensures
        r is Some <==> all_int(values_view(items@)),
        r matches Some(x) ==> x@ == ints_of(values_view(items@)),
{
    let ghost orig = items@;
    proof {
        lemma_values_view_len(orig);
    }
    let mut out: Vec<i64> = Vec::new();
    let mut i: usize = 0;
    while i < items.len()
        invariant
            i <= orig.len(),
            items@ == orig,
            out@.len() == i,
            forall|j: int|
                0 <= j < i ==> values_view(orig)[j] == PackValue::Integer(#[trigger] out@[j]),
        decreases orig.len() - i,
    {
        proof {
            lemma_values_view_index(orig, i as int);
        }
        match &items[i] {
            Value::Integer(n) => {
                out.push(*n);
            },
            _ => {
                assert(!(values_view(orig)[i as int] is Integer));
                return None;
            },
        }
        i += 1;
    }
    assert forall|j: int| 0 <= j < orig.len() implies (#[trigger] values_view(orig)[j]) is Integer by {
        assert(values_view(orig)[j] == PackValue::Integer(out@[j]));
    }
    assert(out@ =~= ints_of(values_view(orig)));
    Some(out)
}

/// The graph value that the fields of a structure with signature `sig` make up.
fn build_structure(sig: u8, fields: Vec<Value>) -> (r: Result<Value, Error>)
    requires
        arity(sig) == Some(fields@.len() as nat),
    ensures
        match r {
            Ok(v) => classify(sig, values_view(fields@)) == Ok::<PackValue, Error>(v.view_model()),
            Err(e) => classify(sig, values_view(fields@)) == Err::<PackValue, Error>(e),
        },
{
    let ghost f = values_view(fields@);
    proof {
        lemma_values_view_len(fields@);
        assert forall|j: int| 0 <= j < fields@.len() implies #[trigger] f[j]
            == fields@[j].view_model() by {
            lemma_values_view_index(fields@, j);
        }
    }
    let mut fields = fields;
    if sig == 0x52 {
        let props = fields.pop().unwrap();
        let rel_type = fields.pop().unwrap();
        let end = fields.pop().unwrap();
        let start = fields.pop().unwrap();
        let id = fields.pop().unwrap();
        match (id, start, end, rel_type, props) {
            (
                Value::Integer(id),
                Value::Integer(start),
                Value::Integer(end),
                Value::String(t),
                Value::BoltMap(m),
            ) => Ok(
                Value::Relationship(
                    Relationship {
                        rel_identity: id,
                        start_node_identity: start,
                        end_node_identity: end,
                        rel_type: t,
                        properties: m,
                    },
                ),
            ),
            _ => Err(Error::InvalidStructure(sig)),
        }
    } else {
        let third = fields.pop().unwrap();
        let second = fields.pop().unwrap();
        let first = fields.pop().unwrap();
        if sig == 0x4E {
            match (first, second, third) {
                (Value::Integer(id), Value::List(labels), Value::BoltMap(m)) => {
                    match into_strings(labels) {
                        Some(labels) => Ok(
                            Value::Node(
                                Node { node_identity: id, labels: labels, properties: m },
                            ),
                        ),
                        None => Err(Error::InvalidStructure(sig)),
                    }
                },
                _ => Err(Error::InvalidStructure(sig)),
            }
        } else if sig == 0x72 {
            match (first, second, third) {
                (Value::Integer(id), Value::String(t), Value::BoltMap(m)) => Ok(
                    Value::UnboundRelationship(
                        UnboundRelationship { rel_identity: id, rel_type: t, properties: m },
                    ),
                ),
                _ => Err(Error::InvalidStructure(sig)),
            }
        } else {
            match (first, second, third) {
                (Value::List(nodes), Value::List(rels), Value::List(ids)) => {
                    match (into_nodes(nodes), into_unbounds(rels), into_ints(ids)) {
                        (Some(nodes), Some(rels), Some(ids)) => Ok(
                            Value::Path(
                                Path { nodes: nodes, relationships: rels, sequence: ids },
                            ),
                        ),
                        _ => Err(Error::InvalidStructure(sig)),
                    }
                },
                _ => Err(Error::InvalidStructure(sig)),
            }
        }
    }
}

/// Decodes the value at the start of `b`, and says how many bytes it took.
pub fn decode(b: &[u8]) -> (r: Result<(Value, usize), Error>)
    ensures
        match r {
            Ok((v, n)) => parse(b@, 0, MAX_DEPTH as nat) == Ok::<(PackValue, int), Error>(
                (v.view_model(), n as int),
            ) && n <= b@.len(),
            Err(e) => parse(b@, 0, MAX_DEPTH as nat) == Err::<(PackValue, int), Error>(e),
        },
{
    decode_value(b, 0, MAX_DEPTH)
}

/// Decodes a map at the start of `b`; any other value is refused by its marker.
pub fn decode_map_at_start(b: &[u8]) -> (r: Result<(BoltMap, usize), Error>)
    ensures
        b@.len() == 0 ==> r == Err::<(BoltMap, usize), Error>(Error::Truncated),
        b@.len() > 0 && !is_map_marker(b@[0]) ==> r == Err::<(BoltMap, usize), Error>(
            Error::InvalidMarker(b@[0]),
        ),
        b@.len() > 0 && is_map_marker(b@[0]) ==> match r {
            Ok((m, n)) => parse(b@, 0, MAX_DEPTH as nat) == Ok::<(PackValue, int), Error>(
                (PackValue::Dict(entries_view(m.value@)), n as int),
            ),
            Err(e) => parse(b@, 0, MAX_DEPTH as nat) == Err::<(PackValue, int), Error>(e),
        },
{
    if b.len() == 0 {
        return Err(Error::Truncated);
    }
    let m = b[0];
    if !(0xA0 <= m && m <= 0xAF || m == 0xD8 || m == 0xD9 || m == 0xDA) {
        return Err(Error::InvalidMarker(m));
    }
    match decode_map(b, 0, MAX_DEPTH) {
        Ok((Value::BoltMap(map), n)) => Ok((map, n)),
        Ok((_, _)) => Err(Error::InvalidMarker(m)),
        Err(e) => Err(e),
    }
}

} // verus!
