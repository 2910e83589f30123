use vstd::prelude::*;
use vstd::utf8::{decode_utf8, valid_utf8};
use crate::error::Error;
use crate::model::{NodeModel, PackValue, PropsModel, UnboundModel};

verus! {

/// Depth of nesting that the decoder accepts: a scalar at the top level has depth one.
pub const MAX_DEPTH: u32 = 256;

/// A decoded item and the position just after it.
pub type Parsed<T> = Result<(T, int), Error>;

pub open spec fn read_be16(b: Seq<u8>, p: int) -> u16 {
    ((b[p] as u16) << 8u16) | (b[p + 1] as u16)
}

pub open spec fn read_be32(b: Seq<u8>, p: int) -> u32 {
    ((b[p] as u32) << 24u32) | ((b[p + 1] as u32) << 16u32) | ((b[p + 2] as u32) << 8u32) | (b[p
        + 3] as u32)
}

pub open spec fn read_be64(b: Seq<u8>, p: int) -> u64 {
    ((read_be32(b, p) as u64) << 32u64) | (read_be32(b, p + 4) as u64)
}

pub open spec fn in_tiny(m: u8, tiny: u8) -> bool {
    tiny <= m && m <= tiny + 15
}

pub open spec fn is_text_marker(m: u8) -> bool {
    in_tiny(m, 0x80) || m == 0xD0 || m == 0xD1 || m == 0xD2
}

pub open spec fn is_list_marker(m: u8) -> bool {
    in_tiny(m, 0x90) || m == 0xD4 || m == 0xD5 || m == 0xD6
}

pub open spec fn is_map_marker(m: u8) -> bool {
    in_tiny(m, 0xA0) || m == 0xD8 || m == 0xD9 || m == 0xDA
}

pub open spec fn is_struct_marker(m: u8) -> bool {
    in_tiny(m, 0xB0) || m == 0xDC || m == 0xDD
}

/// The bytes that begin a value: every marker of the wire format.
pub open spec fn is_marker(m: u8) -> bool {
    m <= 0x7F || m >= 0xF0 || (0xC0 <= m && m <= 0xC3) || (0xC8 <= m && m <= 0xCB)
        || is_text_marker(m) || is_list_marker(m) || is_map_marker(m) || is_struct_marker(m)
}

/// The item count after marker `m`, read from position `p`, and the position after it.
pub open spec fn parse_size(b: Seq<u8>, p: int, m: u8, tiny: u8, m8: u8, m16: u8) -> Result<
    (nat, int),
    Error,
> {
    if in_tiny(m, tiny) {
        Ok(((m - tiny) as nat, p))
    } else if m == m8 {
        if p + 1 <= b.len() {
            Ok((b[p] as nat, p + 1))
        } else {
            Err(Error::Truncated)
        }
    } else if m == m16 {
        if p + 2 <= b.len() {
            Ok((read_be16(b, p) as nat, p + 2))
        } else {
            Err(Error::Truncated)
        }
    } else {
        if p + 4 <= b.len() {
            Ok((read_be32(b, p) as nat, p + 4))
        } else {
            Err(Error::Truncated)
        }
    }
}

/// A string whose marker stands at `p`.
pub open spec fn parse_text(b: Seq<u8>, p: int) -> Parsed<Seq<char>> {
    match parse_size(b, p + 1, b[p], 0x80, 0xD0, 0xD1) {
        Err(e) => Err(e),
        Ok((n, q)) => if q + n > b.len() {
            Err(Error::Truncated)
        } else if !valid_utf8(b.subrange(q, q + n)) {
            Err(Error::Utf8)
        } else {
            Ok((decode_utf8(b.subrange(q, q + n)), q + n))
        },
    }
}

/// A map key: a string, at `p`.
pub open spec fn parse_key(b: Seq<u8>, p: int) -> Parsed<Seq<char>> {
    if p < 0 || p >= b.len() {
        Err(Error::Truncated)
    } else if !is_text_marker(b[p]) {
        Err(Error::InvalidMarker(b[p]))
    } else {
        parse_text(b, p)
    }
}

/// Whether `i` is the first entry of `m` with key `k`.
pub open spec fn first_key_at(m: PropsModel, k: Seq<char>, i: int) -> bool {
    0 <= i < m.len() && m[i].0 == k && forall|j: int| 0 <= j < i ==> m[j].0 != k
}

/// Entries with `(k, v)` put in: the first entry with key `k` gets the new value
/// in its place; a new key goes at the end.
pub open spec fn map_put(m: PropsModel, k: Seq<char>, v: PackValue) -> PropsModel {
    if exists|i: int| 0 <= i < m.len() && m[i].0 == k {
        let i = choose|i: int| first_key_at(m, k, i);
        m.update(i, (k, v))
    } else {
        m.push((k, v))
    }
}

/// Number of fields of the graph structure with signature `sig`, if it is one.
pub open spec fn arity(sig: u8) -> Option<nat> {
    if sig == 0x4E || sig == 0x72 || sig == 0x50 {
        Some(3)
    } else if sig == 0x52 {
        Some(5)
    } else {
        None
    }
}

pub open spec fn all_text(l: Seq<PackValue>) -> bool {
    forall|i: int| 0 <= i < l.len() ==> l[i] is Text
}

pub open spec fn all_node(l: Seq<PackValue>) -> bool {
    forall|i: int| 0 <= i < l.len() ==> l[i] is Node
}

pub open spec fn all_unbound(l: Seq<PackValue>) -> bool {
    forall|i: int| 0 <= i < l.len() ==> l[i] is UnboundRelationship
}

pub open spec fn all_int(l: Seq<PackValue>) -> bool {
    forall|i: int| 0 <= i < l.len() ==> l[i] is Integer
}

pub open spec fn texts_of(l: Seq<PackValue>) -> Seq<Seq<char>> {
    Seq::new(l.len(), |i: int| l[i]->Text_0)
}

pub open spec fn nodes_of(l: Seq<PackValue>) -> Seq<NodeModel> {
    Seq::new(l.len(), |i: int| l[i]->Node_0)
}

pub open spec fn unbounds_of(l: Seq<PackValue>) -> Seq<UnboundModel> {
    Seq::new(l.len(), |i: int| l[i]->UnboundRelationship_0)
}

pub open spec fn ints_of(l: Seq<PackValue>) -> Seq<i64> {
    Seq::new(l.len(), |i: int| l[i]->Integer_0)
}

/// The graph value that the fields `f` of a structure with signature `sig` make up
/// (the field count already matches the signature).
pub open spec fn classify(sig: u8, f: Seq<PackValue>) -> Result<PackValue, Error> {
    if sig == 0x4E {
        if f[0] is Integer && f[1] is List && all_text(f[1]->List_0) && f[2] is Dict {
            Ok(PackValue::Node((f[0]->Integer_0, texts_of(f[1]->List_0), f[2]->Dict_0)))
        } else {
            Err(Error::InvalidStructure(sig))
        }
    } else if sig == 0x52 {
        if f[0] is Integer && f[1] is Integer && f[2] is Integer && f[3] is Text && f[4] is Dict {
            Ok(
                PackValue::Relationship(
                    (
                        f[0]->Integer_0,
                        f[1]->Integer_0,
                        f[2]->Integer_0,
                        f[3]->Text_0,
                        f[4]->Dict_0,
                    ),
                ),
            )
        } else {
            Err(Error::InvalidStructure(sig))
        }
    } else if sig == 0x72 {
        if f[0] is Integer && f[1] is Text && f[2] is Dict {
            Ok(PackValue::UnboundRelationship((f[0]->Integer_0, f[1]->Text_0, f[2]->Dict_0)))
        } else {
            Err(Error::InvalidStructure(sig))
        }
    } else {
        if f[0] is List && all_node(f[0]->List_0) && f[1] is List && all_unbound(f[1]->List_0)
            && f[2] is List && all_int(f[2]->List_0) {
            Ok(
                PackValue::Path(
                    nodes_of(f[0]->List_0),
                    unbounds_of(f[1]->List_0),
                    ints_of(f[2]->List_0),
                ),
            )
        } else {
            Err(Error::InvalidStructure(sig))
        }
    }
}

/// The value that starts at `p`, nested at most `d` levels deep.
pub open spec fn parse(b: Seq<u8>, p: int, d: nat) -> Parsed<PackValue>
    decreases d, 0nat,
{
    if p < 0 || p >= b.len() {
        Err(Error::Truncated)
    } else if d == 0 {
        Err(Error::NestingTooDeep)
    } else {
        let m = b[p];
        if m == 0xC0 {
            Ok((PackValue::Null, p + 1))
        } else if m == 0xC2 || m == 0xC3 {
            Ok((PackValue::Boolean(m == 0xC3), p + 1))
        } else if m <= 0x7F || m >= 0xF0 {
            Ok((PackValue::Integer((m as i8) as i64), p + 1))
        } else if m == 0xC8 {
            if p + 2 <= b.len() {
                Ok((PackValue::Integer((b[p + 1] as i8) as i64), p + 2))
            } else {
                Err(Error::Truncated)
            }
        } else if m == 0xC9 {
            if p + 3 <= b.len() {
                Ok((PackValue::Integer((read_be16(b, p + 1) as i16) as i64), p + 3))
            } else {
                Err(Error::Truncated)
            }
        } else if m == 0xCA {
            if p + 5 <= b.len() {
                Ok((PackValue::Integer((read_be32(b, p + 1) as i32) as i64), p + 5))
            } else {
                Err(Error::Truncated)
            }
        } else if m == 0xCB {
            if p + 9 <= b.len() {
                Ok((PackValue::Integer(read_be64(b, p + 1) as i64), p + 9))
            } else {
                Err(Error::Truncated)
            }
        } else if m == 0xC1 {
            if p + 9 <= b.len() {
                Ok((PackValue::Float(read_be64(b, p + 1)), p + 9))
            } else {
                Err(Error::Truncated)
            }
        } else if is_text_marker(m) {
            match parse_text(b, p) {
                Err(e) => Err(e),
                Ok((s, q)) => Ok((PackValue::Text(s), q)),
            }
        } else if is_list_marker(m) {
            match parse_size(b, p + 1, m, 0x90, 0xD4, 0xD5) {
                Err(e) => Err(e),
                Ok((n, q)) => match parse_items(b, q, n, (d - 1) as nat) {
                    Err(e) => Err(e),
                    Ok((items, r)) => Ok((PackValue::List(items), r)),
                },
            }
        } else if is_map_marker(m) {
            match parse_size(b, p + 1, m, 0xA0, 0xD8, 0xD9) {
                Err(e) => Err(e),
                Ok((n, q)) => match parse_entries(b, q, n, (d - 1) as nat) {
                    Err(e) => Err(e),
                    Ok((entries, r)) => Ok((PackValue::Dict(entries), r)),
                },
            }
        } else if is_struct_marker(m) {
            match parse_size(b, p + 1, m, 0xB0, 0xDC, 0xDD) {
                Err(e) => Err(e),
                Ok((n, q)) => if q >= b.len() {
                    Err(Error::Truncated)
                } else {
                    let sig = b[q];
                    match arity(sig) {
                        None => Err(Error::InvalidSignature(sig)),
                        Some(k) => if k != n {
                            Err(Error::InvalidStructure(sig))
                        } else {
                            match parse_items(b, q + 1, n, (d - 1) as nat) {
                                Err(e) => Err(e),
                                Ok((fields, r)) => match classify(sig, fields) {
                                    Err(e) => Err(e),
                                    Ok(v) => Ok((v, r)),
                                },
                            }
                        },
                    }
                },
            }
        } else {
            Err(Error::InvalidMarker(m))
        }
    }
}

/// `n` values one after another from `p`, each nested at most `d` levels deep.
pub open spec fn parse_items(b: Seq<u8>, p: int, n: nat, d: nat) -> Parsed<Seq<PackValue>>
    decreases d, n,
{
    if n == 0 {
        Ok((Seq::empty(), p))
    } else {
        match parse_items(b, p, (n - 1) as nat, d) {
            Err(e) => Err(e),
            Ok((s, q)) => match parse(b, q, d) {
                Err(e) => Err(e),
                Ok((v, r)) => Ok((s.push(v), r)),
            },
        }
    }
}

/// `n` key/value entries one after another from `p`, values nested at most `d` levels deep.
pub open spec fn parse_entries(b: Seq<u8>, p: int, n: nat, d: nat) -> Parsed<PropsModel>
    decreases d, n,
{
    if n == 0 {
        Ok((Seq::empty(), p))
    } else {
        match parse_entries(b, p, (n - 1) as nat, d) {
            Err(e) => Err(e),
            Ok((m, q)) => match parse_key(b, q) {
                Err(e) => Err(e),
                Ok((k, q2)) => match parse(b, q2, d) {
                    Err(e) => Err(e),
                    Ok((v, r)) => Ok((map_put(m, k, v), r)),
                },
            },
        }
    }
}

/// Once `k` items fail, so do `n >= k` items, with the same error.
pub proof fn lemma_items_err(b: Seq<u8>, p: int, k: nat, n: nat, d: nat)
    requires
        k <= n,
        parse_items(b, p, k, d) is Err,
    ensures
        parse_items(b, p, n, d) == parse_items(b, p, k, d),
    decreases n,
{
    if n > k {
        lemma_items_err(b, p, k, (n - 1) as nat, d);
    }
}

/// Once `k` entries fail, so do `n >= k` entries, with the same error.
pub proof fn lemma_entries_err(b: Seq<u8>, p: int, k: nat, n: nat, d: nat)
    requires
        k <= n,
        parse_entries(b, p, k, d) is Err,
    ensures
        parse_entries(b, p, n, d) == parse_entries(b, p, k, d),
    decreases n,
{
    if n > k {
        lemma_entries_err(b, p, k, (n - 1) as nat, d);
    }
}

} // verus!
