use vstd::prelude::*;
use vstd::utf8::encode_utf8;
use crate::error::Error;
use crate::model::{int_bytes, pack, size_fits, size_header, PackValue};
use crate::value::{
    entries_view, lemma_entries_view_len, lemma_values_view_len, BoltMap, Node, Path,
    Relationship, UnboundRelationship, Value,
};

verus! {

/// The item count of a string, list or map as its size field carries it; zero for
/// every other value.
pub open spec fn top_len(v: PackValue) -> nat {
    match v {
        PackValue::Text(s) => encode_utf8(s).len(),
        PackValue::List(l) => l.len(),
        PackValue::Dict(m) => m.len(),
        _ => 0,
    }
}

/// The marker byte that starts the encoding of `v`, or the error for a size
/// field that cannot hold its item count.
pub open spec fn marker_of(v: PackValue) -> Result<u8, Error> {
    if size_fits(top_len(v)) {
        Ok(pack(v)[0])
    } else {
        Err(Error::ValueTooLarge(top_len(v) as usize))
    }
}

/// A value that knows the marker byte its encoding starts with.
pub trait Marker {
    spec fn marker_spec(&self) -> Result<u8, Error>;

    fn get_marker(&self) -> (r: Result<u8, Error>)
        ensures
            r == self.marker_spec(),
    ;
}

/// A graph structure that knows its signature byte.
pub trait Signature {
    spec fn signature_spec(&self) -> u8;

    fn get_signature(&self) -> (r: u8)
        ensures
            r == self.signature_spec(),
    ;
}

fn header_marker(n: usize, tiny: u8, m8: u8, m16: u8, m32: u8) -> (r: Result<u8, Error>)
    requires
        tiny % 16 == 0,
    ensures
        r == if size_fits(n as nat) {
            Ok::<u8, Error>(size_header(n as nat, tiny, m8, m16, m32)[0])
        } else {
            Err::<u8, Error>(Error::ValueTooLarge(n))
        },
{
    if n < 16 {
        Ok(tiny + n as u8)
    } else if n < 0x100 {
        Ok(m8)
    } else if n < 0x1_0000 {
        Ok(m16)
    } else if n as u64 <= 0xFFFF_FFFFu64 {
        Ok(m32)
    } else {
        Err(Error::ValueTooLarge(n))
    }
}

fn int_marker(i: i64) -> (r: u8)
    ensures
        r == int_bytes(i)[0],
{
    if -16 <= i && i <= 127 {
        i as u8
    } else if -0x80 <= i && i < 0x80 {
        0xC8
    } else if -0x8000 <= i && i < 0x8000 {
        0xC9
    } else if -0x8000_0000 <= i && i < 0x8000_0000 {
        0xCA
    } else {
        0xCB
    }
}

impl Marker for Value {
    open spec fn marker_spec(&self) -> Result<u8, Error> {
        marker_of(self.view_model())
    }

    fn get_marker(&self) -> (r: Result<u8, Error>) {
        match self {
            Value::Null => Ok(0xC0),
            Value::Boolean(b) => Ok(
                if *b {
                    0xC3
                } else {
                    0xC2
                },
            ),
            Value::Integer(i) => Ok(int_marker(*i)),
            Value::Float(_) => Ok(0xC1),
            Value::String(s) => header_marker(s.as_str().as_bytes().len(), 0x80, 0xD0, 0xD1, 0xD2),
            Value::List(l) => {
                proof {
                    lemma_values_view_len(l@);
                }
                let r = header_marker(l.len(), 0x90, 0xD4, 0xD5, 0xD6);
                r
            },
            Value::BoltMap(m) => m.get_marker(),
            Value::Node(n) => n.get_marker(),
            Value::Relationship(rel) => rel.get_marker(),
            Value::Path(p) => p.get_marker(),
            Value::UnboundRelationship(u) => u.get_marker(),
        }
    }
}

impl Marker for BoltMap {
    open spec fn marker_spec(&self) -> Result<u8, Error> {
        marker_of(PackValue::Dict(entries_view(self.value@)))
    }

    fn get_marker(&self) -> (r: Result<u8, Error>) {
        proof {
            lemma_entries_view_len(self.value@);
        }
        header_marker(self.value.len(), 0xA0, 0xD8, 0xD9, 0xDA)
    }
}

impl Marker for Node {
    open spec fn marker_spec(&self) -> Result<u8, Error> {
        marker_of(PackValue::Node(self.view_model()))
    }

    fn get_marker(&self) -> (r: Result<u8, Error>) {
        Ok(0xB3)
    }
}

impl Marker for Relationship {
    open spec fn marker_spec(&self) -> Result<u8, Error> {
        marker_of(PackValue::Relationship(self.view_model()))
    }

    fn get_marker(&self) -> (r: Result<u8, Error>) {
        Ok(0xB5)
    }
}

impl Marker for UnboundRelationship {
    open spec fn marker_spec(&self) -> Result<u8, Error> {
        marker_of(PackValue::UnboundRelationship(self.view_model()))
    }

    fn get_marker(&self) -> (r: Result<u8, Error>) {
        Ok(0xB3)
    }
}

impl Marker for Path {
    open spec fn marker_spec(&self) -> Result<u8, Error> {
        marker_of(Value::Path(*self).view_model())
    }

    fn get_marker(&self) -> (r: Result<u8, Error>) {
        Ok(0xB3)
    }
}

impl Signature for Node {
    open spec fn signature_spec(&self) -> u8 {
        pack(PackValue::Node(self.view_model()))[1]
    }

    fn get_signature(&self) -> (r: u8) {
        0x4E
    }
}

impl Signature for Relationship {
    open spec fn signature_spec(&self) -> u8 {
        pack(PackValue::Relationship(self.view_model()))[1]
    }

    fn get_signature(&self) -> (r: u8) {
        0x52
    }
}

impl Signature for UnboundRelationship {
    open spec fn signature_spec(&self) -> u8 {
        pack(PackValue::UnboundRelationship(self.view_model()))[1]
    }

    fn get_signature(&self) -> (r: u8) {
        0x72
    }
}

impl Signature for Path {
    open spec fn signature_spec(&self) -> u8 {
        pack(Value::Path(*self).view_model())[1]
    }

    fn get_signature(&self) -> (r: u8) {
        0x50
    }
}

} // verus!
