use vstd::prelude::*;
use crate::decode::{decode, decode_map_at_start, put_entry};
use crate::encode::{encode, write_map};
use crate::error::{is_too_large, Error};
use crate::model::{fits, pack, NodeModel, PackValue, PropsModel, RelModel, UnboundModel};
use crate::parse::{is_map_marker, map_put, parse, MAX_DEPTH};

verus! {

/// A map from strings to values. Built by `insert`, `from_entries` or the decoder,
/// its keys are unique, and entries stay in the order in which their keys came.
/// Two maps are equal when they hold the same entries, in any order.
#[derive(Debug)]
pub struct BoltMap {
    pub value: Vec<(String, Value)>,
}

/// A graph node: identity, labels and properties.
#[derive(Debug, PartialEq)]
pub struct Node {
    pub node_identity: i64,
    pub labels: Vec<String>,
    pub properties: BoltMap,
}

/// A relationship between two nodes given by their identities.
#[derive(Debug, PartialEq)]
pub struct Relationship {
    pub rel_identity: i64,
    pub start_node_identity: i64,
    pub end_node_identity: i64,
    pub rel_type: String,
    pub properties: BoltMap,
}

/// A relationship whose end nodes are given by the path that holds it.
#[derive(Debug, PartialEq)]
pub struct UnboundRelationship {
    pub rel_identity: i64,
    pub rel_type: String,
    pub properties: BoltMap,
}

/// A path: its nodes, its relationships, and the sequence of indices that
/// walks them.
#[derive(Debug, PartialEq)]
pub struct Path {
    pub nodes: Vec<Node>,
    pub relationships: Vec<UnboundRelationship>,
    pub sequence: Vec<i64>,
}

/// A value that PackStream carries.
#[derive(Debug)]
pub enum Value {
    Null,
    Boolean(bool),
    Integer(i64),
    /// The IEEE-754 bit pattern of a 64-bit float.
    Float(u64),
    String(String),
    List(Vec<Value>),
    BoltMap(BoltMap),
    Node(Node),
    Relationship(Relationship),
    Path(Path),
    UnboundRelationship(UnboundRelationship),
}

impl BoltMap {
    /// An empty map.
    pub fn new() -> (r: BoltMap)
        ensures
            r.value@.len() == 0,
    {
        BoltMap { value: Vec::new() }
    }

    /// The number of entries.
    pub fn len(&self) -> (r: usize)
        ensures
            r == self.value@.len(),
    {
        self.value.len()
    }

    /// Puts `(key, value)` in: an entry with the same key takes the new value in
    /// its place; a new key goes at the end.
    pub fn insert(&mut self, key: String, value: Value)
        ensures
            entries_view(final(self).value@) == map_put(
                entries_view(old(self).value@),
                key@,
                value.view_model(),
            ),
    {
        put_entry(&mut self.value, key, value);
    }

    /// A map of the given pairs, put in one after the other.
    pub fn from_entries(entries: Vec<(String, Value)>) -> (r: BoltMap)
        ensures
            entries_view(r.value@) == puts(entries_view(entries@)),
    {
        let ghost orig = entries@;
        let total = entries.len();
        proof {
            lemma_entries_view_len(orig);
        }
        let mut map = BoltMap::new();
        let mut rest = entries;
        let mut i: usize = 0;
        while rest.len() > 0
            invariant
                orig == entries@,
                total == orig.len(),
                i <= orig.len(),
                rest@ == orig.subrange(i as int, orig.len() as int),
                entries_view(map.value@) == puts(entries_view(orig).take(i as int)),
            decreases rest@.len(),
        {
            proof {
                lemma_entries_view_index(orig, i as int);
            }
            let (k, v) = rest.remove(0);
            map.insert(k, v);
            proof {
                assert(entries_view(orig).take(i + 1).drop_last() =~= entries_view(orig).take(
                    i as int,
                ));
            }
            i += 1;
        }
        assert(entries_view(orig).take(i as int) =~= entries_view(orig));
        map
    }

    /// The encoding of this map as a value.
    pub fn try_into_bytes(&self) -> (r: Result<Vec<u8>, Error>)
        ensures
            r is Ok <==> fits(PackValue::Dict(entries_view(self.value@))),
            r matches Ok(bytes) ==> bytes@ == pack(PackValue::Dict(entries_view(self.value@))),
            r is Err ==> is_too_large(r),
    {
        let mut out: Vec<u8> = Vec::new();
        proof {
            lemma_entries_view_len(self.value@);
        }
        match write_map(&mut out, self) {
            Ok(()) => {
                assert(out@ =~= pack(PackValue::Dict(entries_view(self.value@))));
                Ok(out)
            },
            Err(e) => Err(e),
        }
    }

    /// Decodes a map at the start of `b`; any other value is refused by its marker.
    pub fn try_from_bytes(b: &[u8]) -> (r: Result<BoltMap, Error>)
        ensures
            b@.len() == 0 ==> r == Err::<BoltMap, Error>(Error::Truncated),
            b@.len() > 0 && !is_map_marker(b@[0]) ==> r == Err::<BoltMap, Error>(
                Error::InvalidMarker(b@[0]),
            ),
            b@.len() > 0 && is_map_marker(b@[0]) ==> match r {
                Ok(m) => parse(b@, 0, MAX_DEPTH as nat) is Ok && parse(
                    b@,
                    0,
                    MAX_DEPTH as nat,
                )->Ok_0.0 == PackValue::Dict(entries_view(m.value@)),
                Err(e) => parse(b@, 0, MAX_DEPTH as nat) == Err::<(PackValue, int), Error>(e),
            },
    {
        match decode_map_at_start(b) {
            Ok((m, _n)) => {
                Ok(m)
            },
            Err(e) => Err(e),
        }
    }
}

impl Value {
    /// The encoding of this value.
    pub fn try_into_bytes(&self) -> (r: Result<Vec<u8>, Error>)
        ensures
            r is Ok <==> fits(self.view_model()),
            r matches Ok(bytes) ==> bytes@ == pack(self.view_model()),
            r is Err ==> is_too_large(r),
    {
        encode(self)
    }

    /// Decodes the value at the start of `b`; bytes after it are left alone.
    pub fn try_from_bytes(b: &[u8]) -> (r: Result<Value, Error>)
        ensures
            match r {
                Ok(v) => parse(b@, 0, MAX_DEPTH as nat) is Ok && parse(
                    b@,
                    0,
                    MAX_DEPTH as nat,
                )->Ok_0.0 == v.view_model(),
                Err(e) => parse(b@, 0, MAX_DEPTH as nat) == Err::<(PackValue, int), Error>(e),
            },
    {
        match decode(b) {
            Ok((v, _n)) => Ok(v),
            Err(e) => Err(e),
        }
    }
}

/// Entries put one after the other into an empty map.
pub open spec fn puts(s: PropsModel) -> PropsModel
    decreases s.len(),
{
    if s.len() == 0 {
        Seq::empty()
    } else {
        map_put(puts(s.drop_last()), s.last().0, s.last().1)
    }
}

impl From<bool> for Value {
    fn from(v: bool) -> (r: Value) {
        Value::Boolean(v)
    }
}

impl vstd::std_specs::convert::FromSpecImpl<bool> for Value {
    open spec fn obeys_from_spec() -> bool {
        true
    }

    open spec fn from_spec(v: bool) -> Value {
        Value::Boolean(v)
    }
}

impl From<i8> for Value {
    fn from(v: i8) -> (r: Value) {
        Value::Integer(v as i64)
    }
}

impl vstd::std_specs::convert::FromSpecImpl<i8> for Value {
    open spec fn obeys_from_spec() -> bool {
        true
    }

    open spec fn from_spec(v: i8) -> Value {
        Value::Integer(v as i64)
    }
}

impl From<i16> for Value {
    fn from(v: i16) -> (r: Value) {
        Value::Integer(v as i64)
    }
}

impl vstd::std_specs::convert::FromSpecImpl<i16> for Value {
    open spec fn obeys_from_spec() -> bool {
        true
    }

    open spec fn from_spec(v: i16) -> Value {
        Value::Integer(v as i64)
    }
}

impl From<i32> for Value {
    fn from(v: i32) -> (r: Value) {
        Value::Integer(v as i64)
    }
}

impl vstd::std_specs::convert::FromSpecImpl<i32> for Value {
    open spec fn obeys_from_spec() -> bool {
        true
    }

    open spec fn from_spec(v: i32) -> Value {
        Value::Integer(v as i64)
    }
}

impl From<i64> for Value {
    fn from(v: i64) -> (r: Value) {
        Value::Integer(v)
    }
}

impl vstd::std_specs::convert::FromSpecImpl<i64> for Value {
    open spec fn obeys_from_spec() -> bool {
        true
    }

    open spec fn from_spec(v: i64) -> Value {
        Value::Integer(v)
    }
}

impl From<String> for Value {
    fn from(v: String) -> (r: Value) {
        Value::String(v)
    }
}

impl vstd::std_specs::convert::FromSpecImpl<String> for Value {
    open spec fn obeys_from_spec() -> bool {
        true
    }

    open spec fn from_spec(v: String) -> Value {
        Value::String(v)
    }
}

impl From<Vec<Value>> for Value {
    fn from(v: Vec<Value>) -> (r: Value) {
        Value::List(v)
    }
}

impl vstd::std_specs::convert::FromSpecImpl<Vec<Value>> for Value {
    open spec fn obeys_from_spec() -> bool {
        true
    }

    open spec fn from_spec(v: Vec<Value>) -> Value {
        Value::List(v)
    }
}

impl From<BoltMap> for Value {
    fn from(v: BoltMap) -> (r: Value) {
        Value::BoltMap(v)
    }
}

impl vstd::std_specs::convert::FromSpecImpl<BoltMap> for Value {
    open spec fn obeys_from_spec() -> bool {
        true
    }

    open spec fn from_spec(v: BoltMap) -> Value {
        Value::BoltMap(v)
    }
}

impl From<Node> for Value {
    fn from(v: Node) -> (r: Value) {
        Value::Node(v)
    }
}

impl vstd::std_specs::convert::FromSpecImpl<Node> for Value {
    open spec fn obeys_from_spec() -> bool {
        true
    }

    open spec fn from_spec(v: Node) -> Value {
        Value::Node(v)
    }
}

impl From<Relationship> for Value {
    fn from(v: Relationship) -> (r: Value) {
        Value::Relationship(v)
    }
}

impl vstd::std_specs::convert::FromSpecImpl<Relationship> for Value {
    open spec fn obeys_from_spec() -> bool {
        true
    }

    open spec fn from_spec(v: Relationship) -> Value {
        Value::Relationship(v)
    }
}

impl From<UnboundRelationship> for Value {
    fn from(v: UnboundRelationship) -> (r: Value) {
        Value::UnboundRelationship(v)
    }
}

impl vstd::std_specs::convert::FromSpecImpl<UnboundRelationship> for Value {
    open spec fn obeys_from_spec() -> bool {
        true
    }

    open spec fn from_spec(v: UnboundRelationship) -> Value {
        Value::UnboundRelationship(v)
    }
}

impl From<Path> for Value {
    fn from(v: Path) -> (r: Value) {
        Value::Path(v)
    }
}

impl vstd::std_specs::convert::FromSpecImpl<Path> for Value {
    open spec fn obeys_from_spec() -> bool {
        true
    }

    open spec fn from_spec(v: Path) -> Value {
        Value::Path(v)
    }
}

pub open spec fn strings_view(s: Seq<String>) -> Seq<Seq<char>> {
    Seq::new(s.len(), |i: int| s[i]@)
}

pub open spec fn values_view(s: Seq<Value>) -> Seq<PackValue>
    decreases s,
{
    if s.len() == 0 {
        Seq::empty()
    } else {
        values_view(s.drop_last()).push(s.last().view_model())
    }
}

pub open spec fn entries_view(s: Seq<(String, Value)>) -> PropsModel
    decreases s,
{
    if s.len() == 0 {
        Seq::empty()
    } else {
        entries_view(s.drop_last()).push((s.last().0@, s.last().1.view_model()))
    }
}

impl BoltMap {
    pub open spec fn view_model(&self) -> PropsModel {
        entries_view(self.value@)
    }
}

impl Value {
    pub open spec fn view_model(&self) -> PackValue
        decreases self,
    {
        match self {
            Value::Null => PackValue::Null,
            Value::Boolean(b) => PackValue::Boolean(*b),
            Value::Integer(i) => PackValue::Integer(*i),
            Value::Float(f) => PackValue::Float(*f),
            Value::String(s) => PackValue::Text(s@),
            Value::List(l) => PackValue::List(values_view(l@)),
            Value::BoltMap(m) => PackValue::Dict(entries_view(m.value@)),
            Value::Node(n) => PackValue::Node(n.view_model()),
            Value::Relationship(r) => PackValue::Relationship(r.view_model()),
            Value::UnboundRelationship(u) => PackValue::UnboundRelationship(u.view_model()),
            Value::Path(p) => PackValue::Path(
                nodes_view(p.nodes@),
                unbounds_view(p.relationships@),
                p.sequence@,
            ),
        }
    }
}

impl Node {
    pub open spec fn view_model(&self) -> NodeModel
        decreases self,
    {
        (self.node_identity, strings_view(self.labels@), entries_view(self.properties.value@))
    }
}

impl Relationship {
    pub open spec fn view_model(&self) -> RelModel
        decreases self,
    {
        (
            self.rel_identity,
            self.start_node_identity,
            self.end_node_identity,
            self.rel_type@,
            entries_view(self.properties.value@),
        )
    }
}

impl UnboundRelationship {
    pub open spec fn view_model(&self) -> UnboundModel
        decreases self,
    {
        (self.rel_identity, self.rel_type@, entries_view(self.properties.value@))
    }
}

pub open spec fn nodes_view(s: Seq<Node>) -> Seq<NodeModel>
    decreases s,
{
    if s.len() == 0 {
        Seq::empty()
    } else {
        nodes_view(s.drop_last()).push(s.last().view_model())
    }
}

pub open spec fn unbounds_view(s: Seq<UnboundRelationship>) -> Seq<UnboundModel>
    decreases s,
{
    if s.len() == 0 {
        Seq::empty()
    } else {
        unbounds_view(s.drop_last()).push(s.last().view_model())
    }
}

pub proof fn lemma_values_view_index(s: Seq<Value>, j: int)
    requires
        0 <= j < s.len(),
    ensures
        values_view(s).len() == s.len(),
        values_view(s)[j] == s[j].view_model(),
    decreases s.len(),
{
    lemma_values_view_len(s);
    if j < s.len() - 1 {
        lemma_values_view_index(s.drop_last(), j);
    }
}

pub proof fn lemma_values_view_len(s: Seq<Value>)
    ensures
        values_view(s).len() == s.len(),
    decreases s.len(),
{
    if s.len() > 0 {
        lemma_values_view_len(s.drop_last());
    }
}

pub proof fn lemma_entries_view_index(s: Seq<(String, Value)>, j: int)
    requires
        0 <= j < s.len(),
    ensures
        entries_view(s).len() == s.len(),
        entries_view(s)[j] == (s[j].0@, s[j].1.view_model()),
    decreases s.len(),
{
    lemma_entries_view_len(s);
    if j < s.len() - 1 {
        lemma_entries_view_index(s.drop_last(), j);
    }
}

pub proof fn lemma_entries_view_len(s: Seq<(String, Value)>)
    ensures
        entries_view(s).len() == s.len(),
    decreases s.len(),
{
    if s.len() > 0 {
        lemma_entries_view_len(s.drop_last());
    }
}

pub proof fn lemma_nodes_view_index(s: Seq<Node>, j: int)
    requires
        0 <= j < s.len(),
    ensures
        nodes_view(s).len() == s.len(),
        nodes_view(s)[j] == s[j].view_model(),
    decreases s.len(),
{
    lemma_nodes_view_len(s);
    if j < s.len() - 1 {
        lemma_nodes_view_index(s.drop_last(), j);
    }
}

pub proof fn lemma_nodes_view_len(s: Seq<Node>)
    ensures
        nodes_view(s).len() == s.len(),
    decreases s.len(),
{
    if s.len() > 0 {
        lemma_nodes_view_len(s.drop_last());
    }
}

pub proof fn lemma_unbounds_view_index(s: Seq<UnboundRelationship>, j: int)
    requires
        0 <= j < s.len(),
    ensures
        unbounds_view(s).len() == s.len(),
        unbounds_view(s)[j] == s[j].view_model(),
    decreases s.len(),
{
    lemma_unbounds_view_len(s);
    if j < s.len() - 1 {
        lemma_unbounds_view_index(s.drop_last(), j);
    }
}

pub proof fn lemma_unbounds_view_len(s: Seq<UnboundRelationship>)
    ensures
        unbounds_view(s).len() == s.len(),
    decreases s.len(),
{
    if s.len() > 0 {
        lemma_unbounds_view_len(s.drop_last());
    }
}

pub proof fn lemma_entries_view_update(s: Seq<(String, Value)>, i: int, x: (String, Value))
    requires
        0 <= i < s.len(),
    ensures
        entries_view(s.update(i, x)) == entries_view(s).update(i, (x.0@, x.1.view_model())),
{
    lemma_entries_view_len(s);
    lemma_entries_view_len(s.update(i, x));
    assert forall|j: int| 0 <= j < s.len() implies #[trigger] entries_view(s.update(i, x))[j]
        == entries_view(s).update(i, (x.0@, x.1.view_model()))[j] by {
        lemma_entries_view_index(s.update(i, x), j);
        lemma_entries_view_index(s, j);
    }
    assert(entries_view(s.update(i, x)) =~= entries_view(s).update(i, (x.0@, x.1.view_model())));
}

} // verus!
