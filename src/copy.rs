use vstd::prelude::*;
use crate::value::{
    entries_view, nodes_view, unbounds_view, values_view, BoltMap, Node, Path, Relationship,
    UnboundRelationship, Value,
};

verus! {

fn copy_strings(x: &Vec<String>) -> (r: Vec<String>)
    ensures
        r@.len() == x@.len(),
        forall|j: int| 0 <= j < x@.len() ==> (#[trigger] r@[j])@ == x@[j]@,
{
    let mut out: Vec<String> = Vec::new();
    let mut i: usize = 0;
    while i < x.len()
        invariant
            0 <= i <= x@.len(),
            out@.len() == i,
            forall|j: int| 0 <= j < i ==> (#[trigger] out@[j])@ == x@[j]@,
        decreases x@.len() - i,
    {
        out.push(x[i].clone());
        i += 1;
    }
    out
}

fn copy_ints(x: &Vec<i64>) -> (r: Vec<i64>)
    ensures
        r@ == x@,
{
    let mut out: Vec<i64> = Vec::new();
    let mut i: usize = 0;
    while i < x.len()
        invariant
            0 <= i <= x@.len(),
            out@ == x@.take(i as int),
        decreases x@.len() - i,
    {
        out.push(x[i]);
        i += 1;
        assert(out@ =~= x@.take(i as int));
    }
    assert(x@.take(x@.len() as int) =~= x@);
    out
}

/// A copy of a value, equal to it in every part.
pub fn copy_value(v: &Value) -> (r: Value)
    ensures
        r.view_model() == v.view_model(),
    decreases v,
{
    match v {
        Value::Null => Value::Null,
        Value::Boolean(b) => Value::Boolean(*b),
        Value::Integer(i) => Value::Integer(*i),
        Value::Float(f) => Value::Float(*f),
        Value::String(s) => Value::String(s.clone()),
        Value::List(l) => Value::List(copy_values(l)),
        Value::BoltMap(m) => Value::BoltMap(copy_map(m)),
        Value::Node(n) => Value::Node(copy_node(n)),
        Value::Relationship(r) => Value::Relationship(copy_relationship(r)),
        Value::UnboundRelationship(u) => Value::UnboundRelationship(copy_unbound(u)),
        Value::Path(p) => Value::Path(copy_path(p)),
    }
}

fn copy_values(x: &Vec<Value>) -> (r: Vec<Value>)
    ensures
        values_view(r@) == values_view(x@),
    decreases x,
{
    let mut out: Vec<Value> = Vec::new();
    let mut i: usize = 0;
    while i < x.len()
        invariant
            0 <= i <= x@.len(),
            values_view(out@) == values_view(x@.take(i as int)),
        decreases x@.len() - i,
    {
        let ghost before = out@;
        out.push(copy_value(&x[i]));
        assert(out@.drop_last() =~= before);
        assert(x@.take(i + 1).drop_last() =~= x@.take(i as int));
        i += 1;
    }
    assert(x@.take(x@.len() as int) =~= x@);
    out
}

fn copy_map(m: &BoltMap) -> (r: BoltMap)
    ensures
        entries_view(r.value@) == entries_view(m.value@),
    decreases m,
{
    let mut out: Vec<(String, Value)> = Vec::new();
    let mut i: usize = 0;
    while i < m.value.len()
        invariant
            0 <= i <= m.value@.len(),
            entries_view(out@) == entries_view(m.value@.take(i as int)),
        decreases m.value@.len() - i,
    {
        let ghost before = out@;
        let k = m.value[i].0.clone();
        let v = copy_value(&m.value[i].1);
        out.push((k, v));
        assert(out@.drop_last() =~= before);
        assert(m.value@.take(i + 1).drop_last() =~= m.value@.take(i as int));
        i += 1;
    }
    assert(m.value@.take(m.value@.len() as int) =~= m.value@);
    BoltMap { value: out }
}

fn copy_node(n: &Node) -> (r: Node)
    ensures
        r.view_model() == n.view_model(),
    decreases n,
{
    let labels = copy_strings(&n.labels);
    let properties = copy_map(&n.properties);
    let r = Node { node_identity: n.node_identity, labels, properties };
    assert(r.view_model().1 =~= n.view_model().1);
    r
}

fn copy_relationship(x: &Relationship) -> (r: Relationship)
    ensures
        r.view_model() == x.view_model(),
    decreases x,
{
    Relationship {
        rel_identity: x.rel_identity,
        start_node_identity: x.start_node_identity,
        end_node_identity: x.end_node_identity,
        rel_type: x.rel_type.clone(),
        properties: copy_map(&x.properties),
    }
}

fn copy_unbound(x: &UnboundRelationship) -> (r: UnboundRelationship)
    ensures
        r.view_model() == x.view_model(),
    decreases x,
{
    UnboundRelationship {
        rel_identity: x.rel_identity,
        rel_type: x.rel_type.clone(),
        properties: copy_map(&x.properties),
    }
}

fn copy_path(p: &Path) -> (r: Path)
    ensures
        nodes_view(r.nodes@) == nodes_view(p.nodes@),
        unbounds_view(r.relationships@) == unbounds_view(p.relationships@),
        r.sequence@ == p.sequence@,
    decreases p,
{
    let mut nodes: Vec<Node> = Vec::new();
    let mut i: usize = 0;
    while i < p.nodes.len()
        invariant
            0 <= i <= p.nodes@.len(),
            nodes_view(nodes@) == nodes_view(p.nodes@.take(i as int)),
        decreases p.nodes@.len() - i,
    {
        let ghost before = nodes@;
        nodes.push(copy_node(&p.nodes[i]));
        assert(nodes@.drop_last() =~= before);
        assert(p.nodes@.take(i + 1).drop_last() =~= p.nodes@.take(i as int));
        i += 1;
    }
    assert(p.nodes@.take(p.nodes@.len() as int) =~= p.nodes@);
    let mut rels: Vec<UnboundRelationship> = Vec::new();
    let mut i: usize = 0;
    while i < p.relationships.len()
        invariant
            0 <= i <= p.relationships@.len(),
            unbounds_view(rels@) == unbounds_view(p.relationships@.take(i as int)),
        decreases p.relationships@.len() - i,
    {
        let ghost before = rels@;
        rels.push(copy_unbound(&p.relationships[i]));
        assert(rels@.drop_last() =~= before);
        assert(p.relationships@.take(i + 1).drop_last() =~= p.relationships@.take(i as int));
        i += 1;
    }
    assert(p.relationships@.take(p.relationships@.len() as int) =~= p.relationships@);
    Path { nodes, relationships: rels, sequence: copy_ints(&p.sequence) }
}

impl Clone for Value {
    fn clone(&self) -> (r: Value)
        ensures
            r.view_model() == self.view_model(),
    {
        copy_value(self)
    }
}

impl Clone for BoltMap {
    fn clone(&self) -> (r: BoltMap)
        ensures
            entries_view(r.value@) == entries_view(self.value@),
    {
        copy_map(self)
    }
}

impl Clone for Node {
    fn clone(&self) -> (r: Node)
        ensures
            r.view_model() == self.view_model(),
    {
        copy_node(self)
    }
}

impl Clone for Relationship {
    fn clone(&self) -> (r: Relationship)
        ensures
            r.view_model() == self.view_model(),
    {
        copy_relationship(self)
    }
}

impl Clone for UnboundRelationship {
    fn clone(&self) -> (r: UnboundRelationship)
        ensures
            r.view_model() == self.view_model(),
    {
        copy_unbound(self)
    }
}

impl Clone for Path {
    fn clone(&self) -> (r: Path)
        ensures
            nodes_view(r.nodes@) == nodes_view(self.nodes@),
            unbounds_view(r.relationships@) == unbounds_view(self.relationships@),
            r.sequence@ == self.sequence@,
    {
        copy_path(self)
    }
}

} // verus!
