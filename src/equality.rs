use vstd::prelude::*;
use crate::model::{NodeModel, PackValue, PropsModel, UnboundModel};
use crate::value::{
    entries_view, lemma_entries_view_index, lemma_entries_view_len, lemma_nodes_view_len,
    lemma_unbounds_view_len, lemma_values_view_len, nodes_view, strings_view, unbounds_view,
    values_view, BoltMap, Node, Relationship, UnboundRelationship, Value,
};

verus! {

/// Whether the bits are those of a NaN.
pub open spec fn is_nan_bits(x: u64) -> bool {
    (x >> 52u64) & 0x7FFu64 == 0x7FFu64 && x & 0xF_FFFF_FFFF_FFFFu64 != 0
}

/// IEEE-754 equality of two floats given by their bits: no NaN equals anything,
/// and the two zeros are equal.
pub open spec fn float_equal(x: u64, y: u64) -> bool {
    !is_nan_bits(x) && !is_nan_bits(y) && (x == y || (x & 0x7FFF_FFFF_FFFF_FFFFu64 == 0 && y
        & 0x7FFF_FFFF_FFFF_FFFFu64 == 0))
}

/// The index of the first entry of `m` at or after `i` whose key is `k`, or -1.
pub open spec fn key_index(m: PropsModel, k: Seq<char>, i: int) -> int
    decreases m.len() - i,
{
    if i < 0 || i >= m.len() {
        -1
    } else if m[i].0 == k {
        i
    } else {
        key_index(m, k, i + 1)
    }
}

/// Equality of values: structural, with IEEE-754 equality on floats and maps
/// compared by their entries whatever their order.
pub open spec fn equiv(a: PackValue, b: PackValue) -> bool
    decreases a,
{
    match a {
        PackValue::Null => b is Null,
        PackValue::Boolean(x) => b is Boolean && b->Boolean_0 == x,
        PackValue::Integer(x) => b is Integer && b->Integer_0 == x,
        PackValue::Float(x) => b is Float && float_equal(x, b->Float_0),
        PackValue::Text(x) => b is Text && b->Text_0 == x,
        PackValue::List(x) => b is List && x.len() == b->List_0.len() && seq_equiv(x, b->List_0),
        PackValue::Dict(x) => b is Dict && x.len() == b->Dict_0.len() && entries_in(x, b->Dict_0),
        PackValue::Node(x) => b is Node && node_equiv(x, b->Node_0),
        PackValue::Relationship(x) => b is Relationship && x.0 == b->Relationship_0.0 && x.1
            == b->Relationship_0.1 && x.2 == b->Relationship_0.2 && x.3 == b->Relationship_0.3
            && x.4.len() == b->Relationship_0.4.len() && entries_in(x.4, b->Relationship_0.4),
        PackValue::UnboundRelationship(x) => b is UnboundRelationship && unbound_equiv(
            x,
            b->UnboundRelationship_0,
        ),
        PackValue::Path(n, r, i) => b is Path && n.len() == b->Path_0.len() && nodes_equiv(
            n,
            b->Path_0,
        ) && r.len() == b->Path_1.len() && unbounds_equiv(r, b->Path_1) && i == b->Path_2,
    }
}

/// Item-wise equality of two sequences of the same length.
pub open spec fn seq_equiv(x: Seq<PackValue>, y: Seq<PackValue>) -> bool
    decreases x,
{
    x.len() > 0 ==> seq_equiv(x.drop_last(), y.drop_last()) && equiv(x.last(), y.last())
}

/// Each entry of `x` finds the first entry of `y` with its key, with an equal value.
pub open spec fn entries_in(x: PropsModel, y: PropsModel) -> bool
    decreases x,
{
    x.len() > 0 ==> entries_in(x.drop_last(), y) && key_index(y, x.last().0, 0) >= 0 && equiv(
        x.last().1,
        y[key_index(y, x.last().0, 0)].1,
    )
}

pub open spec fn node_equiv(x: NodeModel, y: NodeModel) -> bool
    decreases x,
{
    x.0 == y.0 && x.1 == y.1 && x.2.len() == y.2.len() && entries_in(x.2, y.2)
}

pub open spec fn unbound_equiv(x: UnboundModel, y: UnboundModel) -> bool
    decreases x,
{
    x.0 == y.0 && x.1 == y.1 && x.2.len() == y.2.len() && entries_in(x.2, y.2)
}

pub open spec fn nodes_equiv(x: Seq<NodeModel>, y: Seq<NodeModel>) -> bool
    decreases x,
{
    x.len() > 0 ==> nodes_equiv(x.drop_last(), y.drop_last()) && node_equiv(x.last(), y.last())
}

pub open spec fn unbounds_equiv(x: Seq<UnboundModel>, y: Seq<UnboundModel>) -> bool
    decreases x,
{
    x.len() > 0 ==> unbounds_equiv(x.drop_last(), y.drop_last()) && unbound_equiv(
        x.last(),
        y.last(),
    )
}

fn float_eq(x: u64, y: u64) -> (r: bool)
    ensures
        r == float_equal(x, y),
{
    let nan_x = (x >> 52u64) & 0x7FFu64 == 0x7FFu64 && x & 0xF_FFFF_FFFF_FFFFu64 != 0;
    let nan_y = (y >> 52u64) & 0x7FFu64 == 0x7FFu64 && y & 0xF_FFFF_FFFF_FFFFu64 != 0;
    !nan_x && !nan_y && (x == y || (x & 0x7FFF_FFFF_FFFF_FFFFu64 == 0 && y
        & 0x7FFF_FFFF_FFFF_FFFFu64 == 0))
}

fn strings_eq(x: &Vec<String>, y: &Vec<String>) -> (r: bool)
    ensures
        r == (strings_view(x@) == strings_view(y@)),
{
    if x.len() != y.len() {
        return false;
    }
    let mut i: usize = 0;
    while i < x.len()
        invariant
            x@.len() == y@.len(),
            0 <= i <= x@.len(),
            forall|j: int| 0 <= j < i ==> (#[trigger] x@[j])@ == y@[j]@,
        decreases x@.len() - i,
    {
        if x[i] != y[i] {
            assert(strings_view(x@)[i as int] != strings_view(y@)[i as int]);
            return false;
        }
        i += 1;
    }
    assert(strings_view(x@) =~= strings_view(y@));
    true
}

/// The index of the first entry of `m` whose key is `k`.
fn find_key(m: &Vec<(String, Value)>, k: &String) -> (r: Option<usize>)
    ensures
        match r {
            Some(j) => key_index(entries_view(m@), k@, 0) == j as int && j < m@.len(),
            None => key_index(entries_view(m@), k@, 0) == -1,
        },
{
    let ghost e = entries_view(m@);
    proof {
        lemma_entries_view_len(m@);
    }
    let mut i: usize = 0;
    while i < m.len()
        invariant
            0 <= i <= m@.len(),
            e == entries_view(m@),
            e.len() == m@.len(),
            key_index(e, k@, 0) == key_index(e, k@, i as int),
        decreases m@.len() - i,
    {
        proof {
            lemma_entries_view_index(m@, i as int);
        }
        if m[i].0 == *k {
            return Some(i);
        }
        i += 1;
    }
    None
}

/// Equality of two values, as `equiv` states it.
pub fn value_eq(a: &Value, b: &Value) -> (r: bool)
    ensures
        r == equiv(a.view_model(), b.view_model()),
    decreases a,
{
    match (a, b) {
        (Value::Null, Value::Null) => true,
        (Value::Boolean(x), Value::Boolean(y)) => *x == *y,
        (Value::Integer(x), Value::Integer(y)) => *x == *y,
        (Value::Float(x), Value::Float(y)) => float_eq(*x, *y),
        (Value::String(x), Value::String(y)) => *x == *y,
        (Value::List(x), Value::List(y)) => {
            proof {
                lemma_values_view_len(x@);
                lemma_values_view_len(y@);
            }
            x.len() == y.len() && values_eq(x, y)
        },
        (Value::BoltMap(x), Value::BoltMap(y)) => {
            proof {
                lemma_entries_view_len(x.value@);
                lemma_entries_view_len(y.value@);
            }
            x.value.len() == y.value.len() && entries_in_exec(&x.value, &y.value)
        },
        (Value::Node(x), Value::Node(y)) => node_eq(x, y),
        (Value::Relationship(x), Value::Relationship(y)) => rel_eq(x, y),
        (Value::UnboundRelationship(x), Value::UnboundRelationship(y)) => unbound_eq(x, y),
        (Value::Path(x), Value::Path(y)) => {
            proof {
                lemma_nodes_view_len(x.nodes@);
                lemma_nodes_view_len(y.nodes@);
                lemma_unbounds_view_len(x.relationships@);
                lemma_unbounds_view_len(y.relationships@);
            }
            x.nodes.len() == y.nodes.len() && nodes_eq(&x.nodes, &y.nodes)
                && x.relationships.len() == y.relationships.len() && unbounds_eq(
                &x.relationships,
                &y.relationships,
            ) && ints_eq(&x.sequence, &y.sequence)
        },
        _ => false,
    }
}

fn ints_eq(x: &Vec<i64>, y: &Vec<i64>) -> (r: bool)
    ensures
        r == (x@ == y@),
{
    if x.len() != y.len() {
        return false;
    }
    let mut i: usize = 0;
    while i < x.len()
        invariant
            x@.len() == y@.len(),
            0 <= i <= x@.len(),
            forall|j: int| 0 <= j < i ==> x@[j] == y@[j],
        decreases x@.len() - i,
    {
        if x[i] != y[i] {
            return false;
        }
        i += 1;
    }
    assert(x@ =~= y@);
    true
}

fn values_eq(x: &Vec<Value>, y: &Vec<Value>) -> (r: bool)
    requires
        x@.len() == y@.len(),
    ensures
        r == seq_equiv(values_view(x@), values_view(y@)),
    decreases x,
{
    let mut all = true;
    let mut i: usize = 0;
    while i < x.len()
        invariant
            x@.len() == y@.len(),
            0 <= i <= x@.len(),
            all == seq_equiv(values_view(x@.take(i as int)), values_view(y@.take(i as int))),
        decreases x@.len() - i,
    {
        assert(x@.take(i + 1).drop_last() =~= x@.take(i as int));
        assert(y@.take(i + 1).drop_last() =~= y@.take(i as int));
        assert(values_view(x@.take(i + 1)).drop_last() =~= values_view(x@.take(i as int)));
        assert(values_view(y@.take(i + 1)).drop_last() =~= values_view(y@.take(i as int)));
        assert(values_view(x@.take(i + 1)).last() == x@[i as int].view_model());
        assert(values_view(y@.take(i + 1)).last() == y@[i as int].view_model());
        if all {
            all = value_eq(&x[i], &y[i]);
        }
        i += 1;
    }
    assert(x@.take(x@.len() as int) =~= x@);
    assert(y@.take(y@.len() as int) =~= y@);
    all
}

fn entries_in_exec(x: &Vec<(String, Value)>, y: &Vec<(String, Value)>) -> (r: bool)
    ensures
        r == entries_in(entries_view(x@), entries_view(y@)),
    decreases x,
{
    let ghost ey = entries_view(y@);
    proof {
        lemma_entries_view_len(y@);
    }
    let mut all = true;
    let mut i: usize = 0;
    while i < x.len()
        invariant
            0 <= i <= x@.len(),
            ey == entries_view(y@),
            ey.len() == y@.len(),
            all == entries_in(entries_view(x@.take(i as int)), ey),
        decreases x@.len() - i,
    {
        assert(x@.take(i + 1).drop_last() =~= x@.take(i as int));
        assert(entries_view(x@.take(i + 1)).drop_last() =~= entries_view(x@.take(i as int)));
        assert(entries_view(x@.take(i + 1)).last() == (x@[i as int].0@, x@[i as int].1.view_model()));
        if all {
            match find_key(y, &x[i].0) {
                None => {
                    all = false;
                },
                Some(j) => {
                    proof {
                        lemma_entries_view_index(y@, j as int);
                    }
                    all = value_eq(&x[i].1, &y[j].1);
                },
            }
        }
        i += 1;
    }
    assert(x@.take(x@.len() as int) =~= x@);
    all
}

fn node_eq(x: &Node, y: &Node) -> (r: bool)
    ensures
        r == node_equiv(x.view_model(), y.view_model()),
    decreases x,
{
    proof {
        lemma_entries_view_len(x.properties.value@);
        lemma_entries_view_len(y.properties.value@);
    }
    x.node_identity == y.node_identity && strings_eq(&x.labels, &y.labels)
        && x.properties.value.len() == y.properties.value.len() && entries_in_exec(
        &x.properties.value,
        &y.properties.value,
    )
}

fn rel_eq(x: &Relationship, y: &Relationship) -> (r: bool)
    ensures
        r == equiv(
            PackValue::Relationship(x.view_model()),
            PackValue::Relationship(y.view_model()),
        ),
    decreases x,
{
    proof {
        lemma_entries_view_len(x.properties.value@);
        lemma_entries_view_len(y.properties.value@);
    }
    x.rel_identity == y.rel_identity && x.start_node_identity == y.start_node_identity
        && x.end_node_identity == y.end_node_identity && x.rel_type == y.rel_type
        && x.properties.value.len() == y.properties.value.len() && entries_in_exec(
        &x.properties.value,
        &y.properties.value,
    )
}

fn unbound_eq(x: &UnboundRelationship, y: &UnboundRelationship) -> (r: bool)
    ensures
        r == unbound_equiv(x.view_model(), y.view_model()),
    decreases x,
{
    proof {
        lemma_entries_view_len(x.properties.value@);
        lemma_entries_view_len(y.properties.value@);
    }
    x.rel_identity == y.rel_identity && x.rel_type == y.rel_type && x.properties.value.len()
        == y.properties.value.len() && entries_in_exec(&x.properties.value, &y.properties.value)
}

fn nodes_eq(x: &Vec<Node>, y: &Vec<Node>) -> (r: bool)
    requires
        x@.len() == y@.len(),
    ensures
        r == nodes_equiv(nodes_view(x@), nodes_view(y@)),
    decreases x,
{
    let mut all = true;
    let mut i: usize = 0;
    while i < x.len()
        invariant
            x@.len() == y@.len(),
            0 <= i <= x@.len(),
            all == nodes_equiv(nodes_view(x@.take(i as int)), nodes_view(y@.take(i as int))),
        decreases x@.len() - i,
    {
        assert(x@.take(i + 1).drop_last() =~= x@.take(i as int));
        assert(y@.take(i + 1).drop_last() =~= y@.take(i as int));
        assert(nodes_view(x@.take(i + 1)).drop_last() =~= nodes_view(x@.take(i as int)));
        assert(nodes_view(y@.take(i + 1)).drop_last() =~= nodes_view(y@.take(i as int)));
        assert(nodes_view(x@.take(i + 1)).last() == x@[i as int].view_model());
        assert(nodes_view(y@.take(i + 1)).last() == y@[i as int].view_model());
        if all {
            all = node_eq(&x[i], &y[i]);
        }
        i += 1;
    }
    assert(x@.take(x@.len() as int) =~= x@);
    assert(y@.take(y@.len() as int) =~= y@);
    all
}

fn unbounds_eq(x: &Vec<UnboundRelationship>, y: &Vec<UnboundRelationship>) -> (r: bool)
    requires
        x@.len() == y@.len(),
    ensures
        r == unbounds_equiv(unbounds_view(x@), unbounds_view(y@)),
    decreases x,
{
    let mut all = true;
    let mut i: usize = 0;
    while i < x.len()
        invariant
            x@.len() == y@.len(),
            0 <= i <= x@.len(),
            all == unbounds_equiv(
                unbounds_view(x@.take(i as int)),
                unbounds_view(y@.take(i as int)),
            ),
        decreases x@.len() - i,
    {
        assert(x@.take(i + 1).drop_last() =~= x@.take(i as int));
        assert(y@.take(i + 1).drop_last() =~= y@.take(i as int));
        assert(unbounds_view(x@.take(i + 1)).drop_last() =~= unbounds_view(x@.take(i as int)));
        assert(unbounds_view(y@.take(i + 1)).drop_last() =~= unbounds_view(y@.take(i as int)));
        assert(unbounds_view(x@.take(i + 1)).last() == x@[i as int].view_model());
        assert(unbounds_view(y@.take(i + 1)).last() == y@[i as int].view_model());
        if all {
            all = unbound_eq(&x[i], &y[i]);
        }
        i += 1;
    }
    assert(x@.take(x@.len() as int) =~= x@);
    assert(y@.take(y@.len() as int) =~= y@);
    all
}

impl PartialEq for Value {
    fn eq(&self, other: &Value) -> (r: bool) {
        value_eq(self, other)
    }
}

impl vstd::std_specs::cmp::PartialEqSpecImpl for Value {
    open spec fn obeys_eq_spec() -> bool {
        true
    }

    open spec fn eq_spec(&self, other: &Value) -> bool {
        equiv(self.view_model(), other.view_model())
    }
}

impl PartialEq for BoltMap {
    fn eq(&self, other: &BoltMap) -> (r: bool) {
        proof {
            lemma_entries_view_len(self.value@);
            lemma_entries_view_len(other.value@);
        }
        self.value.len() == other.value.len() && entries_in_exec(&self.value, &other.value)
    }
}

impl vstd::std_specs::cmp::PartialEqSpecImpl for BoltMap {
    open spec fn obeys_eq_spec() -> bool {
        true
    }

    open spec fn eq_spec(&self, other: &BoltMap) -> bool {
        equiv(
            PackValue::Dict(entries_view(self.value@)),
            PackValue::Dict(entries_view(other.value@)),
        )
    }
}

} // verus!
