use bolt_proto::marker::{Marker, Signature};
use bolt_proto::{BoltMap, Error, Node, Path, Relationship, UnboundRelationship, Value};

fn s(x: &str) -> String {
    x.to_string()
}

fn props(pairs: Vec<(&str, Value)>) -> BoltMap {
    BoltMap::from_entries(pairs.into_iter().map(|(k, v)| (s(k), v)).collect())
}

fn round_trip(v: &Value) -> Value {
    let bytes = v.try_into_bytes().unwrap();
    Value::try_from_bytes(&bytes).unwrap()
}

fn sample_node(id: i64) -> Node {
    Node {
        node_identity: id,
        labels: vec![s("Person")],
        properties: props(vec![("name", Value::from(s("Alice")))]),
    }
}

fn sample_unbound(id: i64) -> UnboundRelationship {
    UnboundRelationship {
        rel_identity: id,
        rel_type: s("KNOWS"),
        properties: props(vec![("since", Value::from(1999_i64))]),
    }
}

#[test]
fn null_from_bytes() {
    let null_bytes = Value::Null.try_into_bytes().unwrap();
    assert_eq!(Value::try_from_bytes(&null_bytes).unwrap(), Value::Null);
}

#[test]
fn boolean_from_bytes() {
    let true_bytes = Value::from(true).try_into_bytes().unwrap();
    let false_bytes = Value::from(false).try_into_bytes().unwrap();
    assert_eq!(Value::try_from_bytes(&true_bytes).unwrap(), Value::Boolean(true));
    assert_eq!(Value::try_from_bytes(&false_bytes).unwrap(), Value::Boolean(false));
}

#[test]
fn integer_from_bytes() {
    let tiny = Value::from(110_i8);
    let small = Value::from(-50_i8);
    let medium = Value::from(8000_i16);
    let large = Value::from(-1_000_000_000_i32);
    let very_large = Value::from(9_000_000_000_000_000_000_i64);
    assert_eq!(round_trip(&tiny), Value::Integer(110));
    assert_eq!(round_trip(&small), Value::Integer(-50));
    assert_eq!(round_trip(&medium), Value::Integer(8000));
    assert_eq!(round_trip(&large), Value::Integer(-1_000_000_000));
    assert_eq!(round_trip(&very_large), Value::Integer(9_000_000_000_000_000_000));
}

#[test]
fn float_from_bytes() {
    for f in [
        std::f64::MIN_POSITIVE,
        std::f64::MAX,
        std::f64::consts::E,
        std::f64::consts::PI,
    ] {
        let v = Value::Float(f.to_bits());
        let back = round_trip(&v);
        assert_eq!(back, Value::Float(f.to_bits()));
        match back {
            Value::Float(bits) => assert_eq!(f64::from_bits(bits), f),
            _ => panic!("not a float"),
        }
    }
}

#[test]
fn string_from_bytes() {
    for n in [1_usize, 10, 1000, 100_000] {
        let text = "string".repeat(n);
        let v = Value::from(text.clone());
        assert_eq!(round_trip(&v), Value::String(text));
    }
}

#[test]
fn list_from_bytes() {
    let empty_list = Value::List(vec![]);
    let tiny_list = Value::List((0..10).map(|_| Value::from(100_000_000_000_i64)).collect());
    let small_list = Value::List((0..100).map(|_| Value::from(s("item"))).collect());
    let medium_list = Value::List((0..1000).map(|_| Value::from(false)).collect());
    assert_eq!(round_trip(&empty_list), Value::List(vec![]));
    assert_eq!(
        round_trip(&tiny_list),
        Value::List((0..10).map(|_| Value::from(100_000_000_000_i64)).collect())
    );
    assert_eq!(
        round_trip(&small_list),
        Value::List((0..100).map(|_| Value::from(s("item"))).collect())
    );
    assert_eq!(
        round_trip(&medium_list),
        Value::List((0..1000).map(|_| Value::from(false)).collect())
    );
}

#[test]
fn large_list_from_bytes() {
    let large_list = Value::List((0..70_000).map(|_| Value::from(1_i8)).collect());
    assert_eq!(
        round_trip(&large_list),
        Value::List((0..70_000).map(|_| Value::from(1_i8)).collect())
    );
}

fn small_pairs() -> Vec<(&'static str, Value)> {
    vec![
        ("a", Value::from(1_i8)),
        ("b", Value::from(1_i8)),
        ("c", Value::from(3_i8)),
        ("d", Value::from(4_i8)),
        ("e", Value::from(5_i8)),
        ("f", Value::from(6_i8)),
        ("g", Value::from(7_i8)),
        ("h", Value::from(8_i8)),
        ("i", Value::from(9_i8)),
        ("j", Value::from(0_i8)),
        ("k", Value::from(1_i8)),
        ("l", Value::from(2_i8)),
        ("m", Value::from(3_i8)),
        ("n", Value::from(4_i8)),
        ("o", Value::from(5_i8)),
        ("p", Value::from(6_i8)),
    ]
}

#[test]
fn map_from_bytes() {
    let empty_map = Value::BoltMap(BoltMap::new());
    let tiny_map = Value::BoltMap(props(vec![("a", Value::from(1_i8))]));
    let small_map = Value::BoltMap(props(small_pairs()));
    assert_eq!(round_trip(&empty_map), Value::BoltMap(BoltMap::new()));
    assert_eq!(round_trip(&tiny_map), Value::BoltMap(props(vec![("a", Value::from(1_i8))])));
    assert_eq!(round_trip(&small_map), Value::BoltMap(props(small_pairs())));
}

#[test]
fn node_from_bytes() {
    let bytes = [
        0xB3, 0x4E, 0x01, 0x91, 0x86, b'P', b'e', b'r', b's', b'o', b'n', 0xA1, 0x84, b'n', b'a',
        b'm', b'e', 0x85, b'A', b'l', b'i', b'c', b'e',
    ];
    assert_eq!(Value::try_from_bytes(&bytes).unwrap(), Value::Node(sample_node(1)));
    assert_eq!(round_trip(&Value::Node(sample_node(1))), Value::Node(sample_node(1)));
    assert_eq!(Value::Node(sample_node(1)).try_into_bytes().unwrap(), bytes.to_vec());
}

#[test]
fn relationship_from_bytes() {
    let rel = Relationship {
        rel_identity: 7,
        start_node_identity: 1,
        end_node_identity: 2,
        rel_type: s("KNOWS"),
        properties: props(vec![("since", Value::from(1999_i64))]),
    };
    let bytes = Value::Relationship(rel).try_into_bytes().unwrap();
    assert_eq!(&bytes[..6], &[0xB5, 0x52, 0x07, 0x01, 0x02, 0x85]);
    let back = Value::try_from_bytes(&bytes).unwrap();
    assert_eq!(
        back,
        Value::Relationship(Relationship {
            rel_identity: 7,
            start_node_identity: 1,
            end_node_identity: 2,
            rel_type: s("KNOWS"),
            properties: props(vec![("since", Value::from(1999_i64))]),
        })
    );
}

#[test]
fn path_from_bytes() {
    let path = Path {
        nodes: vec![sample_node(1), sample_node(2)],
        relationships: vec![sample_unbound(5)],
        sequence: vec![1, 1],
    };
    let bytes = Value::Path(path).try_into_bytes().unwrap();
    assert_eq!(&bytes[..3], &[0xB3, 0x50, 0x92]);
    assert_eq!(
        Value::try_from_bytes(&bytes).unwrap(),
        Value::Path(Path {
            nodes: vec![sample_node(1), sample_node(2)],
            relationships: vec![sample_unbound(5)],
            sequence: vec![1, 1],
        })
    );
}

#[test]
fn unbound_relationship_from_bytes() {
    let bytes = Value::UnboundRelationship(sample_unbound(5)).try_into_bytes().unwrap();
    assert_eq!(&bytes[..4], &[0xB3, 0x72, 0x05, 0x85]);
    assert_eq!(
        Value::try_from_bytes(&bytes).unwrap(),
        Value::UnboundRelationship(sample_unbound(5))
    );
}

#[test]
fn get_marker() {
    let empty_map = BoltMap::new();
    assert_eq!(empty_map.get_marker().unwrap(), 0xA0);
    let tiny_map = props(vec![
        ("a", Value::from(1_i8)),
        ("b", Value::from(2_i8)),
        ("c", Value::from(3_i8)),
    ]);
    assert_eq!(tiny_map.get_marker().unwrap(), 0xA0 | tiny_map.len() as u8);
}

#[test]
fn try_into_bytes() {
    let empty_map = BoltMap::new();
    assert_eq!(empty_map.try_into_bytes().unwrap(), vec![0xA0]);
    let tiny_map = props(vec![("a", Value::from(1_i8))]);
    assert_eq!(tiny_map.try_into_bytes().unwrap(), vec![0xA0 | 1, 0x81, 0x61, 0x01]);
    let small_map = props(small_pairs());
    let small_len = small_map.len();
    let small_bytes = small_map.try_into_bytes().unwrap();
    assert_eq!(small_bytes[0], 0xD8);
    assert_eq!(small_bytes.len(), 2 + small_len * 3);
}

#[test]
fn try_from_bytes() {
    let empty_bytes = BoltMap::new().try_into_bytes().unwrap();
    let tiny_bytes = props(vec![("a", Value::from(1_i8))]).try_into_bytes().unwrap();
    let small_bytes = props(small_pairs()).try_into_bytes().unwrap();
    assert_eq!(BoltMap::try_from_bytes(&empty_bytes).unwrap(), BoltMap::new());
    assert_eq!(
        BoltMap::try_from_bytes(&tiny_bytes).unwrap(),
        props(vec![("a", Value::from(1_i8))])
    );
    assert_eq!(BoltMap::try_from_bytes(&small_bytes).unwrap(), props(small_pairs()));
}

#[test]
fn signatures_of_graph_types() {
    assert_eq!(sample_node(1).get_signature(), 0x4E);
    assert_eq!(sample_unbound(1).get_signature(), 0x72);
    let rel = Relationship {
        rel_identity: 1,
        start_node_identity: 1,
        end_node_identity: 2,
        rel_type: s("R"),
        properties: BoltMap::new(),
    };
    assert_eq!(rel.get_signature(), 0x52);
    assert_eq!(rel.get_marker().unwrap(), 0xB5);
    let path = Path { nodes: vec![], relationships: vec![], sequence: vec![] };
    assert_eq!(path.get_signature(), 0x50);
    assert_eq!(sample_node(1).get_marker().unwrap(), 0xB3);
}

#[test]
fn clone_keeps_every_part() {
    let path = Value::Path(Path {
        nodes: vec![sample_node(1), sample_node(2)],
        relationships: vec![sample_unbound(3)],
        sequence: vec![1, 1],
    });
    let copy = path.clone();
    assert_eq!(copy, path);
    assert_eq!(copy.try_into_bytes().unwrap(), path.try_into_bytes().unwrap());
    let list = Value::List(vec![Value::from(s("x")), Value::BoltMap(props(vec![("k", Value::Null)]))]);
    assert_eq!(list.clone(), list);
}

#[test]
fn decode_errors_reach_the_caller() {
    assert_eq!(Value::try_from_bytes(&[0xC4]), Err(Error::InvalidMarker(0xC4)));
    assert_eq!(BoltMap::try_from_bytes(&[]), Err(Error::Truncated));
}
