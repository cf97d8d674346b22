use mapdb::btree::node::{Node, NodeBody, NodeSerializer, DIR, LEFT, RIGHT};
use mapdb::error::{DbError, Result};
use mapdb::io::{DataInput2, DataOutput2, SliceInput};
use mapdb::ser::{ByteArrayFormat, LongFormat, StringSer};

type LNode = Node<LongFormat, LongFormat>;

fn ser_bytes(node: &LNode) -> Vec<u8> {
    let ns = NodeSerializer::new(&LongFormat, &LongFormat, 16);
    let mut out = DataOutput2::new();
    ns.serialize(&mut out, node);
    out.into_vec()
}

fn ser_bytes_external(node: &LNode) -> Vec<u8> {
    let ns = NodeSerializer::new_mode(&LongFormat, &LongFormat, 16, false);
    let mut out = DataOutput2::new();
    ns.serialize(&mut out, node);
    out.into_vec()
}

fn be(v: i64) -> [u8; 8] {
    v.to_be_bytes()
}

fn deser(bytes: &[u8]) -> Result<LNode> {
    let ns = NodeSerializer::new(&LongFormat, &LongFormat, 16);
    let mut input = SliceInput::new(bytes);
    ns.deserialize(&mut input, Some(bytes.len()))
}

fn is_corrupt<T>(r: Result<T>) -> bool {
    matches!(r, Err(DbError::DataCorruption(_)))
}

#[test]
fn golden_empty_rightmost_leaf() {
    let node: LNode = Node {
        flags: LEFT | RIGHT,
        link: 0,
        keys: vec![],
        body: NodeBody::Leaf { values: vec![], fence: None },
    };
    assert_eq!(ser_bytes(&node), vec![0x86]);
}

#[test]
fn golden_non_rightmost_leaf() {
    let node: LNode = Node {
        flags: LEFT,
        link: 9,
        keys: vec![5, 7],
        body: NodeBody::Leaf { values: vec![50, 70], fence: Some(7) },
    };
    let mut want = vec![0xA4u8, 0x89];
    want.extend_from_slice(&be(5));
    want.extend_from_slice(&be(7));
    want.extend_from_slice(&be(50));
    want.extend_from_slice(&be(70));
    want.extend_from_slice(&be(7));
    assert_eq!(ser_bytes(&node), want);
}

#[test]
fn golden_rightmost_dir() {
    let node: LNode = Node {
        flags: DIR | LEFT | RIGHT,
        link: 0,
        keys: vec![5],
        body: NodeBody::Dir { children: vec![100, 200] },
    };
    let mut want = vec![0x9Eu8];
    want.extend_from_slice(&be(5));
    want.extend_from_slice(&[0xE4, 0x01, 0xC8]);
    assert_eq!(ser_bytes(&node), want);
}

#[test]
fn golden_non_rightmost_dir() {
    let node: LNode = Node {
        flags: DIR,
        link: 42,
        keys: vec![3, 9],
        body: NodeBody::Dir { children: vec![7, 8] },
    };
    let mut want = vec![0xA8u8, 0xAA];
    want.extend_from_slice(&be(3));
    want.extend_from_slice(&be(9));
    want.extend_from_slice(&[0x87, 0x88]);
    assert_eq!(ser_bytes(&node), want);
}

#[test]
fn roundtrip_determinism() {
    let ns = NodeSerializer::new(&LongFormat, &LongFormat, 16);
    let nodes: Vec<LNode> = vec![
        Node {
            flags: LEFT | RIGHT,
            link: 0,
            keys: vec![],
            body: NodeBody::Leaf { values: vec![], fence: None },
        },
        Node {
            flags: LEFT,
            link: 9,
            keys: vec![5, 7, 11],
            body: NodeBody::Leaf { values: vec![50, 70, 110], fence: Some(11) },
        },
        Node {
            flags: DIR | LEFT | RIGHT,
            link: 0,
            keys: vec![5, 9],
            body: NodeBody::Dir { children: vec![100, 200, 300] },
        },
        Node {
            flags: 0,
            link: 77,
            keys: vec![100],
            body: NodeBody::Leaf { values: vec![1000], fence: Some(100) },
        },
    ];
    for node in &nodes {
        let bytes = ser_bytes(node);
        let mut input = SliceInput::new(&bytes);
        let decoded = ns.deserialize(&mut input, Some(bytes.len())).unwrap();
        assert_eq!(ser_bytes(&decoded), bytes, "roundtrip flags={}", node.flags);
        assert_eq!(input.pos(), bytes.len(), "trailing bytes flags={}", node.flags);
    }
}

#[test]
fn golden_external_leaf_encodes_recids_as_be_longs() {
    let ext: LNode = Node {
        flags: LEFT,
        link: 9,
        keys: vec![5, 7],
        body: NodeBody::ExternalLeaf { recids: vec![50, 70], fence: Some(7) },
    };
    let mut want = vec![0xA4u8, 0x89];
    want.extend_from_slice(&be(5));
    want.extend_from_slice(&be(7));
    want.extend_from_slice(&be(50));
    want.extend_from_slice(&be(70));
    want.extend_from_slice(&be(7));
    assert_eq!(ser_bytes_external(&ext), want);

    let ns = NodeSerializer::new_mode(&LongFormat, &LongFormat, 16, false);
    let mut input = SliceInput::new(&want);
    let back = ns.deserialize(&mut input, Some(want.len())).unwrap();
    match back.body {
        NodeBody::ExternalLeaf { recids, fence } => {
            assert_eq!(recids, vec![50, 70]);
            assert_eq!(fence, Some(7));
        }
        _ => panic!("expected ExternalLeaf"),
    }
    assert_eq!(input.pos(), want.len());
}

#[test]
fn golden_external_rightmost_leaf_no_fence() {
    let ext: LNode = Node {
        flags: LEFT | RIGHT,
        link: 0,
        keys: vec![3],
        body: NodeBody::ExternalLeaf { recids: vec![99], fence: None },
    };
    let mut want = vec![0x96u8];
    want.extend_from_slice(&be(3));
    want.extend_from_slice(&be(99));
    assert_eq!(ser_bytes_external(&ext), want);
}

#[test]
fn corrupt_keyslen_exceeds_size() {
    let mut out = DataOutput2::new();
    out.pack_int((200 << 4) | (LEFT | RIGHT));
    assert!(is_corrupt(deser(&out.into_vec())));
}

#[test]
fn corrupt_non_rightmost_node_zero_link() {
    let mut out = DataOutput2::new();
    out.pack_int((1 << 4) | LEFT);
    out.pack_long(0);
    assert!(is_corrupt(deser(&out.into_vec())));
}

#[test]
fn corrupt_directory_zero_child() {
    let mut out = DataOutput2::new();
    out.pack_int((1 << 4) | (DIR | LEFT | RIGHT));
    out.write_i64(5);
    out.pack_long(100);
    out.pack_long(0);
    assert!(is_corrupt(deser(&out.into_vec())));
}

#[test]
fn corrupt_empty_non_rightmost_dir() {
    let mut out = DataOutput2::new();
    out.pack_int(DIR);
    out.pack_long(5);
    assert!(is_corrupt(deser(&out.into_vec())));
}

#[test]
fn corrupt_forged_keyslen_leaves_trailing_bytes() {
    let node = Node {
        flags: LEFT | RIGHT,
        link: 0,
        keys: vec![1, 2],
        body: NodeBody::Leaf { values: vec![10, 20], fence: None },
    };
    let mut bytes = ser_bytes(&node);
    assert_eq!(bytes[0], 0xA6, "unexpected header encoding");
    bytes[0] = 0x96;
    assert!(is_corrupt(deser(&bytes)));
}

#[test]
fn corrupt_unsorted_keys_rejected() {
    let node = Node {
        flags: LEFT | RIGHT,
        link: 0,
        keys: vec![2, 1],
        body: NodeBody::Leaf { values: vec![20, 10], fence: None },
    };
    assert!(is_corrupt(deser(&ser_bytes(&node))));
}

#[test]
fn corrupt_duplicate_keys_rejected() {
    let node = Node {
        flags: LEFT | RIGHT,
        link: 0,
        keys: vec![5, 5],
        body: NodeBody::Leaf { values: vec![50, 51], fence: None },
    };
    assert!(is_corrupt(deser(&ser_bytes(&node))));
}

#[test]
fn corrupt_leaf_fence_below_last_key() {
    let node = Node {
        flags: LEFT,
        link: 77,
        keys: vec![1, 2],
        body: NodeBody::Leaf { values: vec![10, 20], fence: Some(1) },
    };
    assert!(is_corrupt(deser(&ser_bytes(&node))));
}

#[test]
fn variable_width_leaf_round_trips() {
    let ns = NodeSerializer::new(&StringSer, &ByteArrayFormat, 16);
    let node: Node<StringSer, ByteArrayFormat> = Node {
        flags: LEFT,
        link: 3,
        keys: vec!["a".to_string(), "bé".to_string()],
        body: NodeBody::Leaf {
            values: vec![vec![1, 2], vec![]],
            fence: Some("zz".to_string()),
        },
    };
    assert!(node.debug_check());
    assert!(!node.is_dir() && node.is_left() && !node.is_right());
    assert_eq!(node.leaf_fence(), Some(&"zz".to_string()));
    let mut out = DataOutput2::new();
    ns.serialize(&mut out, &node);
    let bytes = out.into_vec();
    assert_eq!(
        bytes,
        vec![
            0xA4, 0x83, 0x81, b'a', 0x83, b'b', 0xC3, 0xA9, 0x82, 1, 2, 0x80, 0x82, b'z', b'z'
        ]
    );
    let mut input = SliceInput::new(&bytes);
    let back = ns.deserialize(&mut input, Some(bytes.len())).unwrap();
    assert_eq!(back.keys, node.keys);
    match back.body {
        NodeBody::Leaf { values, fence } => {
            assert_eq!(values, vec![vec![1, 2], vec![]]);
            assert_eq!(fence, Some("zz".to_string()));
        }
        _ => panic!("expected a leaf"),
    }
}

#[test]
fn node_size_bounds_the_element_count() {
    let ns = NodeSerializer::new(&LongFormat, &LongFormat, 4);
    let mut out = DataOutput2::new();
    out.pack_int((2 << 4) | LEFT | RIGHT);
    for v in [1i64, 2, 10, 20] {
        out.write_i64(v);
    }
    let bytes = out.into_vec();
    let mut input = SliceInput::new(&bytes);
    assert!(ns.deserialize(&mut input, Some(bytes.len())).is_ok());
    let mut input = SliceInput::new(&bytes);
    assert!(is_corrupt(ns.deserialize(&mut input, Some(bytes.len() - 1))));
}
