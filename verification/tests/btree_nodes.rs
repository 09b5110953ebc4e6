//! Nodes of the ordered store: their byte layout, routing and splitting.

use otf::btree::{BTreeError, Corruption, Node};
use otf::pager::PageId;

fn leaf(pairs: &[(&[u8], &[u8])]) -> Node {
    Node::Leaf {
        keys: pairs.iter().map(|(k, _)| k.to_vec()).collect(),
        vals: pairs.iter().map(|(_, v)| v.to_vec()).collect(),
    }
}

fn internal() -> Node {
    Node::Internal {
        keys: vec![b"m".to_vec(), b"t".to_vec()],
        children: vec![PageId::new(2), PageId::new(3), PageId::new(4)],
    }
}

#[test]
fn leaf_round_trips() {
    let n = leaf(&[(b"a", b"1"), (b"bb", b"22"), (b"ccc", b"333")]);
    let bytes = n.encode();
    assert_eq!(Node::decode(&bytes, PageId::new(2)).unwrap(), n);
}

#[test]
fn internal_round_trips() {
    let n = internal();
    let bytes = n.encode();
    assert_eq!(Node::decode(&bytes, PageId::new(5)).unwrap(), n);
}

#[test]
fn routing_picks_the_covering_child() {
    let n = internal();
    assert_eq!(n.route(b"a").unwrap(), PageId::new(2));
    assert_eq!(n.route(b"m").unwrap(), PageId::new(3));
    assert_eq!(n.route(b"s").unwrap(), PageId::new(3));
    assert_eq!(n.route(b"t").unwrap(), PageId::new(4));
    assert_eq!(n.route(b"z").unwrap(), PageId::new(4));
}

#[test]
fn truncated_node_is_rejected_not_panicked() {
    let n = leaf(&[(b"a", b"1")]);
    let mut bytes = n.encode();
    bytes.truncate(bytes.len() - 1); // drop the last value byte
    assert!(matches!(
        Node::decode(&bytes, PageId::new(2)),
        Err(BTreeError::Corruption(_))
    ));
}

#[test]
fn unsorted_leaf_is_rejected() {
    // Hand-encode a leaf with descending keys.
    let bad = Node::Leaf {
        keys: vec![b"b".to_vec(), b"a".to_vec()],
        vals: vec![b"1".to_vec(), b"2".to_vec()],
    };
    let bytes = bad.encode();
    assert!(matches!(
        Node::decode(&bytes, PageId::new(2)),
        Err(BTreeError::Corruption(Corruption::KeysNotSorted { .. }))
    ));
}

#[test]
fn unknown_kind_is_rejected() {
    let mut bytes = leaf(&[(b"a", b"1")]).encode();
    bytes[0] = 9;
    assert!(matches!(
        Node::decode(&bytes, PageId::new(2)),
        Err(BTreeError::Corruption(Corruption::UnknownNodeKind {
            byte: 9,
            ..
        }))
    ));
}

#[test]
fn leaf_split_halves_and_separates() {
    // Build a leaf big enough to overflow, then split.
    let big = vec![b'x'; 600];
    let mut keys = Vec::new();
    let mut vals = Vec::new();
    for i in 0..10u8 {
        keys.push(vec![i]);
        vals.push(big.clone());
    }
    let n = Node::Leaf { keys, vals };
    assert!(n.is_overfull());
    let (l, sep, r) = n.split();
    assert!(!l.is_overfull() && !r.is_overfull());
    assert!(l.key_count() >= 1 && r.key_count() >= 1);
    // Separator is the right half's first key.
    if let Node::Leaf { keys, .. } = &r {
        assert_eq!(sep, keys[0]);
    }
}

#[test]
fn a_leaf_has_its_exact_bytes() {
    let n = leaf(&[(b"a", b"1"), (b"bb", b"22")]);
    let bytes = n.encode();
    assert_eq!(bytes.len(), n.encoded_len());
    assert_eq!(
        bytes,
        vec![
            0, 0, 2, 0, // kind, flags, count
            1, 0, b'a', 1, 0, b'1', // first entry
            2, 0, b'b', b'b', 2, 0, b'2', b'2', // second entry
        ]
    );
}

#[test]
fn an_internal_node_has_its_exact_length() {
    // A header with the leftmost child, then per key a length, the key and a child.
    let n = internal();
    assert_eq!(n.encoded_len(), 12 + 2 * (2 + 1 + 8));
    assert_eq!(n.encode().len(), n.encoded_len());
    assert!(n.is_underfull());
}

#[test]
fn a_leaf_finds_exactly_its_keys() {
    let n = leaf(&[(b"a", b"1"), (b"bb", b"22")]);
    assert_eq!(n.leaf_get(b"a"), Some(b"1".as_slice()));
    assert_eq!(n.leaf_get(b"bb"), Some(b"22".as_slice()));
    assert_eq!(n.leaf_get(b"b"), None);
    assert_eq!(n.leaf_get(b""), None);
    assert_eq!(n.route(b"a"), None);
    assert_eq!(internal().leaf_get(b"m"), None);
}

#[test]
fn an_internal_split_lifts_its_middle_key() {
    let keys: Vec<Vec<u8>> = (0..7u8).map(|i| vec![i; 700]).collect();
    let children: Vec<PageId> = (10..18u64).map(PageId::new).collect();
    let n = Node::Internal { keys: keys.clone(), children: children.clone() };
    assert!(n.is_overfull());
    let (l, sep, r) = n.split();
    assert_eq!(l.key_count() + 1 + r.key_count(), 7);
    let merged = Node::merge(&l, &sep, &r);
    assert_eq!(merged, n);
}

#[test]
fn merging_two_leaves_joins_their_entries() {
    let l = leaf(&[(b"a", b"1")]);
    let r = leaf(&[(b"m", b"2"), (b"z", b"3")]);
    assert_eq!(
        Node::merge(&l, b"m", &r),
        leaf(&[(b"a", b"1"), (b"m", b"2"), (b"z", b"3")])
    );
}

#[test]
fn a_child_below_the_data_pages_is_rejected() {
    let n = Node::Internal {
        keys: vec![b"m".to_vec()],
        children: vec![PageId::new(2), PageId::new(1)],
    };
    assert!(matches!(
        Node::decode(&n.encode(), PageId::new(7)),
        Err(BTreeError::Corruption(Corruption::BadChild { page: 7, child: 1 }))
    ));
}

#[test]
fn an_empty_leaf_is_empty() {
    let n = Node::empty_leaf();
    assert_eq!(n.key_count(), 0);
    assert_eq!(n.copy(), n);
    assert_eq!(Node::decode(&n.encode(), PageId::new(2)).unwrap(), n);
}
