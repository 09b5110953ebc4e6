//! Index entries, and the key ranges that hold them.

use otf::btree::{BTree, BTreeError};
use otf::common::{CategorizedError, ErrorCategory, MemoryBackend};
use otf::index::{
    any_null, entry, insert_entry, prefix_bounds, probe_unique, remove_entry, successor, Entry,
    IndexError, TxnError,
};
use otf::pager::Pager;
use otf::value::{TypeError, Value};

/// Order-preserving: a tag and a big-endian number, or escaped and terminated text.
fn encode_key(cols: &[Value]) -> Vec<u8> {
    let mut out = Vec::new();
    for v in cols {
        match v {
            Value::I64(i) => {
                out.push(2);
                out.extend_from_slice(&((*i as u64) ^ (1 << 63)).to_be_bytes());
            }
            Value::Text(s) => {
                out.push(4);
                out.extend_from_slice(s.as_bytes());
                out.extend_from_slice(&[0, 0]);
            }
            _ => out.push(0),
        }
    }
    out
}

fn pk(n: i64) -> Vec<u8> {
    encode_key(&[Value::I64(n)])
}

#[test]
fn non_unique_entries_with_equal_columns_stay_distinct() {
    let cols = vec![Value::Text("same".into())];
    let key = Ok(encode_key(&cols));
    let a = entry(&cols, &key, &pk(1), false).unwrap().unwrap();
    let b = entry(&cols, &key, &pk(2), false).unwrap().unwrap();
    assert_ne!(a.key, b.key);
    // Both fall inside the prefix bounds for the column value.
    let (lo, hi) = prefix_bounds(&key).unwrap();
    let hi = hi.unwrap();
    assert!(lo <= a.key && a.key < hi);
    assert!(lo <= b.key && b.key < hi);
}

#[test]
fn unique_entries_collide_on_equal_columns() {
    let cols = vec![Value::I64(42)];
    let key = Ok(encode_key(&cols));
    let a = entry(&cols, &key, &pk(1), true).unwrap().unwrap();
    let b = entry(&cols, &key, &pk(2), true).unwrap().unwrap();
    assert_eq!(a.key, b.key, "collision is what detects the violation");
    assert_ne!(a.value, b.value);
}

#[test]
fn null_columns_skip_unique_but_not_plain_indexes() {
    let cols = vec![Value::Null, Value::I64(1)];
    let key = Ok(encode_key(&cols));
    assert!(entry(&cols, &key, &pk(1), true).unwrap().is_none());
    assert!(entry(&cols, &key, &pk(1), false).unwrap().is_some());
    assert!(any_null(&cols));
    assert!(!any_null(&vec![Value::I64(1)]));
}

#[test]
fn successor_handles_trailing_ff() {
    assert_eq!(successor(vec![0x01, 0x02]), Some(vec![0x01, 0x03]));
    assert_eq!(successor(vec![0x01, 0xFF]), Some(vec![0x02]));
    assert_eq!(successor(vec![0xFF, 0xFF]), None);
}

#[test]
fn prefix_bounds_cover_exactly_the_prefix() {
    let ab = vec![Value::Text("ab".into())];
    let ac = vec![Value::Text("ac".into())];
    let (lo, hi) = prefix_bounds(&Ok(encode_key(&ab))).unwrap();
    let hi = hi.unwrap();
    let inside = entry(&ab, &Ok(encode_key(&ab)), &pk(9), false)
        .unwrap()
        .unwrap();
    let outside = entry(&ac, &Ok(encode_key(&ac)), &pk(9), false)
        .unwrap()
        .unwrap();
    assert!(lo <= inside.key && inside.key < hi);
    assert!(outside.key >= hi);
}

#[test]
fn plain_entries_hold_the_columns_and_the_primary_key() {
    let cols = vec![Value::I64(1)];
    let plain = entry(&cols, &Ok(vec![1, 2]), &[9], false).unwrap().unwrap();
    assert_eq!((plain.key, plain.value), (vec![1, 2, 9], vec![9]));
    let unique = entry(&cols, &Ok(vec![1, 2]), &[9], true).unwrap().unwrap();
    assert_eq!((unique.key, unique.value), (vec![1, 2], vec![9]));
}

#[test]
fn an_encoding_error_passes_through() {
    let e = TypeError { category: ErrorCategory::Validation, text: "type".to_string() };
    let err = entry(&vec![Value::I64(1)], &Err(e.clone()), &[9], true).unwrap_err();
    assert!(matches!(err, IndexError::Type(_)));
    assert_eq!(err.category(), ErrorCategory::Validation);
    assert!(prefix_bounds(&Err(e.clone())).is_err());
    // A unique index skips a row with a null before its columns are encoded.
    assert!(entry(&vec![Value::Null], &Err(e), &[9], true).unwrap().is_none());
}

#[test]
fn a_unique_index_is_probed_for_its_row() {
    let mut pager = Pager::create(MemoryBackend::new()).unwrap();
    let root = BTree::new(&mut pager).create().unwrap();
    let cols = vec![Value::I64(42)];
    let key = Ok(encode_key(&cols));
    let e = entry(&cols, &key, &pk(1), true).unwrap().unwrap();
    assert_eq!(probe_unique(&mut pager, root, &key).unwrap(), None);
    let root = insert_entry(&mut pager, root, &e).unwrap().new_root;
    assert_eq!(probe_unique(&mut pager, root, &key).unwrap(), Some(pk(1)));
    let root = remove_entry(&mut pager, root, &e).unwrap().new_root;
    assert_eq!(probe_unique(&mut pager, root, &key).unwrap(), None);
}

#[test]
fn an_oversized_entry_keeps_the_tree_layers_category() {
    let mut pager = Pager::create(MemoryBackend::new()).unwrap();
    let root = BTree::new(&mut pager).create().unwrap();
    let big = Entry { key: vec![1; 3000], value: vec![] };
    let err = insert_entry(&mut pager, root, &big).unwrap_err();
    assert!(matches!(
        &err,
        IndexError::Txn(TxnError::BTree(BTreeError::EntryTooLarge { entry: 3010, .. }))
    ));
    assert_eq!(err.category(), ErrorCategory::ResourceLimit);
    let bad = TypeError { category: ErrorCategory::Validation, text: "type".to_string() };
    let told = probe_unique(&mut pager, root, &Err(bad));
    assert!(matches!(told, Err(IndexError::Type(e)) if e.text == "type"));
}
