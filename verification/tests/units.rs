//! Unit tests for the codec, the key orders, the token packing and the
//! node cache.

use beluga::cache::LruCache;
use beluga::codec::{u16_to_u8v, u32_to_u8v, u64_to_u8v, u8v_to_u16, u8v_to_u32, u8v_to_u64, Scanner};
use beluga::beluga::{parse_file_type, BelFileType, Beluga};
use beluga::dict::DictNode;
use beluga::error::Error;
use beluga::keys::{cmp_bytes, smooth_bytes, starts_with, Cmp, EntryKey};
use beluga::node::{Node, Record};

#[test]
fn be_u64_round_trip() {
    let v: u64 = 0x0102_0304_0506_0708;
    let bytes = u64_to_u8v(v);
    assert_eq!(bytes, vec![1, 2, 3, 4, 5, 6, 7, 8]);
    assert_eq!(u8v_to_u64(&bytes), v);
    let max = u64_to_u8v(u64::MAX);
    assert_eq!(u8v_to_u64(&max), u64::MAX);
}

#[test]
fn be_u32_round_trip() {
    let bytes = u32_to_u8v(0x0A0B_0C0D);
    assert_eq!(bytes, vec![0x0A, 0x0B, 0x0C, 0x0D]);
    assert_eq!(u8v_to_u32(&bytes), 0x0A0B_0C0D);
}

#[test]
fn be_u16_round_trip() {
    let bytes = u16_to_u8v(0x1234);
    assert_eq!(bytes, vec![0x12, 0x34]);
    assert_eq!(u8v_to_u16(&bytes), 0x1234);
}

#[test]
fn scanner_reads_in_order() {
    let mut data = u16_to_u8v(7);
    data.extend_from_slice(&u32_to_u8v(99));
    data.extend_from_slice(&u64_to_u8v(123_456_789));
    data.extend_from_slice(b"xy");
    let mut s = Scanner::new(&data);
    assert_eq!(s.read_u16(), 7);
    assert_eq!(s.read_u32(), 99);
    assert_eq!(s.read_u64(), 123_456_789);
    assert!(!s.is_end());
    assert_eq!(s.read(2), b"xy".to_vec());
    assert!(s.is_end());
}

#[test]
fn smoothing_lowers_ascii_only() {
    assert_eq!(smooth_bytes(b"AbC-Z9"), b"abc-z9".to_vec());
    assert_eq!(smooth_bytes(b""), Vec::<u8>::new());
}

#[test]
fn byte_order_is_lexicographic() {
    assert_eq!(cmp_bytes(b"abc", b"abd"), Cmp::Lt);
    assert_eq!(cmp_bytes(b"abc", b"abc"), Cmp::Eq);
    assert_eq!(cmp_bytes(b"abcd", b"abc"), Cmp::Gt);
    assert_eq!(cmp_bytes(b"A", b"a"), Cmp::Lt);
    assert_eq!(cmp_bytes(b"", b"a"), Cmp::Lt);
}

#[test]
fn prefix_check() {
    assert!(starts_with(b"key_00100", b"key_001"));
    assert!(!starts_with(b"key_01100", b"key_001"));
    assert!(starts_with(b"x", b""));
}

#[test]
fn file_type_from_extension() {
    assert_eq!(parse_file_type(b"dict.bel"), Ok(BelFileType::Entry));
    assert_eq!(parse_file_type(b"dict.v2.beld"), Ok(BelFileType::Resource));
    assert_eq!(parse_file_type(b"dict.mdx"), Err(Error::BadExtension));
    assert_eq!(parse_file_type(b"dict"), Err(Error::BadExtension));
}

#[test]
fn token_pack_and_parse() {
    let items = vec![b"ran".to_vec(), b"running".to_vec(), b"run away".to_vec()];
    let mut packed: Vec<u8> = Vec::new();
    for it in &items {
        packed.extend_from_slice(&u16_to_u8v(it.len() as u16));
        packed.extend_from_slice(it);
    }
    let parsed = Beluga::parse_token_entries(&packed).expect("well-formed value");
    assert_eq!(parsed, items);
    // a truncated value is rejected
    assert!(Beluga::parse_token_entries(&packed[..packed.len() - 1]).is_none());
}

fn plain_node(tag: u8) -> DictNode {
    let mut node = Node::new(true);
    node.records.push(Record::with_value(
        EntryKey(vec![tag]),
        beluga::keys::EntryValue(vec![tag]),
    ));
    DictNode { node, children: Vec::new(), size: 0 }
}

fn sized_node(tag: u8, size: u64) -> DictNode {
    let mut d = plain_node(tag);
    d.size = size;
    d
}

#[test]
fn cache_keeps_budget_and_evicts_oldest() {
    let mut cache: LruCache<DictNode> = LruCache::new(10);
    cache.put(1, 100, sized_node(1, 4));
    cache.put(1, 200, sized_node(2, 4));
    assert!(cache.get(1, 100).is_some());
    assert!(cache.get(1, 200).is_some());
    // a third entry pushes the charge to 12 > 10: the oldest goes
    cache.put(1, 300, sized_node(3, 4));
    assert!(cache.get(1, 100).is_none());
    assert!(cache.get(1, 200).is_some());
    assert!(cache.get(1, 300).is_some());
    // distinct cache ids never collide
    cache.put(2, 200, sized_node(9, 1));
    assert_eq!(cache.get(2, 200).unwrap().node.records[0].key.0, vec![9]);
    assert_eq!(cache.get(1, 200).unwrap().node.records[0].key.0, vec![2]);
}

#[test]
fn cache_resize_shrinks() {
    let mut cache: LruCache<DictNode> = LruCache::new(100);
    cache.put(1, 1, sized_node(1, 30));
    cache.put(1, 2, sized_node(2, 30));
    cache.put(1, 3, sized_node(3, 30));
    cache.resize(60);
    assert!(cache.get(1, 1).is_none());
    assert!(cache.get(1, 2).is_some());
    assert!(cache.get(1, 3).is_some());
}

#[test]
fn cache_put_replaces_same_key() {
    let mut cache: LruCache<DictNode> = LruCache::new(100);
    cache.put(1, 5, sized_node(1, 10));
    cache.put(1, 5, sized_node(2, 10));
    assert_eq!(cache.get(1, 5).unwrap().node.records[0].key.0, vec![2]);
}

#[test]
fn oversized_entry_is_evicted_immediately() {
    let mut cache: LruCache<DictNode> = LruCache::new(5);
    cache.put(1, 1, sized_node(1, 50));
    assert!(cache.get(1, 1).is_none());
}

#[test]
fn sibling_resource_naming() {
    assert_eq!(beluga::dictionary::sibling_resource_id(b"dict.beld", b"dict"), Some(Vec::new()));
    assert_eq!(
        beluga::dictionary::sibling_resource_id(b"dict.img.beld", b"dict"),
        Some(b"img".to_vec())
    );
    // the id must be separated by a dot and nonempty
    assert_eq!(beluga::dictionary::sibling_resource_id(b"dictx.beld", b"dict"), None);
    assert_eq!(beluga::dictionary::sibling_resource_id(b"dict..beld", b"dict"), None);
    assert_eq!(beluga::dictionary::sibling_resource_id(b"other.beld", b"dict"), None);
    assert_eq!(beluga::dictionary::sibling_resource_id(b"dict.bel", b"dict"), None);
}
