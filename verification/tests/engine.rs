//! End-to-end tests over the build, persist and query paths.

use beluga::beluga::{BelFileType, Beluga, Metadata};
use beluga::bookshelf::Bookshelf;
use beluga::codec::{u16_to_u8v, u32_to_u8v, u64_to_u8v};
use beluga::dict::DictFile;
use beluga::dictionary::Dictionary;
use beluga::error::Error;
use beluga::tree::Tree;

fn build_entries(entries: &[(&str, &str)], tokens: &[(&str, &[&str])]) -> Vec<u8> {
    let mut b = Beluga::new(Metadata::new(), BelFileType::Entry);
    for (k, v) in entries {
        b.input_entry(k.as_bytes().to_vec(), v.as_bytes().to_vec());
    }
    for (k, alts) in tokens {
        let alts: Vec<Vec<u8>> = alts.iter().map(|a| a.as_bytes().to_vec()).collect();
        b.input_token(k.as_bytes().to_vec(), alts);
    }
    b.file_image().expect("image fits")
}

fn shelf_with(img: Vec<u8>) -> (Bookshelf, u32) {
    let mut shelf = Bookshelf::new(1 << 20);
    let cid = shelf.next_cache_id();
    let entry = DictFile::open(img, cid).expect("valid image");
    let dict = Dictionary::assemble(entry, Vec::new(), None, None);
    let (id, _meta) = shelf.add(dict);
    (shelf, id)
}

#[test]
fn case_folded_exact_lookup() {
    // save and reopen, then: the raw spelling wins; a spelling that was
    // never inserted falls back to the first raw spelling of the run
    let img = build_entries(
        &[("Apple", "A"), ("apple", "a"), ("banana", "b"), ("Banana", "B")],
        &[],
    );
    let (mut shelf, id) = shelf_with(img);
    assert_eq!(shelf.search_entry(id, b"apple"), Some(b"a".to_vec()));
    assert_eq!(shelf.search_entry(id, b"Apple"), Some(b"A".to_vec()));
    // "APPLE" was not inserted: the first spelling of the smoothed run,
    // which raw byte order puts at "Apple"
    assert_eq!(shelf.search_entry(id, b"APPLE"), Some(b"A".to_vec()));
    assert_eq!(shelf.search_entry(id, b"Banana"), Some(b"B".to_vec()));
    assert_eq!(shelf.search_entry(id, b"pear"), None);
    assert_eq!(shelf.search_entry(id, b""), None);
}

#[test]
fn prefix_search_over_many_leaves() {
    // 10,000 keys with a 4 KiB leaf limit: the scan crosses leaf boundaries
    let mut tree = Tree::new(4096, 4096);
    for i in 0..10000u32 {
        let key = format!("key_{:05}", i);
        let val = format!("v{}", i);
        tree.insert(
            beluga::keys::EntryKey(key.into_bytes()),
            beluga::keys::EntryValue(val.into_bytes()),
        );
    }
    let meta = beluga::beluga::metadata_to_json(&Metadata::new());
    let base = 6 + meta.len() as u64;
    let (buf, eoff, esize) = tree.write_to(base).expect("image fits");
    let mut img = u16_to_u8v(1);
    img.extend_from_slice(&u32_to_u8v(meta.len() as u32));
    img.extend_from_slice(&meta);
    img.extend_from_slice(&buf);
    img.extend_from_slice(&u64_to_u8v(eoff));
    img.extend_from_slice(&u32_to_u8v(esize));
    img.extend_from_slice(&u64_to_u8v(0));
    img.extend_from_slice(&u32_to_u8v(0));
    let (mut shelf, id) = shelf_with(img);
    let hits = shelf.search(id, b"key_001", false, 5, 0);
    let want: Vec<Vec<u8>> = vec![
        b"key_00100".to_vec(),
        b"key_00101".to_vec(),
        b"key_00102".to_vec(),
        b"key_00103".to_vec(),
        b"key_00104".to_vec(),
    ];
    assert_eq!(hits, want);
    // completeness at a larger limit: exactly the 100 matching keys
    let all = shelf.search(id, b"key_001", false, 1000, 0);
    assert_eq!(all.len(), 100);
    assert_eq!(all[0], b"key_00100".to_vec());
    assert_eq!(all[99], b"key_00199".to_vec());
    assert_eq!(shelf.search_entry(id, b"key_09999"), Some(b"v9999".to_vec()));
    // walking the next-leaf chain from the first leaf visits every key,
    // in ascending smoothed order
    let every = shelf.search(id, b"key_", false, 20000, 0);
    assert_eq!(every.len(), 10000);
    for w in every.windows(2) {
        assert!(w[0] < w[1]);
    }
}

#[test]
fn strict_search_filters_raw_prefix() {
    let img = build_entries(&[("Go", "1"), ("go", "2"), ("goat", "3"), ("gopher", "4")], &[]);
    let (mut shelf, id) = shelf_with(img);
    let loose = shelf.search(id, b"go", false, 10, 0);
    assert_eq!(
        loose,
        vec![b"Go".to_vec(), b"go".to_vec(), b"goat".to_vec(), b"gopher".to_vec()]
    );
    let strict = shelf.search(id, b"go", true, 10, 0);
    assert_eq!(strict, vec![b"go".to_vec(), b"goat".to_vec(), b"gopher".to_vec()]);
}

#[test]
fn single_redirect_resolves() {
    let img = build_entries(&[("go", "v1"), ("goto", "@@@LINK=go")], &[]);
    let (mut shelf, id) = shelf_with(img);
    assert_eq!(shelf.search_entry(id, b"goto"), Some(b"v1".to_vec()));
}

#[test]
fn four_hop_redirect_chain_gives_up() {
    let img = build_entries(
        &[("a", "@@@LINK=b"), ("b", "@@@LINK=c"), ("c", "@@@LINK=d"), ("d", "v")],
        &[],
    );
    let (mut shelf, id) = shelf_with(img);
    assert_eq!(shelf.search_entry(id, b"a"), None);
    assert_eq!(shelf.search_entry(id, b"b"), Some(b"v".to_vec()));
}

#[test]
fn token_expansion_appends_alternates() {
    let img = build_entries(&[], &[("run", &["ran", "running", "run away"])]);
    let (mut shelf, id) = shelf_with(img);
    let hits = shelf.search(id, b"run", false, 0, 10);
    assert_eq!(
        hits,
        vec![b"ran".to_vec(), b"running".to_vec(), b"run away".to_vec()]
    );
    // already-present entries are not appended twice
    let img2 = build_entries(&[("run", "x")], &[("run", &["run", "ran"])]);
    let (mut shelf2, id2) = shelf_with(img2);
    let hits2 = shelf2.search(id2, b"run", false, 5, 10);
    assert_eq!(hits2, vec![b"run".to_vec(), b"ran".to_vec()]);
}

#[test]
fn save_reload_save_is_identical() {
    let mut b = Beluga::new(Metadata::new(), BelFileType::Entry);
    for i in 0..500u32 {
        b.input_entry(
            format!("word{:04}", i).into_bytes(),
            format!("definition of {}", i).into_bytes(),
        );
    }
    b.input_token(b"w".to_vec(), vec![b"word0001".to_vec(), b"word0002".to_vec()]);
    let img1 = b.file_image().expect("image fits");
    let b2 = Beluga::from_bytes(&img1, BelFileType::Entry).expect("reloads");
    let img2 = b2.file_image().expect("image fits");
    assert_eq!(img1, img2);
    // the reloaded tree carries the same records in the same order
    let t1 = b.traverse_entry();
    let t2 = b2.traverse_entry();
    assert_eq!(t1.len(), t2.len());
    for (x, y) in t1.iter().zip(t2.iter()) {
        assert_eq!(x.key.0, y.key.0);
        assert_eq!(
            x.value.as_ref().map(|v| v.0.clone()),
            y.value.as_ref().map(|v| v.0.clone())
        );
    }
}

#[test]
fn round_trip_keeps_pairs_in_smoothed_order() {
    let pairs = [("Zoo", "1"), ("apple", "2"), ("Apple", "3"), ("miD", "4"), ("mid", "5")];
    let mut b = Beluga::new(Metadata::new(), BelFileType::Entry);
    for (k, v) in pairs {
        b.input_entry(k.as_bytes().to_vec(), v.as_bytes().to_vec());
    }
    let img = b.file_image().expect("image fits");
    let b2 = Beluga::from_bytes(&img, BelFileType::Entry).expect("reloads");
    let recs = b2.traverse_entry();
    assert_eq!(recs.len(), pairs.len());
    // same multiset of pairs
    let mut seen: Vec<(Vec<u8>, Vec<u8>)> =
        recs.iter().map(|r| (r.key.0.clone(), r.value.as_ref().unwrap().0.clone())).collect();
    let mut want: Vec<(Vec<u8>, Vec<u8>)> = pairs
        .iter()
        .map(|(k, v)| (k.as_bytes().to_vec(), v.as_bytes().to_vec()))
        .collect();
    seen.sort();
    want.sort();
    assert_eq!(seen, want);
    // ascending by smoothed key
    for w in recs.windows(2) {
        let a = beluga::keys::smooth_bytes(&w[0].key.0);
        let bkey = beluga::keys::smooth_bytes(&w[1].key.0);
        assert!(a <= bkey);
    }
}

#[test]
fn metadata_survives_the_file() {
    let mut m = Metadata::new();
    m.version = "2.1".to_string();
    m.author = "ada".to_string();
    m.email = "ada@example.com".to_string();
    m.create_time = "2024-01-01".to_string();
    m.comment = "test \"quoted\" comment".to_string();
    let mut b = Beluga::new(m, BelFileType::Entry);
    b.input_entry(b"k".to_vec(), b"v".to_vec());
    let img = b.file_image().expect("image fits");
    let b2 = Beluga::from_bytes(&img, BelFileType::Entry).expect("reloads");
    assert_eq!(b2.metadata.version, "2.1");
    assert_eq!(b2.metadata.entry_num, 1);
    assert_eq!(b2.metadata.author, "ada");
    assert_eq!(b2.metadata.comment, "test \"quoted\" comment");
}

#[test]
fn open_rejects_bad_files() {
    assert_eq!(
        DictFile::open(vec![0u8; 8], 0).err(),
        Some(Error::BadFileMagic)
    );
    // right magic, garbage metadata
    let mut img = u16_to_u8v(1);
    img.extend_from_slice(&u32_to_u8v(4));
    img.extend_from_slice(b"????");
    img.extend_from_slice(&[0u8; 24]);
    assert_eq!(DictFile::open(img, 0).err(), Some(Error::BadMetadata));
}

#[test]
fn resources_answer_first_hit() {
    let mut shelf = Bookshelf::new(1 << 20);
    let entry_img = build_entries(&[("w", "def")], &[]);
    let cid = shelf.next_cache_id();
    let entry = DictFile::open(entry_img, cid).expect("valid");

    let mut res = Beluga::new(Metadata::new(), BelFileType::Resource);
    res.input_entry(b"icon.png".to_vec(), vec![1, 2, 3]);
    let res_img = res.file_image().expect("image fits");
    let rcid = shelf.next_cache_id();
    let resource = DictFile::open(res_img, rcid).expect("valid");

    let dict = Dictionary::assemble(entry, vec![resource], Some(b"b{}".to_vec()), None);
    let (id, _) = shelf.add(dict);
    assert_eq!(shelf.search_resource(id, b"icon.png"), Some(vec![1, 2, 3]));
    assert_eq!(shelf.search_resource(id, b"missing"), None);
    let (css, js) = shelf.get_static_files(id).expect("registered");
    assert_eq!(css, Some(b"b{}".to_vec()));
    assert_eq!(js, None);
    // unknown handles answer empty or absent
    assert_eq!(shelf.search_entry(99, b"w"), None);
    assert!(shelf.search(99, b"w", false, 5, 0).is_empty());
    shelf.remove(id);
    assert_eq!(shelf.search_entry(id, b"w"), None);
}

#[test]
fn bookshelf_cache_resize_keeps_serving() {
    let img = build_entries(&[("alpha", "1"), ("beta", "2")], &[]);
    let (mut shelf, id) = shelf_with(img);
    assert_eq!(shelf.search_entry(id, b"alpha"), Some(b"1".to_vec()));
    shelf.resize_cache(0);
    // nothing can stay resident, yet queries still answer from the file
    assert_eq!(shelf.search_entry(id, b"beta"), Some(b"2".to_vec()));
}

#[test]
fn empty_tree_saves_and_reopens() {
    let img = build_entries(&[], &[]);
    let (mut shelf, id) = shelf_with(img);
    assert_eq!(shelf.search_entry(id, b"x"), None);
    assert!(shelf.search(id, b"x", false, 5, 5).is_empty());
}

#[test]
fn zero_prefix_limit_returns_nothing() {
    let img = build_entries(&[("alpha", "1"), ("alphabet", "2")], &[]);
    let (mut shelf, id) = shelf_with(img);
    assert!(shelf.search(id, b"alpha", false, 0, 0).is_empty());
    assert_eq!(
        shelf.search(id, b"alpha", false, 1, 0),
        vec![b"alpha".to_vec()]
    );
}
