//! The dictionary builder: typed entry and token trees, metadata, and the
//! composite file image.
//!
//! File layout: `u16` spec magic (1), `u32` metadata length, metadata JSON,
//! the concatenated compressed nodes of the entry tree then the token tree,
//! and a 24-byte footer naming both roots.

use crate::codec::{be_bytes, be_val, u16_to_u8v, u32_to_u8v, u64_to_u8v, Scanner};
use crate::error::Error;
use crate::keys::{EntryKey, EntryValue};
use crate::node::{RecV, Record};
use crate::tree::{spec_parse_tree, Tree};
use vstd::prelude::*;

verus! {

/// The spec magic at offset 0 of every dictionary file.
pub const SPEC: u16 = 1;

/// The default node size limit, 64 KiB.
pub const NODE_SIZE_LIMIT: u64 = 65536;

/// What a dictionary file holds: headword entries or binary resources.
#[derive(Clone, Copy, PartialEq, Eq, Structural, Debug)]
pub enum BelFileType {
    Entry,
    Resource,
}

/// Index of the byte after the last `.` of `s`, or 0 when `s` has no dot:
/// where the filename extension starts.
pub open spec fn ext_start(s: Seq<u8>) -> int
    decreases s.len(),
{
    if s.len() == 0 {
        0
    } else if s.last() == 46 {
        s.len() as int
    } else {
        ext_start(s.drop_last())
    }
}

/// Find where the extension starts: just after the last dot.
fn find_ext_start(file: &[u8]) -> (r: usize)
    ensures
        r == ext_start(file@),
        r <= file@.len(),
{
    let n = file.len();
    let mut i: usize = n;
    proof {
        assert(file@.take(n as int) =~= file@);
    }
    while i > 0
        invariant
            i <= n,
            n == file@.len(),
            ext_start(file@) == ext_start(file@.take(i as int)),
        decreases i,
    {
        if file[i - 1] == 46 {
            proof {
                assert(file@.take(i as int).last() == 46);
                assert(ext_start(file@.take(i as int)) == i);
            }
            return i;
        }
        proof {
            assert(file@.take(i as int).last() != 46);
            assert(file@.take(i as int).drop_last() =~= file@.take(i - 1));
        }
        i = i - 1;
    }
    proof {
        assert(file@.take(0int) =~= Seq::<u8>::empty());
    }
    0
}

/// Classify a file name by its extension: `bel` is an entry file, `beld` a
/// resource file, anything else is rejected.
pub fn parse_file_type(file: &[u8]) -> (r: Result<BelFileType, Error>)
    ensures
        r == Ok::<BelFileType, Error>(BelFileType::Entry) <==> file@.skip(ext_start(file@))
            =~= seq![98u8, 101u8, 108u8],
        r == Ok::<BelFileType, Error>(BelFileType::Resource) <==> file@.skip(ext_start(file@))
            =~= seq![98u8, 101u8, 108u8, 100u8],
        r is Err ==> r == Err::<BelFileType, Error>(Error::BadExtension),
{
    let n = file.len();
    let i = find_ext_start(file);
    let ext = vstd::slice::slice_subrange(file, i, n);
    if ext.len() == 3 && ext[0] == 98 && ext[1] == 101 && ext[2] == 108 {
        proof {
            assert(file@.skip(i as int) =~= seq![98u8, 101u8, 108u8]);
        }
        Ok(BelFileType::Entry)
    } else if ext.len() == 4 && ext[0] == 98 && ext[1] == 101 && ext[2] == 108 && ext[3] == 100 {
        proof {
            assert(file@.skip(i as int) =~= seq![98u8, 101u8, 108u8, 100u8]);
        }
        Ok(BelFileType::Resource)
    } else {
        proof {
            assert(file@.skip(i as int) == ext@);
            if file@.skip(ext_start(file@)) =~= seq![98u8, 101u8, 108u8] {
                assert(ext@ =~= seq![98u8, 101u8, 108u8]);
            }
            if file@.skip(ext_start(file@)) =~= seq![98u8, 101u8, 108u8, 100u8] {
                assert(ext@ =~= seq![98u8, 101u8, 108u8, 100u8]);
            }
        }
        Err(Error::BadExtension)
    }
}

/// Descriptive metadata stored as JSON right after the magic.
#[derive(Debug)]
pub struct Metadata {
    pub version: String,
    pub entry_num: u64,
    pub author: String,
    pub email: String,
    pub create_time: String,
    pub comment: String,
}

impl Metadata {
    pub fn new() -> (r: Self)
        ensures
            r.entry_num == 0,
    {
        Self {
            version: String::new(),
            entry_num: 0,
            author: String::new(),
            email: String::new(),
            create_time: String::new(),
            comment: String::new(),
        }
    }
}

impl Clone for Metadata {
    fn clone(&self) -> (r: Self)
        ensures
            r.version@ == self.version@,
            r.entry_num == self.entry_num,
            r.author@ == self.author@,
            r.email@ == self.email@,
            r.create_time@ == self.create_time@,
            r.comment@ == self.comment@,
    {
        Self {
            version: clone_string(&self.version),
            entry_num: self.entry_num,
            author: clone_string(&self.author),
            email: clone_string(&self.email),
            create_time: clone_string(&self.create_time),
            comment: clone_string(&self.comment),
        }
    }
}

/// Relies on `String::clone`: the copy holds the same characters.
#[verifier::external_body]
fn clone_string(s: &String) -> (r: String)
    ensures
        r@ == s@,
{
    s.clone()
}

/// The JSON serialization of the six metadata fields.  The result depends on
/// the fields alone.
pub uninterp spec fn metadata_json_of(
    version: Seq<char>,
    entry_num: u64,
    author: Seq<char>,
    email: Seq<char>,
    create_time: Seq<char>,
    comment: Seq<char>,
) -> Seq<u8>;

/// Relies on serde_json's `to_vec`: serializing a six-field object is a
/// function of the field values.
#[verifier::external_body]
pub fn metadata_to_json(m: &Metadata) -> (r: Vec<u8>)
    ensures
        r@ == metadata_json_of(
            m.version@,
            m.entry_num,
            m.author@,
            m.email@,
            m.create_time@,
            m.comment@,
        ),
{
    let mut map = serde_json::Map::new();
    map.insert("version".to_string(), serde_json::Value::from(m.version.clone()));
    map.insert("entry_num".to_string(), serde_json::Value::from(m.entry_num));
    map.insert("author".to_string(), serde_json::Value::from(m.author.clone()));
    map.insert("email".to_string(), serde_json::Value::from(m.email.clone()));
    map.insert("create_time".to_string(), serde_json::Value::from(m.create_time.clone()));
    map.insert("comment".to_string(), serde_json::Value::from(m.comment.clone()));
    serde_json::to_vec(&serde_json::Value::Object(map)).expect("metadata: serialize")
}

/// What parsing a metadata section yields: the six fields, or nothing when
/// the bytes hold no readable metadata object.  Parsing is a function of
/// the bytes alone.
pub uninterp spec fn metadata_of(data: Seq<u8>) -> Option<
    (Seq<char>, u64, Seq<char>, Seq<char>, Seq<char>, Seq<char>),
>;

/// Relies on serde_json's `from_slice`: what a byte string parses to is a
/// function of the bytes alone, named `metadata_of`; parsing inverts
/// `to_vec` on the metadata object; anything unparsable yields `None`.
#[verifier::external_body]
pub fn metadata_from_json(data: &[u8]) -> (r: Option<Metadata>)
    ensures
        r is Some <==> metadata_of(data@) is Some,
        r matches Some(m) ==> metadata_of(data@) == Some(
            (m.version@, m.entry_num, m.author@, m.email@, m.create_time@, m.comment@),
        ),
        match r {
            Some(m) => forall|v: Seq<char>, n: u64, a: Seq<char>, e: Seq<char>, c: Seq<char>, t: Seq<char>|
                data@ == metadata_json_of(v, n, a, e, c, t) ==> m.version@ == v && m.entry_num == n
                    && m.author@ == a && m.email@ == e && m.create_time@ == c && m.comment@ == t,
            None => forall|v: Seq<char>, n: u64, a: Seq<char>, e: Seq<char>, c: Seq<char>, t: Seq<char>|
                data@ != metadata_json_of(v, n, a, e, c, t),
        },
{
    let val: serde_json::Value = serde_json::from_slice(data).ok()?;
    Some(Metadata {
        version: val.get("version")?.as_str()?.to_string(),
        entry_num: val.get("entry_num")?.as_u64()?,
        author: val.get("author")?.as_str()?.to_string(),
        email: val.get("email")?.as_str()?.to_string(),
        create_time: val.get("create_time")?.as_str()?.to_string(),
        comment: val.get("comment")?.as_str()?.to_string(),
    })
}

/// The byte strings a vector of byte vectors stands for.
pub open spec fn vecs_view(v: Seq<Vec<u8>>) -> Seq<Seq<u8>> {
    v.map_values(|x: Vec<u8>| x@)
}

/// The packed token value: `u16 length | bytes`, repeated.
pub open spec fn token_pack(items: Seq<Seq<u8>>) -> Seq<u8>
    decreases items.len(),
{
    if items.len() == 0 {
        Seq::empty()
    } else {
        be_bytes(items.first().len(), 2).add(items.first().add(token_pack(items.drop_first())))
    }
}

/// Parse a packed token value back into its items, from `pos` on.
pub open spec fn spec_parse_tokens(data: Seq<u8>, pos: int) -> Option<Seq<Seq<u8>>>
    decreases data.len() - pos,
{
    if pos == data.len() {
        Some(Seq::empty())
    } else if pos + 2 <= data.len() {
        let n = be_val(data.subrange(pos, pos + 2)) as int;
        if pos + 2 + n <= data.len() {
            match spec_parse_tokens(data, pos + 2 + n) {
                None => None,
                Some(rest) => Some(seq![data.subrange(pos + 2, pos + 2 + n)].add(rest)),
            }
        } else {
            None
        }
    } else {
        None
    }
}

/// Unpacking inverts packing, for items whose length fits the `u16` field.
pub proof fn lemma_token_round_trip(items: Seq<Seq<u8>>)
    requires
        forall|i: int| 0 <= i < items.len() ==> (#[trigger] items[i]).len() <= u16::MAX,
    ensures
        spec_parse_tokens(token_pack(items), 0) == Some(items),
{
    assert(token_pack(items).subrange(0, token_pack(items).len() as int) =~= token_pack(items));
    lemma_token_round_trip_at(token_pack(items), 0, items);
}

proof fn lemma_token_round_trip_at(data: Seq<u8>, pos: int, items: Seq<Seq<u8>>)
    requires
        forall|i: int| 0 <= i < items.len() ==> (#[trigger] items[i]).len() <= u16::MAX,
        0 <= pos <= data.len(),
        data.subrange(pos, data.len() as int) == token_pack(items),
    ensures
        spec_parse_tokens(data, pos) == Some(items),
    decreases items.len(),
{
    crate::codec::lemma_pow256_vals();
    if items.len() == 0 {
        assert(data.len() - pos == token_pack(items).len());
        assert(items =~= Seq::<Seq<u8>>::empty());
    } else {
        let it = items.first();
        crate::codec::lemma_be_bytes_len(it.len(), 2);
        let rest_pack = token_pack(items.drop_first());
        assert(data.len() - pos == 2 + it.len() + rest_pack.len()) by {
            assert(data.subrange(pos, data.len() as int).len() == token_pack(items).len());
        }
        assert(data.subrange(pos, pos + 2) =~= be_bytes(it.len(), 2)) by {
            assert forall|k: int| 0 <= k < 2 implies data.subrange(pos, pos + 2)[k] == be_bytes(
                it.len(),
                2,
            )[k] by {
                assert(data.subrange(pos, data.len() as int)[k] == token_pack(items)[k]);
            }
        }
        crate::codec::lemma_be_round_trip(it.len(), 2);
        assert(data.subrange(pos + 2, pos + 2 + it.len()) =~= it) by {
            assert forall|k: int| 0 <= k < it.len() implies data.subrange(
                pos + 2,
                pos + 2 + it.len(),
            )[k] == it[k] by {
                assert(data.subrange(pos, data.len() as int)[2 + k] == token_pack(items)[2 + k]);
            }
        }
        assert(data.subrange(pos + 2 + it.len(), data.len() as int) =~= rest_pack) by {
            assert forall|k: int| 0 <= k < rest_pack.len() implies data.subrange(
                pos + 2 + it.len(),
                data.len() as int,
            )[k] == rest_pack[k] by {
                assert(data.subrange(pos, data.len() as int)[2 + it.len() + k] == token_pack(
                    items,
                )[2 + it.len() + k]);
            }
        }
        assert forall|i: int| 0 <= i < items.drop_first().len() implies (#[trigger] items.drop_first()[i]).len()
            <= u16::MAX by {
            assert(items.drop_first()[i] == items[i + 1]);
        }
        lemma_token_round_trip_at(data, pos + 2 + it.len(), items.drop_first());
        assert(seq![it].add(items.drop_first()) =~= items);
    }
}

/// A dictionary under construction, or one reloaded whole from a file.
pub struct Beluga {
    pub metadata: Metadata,
    pub file_type: BelFileType,
    entry_tree: Tree,
    token_tree: Tree,
}

impl Beluga {
    /// The entry records, in leaf order.
    pub closed spec fn entries_spec(&self) -> Seq<RecV> {
        self.entry_tree.records_spec()
    }

    /// The token records, in leaf order.
    pub closed spec fn tokens_spec(&self) -> Seq<RecV> {
        self.token_tree.records_spec()
    }

    /// The stored metadata.
    pub closed spec fn metadata_spec(&self) -> Metadata {
        self.metadata
    }

    /// The file kind this dictionary was opened as.
    pub closed spec fn file_type_spec(&self) -> BelFileType {
        self.file_type
    }

    pub closed spec fn entry_root_view(&self) -> crate::node::NodeV {
        self.entry_tree.root_view()
    }

    pub closed spec fn token_root_view(&self) -> crate::node::NodeV {
        self.token_tree.root_view()
    }

    /// Both trees well-formed: what building needs.
    pub closed spec fn wf(&self) -> bool {
        self.entry_tree.wf() && self.token_tree.wf()
    }

    /// Both trees structurally sound: what saving needs.
    pub closed spec fn shaped(&self) -> bool {
        self.entry_tree.shaped() && self.token_tree.shaped()
    }

    /// The contents are the root views' records: what a tree the footer
    /// names parses back to holds exactly `entries_spec` / `tokens_spec`.
    /// With `input_entry`'s multiset clause, `file_image`'s parse inversion
    /// and `from_bytes`' root recovery, this states the save-and-reload
    /// content round trip outside the module.
    pub proof fn lemma_contents_of_roots(&self)
        ensures
            self.entries_spec() == crate::tree::node_recs(self.entry_root_view()),
            self.tokens_spec() == crate::tree::node_recs(self.token_root_view()),
    {
    }

    /// A built dictionary's contents are sorted by smoothed key, in both
    /// trees: together with `input_entry`'s multiset clause and the
    /// image/parse inversion of `file_image`, a saved and reloaded
    /// dictionary replays exactly the inserted pairs, in ascending smoothed
    /// order.
    pub proof fn lemma_contents_sorted(&self)
        requires
            self.wf(),
        ensures
            crate::tree::recs_sorted(self.entries_spec()),
            crate::tree::recs_sorted(self.tokens_spec()),
    {
        self.entry_tree.lemma_records_sorted();
        self.token_tree.lemma_records_sorted();
    }

    /// Every leaf of both built trees keeps its smoothed ties in ascending
    /// raw order: within each leaf, the first spelling of a smoothed run is
    /// its byte-least variant, which is the spelling a case-variant lookup
    /// falls back to.
    pub proof fn lemma_contents_ties_sorted(&self)
        requires
            self.wf(),
        ensures
            crate::tree::leaf_ties_sorted(self.entry_root_view()),
            crate::tree::leaf_ties_sorted(self.token_root_view()),
    {
        self.entry_tree.lemma_leaf_ties();
        self.token_tree.lemma_leaf_ties();
    }

    pub proof fn lemma_wf_is_shaped(&self)
        requires
            self.wf(),
        ensures
            self.shaped(),
    {
        self.entry_tree.lemma_wf_is_shaped();
        self.token_tree.lemma_wf_is_shaped();
    }

    pub fn new(metadata: Metadata, file_type: BelFileType) -> (r: Self)
        ensures
            r.wf(),
            r.entries_spec() =~= Seq::<RecV>::empty(),
            r.tokens_spec() =~= Seq::<RecV>::empty(),
            r.metadata_spec() == metadata,
    {
        Self {
            metadata,
            file_type,
            entry_tree: Tree::new(NODE_SIZE_LIMIT, NODE_SIZE_LIMIT),
            token_tree: Tree::new(NODE_SIZE_LIMIT, NODE_SIZE_LIMIT),
        }
    }

    /// Add one entry.  The entry count saturates rather than wrap.
    pub fn input_entry(&mut self, name: Vec<u8>, value: Vec<u8>)
        requires
            old(self).wf(),
        ensures
            final(self).wf(),
            final(self).entries_spec().to_multiset() == old(self).entries_spec().to_multiset().insert(
                RecV { key: name@, value: Some(value@) },
            ),
            final(self).tokens_spec() == old(self).tokens_spec(),
            final(self).metadata_spec().entry_num as int == if old(
                self,
            ).metadata_spec().entry_num < u64::MAX {
                old(self).metadata_spec().entry_num + 1
            } else {
                old(self).metadata_spec().entry_num as int
            },
            final(self).metadata_spec().version == old(self).metadata_spec().version,
            final(self).metadata_spec().author == old(self).metadata_spec().author,
            final(self).metadata_spec().email == old(self).metadata_spec().email,
            final(self).metadata_spec().create_time == old(self).metadata_spec().create_time,
            final(self).metadata_spec().comment == old(self).metadata_spec().comment,
            final(self).file_type_spec() == old(self).file_type_spec(),
    {
        if self.metadata.entry_num < u64::MAX {
            self.metadata.entry_num = self.metadata.entry_num + 1;
        }
        self.entry_tree.insert(EntryKey(name), EntryValue(value));
    }

    /// Add one token record: an alternate form with the primary keys it
    /// expands to, packed as repeated `u16 length | bytes`.
    pub fn input_token(&mut self, name: Vec<u8>, value: Vec<Vec<u8>>)
        requires
            old(self).wf(),
            forall|i: int| 0 <= i < value@.len() ==> (#[trigger] value@[i])@.len() <= u16::MAX,
        ensures
            final(self).wf(),
            final(self).tokens_spec().to_multiset() == old(self).tokens_spec().to_multiset().insert(
                RecV { key: name@, value: Some(token_pack(vecs_view(value@))) },
            ),
            final(self).entries_spec() == old(self).entries_spec(),
            final(self).metadata_spec() == old(self).metadata_spec(),
            final(self).file_type_spec() == old(self).file_type_spec(),
    {
        let mut data: Vec<u8> = Vec::new();
        let n = value.len();
        let mut i: usize = 0;
        proof {
            assert(vecs_view(value@).take(0) =~= Seq::<Seq<u8>>::empty());
            assert(data@ =~= token_pack_prefix(vecs_view(value@), 0));
        }
        while i < n
            invariant
                i <= n,
                n == value@.len(),
                forall|k: int| 0 <= k < value@.len() ==> (#[trigger] value@[k])@.len() <= u16::MAX,
                data@ == token_pack_prefix(vecs_view(value@), i as int),
            decreases n - i,
        {
            let ghost pre = data@;
            let item = &value[i];
            let mut size = u16_to_u8v(item.len() as u16);
            data.append(&mut size);
            let mut bytes = crate::keys::EntryKey::from_bytes(item.as_slice()).0;
            data.append(&mut bytes);
            i = i + 1;
            proof {
                lemma_token_pack_prefix_step(vecs_view(value@), i - 1);
                assert(data@ =~= pre.add(
                    be_bytes(vecs_view(value@)[i - 1].len(), 2).add(vecs_view(value@)[i - 1]),
                ));
            }
        }
        proof {
            lemma_token_pack_prefix_all(vecs_view(value@));
        }
        self.token_tree.insert(EntryKey(name), EntryValue(data));
    }

    /// Unpack a token value into its entries.  `None` when the value is
    /// truncated.
    pub fn parse_token_entries(data: &[u8]) -> (r: Option<Vec<Vec<u8>>>)
        ensures
            match spec_parse_tokens(data@, 0) {
                None => r is None,
                Some(items) => r matches Some(v) && vecs_view(v@) == items,
            },
    {
        let mut result: Vec<Vec<u8>> = Vec::new();
        let mut scanner = Scanner::new(data);
        proof {
            assert(vecs_view(result@) =~= Seq::<Seq<u8>>::empty());
        }
        loop
            invariant
                scanner.wf(),
                scanner.buf_spec() == data@,
                spec_parse_tokens(data@, 0) == match spec_parse_tokens(
                    data@,
                    scanner.pos_spec() as int,
                ) {
                    None => None::<Seq<Seq<u8>>>,
                    Some(rest) => Some(vecs_view(result@).add(rest)),
                },
            decreases data@.len() - scanner.pos_spec(),
        {
            let ghost pos0 = scanner.pos_spec() as int;
            let ghost parsed = vecs_view(result@);
            proof {
                assert(parsed.len() == result@.len());
            }
            if scanner.is_end() {
                proof {
                    assert(spec_parse_tokens(data@, pos0) == Some(Seq::<Seq<u8>>::empty()));
                    assert(parsed.add(Seq::<Seq<u8>>::empty()) =~= parsed);
                }
                return Some(result);
            }
            if scanner.remaining() < 2 {
                return None;
            }
            let size = scanner.read_u16();
            proof {
                crate::codec::lemma_be_val_bound(data@.subrange(pos0, pos0 + 2));
                crate::codec::lemma_pow256_vals();
            }
            if scanner.remaining() < size as usize {
                return None;
            }
            let item = scanner.read(size as usize);
            let ghost iv = item@;
            let ghost prevec = result@;
            result.push(item);
            proof {
                assert forall|k: int| 0 <= k < result@.len() implies vecs_view(result@)[k]
                    == parsed.push(iv)[k] by {
                    if k < prevec.len() {
                        assert(result@[k] == prevec[k]);
                        assert(vecs_view(prevec)[k] == prevec[k]@);
                    }
                }
                assert(vecs_view(result@) =~= parsed.push(iv));
                assert forall|rest: Seq<Seq<u8>>|
                    parsed.add(seq![iv].add(rest)) =~= parsed.push(iv).add(rest) by {}
            }
        }
    }
}

/// The packed bytes of the first `i` items.
pub open spec fn token_pack_prefix(items: Seq<Seq<u8>>, i: int) -> Seq<u8> {
    token_pack(items.take(i))
}

proof fn lemma_token_pack_prefix_step(items: Seq<Seq<u8>>, i: int)
    requires
        0 <= i < items.len(),
    ensures
        token_pack_prefix(items, i + 1) == token_pack_prefix(items, i).add(
            be_bytes(items[i].len(), 2).add(items[i]),
        ),
{
    lemma_token_pack_snoc(items.take(i + 1));
    assert(items.take(i + 1).drop_last() =~= items.take(i));
    assert(items.take(i + 1).last() == items[i]);
}

/// Packing appends per item.
proof fn lemma_token_pack_snoc(items: Seq<Seq<u8>>)
    requires
        items.len() >= 1,
    ensures
        token_pack(items) == token_pack(items.drop_last()).add(
            be_bytes(items.last().len(), 2).add(items.last()),
        ),
    decreases items.len(),
{
    if items.len() == 1 {
        assert(items.drop_last() =~= Seq::<Seq<u8>>::empty());
        assert(items.first() == items.last());
        assert(items.drop_first() =~= Seq::<Seq<u8>>::empty());
        assert(token_pack(items) =~= token_pack(items.drop_last()).add(
            be_bytes(items.last().len(), 2).add(items.last()),
        ));
    } else {
        lemma_token_pack_snoc(items.drop_first());
        assert(items.drop_first().drop_last() =~= items.drop_last().drop_first());
        assert(items.drop_first().last() == items.last());
        assert(items.drop_last().first() == items.first());
        assert(token_pack(items) =~= token_pack(items.drop_last()).add(
            be_bytes(items.last().len(), 2).add(items.last()),
        ));
    }
}

proof fn lemma_token_pack_prefix_all(items: Seq<Seq<u8>>)
    ensures
        token_pack_prefix(items, items.len() as int) == token_pack(items),
{
    assert(items.take(items.len() as int) =~= items);
}

/// The entry root `(offset, size)` named by the 24-byte footer.
pub open spec fn footer_entry_root(data: Seq<u8>) -> (nat, nat) {
    (
        be_val(data.subrange(data.len() - 24, data.len() - 16)),
        be_val(data.subrange(data.len() - 16, data.len() - 12)),
    )
}

/// The token root `(offset, size)` named by the footer; a zero size means
/// the file has no token tree.
pub open spec fn footer_token_root(data: Seq<u8>) -> (nat, nat) {
    (
        be_val(data.subrange(data.len() - 12, data.len() - 4)),
        be_val(data.subrange(data.len() - 4, data.len() as int)),
    )
}

/// Whether the tree a footer root names parses sound: a zero size is the
/// empty tree, anything else must parse as a node tree in good order.
pub open spec fn tree_parses(data: Seq<u8>, root: (nat, nat)) -> bool {
    root.1 == 0 || (spec_parse_tree(data, root.0 as int, root.1 as int) matches Some(nv)
        && crate::tree::node_ok(nv))
}

impl Beluga {
    /// Assemble the complete file image: magic, metadata, both trees in
    /// post-order, footer.  `None` only when a length or offset field would
    /// not fit.
    #[verifier::rlimit(100)]
    pub fn file_image(&self) -> (r: Option<Vec<u8>>)
        requires
            self.shaped(),
        ensures
            match r {
                Some(img) => {
                    &&& img@.len() >= 30
                    &&& be_val(img@.subrange(0, 2)) == SPEC
                    &&& img@.subrange(6, 6 + be_val(img@.subrange(2, 6)) as int)
                        == metadata_json_of(
                        self.metadata_spec().version@,
                        self.metadata_spec().entry_num,
                        self.metadata_spec().author@,
                        self.metadata_spec().email@,
                        self.metadata_spec().create_time@,
                        self.metadata_spec().comment@,
                    )
                    &&& (footer_entry_root(img@).1 == 0 ==> self.entries_spec().len() == 0)
                    &&& (footer_entry_root(img@).1 != 0 ==> spec_parse_tree(
                        img@,
                        footer_entry_root(img@).0 as int,
                        footer_entry_root(img@).1 as int,
                    ) == Some(self.entry_root_view()))
                    &&& (footer_token_root(img@).1 == 0 ==> self.tokens_spec().len() == 0)
                    &&& (footer_token_root(img@).1 != 0 ==> spec_parse_tree(
                        img@,
                        footer_token_root(img@).0 as int,
                        footer_token_root(img@).1 as int,
                    ) == Some(self.token_root_view()))
                    &&& (self.entries_spec().len() == 0 ==> footer_entry_root(img@).1 == 0)
                    &&& (self.tokens_spec().len() == 0 ==> footer_token_root(img@).1 == 0)
                },
                None => true,
            },
            (self.entries_spec().len() == 0 && self.tokens_spec().len() == 0 && metadata_json_of(
                self.metadata_spec().version@,
                self.metadata_spec().entry_num,
                self.metadata_spec().author@,
                self.metadata_spec().email@,
                self.metadata_spec().create_time@,
                self.metadata_spec().comment@,
            ).len() <= u32::MAX) ==> r is Some,
            r is Some <==> ({
                let mjl = metadata_json_of(
                    self.metadata_spec().version@,
                    self.metadata_spec().entry_num,
                    self.metadata_spec().author@,
                    self.metadata_spec().email@,
                    self.metadata_spec().create_time@,
                    self.metadata_spec().comment@,
                ).len() as int;
                &&& mjl <= u32::MAX
                &&& (crate::tree::spec_tree_layout(self.entry_root_view(), 6 + mjl) matches Some(
                    el,
                ) && el.0 <= u64::MAX - (6 + mjl) && (crate::tree::spec_tree_layout(
                    self.token_root_view(),
                    6 + mjl + el.0,
                ) matches Some(tl) && tl.0 <= u64::MAX - (6 + mjl + el.0)))
            }),
    {
        let mut img = u16_to_u8v(SPEC);
        let mut mj = metadata_to_json(&self.metadata);
        let ghost mjv = mj@;
        if mj.len() as u64 > u32::MAX as u64 {
            return None;
        }
        let mut mlen = u32_to_u8v(mj.len() as u32);
        img.append(&mut mlen);
        img.append(&mut mj);
        proof {
            crate::codec::lemma_be_bytes_len(SPEC as nat, 2);
            crate::codec::lemma_be_bytes_len(mjv.len(), 4);
            assert(img@ =~= be_bytes(SPEC as nat, 2).add(be_bytes(mjv.len(), 4).add(mjv)));
        }
        let ghost header = img@;
        if img.len() as u64 > u64::MAX - 24 {
            return None;
        }
        let ebase = img.len() as u64;
        let (mut ebuf, eoff, esize) = match self.entry_tree.write_to(ebase) {
            None => {
                return None;
            },
            Some(t) => t,
        };
        let ghost ebufv = ebuf@;
        if (ebuf.len() as u64) > u64::MAX - ebase {
            return None;
        }
        img.append(&mut ebuf);
        let ghost img1 = img@;
        let tbase = img.len() as u64;
        let (mut tbuf, toff, tsize) = match self.token_tree.write_to(tbase) {
            None => {
                return None;
            },
            Some(t) => t,
        };
        let ghost tbufv = tbuf@;
        if (tbuf.len() as u64) > u64::MAX - tbase {
            return None;
        }
        img.append(&mut tbuf);
        let ghost img2 = img@;
        let mut f1 = u64_to_u8v(eoff);
        img.append(&mut f1);
        let mut f2 = u32_to_u8v(esize);
        img.append(&mut f2);
        let mut f3 = u64_to_u8v(toff);
        img.append(&mut f3);
        let mut f4 = u32_to_u8v(tsize);
        img.append(&mut f4);
        proof {
            crate::codec::lemma_be_bytes_len(eoff as nat, 8);
            crate::codec::lemma_be_bytes_len(esize as nat, 4);
            crate::codec::lemma_be_bytes_len(toff as nat, 8);
            crate::codec::lemma_be_bytes_len(tsize as nat, 4);
            crate::codec::lemma_pow256_vals();
            assert(img@ =~= img2.add(
                be_bytes(eoff as nat, 8).add(
                    be_bytes(esize as nat, 4).add(
                        be_bytes(toff as nat, 8).add(be_bytes(tsize as nat, 4)),
                    ),
                ),
            ));
            assert(img@.subrange(0, 2) =~= be_bytes(SPEC as nat, 2));
            crate::codec::lemma_be_round_trip(SPEC as nat, 2);
            assert(img@.subrange(2, 6) =~= be_bytes(mjv.len(), 4));
            crate::codec::lemma_be_round_trip(mjv.len(), 4);
            assert(img@.subrange(6, 6 + mjv.len() as int) =~= mjv);
            // footer fields
            let l = img@.len() as int;
            assert(img@.subrange(l - 24, l - 16) =~= be_bytes(eoff as nat, 8));
            assert(img@.subrange(l - 16, l - 12) =~= be_bytes(esize as nat, 4));
            assert(img@.subrange(l - 12, l - 4) =~= be_bytes(toff as nat, 8));
            assert(img@.subrange(l - 4, l) =~= be_bytes(tsize as nat, 4));
            crate::codec::lemma_be_round_trip(eoff as nat, 8);
            crate::codec::lemma_be_round_trip(esize as nat, 4);
            crate::codec::lemma_be_round_trip(toff as nat, 8);
            crate::codec::lemma_be_round_trip(tsize as nat, 4);
            // the tree images sit unchanged inside the file image
            if esize != 0 {
                assert(img@.subrange(ebase as int, ebase as int + ebufv.len()) =~= ebufv);
                assert(spec_parse_tree(img@, eoff as int, esize as int) == Some(
                    self.entry_tree.root_view(),
                ));
            }
            if tsize != 0 {
                assert(img@.subrange(tbase as int, tbase as int + tbufv.len()) =~= tbufv);
                assert(spec_parse_tree(img@, toff as int, tsize as int) == Some(
                    self.token_tree.root_view(),
                ));
            }
        }
        Some(img)
    }

    /// Reload a dictionary whole from a file image: metadata eagerly, both
    /// trees eagerly and recursively.  A bad-magic error comes exactly on a
    /// short image or a wrong magic; a bad-metadata error only when the
    /// metadata length overruns the image or its bytes are no
    /// serialization; an input-output error only when a tree named by the
    /// footer does not parse sound; an image sound in all of these loads.
    pub fn from_bytes(data: &[u8], file_type: BelFileType) -> (r: Result<Beluga, Error>)
        ensures
            match r {
                Ok(b) => {
                    &&& data@.len() >= 30
                    &&& be_val(data@.subrange(0, 2)) == SPEC
                    &&& b.shaped()
                    &&& b.file_type_spec() == file_type
                    &&& (footer_entry_root(data@).1 == 0 ==> b.entries_spec() == Seq::<
                        RecV,
                    >::empty())
                    &&& (footer_entry_root(data@).1 != 0 ==> spec_parse_tree(
                        data@,
                        footer_entry_root(data@).0 as int,
                        footer_entry_root(data@).1 as int,
                    ) == Some(b.entry_root_view()))
                    &&& (footer_token_root(data@).1 == 0 ==> b.tokens_spec() == Seq::<
                        RecV,
                    >::empty())
                    &&& (footer_token_root(data@).1 != 0 ==> spec_parse_tree(
                        data@,
                        footer_token_root(data@).0 as int,
                        footer_token_root(data@).1 as int,
                    ) == Some(b.token_root_view()))
                    &&& forall|
                        v: Seq<char>,
                        n: u64,
                        a: Seq<char>,
                        e: Seq<char>,
                        c: Seq<char>,
                        t: Seq<char>,
                    |
                        data@.subrange(6, 6 + be_val(data@.subrange(2, 6)) as int)
                            == metadata_json_of(v, n, a, e, c, t) ==> b.metadata_spec().version@
                            == v && b.metadata_spec().entry_num == n && b.metadata_spec().author@
                            == a && b.metadata_spec().email@ == e
                            && b.metadata_spec().create_time@ == c && b.metadata_spec().comment@
                            == t
                },
                Err(e) => e == Error::BadFileMagic || e == Error::BadMetadata || e == Error::Io,
            },
            (match r {
                Err(e) => e == Error::BadFileMagic,
                Ok(_) => false,
            }) <==> (data@.len() < 30 || be_val(data@.subrange(0, 2)) != SPEC),
            (match r {
                Err(e) => e == Error::BadMetadata,
                Ok(_) => false,
            }) ==> data@.len() >= 30 && be_val(data@.subrange(0, 2)) == SPEC && (be_val(
                data@.subrange(2, 6),
            ) > data@.len() - 30 || (forall|
                v: Seq<char>,
                n: u64,
                a: Seq<char>,
                e: Seq<char>,
                c: Seq<char>,
                t: Seq<char>,
            |
                data@.subrange(6, 6 + be_val(data@.subrange(2, 6)) as int) != metadata_json_of(
                    v,
                    n,
                    a,
                    e,
                    c,
                    t,
                ))),
            (match r {
                Err(e) => e == Error::Io,
                Ok(_) => false,
            }) ==> !tree_parses(data@, footer_entry_root(data@)) || !tree_parses(
                data@,
                footer_token_root(data@),
            ),
            (data@.len() >= 30 && be_val(data@.subrange(0, 2)) == SPEC && be_val(
                data@.subrange(2, 6),
            ) <= data@.len() - 30 && (exists|
                v: Seq<char>,
                n: u64,
                a: Seq<char>,
                e: Seq<char>,
                c: Seq<char>,
                t: Seq<char>,
            |
                data@.subrange(6, 6 + be_val(data@.subrange(2, 6)) as int)
                    == #[trigger] metadata_json_of(v, n, a, e, c, t)) && tree_parses(
                data@,
                footer_entry_root(data@),
            ) && tree_parses(data@, footer_token_root(data@))) ==> r is Ok,
            r is Ok <==> (data@.len() >= 30 && be_val(data@.subrange(0, 2)) == SPEC && be_val(
                data@.subrange(2, 6),
            ) <= data@.len() - 30 && metadata_of(
                data@.subrange(6, 6 + be_val(data@.subrange(2, 6)) as int),
            ) is Some && tree_parses(data@, footer_entry_root(data@)) && tree_parses(
                data@,
                footer_token_root(data@),
            )),
            r matches Ok(b) ==> metadata_of(
                data@.subrange(6, 6 + be_val(data@.subrange(2, 6)) as int),
            ) == Some(
                (
                    b.metadata_spec().version@,
                    b.metadata_spec().entry_num,
                    b.metadata_spec().author@,
                    b.metadata_spec().email@,
                    b.metadata_spec().create_time@,
                    b.metadata_spec().comment@,
                ),
            ),
    {
        let n = data.len();
        if n < 30 {
            return Err(Error::BadFileMagic);
        }
        let mut scanner = Scanner::new(data);
        let magic = scanner.read_u16();
        proof {
            crate::codec::lemma_be_val_bound(data@.subrange(0, 2));
            crate::codec::lemma_pow256_vals();
        }
        if magic != SPEC {
            return Err(Error::BadFileMagic);
        }
        let mlen = scanner.read_u32();
        if (mlen as u64) > (n as u64) - 30 {
            return Err(Error::BadMetadata);
        }
        let mbytes = vstd::slice::slice_subrange(data, 6, 6 + (mlen as usize));
        let metadata = match metadata_from_json(mbytes) {
            None => {
                return Err(Error::BadMetadata);
            },
            Some(m) => m,
        };
        let mut footer = Scanner::new(data);
        footer.forward(n - 24);
        let entry_root_offset = footer.read_u64();
        let entry_root_size = footer.read_u32();
        let token_root_offset = footer.read_u64();
        let token_root_size = footer.read_u32();
        proof {
            crate::codec::lemma_be_val_bound(data@.subrange(n - 24, n - 16));
            crate::codec::lemma_be_val_bound(data@.subrange(n - 16, n - 12));
            crate::codec::lemma_be_val_bound(data@.subrange(n - 12, n - 4));
            crate::codec::lemma_be_val_bound(data@.subrange(n - 4, n as int));
            crate::codec::lemma_pow256_vals();
        }
        let entry_tree = match Tree::parse(
            data,
            entry_root_offset,
            entry_root_size,
            NODE_SIZE_LIMIT,
            NODE_SIZE_LIMIT,
        ) {
            None => {
                return Err(Error::Io);
            },
            Some(t) => t,
        };
        let token_tree = match Tree::parse(
            data,
            token_root_offset,
            token_root_size,
            NODE_SIZE_LIMIT,
            NODE_SIZE_LIMIT,
        ) {
            None => {
                return Err(Error::Io);
            },
            Some(t) => t,
        };
        Ok(Beluga { metadata, file_type, entry_tree, token_tree })
    }

    /// Every entry record, in leaf order.
    pub fn traverse_entry(&self) -> (r: Vec<Record>)
        ensures
            crate::node::recs_view(r@) == self.entries_spec(),
    {
        self.entry_tree.traverse()
    }

    /// Every token record, in leaf order.
    pub fn traverse_token(&self) -> (r: Vec<Record>)
        ensures
            crate::node::recs_view(r@) == self.tokens_spec(),
    {
        self.token_tree.traverse()
    }
}

} // verus!
