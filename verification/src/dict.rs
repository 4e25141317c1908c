//! One persisted dictionary file and the paged searches over it.
//!
//! A `DictFile` owns the file bytes and a process-unique cache id.  Nodes
//! are decoded on demand — slice, inflate, decode — and kept in the shared
//! LRU cache under `(cache id, offset)`.  Every key a search returns is
//! checked against the query before it is returned, so the prefix and
//! strictness guarantees hold of any input bytes, well-formed or not.
//! On a cache coherent with the file — which every fetch keeps — each
//! search's whole result is pinned as a function of the file bytes, by the
//! `spec_search` and `spec_search_entry` forms below.

use crate::cache::{CacheEntry, LruCache, SizedValue};
use crate::codec::{be_val, Scanner};
use crate::compress::inflate_bytes;
use crate::error::Error;
use crate::keys::{
    cmp_bytes, is_prefix, lex_cmp, smooth_bytes, smoothed, starts_with, Cmp, EntryKey,
};
use crate::beluga::{metadata_from_json, metadata_json_of, metadata_of, vecs_view, Metadata, SPEC};
use crate::node::{key_at, node_sorted, spec_index_of, Node, RecV};
use vstd::prelude::*;

verus! {

/// A decoded node as the cache holds it: the node, the child locations it
/// stores, and its on-disk compressed size, which is what the cache charges.
pub struct DictNode {
    pub node: Node,
    pub children: Vec<(u64, u32)>,
    pub size: u64,
}

impl DictNode {
    pub fn new(node: Node) -> (r: Self)
        ensures
            r.node == node,
            r.children@.len() == 0,
            r.size == 0,
    {
        Self { node, children: Vec::new(), size: 0 }
    }
}

impl Clone for DictNode {
    fn clone(&self) -> (r: Self)
        ensures
            r.node@ == self.node@,
            r.children@ == self.children@,
            r.size == self.size,
    {
        let mut children: Vec<(u64, u32)> = Vec::new();
        let n = self.children.len();
        let mut i: usize = 0;
        while i < n
            invariant
                n == self.children@.len(),
                i <= n,
                children@ =~= self.children@.take(i as int),
            decreases n - i,
        {
            children.push(self.children[i]);
            i = i + 1;
            proof {
                assert(children@ =~= self.children@.take(i as int));
            }
        }
        proof {
            assert(self.children@.take(n as int) =~= self.children@);
        }
        Self { node: self.node.clone(), children, size: self.size }
    }
}

impl SizedValue for DictNode {
    open spec fn size_spec(&self) -> u64 {
        self.size
    }

    fn size(&self) -> (r: u64) {
        self.size
    }
}

/// Are the records sorted under the node's comparison?  Checked on every
/// node paged in, since file bytes cannot be trusted.
fn check_sorted(node: &Node) -> (r: bool)
    ensures
        r == node_sorted(node.is_leaf, node@.records),
{
    let ghost recs = node@.records;
    let n = node.records.len();
    if n == 0 {
        return true;
    }
    let mut i: usize = 0;
    while i + 1 < n
        invariant
            n == node.records@.len(),
            n == recs.len(),
            recs == node@.records,
            i + 1 <= n,
            forall|k: int|
                0 <= k < i ==> #[trigger] lex_cmp(
                    key_at(node.is_leaf, recs, k),
                    key_at(node.is_leaf, recs, k + 1),
                ) != Cmp::Gt,
        decreases n - i,
    {
        let a = if node.is_leaf {
            smooth_bytes(node.records[i].key.0.as_slice())
        } else {
            crate::keys::EntryKey::from_bytes(node.records[i].key.0.as_slice()).0
        };
        let b = if node.is_leaf {
            smooth_bytes(node.records[i + 1].key.0.as_slice())
        } else {
            crate::keys::EntryKey::from_bytes(node.records[i + 1].key.0.as_slice()).0
        };
        let c = cmp_bytes(a.as_slice(), b.as_slice());
        proof {
            assert(recs[i as int] == node.records@[i as int]@);
            assert(recs[i + 1] == node.records@[i + 1]@);
            assert(a@ == key_at(node.is_leaf, recs, i as int));
            assert(b@ == key_at(node.is_leaf, recs, i + 1));
        }
        if c.is_gt() {
            proof {
                assert(lex_cmp(key_at(node.is_leaf, recs, i as int), key_at(node.is_leaf, recs, i + 1)) == Cmp::Gt);
                assert(!node_sorted(node.is_leaf, recs));
            }
            return false;
        }
        i = i + 1;
    }
    proof {
        lemma_adjacent_sorted(node.is_leaf, recs);
    }
    true
}

/// Adjacent order gives total order, by transitivity.
proof fn lemma_adjacent_sorted(is_leaf: bool, recs: Seq<crate::node::RecV>)
    requires
        forall|k: int|
            0 <= k < recs.len() - 1 ==> #[trigger] lex_cmp(
                key_at(is_leaf, recs, k),
                key_at(is_leaf, recs, k + 1),
            ) != Cmp::Gt,
    ensures
        node_sorted(is_leaf, recs),
{
    assert forall|i: int, j: int| 0 <= i < j < recs.len() implies lex_cmp(
        key_at(is_leaf, recs, i),
        key_at(is_leaf, recs, j),
    ) != Cmp::Gt by {
        lemma_chain(is_leaf, recs, i, j);
    }
}

proof fn lemma_chain(is_leaf: bool, recs: Seq<crate::node::RecV>, i: int, j: int)
    requires
        forall|k: int|
            0 <= k < recs.len() - 1 ==> #[trigger] lex_cmp(
                key_at(is_leaf, recs, k),
                key_at(is_leaf, recs, k + 1),
            ) != Cmp::Gt,
        0 <= i < j < recs.len(),
    ensures
        lex_cmp(key_at(is_leaf, recs, i), key_at(is_leaf, recs, j)) != Cmp::Gt,
    decreases j - i,
{
    if i + 1 == j {
    } else {
        lemma_chain(is_leaf, recs, i + 1, j);
        crate::keys::lemma_lex_cmp_trans(
            key_at(is_leaf, recs, i),
            key_at(is_leaf, recs, i + 1),
            key_at(is_leaf, recs, j),
        );
    }
}

/// The node the file bytes hold at `(off, size)`: slice, inflate, parse.
/// A location out of range, bytes that are no Deflate stream or no node
/// encoding, and records out of order all count as no node.  Every fetch of
/// a node means exactly this, so it is what the search contracts build on.
pub open spec fn decoded_at(data: Seq<u8>, off: int, size: int) -> Option<
    (bool, Seq<RecV>, Seq<(u64, u32)>),
> {
    if size <= 0 || size > data.len() || off < 0 || off > data.len() - size {
        None
    } else {
        match crate::compress::inflate_of(data.subrange(off, off + size)) {
            None => None,
            Some(raw) => match crate::node::spec_parse_node(raw) {
                None => None,
                Some((is_leaf, recs, ptrs)) => if node_sorted(is_leaf, recs) {
                    Some((is_leaf, recs, ptrs))
                } else {
                    None
                },
            },
        }
    }
}

/// A cached node as `decoded_at` speaks of it.
pub open spec fn dict_node_model(dn: DictNode) -> (bool, Seq<RecV>, Seq<(u64, u32)>) {
    (dn.node.is_leaf, dn.node@.records, dn.children@)
}

/// The cache agrees with a file: every resident entry under the file's
/// cache id holds, at its recorded size, exactly the node the file bytes
/// decode to at its offset.  Fetches keep this, and under it a fetch
/// returns precisely `decoded_at` — a hit and a decode cannot disagree.
pub open spec fn cache_coherent(
    entries: Seq<CacheEntry<DictNode>>,
    id: u32,
    data: Seq<u8>,
) -> bool {
    forall|i: int|
        0 <= i < entries.len() && (#[trigger] entries[i]).id == id ==> decoded_at(
            data,
            entries[i].offset as int,
            entries[i].val.size as int,
        ) == Some(dict_node_model(entries[i].val))
}

/// A byte option seen as a sequence option.
pub open spec fn opt_bytes(o: Option<Vec<u8>>) -> Option<Seq<u8>> {
    match o {
        Some(v) => Some(v@),
        None => None,
    }
}

/// The forward scan of the exact lookup, pinned as a function of the file
/// bytes: from record `i` of the leaf `(recs, kids)` decoded at `off`,
/// through the next-leaf pointer `kids[0]`, the first raw-equal record's
/// value wins; the first smoothed-equal record's value is kept as the
/// fallback, which also answers wherever the chain ends or breaks.
pub open spec fn spec_scan_entry(
    data: Seq<u8>,
    off: int,
    recs: Seq<RecV>,
    kids: Seq<(u64, u32)>,
    i: int,
    name: Seq<u8>,
    fallback: Option<Seq<u8>>,
) -> Option<Seq<u8>>
    decreases off, recs.len() - i,
{
    if i < recs.len() {
        let rec = recs[i];
        if rec.key == name {
            match rec.value {
                Some(v) => Some(v),
                None => fallback,
            }
        } else if smoothed(rec.key) == smoothed(name) {
            let fb = if fallback is None {
                rec.value
            } else {
                fallback
            };
            spec_scan_entry(data, off, recs, kids, i + 1, name, fb)
        } else if lex_cmp(smoothed(rec.key), smoothed(name)) == Cmp::Gt {
            fallback
        } else {
            spec_scan_entry(data, off, recs, kids, i + 1, name, fallback)
        }
    } else if kids.len() == 0 || kids[0].0 == 0 || kids[0].0 >= off {
        fallback
    } else {
        match decoded_at(data, kids[0].0 as int, kids[0].1 as int) {
            None => fallback,
            Some((is_leaf, rs, ps)) => if !is_leaf {
                fallback
            } else {
                spec_scan_entry(data, kids[0].0 as int, rs, ps, 0, name, fallback)
            },
        }
    }
}

/// The forward scan of the prefix search, pinned as a function of the file
/// bytes: from record `i` of the leaf `(recs, kids)` decoded at `off`,
/// through the next-leaf pointer, every key whose smoothed form extends the
/// smoothed query is appended (under `strict`, only when its raw form also
/// extends the raw query), until a key falls outside the smoothed window,
/// the chain ends or breaks, or an accepted key brings the count to the
/// limit.
pub open spec fn spec_scan_leaves(
    data: Seq<u8>,
    off: int,
    recs: Seq<RecV>,
    kids: Seq<(u64, u32)>,
    i: int,
    name: Seq<u8>,
    strict: bool,
    limit: int,
    acc: Seq<Seq<u8>>,
) -> Seq<Seq<u8>>
    decreases off, recs.len() - i,
{
    if i < recs.len() {
        let rec = recs[i];
        if is_prefix(smoothed(name), smoothed(rec.key)) {
            if !strict || is_prefix(name, rec.key) {
                let acc2 = acc.push(rec.key);
                if acc2.len() >= limit {
                    acc2
                } else {
                    spec_scan_leaves(data, off, recs, kids, i + 1, name, strict, limit, acc2)
                }
            } else {
                spec_scan_leaves(data, off, recs, kids, i + 1, name, strict, limit, acc)
            }
        } else {
            acc
        }
    } else if kids.len() == 0 || kids[0].0 == 0 || kids[0].0 >= off {
        acc
    } else {
        match decoded_at(data, kids[0].0 as int, kids[0].1 as int) {
            None => acc,
            Some((is_leaf, rs, ps)) => if !is_leaf {
                acc
            } else {
                spec_scan_leaves(data, kids[0].0 as int, rs, ps, 0, name, strict, limit, acc)
            },
        }
    }
}

/// The prefix search over the tree rooted at `(off, size)` in the file
/// bytes: descend by the smoothed routing comparison to the leaf where the
/// first match can sit, then scan forward.  Empty wherever the bytes decode
/// to no node or routing leaves the tree.  This pins the search's result on
/// every input, well formed or not.
pub open spec fn spec_search(
    data: Seq<u8>,
    off: int,
    size: int,
    name: Seq<u8>,
    strict: bool,
    limit: int,
) -> Seq<Seq<u8>> {
    if limit <= 0 {
        Seq::empty()
    } else {
        spec_search_from(data, off, size, name, strict, limit)
    }
}

/// The descent of `spec_search`, for a positive limit.
pub open spec fn spec_search_from(
    data: Seq<u8>,
    off: int,
    size: int,
    name: Seq<u8>,
    strict: bool,
    limit: int,
) -> Seq<Seq<u8>>
    decreases off,
{
    match decoded_at(data, off, size) {
        None => Seq::empty(),
        Some((is_leaf, recs, kids)) => if recs.len() == 0 {
            Seq::empty()
        } else {
            let wc = spec_index_of(is_leaf, recs, name);
            let ni = if wc.1 != Cmp::Gt {
                wc.0
            } else {
                wc.0 + 1
            };
            if is_leaf {
                spec_scan_leaves(data, off, recs, kids, ni, name, strict, limit, Seq::empty())
            } else if ni >= kids.len() {
                Seq::empty()
            } else if kids[ni].0 >= off {
                Seq::empty()
            } else {
                spec_search_from(data, kids[ni].0 as int, kids[ni].1 as int, name, strict, limit)
            }
        },
    }
}

/// The exact lookup over the tree rooted at `(off, size)` in the file
/// bytes: descend by the smoothed routing comparison to the leaf that can
/// hold the key, then scan its smoothed-equal run.  Absent wherever the
/// bytes decode to no node, routing leaves the tree, or every stored key is
/// above the query.  This pins the lookup's result on every input, well
/// formed or not.
pub open spec fn spec_search_entry(data: Seq<u8>, off: int, size: int, name: Seq<u8>) -> Option<
    Seq<u8>,
>
    decreases off,
{
    match decoded_at(data, off, size) {
        None => None,
        Some((is_leaf, recs, kids)) => if recs.len() == 0 {
            None
        } else {
            let wc = spec_index_of(is_leaf, recs, name);
            if is_leaf {
                if wc.1 == Cmp::Lt && wc.0 == 0 {
                    None
                } else {
                    let idx = if wc.1 != Cmp::Lt {
                        wc.0
                    } else {
                        wc.0 + 1
                    };
                    spec_scan_entry(data, off, recs, kids, idx, name, None)
                }
            } else {
                let ci = if wc.1 != Cmp::Gt {
                    wc.0
                } else {
                    wc.0 + 1
                };
                if ci >= kids.len() {
                    None
                } else if kids[ci].0 >= off {
                    None
                } else {
                    spec_search_entry(data, kids[ci].0 as int, kids[ci].1 as int, name)
                }
            }
        },
    }
}

/// One open dictionary file: its bytes, metadata, tree roots and cache id.
pub struct DictFile {
    pub id: Vec<u8>,
    data: Vec<u8>,
    metadata: Metadata,
    entry_root: (u64, u32),
    token_root: (u64, u32),
    cache_id: u32,
}

impl DictFile {
    pub closed spec fn data_spec(&self) -> Seq<u8> {
        self.data@
    }

    pub closed spec fn entry_root_spec(&self) -> (u64, u32) {
        self.entry_root
    }

    pub closed spec fn token_root_spec(&self) -> (u64, u32) {
        self.token_root
    }

    pub closed spec fn metadata_spec(&self) -> Metadata {
        self.metadata
    }

    /// The id this file's nodes are cached under.
    pub closed spec fn cache_id_spec(&self) -> u32 {
        self.cache_id
    }

    /// The resource id the file was registered under; empty until a caller
    /// names one.
    pub closed spec fn resource_id_spec(&self) -> Seq<u8> {
        self.id@
    }

    /// Open one file image: check the magic, read the metadata, read the
    /// footer.  The tree stays on "disk"; nodes are paged in per query.
    /// A bad-magic error comes exactly on a short image or a wrong magic; a
    /// bad-metadata error only when the metadata length overruns the image
    /// or the metadata bytes are no serialization; an image sound in all
    /// three opens, with the metadata fields the bytes serialize.
    pub fn open(data: Vec<u8>, cache_id: u32) -> (r: Result<DictFile, Error>)
        ensures
            match r {
                Ok(d) => {
                    &&& d.data_spec() == data@
                    &&& data@.len() >= 30
                    &&& be_val(data@.subrange(0, 2)) == SPEC
                    &&& be_val(data@.subrange(2, 6)) <= data@.len() - 30
                    &&& d.entry_root_spec().0 as nat == crate::beluga::footer_entry_root(data@).0
                    &&& d.entry_root_spec().1 as nat == crate::beluga::footer_entry_root(data@).1
                    &&& d.token_root_spec().0 as nat == crate::beluga::footer_token_root(data@).0
                    &&& d.token_root_spec().1 as nat == crate::beluga::footer_token_root(data@).1
                    &&& forall|
                        v: Seq<char>,
                        n: u64,
                        a: Seq<char>,
                        e: Seq<char>,
                        c: Seq<char>,
                        t: Seq<char>,
                    |
                        data@.subrange(6, 6 + be_val(data@.subrange(2, 6)) as int)
                            == metadata_json_of(v, n, a, e, c, t) ==> d.metadata_spec().version@
                            == v && d.metadata_spec().entry_num == n && d.metadata_spec().author@
                            == a && d.metadata_spec().email@ == e
                            && d.metadata_spec().create_time@ == c && d.metadata_spec().comment@
                            == t
                },
                Err(e) => e == Error::BadFileMagic || e == Error::BadMetadata,
            },
            (match r {
                Err(e) => e == Error::BadFileMagic,
                Ok(_) => false,
            }) <==> (data@.len() < 30 || be_val(data@.subrange(0, 2)) != SPEC),
            (match r {
                Err(e) => e == Error::BadMetadata,
                Ok(_) => false,
            }) ==> data@.len() >= 30 && be_val(data@.subrange(0, 2)) == SPEC && (be_val(
                data@.subrange(2, 6),
            ) > data@.len() - 30 || (forall|
                v: Seq<char>,
                n: u64,
                a: Seq<char>,
                e: Seq<char>,
                c: Seq<char>,
                t: Seq<char>,
            |
                data@.subrange(6, 6 + be_val(data@.subrange(2, 6)) as int) != metadata_json_of(
                    v,
                    n,
                    a,
                    e,
                    c,
                    t,
                ))),
            (data@.len() >= 30 && be_val(data@.subrange(0, 2)) == SPEC && be_val(
                data@.subrange(2, 6),
            ) <= data@.len() - 30 && (exists|
                v: Seq<char>,
                n: u64,
                a: Seq<char>,
                e: Seq<char>,
                c: Seq<char>,
                t: Seq<char>,
            |
                data@.subrange(6, 6 + be_val(data@.subrange(2, 6)) as int)
                    == #[trigger] metadata_json_of(v, n, a, e, c, t))) ==> r is Ok,
            r is Ok <==> (data@.len() >= 30 && be_val(data@.subrange(0, 2)) == SPEC && be_val(
                data@.subrange(2, 6),
            ) <= data@.len() - 30 && metadata_of(
                data@.subrange(6, 6 + be_val(data@.subrange(2, 6)) as int),
            ) is Some),
            r matches Ok(d) ==> metadata_of(
                data@.subrange(6, 6 + be_val(data@.subrange(2, 6)) as int),
            ) == Some(
                (
                    d.metadata_spec().version@,
                    d.metadata_spec().entry_num,
                    d.metadata_spec().author@,
                    d.metadata_spec().email@,
                    d.metadata_spec().create_time@,
                    d.metadata_spec().comment@,
                ),
            ),
            r matches Ok(d) ==> d.cache_id_spec() == cache_id && d.resource_id_spec() == Seq::<
                u8,
            >::empty(),
    {
        let n = data.len();
        if n < 30 {
            return Err(Error::BadFileMagic);
        }
        let mut scanner = Scanner::new(data.as_slice());
        let magic = scanner.read_u16();
        proof {
            crate::codec::lemma_be_val_bound(data@.subrange(0, 2));
            crate::codec::lemma_pow256_vals();
        }
        if magic != SPEC {
            return Err(Error::BadFileMagic);
        }
        let mlen = scanner.read_u32();
        if (mlen as u64) > (n as u64) - 30 {
            return Err(Error::BadMetadata);
        }
        let mbytes = vstd::slice::slice_subrange(data.as_slice(), 6, 6 + (mlen as usize));
        let metadata = match metadata_from_json(mbytes) {
            None => {
                return Err(Error::BadMetadata);
            },
            Some(m) => m,
        };
        let mut footer = Scanner::new(data.as_slice());
        footer.forward(n - 24);
        let entry_root_offset = footer.read_u64();
        let entry_root_size = footer.read_u32();
        let token_root_offset = footer.read_u64();
        let token_root_size = footer.read_u32();
        proof {
            crate::codec::lemma_be_val_bound(data@.subrange(n - 24, n - 16));
            crate::codec::lemma_be_val_bound(data@.subrange(n - 16, n - 12));
            crate::codec::lemma_be_val_bound(data@.subrange(n - 12, n - 4));
            crate::codec::lemma_be_val_bound(data@.subrange(n - 4, n as int));
            crate::codec::lemma_pow256_vals();
        }
        Ok(
            DictFile {
                id: Vec::new(),
                data,
                metadata,
                entry_root: (entry_root_offset, entry_root_size),
                token_root: (token_root_offset, token_root_size),
                cache_id,
            },
        )
    }

    /// The entry tree root location.
    pub fn entry_root(&self) -> (r: (u64, u32))
        ensures
            r == self.entry_root_spec(),
    {
        (self.entry_root.0, self.entry_root.1)
    }

    /// The token tree root location; a zero size means no token tree.
    pub fn token_root(&self) -> (r: (u64, u32))
        ensures
            r == self.token_root_spec(),
    {
        (self.token_root.0, self.token_root.1)
    }

    pub fn metadata(&self) -> (r: Metadata)
        ensures
            r.version@ == self.metadata_spec().version@,
            r.entry_num == self.metadata_spec().entry_num,
            r.author@ == self.metadata_spec().author@,
            r.email@ == self.metadata_spec().email@,
            r.create_time@ == self.metadata_spec().create_time@,
            r.comment@ == self.metadata_spec().comment@,
    {
        self.metadata.clone()
    }

    /// Fetch the node at `(offset, size)`: from the cache on a hit at the
    /// same size, else slice, inflate, decode, insert.  `None` on any decode
    /// failure or when the location is out of range.  Nodes handed out are
    /// sorted under their own comparison; anything else counts as a decode
    /// failure.  On a cache coherent with this file the result is exactly
    /// `decoded_at`, coherence is kept, and coherence with every other
    /// file's id is untouched.
    pub fn get_node(&self, cache: &mut LruCache<DictNode>, offset: u64, size: u32) -> (r: Option<
        DictNode,
    >)
        requires
            old(cache).wf(),
            old(cache).in_budget(),
        ensures
            final(cache).wf(),
            final(cache).in_budget(),
            final(cache).cap_spec() == old(cache).cap_spec(),
            r matches Some(dn) ==> node_sorted(dn.node.is_leaf, dn.node@.records),
            cache_coherent(old(cache).entries_spec(), self.cache_id_spec(), self.data_spec())
                ==> cache_coherent(
                final(cache).entries_spec(),
                self.cache_id_spec(),
                self.data_spec(),
            ) && (match r {
                Some(dn) => decoded_at(self.data_spec(), offset as int, size as int) == Some(
                    dict_node_model(dn),
                ),
                None => decoded_at(self.data_spec(), offset as int, size as int) is None,
            }),
            forall|id2: u32, d2: Seq<u8>|
                id2 != self.cache_id_spec() && #[trigger] cache_coherent(
                    old(cache).entries_spec(),
                    id2,
                    d2,
                ) ==> cache_coherent(final(cache).entries_spec(), id2, d2),
    {
        let ghost orig = old(cache).entries_spec();
        if size == 0 {
            return None;
        }
        if let Some(dn) = cache.get(self.cache_id, offset) {
            if dn.size == size as u64 {
                let sorted = check_sorted(&dn.node);
                proof {
                    if cache_coherent(orig, self.cache_id, self.data@) {
                        let i = choose|i: int|
                            0 <= i < orig.len() && (#[trigger] orig[i]).id == self.cache_id
                                && orig[i].offset == offset && orig[i].val == *dn;
                        assert(decoded_at(self.data@, offset as int, dn.size as int) == Some(
                            dict_node_model(*dn),
                        ));
                    }
                }
                if sorted {
                    let r = dn.clone();
                    proof {
                        assert(dict_node_model(r) == dict_node_model(*dn));
                    }
                    return Some(r);
                }
                return None;
            }
        }
        let n = self.data.len();
        if (size as u64) > n as u64 || offset > (n as u64) - (size as u64) {
            return None;
        }
        let sub = vstd::slice::slice_subrange(
            self.data.as_slice(),
            offset as usize,
            (offset as usize) + (size as usize),
        );
        let raw = match inflate_bytes(sub) {
            None => {
                return None;
            },
            Some(raw) => raw,
        };
        let (node, children) = match Node::from_bytes(raw.as_slice()) {
            None => {
                return None;
            },
            Some(p) => p,
        };
        if !check_sorted(&node) {
            return None;
        }
        let dnode = DictNode { node, children, size: size as u64 };
        let out = dnode.clone();
        proof {
            assert(decoded_at(self.data@, offset as int, size as int) == Some(
                dict_node_model(dnode),
            ));
            assert(dict_node_model(out) == dict_node_model(dnode));
        }
        cache.put(self.cache_id, offset, dnode);
        proof {
            assert forall|id2: u32, d2: Seq<u8>|
                cache_coherent(orig, id2, d2) && (id2 != self.cache_id || d2
                    == self.data@) implies cache_coherent(
                cache.entries_spec(),
                id2,
                d2,
            ) by {
                assert forall|i: int|
                    0 <= i < cache.entries_spec().len() && (#[trigger] cache.entries_spec()[i]).id
                        == id2 implies decoded_at(
                    d2,
                    cache.entries_spec()[i].offset as int,
                    cache.entries_spec()[i].val.size as int,
                ) == Some(dict_node_model(cache.entries_spec()[i].val)) by {
                    let e = cache.entries_spec()[i];
                    if orig.contains(e) {
                        let j = choose|j: int| 0 <= j < orig.len() && orig[j] == e;
                        assert(orig[j].id == id2);
                    } else {
                        assert(e.id == self.cache_id && e.offset == offset && e.val == dnode);
                    }
                }
            }
        }
        Some(out)
    }

    /// Prefix search: descend to the leaf that could hold the smallest
    /// matching key, then scan forward through the leaf chain.  Every
    /// returned key's smoothed form starts with the smoothed query; under
    /// `strict` its raw form also starts with the raw query.  At most
    /// `prefix_limit` keys are returned; a zero limit returns none.
    pub fn search(
        &self,
        cache: &mut LruCache<DictNode>,
        name: &[u8],
        strict: bool,
        prefix_limit: usize,
    ) -> (r: Vec<Vec<u8>>)
        requires
            old(cache).wf(),
            old(cache).in_budget(),
        ensures
            final(cache).wf(),
            final(cache).in_budget(),
            final(cache).cap_spec() == old(cache).cap_spec(),
            forall|i: int|
                0 <= i < r@.len() ==> is_prefix(smoothed(name@), smoothed(#[trigger] r@[i]@)),
            strict ==> forall|i: int| 0 <= i < r@.len() ==> is_prefix(name@, (#[trigger] r@[i])@),
            r@.len() <= prefix_limit as nat,
            cache_coherent(old(cache).entries_spec(), self.cache_id_spec(), self.data_spec())
                ==> cache_coherent(
                final(cache).entries_spec(),
                self.cache_id_spec(),
                self.data_spec(),
            ) && vecs_view(r@) == spec_search(
                self.data_spec(),
                self.entry_root_spec().0 as int,
                self.entry_root_spec().1 as int,
                name@,
                strict,
                prefix_limit as int,
            ),
            forall|id2: u32, d2: Seq<u8>|
                id2 != self.cache_id_spec() && #[trigger] cache_coherent(
                    old(cache).entries_spec(),
                    id2,
                    d2,
                ) ==> cache_coherent(final(cache).entries_spec(), id2, d2),
    {
        let ghost coh = cache_coherent(
            old(cache).entries_spec(),
            self.cache_id_spec(),
            self.data_spec(),
        );
        let mut result: Vec<Vec<u8>> = Vec::new();
        proof {
            assert(vecs_view(result@) =~= Seq::<Seq<u8>>::empty());
        }
        if prefix_limit == 0 {
            return result;
        }
        let lower_name = smooth_bytes(name);
        let mut offset = self.entry_root.0;
        let mut size = self.entry_root.1;
        let key = EntryKey::from_bytes(name);
        loop
            invariant
                cache.wf(),
                cache.in_budget(),
                cache.cap_spec() == old(cache).cap_spec(),
                lower_name@ == smoothed(name@),
                key@ == name@,
                result@.len() == 0,
                vecs_view(result@) == Seq::<Seq<u8>>::empty(),
                coh == cache_coherent(
                    old(cache).entries_spec(),
                    self.cache_id_spec(),
                    self.data_spec(),
                ),
                coh ==> cache_coherent(
                    cache.entries_spec(),
                    self.cache_id_spec(),
                    self.data_spec(),
                ),
                prefix_limit >= 1,
                coh ==> spec_search_from(
                    self.data_spec(),
                    self.entry_root_spec().0 as int,
                    self.entry_root_spec().1 as int,
                    name@,
                    strict,
                    prefix_limit as int,
                ) == spec_search_from(
                    self.data_spec(),
                    offset as int,
                    size as int,
                    name@,
                    strict,
                    prefix_limit as int,
                ),
                forall|id2: u32, d2: Seq<u8>|
                    id2 != self.cache_id_spec() && #[trigger] cache_coherent(
                        old(cache).entries_spec(),
                        id2,
                        d2,
                    ) ==> cache_coherent(cache.entries_spec(), id2, d2),
            decreases offset,
        {
            let dn = match self.get_node(cache, offset, size) {
                None => {
                    return result;
                },
                Some(dn) => dn,
            };
            proof {
                if coh {
                    assert(decoded_at(self.data_spec(), offset as int, size as int) == Some(
                        dict_node_model(dn),
                    ));
                }
                assert(dn.node@.records.len() == dn.node.records@.len());
            }
            if dn.node.is_leaf {
                // scan this leaf from the query's position, then follow the
                // next-leaf chain
                if dn.node.records.len() == 0 {
                    return result;
                }
                let (wi, cr) = dn.node.index_of(&key);
                let idx = if cr.is_le() {
                    wi
                } else {
                    wi + 1
                };
                let r = self.scan_leaves(cache, dn, idx, name, &lower_name, strict, prefix_limit, offset, result);
                return r;
            }
            // route: child wi on less-or-equal, wi + 1 after
            if dn.node.records.len() == 0 {
                return result;
            }
            let (wi, cr) = dn.node.index_of(&key);
            let ci = if cr.is_le() {
                wi
            } else {
                wi + 1
            };
            if ci >= dn.children.len() {
                return result;
            }
            let (noff, nsize) = dn.children[ci];
            proof {
                assert(dn.children@[ci as int] == (noff, nsize));
            }
            if noff >= offset {
                // malformed routing: children always sit before their parent
                return result;
            }
            offset = noff;
            size = nsize;
        }
    }

    /// The forward scan of `search`: collect matching keys from `start` in
    /// this leaf, then keep going through the next-leaf chain for as long as
    /// keys match the smoothed prefix.  On a coherent cache the result is
    /// exactly `spec_scan_leaves` from the starting position.
    #[verifier::loop_isolation(false)]
    fn scan_leaves(
        &self,
        cache: &mut LruCache<DictNode>,
        first: DictNode,
        start: usize,
        name: &[u8],
        lower_name: &Vec<u8>,
        strict: bool,
        prefix_limit: usize,
        first_offset: u64,
        result: Vec<Vec<u8>>,
    ) -> (r: Vec<Vec<u8>>)
        requires
            old(cache).wf(),
            old(cache).in_budget(),
            lower_name@ == smoothed(name@),
            result@.len() == 0,
            prefix_limit >= 1,
        ensures
            final(cache).wf(),
            final(cache).in_budget(),
            final(cache).cap_spec() == old(cache).cap_spec(),
            forall|i: int|
                0 <= i < r@.len() ==> is_prefix(smoothed(name@), smoothed(#[trigger] r@[i]@)),
            strict ==> forall|i: int| 0 <= i < r@.len() ==> is_prefix(name@, (#[trigger] r@[i])@),
            r@.len() <= prefix_limit as nat,
            cache_coherent(old(cache).entries_spec(), self.cache_id_spec(), self.data_spec())
                ==> cache_coherent(
                final(cache).entries_spec(),
                self.cache_id_spec(),
                self.data_spec(),
            ) && vecs_view(r@) == spec_scan_leaves(
                self.data_spec(),
                first_offset as int,
                first.node@.records,
                first.children@,
                start as int,
                name@,
                strict,
                prefix_limit as int,
                Seq::empty(),
            ),
            forall|id2: u32, d2: Seq<u8>|
                id2 != self.cache_id_spec() && #[trigger] cache_coherent(
                    old(cache).entries_spec(),
                    id2,
                    d2,
                ) ==> cache_coherent(final(cache).entries_spec(), id2, d2),
    {
        let ghost coh = cache_coherent(
            old(cache).entries_spec(),
            self.cache_id_spec(),
            self.data_spec(),
        );
        let ghost target = spec_scan_leaves(
            self.data_spec(),
            first_offset as int,
            first.node@.records,
            first.children@,
            start as int,
            name@,
            strict,
            prefix_limit as int,
            Seq::empty(),
        );
        let mut result = result;
        let mut dn = first;
        let mut i: usize = start;
        let mut offset = first_offset;
        proof {
            assert(vecs_view(result@) =~= Seq::<Seq<u8>>::empty());
        }
        loop
            invariant
                cache.wf(),
                cache.in_budget(),
                cache.cap_spec() == old(cache).cap_spec(),
                forall|k: int|
                    0 <= k < result@.len() ==> is_prefix(
                        smoothed(name@),
                        smoothed(#[trigger] result@[k]@),
                    ),
                strict ==> forall|k: int|
                    0 <= k < result@.len() ==> is_prefix(name@, (#[trigger] result@[k])@),
                result@.len() < prefix_limit,
                coh ==> cache_coherent(
                    cache.entries_spec(),
                    self.cache_id_spec(),
                    self.data_spec(),
                ),
                coh ==> target == spec_scan_leaves(
                    self.data_spec(),
                    offset as int,
                    dn.node@.records,
                    dn.children@,
                    i as int,
                    name@,
                    strict,
                    prefix_limit as int,
                    vecs_view(result@),
                ),
                forall|id2: u32, d2: Seq<u8>|
                    id2 != self.cache_id_spec() && #[trigger] cache_coherent(
                        old(cache).entries_spec(),
                        id2,
                        d2,
                    ) ==> cache_coherent(cache.entries_spec(), id2, d2),
            decreases offset, dn.node.records@.len() - i,
        {
            proof {
                assert(dn.node@.records.len() == dn.node.records@.len());
            }
            if i >= dn.node.records.len() {
                // end of this leaf: follow the next-leaf pointer
                if dn.children.len() == 0 {
                    return result;
                }
                let (noff, nsize) = dn.children[0];
                proof {
                    assert(dn.children@[0] == (noff, nsize));
                }
                if noff == 0 || noff >= offset {
                    return result;
                }
                let next = match self.get_node(cache, noff, nsize) {
                    None => {
                        return result;
                    },
                    Some(d) => d,
                };
                proof {
                    if coh {
                        assert(decoded_at(self.data_spec(), noff as int, nsize as int) == Some(
                            dict_node_model(next),
                        ));
                    }
                }
                if !next.node.is_leaf {
                    return result;
                }
                dn = next;
                offset = noff;
                i = 0;
                continue ;
            }
            let k = &dn.node.records[i].key;
            proof {
                assert(dn.node@.records[i as int] == dn.node.records@[i as int]@);
            }
            let ghost recv = dn.node@.records[i as int];
            let ghost pre = result@;
            let lower_k = smooth_bytes(k.0.as_slice());
            if starts_with(lower_k.as_slice(), lower_name.as_slice()) {
                if !strict || starts_with(k.0.as_slice(), name) {
                    result.push(k.bytes());
                    proof {
                        assert(result@[result@.len() - 1]@ == k@);
                        assert forall|m: int| 0 <= m < result@.len() implies vecs_view(result@)[m]
                            == vecs_view(pre).push(recv.key)[m] by {
                            if m < pre.len() {
                                assert(result@[m] == pre[m]);
                            }
                        }
                        assert(vecs_view(result@) =~= vecs_view(pre).push(recv.key));
                    }
                    if result.len() >= prefix_limit {
                        return result;
                    }
                }
            } else {
                return result;
            }
            i = i + 1;
        }
    }

    /// Exact lookup with case-insensitive fallback.  Scans the smoothed
    /// run that can hold the key, across leaves: the first raw-equal record
    /// wins; failing that, the first record of the run (the least raw
    /// spelling, for a tree built by insertions).  On a coherent cache the
    /// result is exactly `spec_search_entry` of the file bytes at `root`.
    pub fn search_entry(
        &self,
        cache: &mut LruCache<DictNode>,
        root: (u64, u32),
        name: &[u8],
    ) -> (r: Option<Vec<u8>>)
        requires
            old(cache).wf(),
            old(cache).in_budget(),
        ensures
            final(cache).wf(),
            final(cache).in_budget(),
            final(cache).cap_spec() == old(cache).cap_spec(),
            cache_coherent(old(cache).entries_spec(), self.cache_id_spec(), self.data_spec())
                ==> cache_coherent(
                final(cache).entries_spec(),
                self.cache_id_spec(),
                self.data_spec(),
            ) && opt_bytes(r) == spec_search_entry(
                self.data_spec(),
                root.0 as int,
                root.1 as int,
                name@,
            ),
            forall|id2: u32, d2: Seq<u8>|
                id2 != self.cache_id_spec() && #[trigger] cache_coherent(
                    old(cache).entries_spec(),
                    id2,
                    d2,
                ) ==> cache_coherent(final(cache).entries_spec(), id2, d2),
    {
        let ghost coh = cache_coherent(
            old(cache).entries_spec(),
            self.cache_id_spec(),
            self.data_spec(),
        );
        let lower_name = smooth_bytes(name);
        let key = EntryKey::from_bytes(name);
        let mut offset = root.0;
        let mut size = root.1;
        loop
            invariant
                cache.wf(),
                cache.in_budget(),
                cache.cap_spec() == old(cache).cap_spec(),
                key@ == name@,
                lower_name@ == smoothed(name@),
                coh == cache_coherent(
                    old(cache).entries_spec(),
                    self.cache_id_spec(),
                    self.data_spec(),
                ),
                coh ==> cache_coherent(
                    cache.entries_spec(),
                    self.cache_id_spec(),
                    self.data_spec(),
                ),
                coh ==> spec_search_entry(self.data_spec(), root.0 as int, root.1 as int, name@)
                    == spec_search_entry(self.data_spec(), offset as int, size as int, name@),
                forall|id2: u32, d2: Seq<u8>|
                    id2 != self.cache_id_spec() && #[trigger] cache_coherent(
                        old(cache).entries_spec(),
                        id2,
                        d2,
                    ) ==> cache_coherent(cache.entries_spec(), id2, d2),
            decreases offset,
        {
            let dn = match self.get_node(cache, offset, size) {
                None => {
                    return None;
                },
                Some(dn) => dn,
            };
            proof {
                if coh {
                    assert(decoded_at(self.data_spec(), offset as int, size as int) == Some(
                        dict_node_model(dn),
                    ));
                }
                assert(dn.node@.records.len() == dn.node.records@.len());
            }
            if dn.node.records.len() == 0 {
                return None;
            }
            let (wi, cr) = dn.node.index_of(&key);
            if dn.node.is_leaf {
                if cr.is_lt() && wi == 0 {
                    // every key in the tree is above the query
                    return None;
                }
                let idx = if cr.is_ge() {
                    wi
                } else {
                    wi + 1
                };
                let r = self.scan_entry(cache, dn, idx, name, &lower_name, offset);
                return r;
            }
            let ci = if cr.is_le() {
                wi
            } else {
                wi + 1
            };
            if ci >= dn.children.len() {
                return None;
            }
            let (noff, nsize) = dn.children[ci];
            proof {
                assert(dn.children@[ci as int] == (noff, nsize));
            }
            if noff >= offset {
                return None;
            }
            offset = noff;
            size = nsize;
        }
    }

    /// The forward scan of `search_entry` over the smoothed-equal run.  On
    /// a coherent cache the result is exactly `spec_scan_entry` from the
    /// starting position.
    #[verifier::loop_isolation(false)]
    fn scan_entry(
        &self,
        cache: &mut LruCache<DictNode>,
        first: DictNode,
        start: usize,
        name: &[u8],
        lower_name: &Vec<u8>,
        first_offset: u64,
    ) -> (r: Option<Vec<u8>>)
        requires
            old(cache).wf(),
            old(cache).in_budget(),
            lower_name@ == smoothed(name@),
        ensures
            final(cache).wf(),
            final(cache).in_budget(),
            final(cache).cap_spec() == old(cache).cap_spec(),
            cache_coherent(old(cache).entries_spec(), self.cache_id_spec(), self.data_spec())
                ==> cache_coherent(
                final(cache).entries_spec(),
                self.cache_id_spec(),
                self.data_spec(),
            ) && opt_bytes(r) == spec_scan_entry(
                self.data_spec(),
                first_offset as int,
                first.node@.records,
                first.children@,
                start as int,
                name@,
                None,
            ),
            forall|id2: u32, d2: Seq<u8>|
                id2 != self.cache_id_spec() && #[trigger] cache_coherent(
                    old(cache).entries_spec(),
                    id2,
                    d2,
                ) ==> cache_coherent(final(cache).entries_spec(), id2, d2),
    {
        let ghost coh = cache_coherent(
            old(cache).entries_spec(),
            self.cache_id_spec(),
            self.data_spec(),
        );
        let ghost target = spec_scan_entry(
            self.data_spec(),
            first_offset as int,
            first.node@.records,
            first.children@,
            start as int,
            name@,
            None,
        );
        let mut fallback: Option<Vec<u8>> = None;
        let mut dn = first;
        let mut i: usize = start;
        let mut offset = first_offset;
        loop
            invariant
                cache.wf(),
                cache.in_budget(),
                cache.cap_spec() == old(cache).cap_spec(),
                coh ==> cache_coherent(
                    cache.entries_spec(),
                    self.cache_id_spec(),
                    self.data_spec(),
                ),
                coh ==> target == spec_scan_entry(
                    self.data_spec(),
                    offset as int,
                    dn.node@.records,
                    dn.children@,
                    i as int,
                    name@,
                    opt_bytes(fallback),
                ),
                forall|id2: u32, d2: Seq<u8>|
                    id2 != self.cache_id_spec() && #[trigger] cache_coherent(
                        old(cache).entries_spec(),
                        id2,
                        d2,
                    ) ==> cache_coherent(cache.entries_spec(), id2, d2),
            decreases offset, dn.node.records@.len() - i,
        {
            proof {
                assert(dn.node@.records.len() == dn.node.records@.len());
            }
            if i >= dn.node.records.len() {
                if dn.children.len() == 0 {
                    return fallback;
                }
                let (noff, nsize) = dn.children[0];
                proof {
                    assert(dn.children@[0] == (noff, nsize));
                }
                if noff == 0 || noff >= offset {
                    return fallback;
                }
                let next = match self.get_node(cache, noff, nsize) {
                    None => {
                        return fallback;
                    },
                    Some(d) => d,
                };
                proof {
                    if coh {
                        assert(decoded_at(self.data_spec(), noff as int, nsize as int) == Some(
                            dict_node_model(next),
                        ));
                    }
                }
                if !next.node.is_leaf {
                    return fallback;
                }
                dn = next;
                offset = noff;
                i = 0;
                continue ;
            }
            let rec = &dn.node.records[i];
            proof {
                assert(dn.node@.records[i as int] == dn.node.records@[i as int]@);
            }
            let ghost recv = dn.node@.records[i as int];
            let lower_k = smooth_bytes(rec.key.0.as_slice());
            let rawc = cmp_bytes(rec.key.0.as_slice(), name);
            proof {
                crate::keys::lemma_lex_cmp_eq(recv.key, name@);
            }
            if rawc.is_eq() {
                // exact raw match wins
                return match &rec.value {
                    Some(v) => Some(v.bytes()),
                    None => fallback,
                };
            }
            let smc = cmp_bytes(lower_k.as_slice(), lower_name.as_slice());
            proof {
                crate::keys::lemma_lex_cmp_eq(smoothed(recv.key), smoothed(name@));
            }
            if smc.is_eq() {
                if matches!(fallback, None) {
                    fallback = match &rec.value {
                        Some(v) => Some(v.bytes()),
                        None => None,
                    };
                }
            } else if smc.is_gt() {
                // past the smoothed run: no exact match exists
                return fallback;
            }
            i = i + 1;
        }
    }
}

} // verus!
