//! Records and B+ tree nodes, with their binary encoding.
//!
//! A record is a key with an optional value; values are present exactly in
//! leaf nodes.  A node encodes as
//!
//! ```text
//! u8  kind         (0 = leaf, 1 = index)
//! u32 record_count
//! record_count x ( u32 key_len | key | [u32 val_len | val] )
//! child_count  x ( u64 offset | u32 size )
//! ```
//!
//! where `child_count` is 1 for a leaf (the "next leaf" pointer) and
//! `record_count + 1` for an index node.  All integers are big-endian.

use crate::codec::{be_bytes, be_val, u32_to_u8v, u64_to_u8v, Scanner};
use crate::keys::{cmp_bytes, lex_cmp, smooth_bytes, smoothed, Cmp, EntryKey, EntryValue};
use vstd::prelude::*;

verus! {

/// The abstract value of a record: its key bytes and optional value bytes.
#[verifier::ext_equal]
pub ghost struct RecV {
    pub key: Seq<u8>,
    pub value: Option<Seq<u8>>,
}

/// A typed key/value record.
#[derive(Debug)]
pub struct Record {
    pub key: EntryKey,
    pub value: Option<EntryValue>,
}

impl Clone for Record {
    fn clone(&self) -> (r: Self)
        ensures
            r@ == self@,
    {
        let r = Record {
            key: self.key.clone(),
            value: match &self.value {
                Some(v) => Some(v.clone()),
                None => None,
            },
        };
        proof {
            assert(r@ =~= self@);
        }
        r
    }
}

impl View for Record {
    type V = RecV;

    open spec fn view(&self) -> RecV {
        RecV {
            key: self.key@,
            value: match self.value {
                Some(v) => Some(v@),
                None => None,
            },
        }
    }
}

/// Key and value lengths must each fit their `u32` length field.
pub open spec fn rec_encodable(r: RecV) -> bool {
    &&& r.key.len() <= u32::MAX
    &&& match r.value {
        Some(v) => v.len() <= u32::MAX,
        None => true,
    }
}

/// The encoded bytes of one record.
pub open spec fn rec_bytes(r: RecV) -> Seq<u8> {
    let kb = be_bytes(r.key.len(), 4).add(r.key);
    match r.value {
        Some(v) => kb.add(be_bytes(v.len(), 4).add(v)),
        None => kb,
    }
}

/// The encoded size of one record.
pub open spec fn rec_size(r: RecV) -> nat {
    match r.value {
        Some(v) => 4 + r.key.len() + 4 + v.len(),
        None => 4 + r.key.len(),
    }
}

pub proof fn lemma_rec_bytes_len(r: RecV)
    ensures
        rec_bytes(r).len() == rec_size(r),
{
    crate::codec::lemma_be_bytes_len(r.key.len(), 4);
    match r.value {
        Some(v) => {
            crate::codec::lemma_be_bytes_len(v.len(), 4);
        },
        None => {},
    }
}

/// The concatenated encodings of a record sequence.
pub open spec fn recs_bytes(rs: Seq<RecV>) -> Seq<u8>
    decreases rs.len(),
{
    if rs.len() == 0 {
        Seq::empty()
    } else {
        rec_bytes(rs.first()).add(recs_bytes(rs.drop_first()))
    }
}

/// The summed encoded size of a record sequence.
pub open spec fn recs_size(rs: Seq<RecV>) -> nat
    decreases rs.len(),
{
    if rs.len() == 0 {
        0
    } else {
        rec_size(rs.first()) + recs_size(rs.drop_first())
    }
}

pub proof fn lemma_recs_bytes_len(rs: Seq<RecV>)
    ensures
        recs_bytes(rs).len() == recs_size(rs),
    decreases rs.len(),
{
    if rs.len() > 0 {
        lemma_rec_bytes_len(rs.first());
        lemma_recs_bytes_len(rs.drop_first());
    }
}

/// The encoded bytes of a child-pointer block: `(offset, size)` pairs.
pub open spec fn ptrs_bytes(ps: Seq<(u64, u32)>) -> Seq<u8>
    decreases ps.len(),
{
    if ps.len() == 0 {
        Seq::empty()
    } else {
        be_bytes(ps.first().0 as nat, 8).add(
            be_bytes(ps.first().1 as nat, 4).add(ptrs_bytes(ps.drop_first())),
        )
    }
}

pub proof fn lemma_ptrs_bytes_len(ps: Seq<(u64, u32)>)
    ensures
        ptrs_bytes(ps).len() == 12 * ps.len(),
    decreases ps.len(),
{
    if ps.len() > 0 {
        crate::codec::lemma_be_bytes_len(ps.first().0 as nat, 8);
        crate::codec::lemma_be_bytes_len(ps.first().1 as nat, 4);
        lemma_ptrs_bytes_len(ps.drop_first());
    }
}

/// How many child pointers a node encodes.
pub open spec fn child_count(is_leaf: bool, rec_count: nat) -> nat {
    if is_leaf {
        1
    } else {
        rec_count + 1
    }
}

/// The complete uncompressed encoding of a node.
pub open spec fn node_bytes(is_leaf: bool, recs: Seq<RecV>, ptrs: Seq<(u64, u32)>) -> Seq<u8> {
    seq![if is_leaf { 0u8 } else { 1u8 }].add(
        be_bytes(recs.len(), 4).add(recs_bytes(recs).add(ptrs_bytes(ptrs))),
    )
}

/// The exact on-disk uncompressed size of a node, child-pointer block
/// included.
pub open spec fn node_size(is_leaf: bool, recs: Seq<RecV>) -> nat {
    5 + recs_size(recs) + 12 * child_count(is_leaf, recs.len())
}

pub proof fn lemma_node_bytes_len(is_leaf: bool, recs: Seq<RecV>, ptrs: Seq<(u64, u32)>)
    requires
        ptrs.len() == child_count(is_leaf, recs.len()),
    ensures
        node_bytes(is_leaf, recs, ptrs).len() == node_size(is_leaf, recs),
{
    crate::codec::lemma_be_bytes_len(recs.len(), 4);
    lemma_recs_bytes_len(recs);
    lemma_ptrs_bytes_len(ptrs);
}

/// A node can be encoded when every record fits its length fields and the
/// record count fits the count field.
pub open spec fn recs_encodable(rs: Seq<RecV>) -> bool {
    &&& rs.len() <= u32::MAX
    &&& forall|i: int| 0 <= i < rs.len() ==> rec_encodable(#[trigger] rs[i])
}

/// A B+ tree node.  At build time an index node owns its children; a node
/// decoded from a file has no children of its own, the child locations come
/// back separately from `from_bytes`.
#[derive(Debug)]
pub struct Node {
    pub is_leaf: bool,
    pub records: Vec<Record>,
    pub children: Vec<Node>,
}

/// The abstract value of a node: the record views, and the child views for a
/// build-time node.
#[verifier::ext_equal]
pub ghost struct NodeV {
    pub is_leaf: bool,
    pub records: Seq<RecV>,
    pub children: Seq<NodeV>,
}

/// The abstract records of a record vector.
pub open spec fn recs_view(rs: Seq<Record>) -> Seq<RecV> {
    rs.map_values(|r: Record| r@)
}

pub open spec fn node_view(n: Node) -> NodeV
    decreases n,
{
    NodeV {
        is_leaf: n.is_leaf,
        records: recs_view(n.records@),
        children: children_view(n.children@),
    }
}

pub open spec fn children_view(s: Seq<Node>) -> Seq<NodeV>
    decreases s,
{
    if s.len() == 0 {
        Seq::empty()
    } else {
        children_view(s.drop_last()).push(node_view(s.last()))
    }
}

pub proof fn lemma_children_view_len(s: Seq<Node>)
    ensures
        children_view(s).len() == s.len(),
        forall|i: int| 0 <= i < s.len() ==> children_view(s)[i] == node_view(#[trigger] s[i]),
    decreases s.len(),
{
    if s.len() > 0 {
        lemma_children_view_len(s.drop_last());
        assert forall|i: int| 0 <= i < s.len() implies children_view(s)[i] == node_view(s[i]) by {
            if i < s.len() - 1 {
                assert(children_view(s)[i] == children_view(s.drop_last())[i]);
                assert(s.drop_last()[i] == s[i]);
            } else {
                assert(s.last() == s[i]);
            }
        }
    }
}

impl View for Node {
    type V = NodeV;

    open spec fn view(&self) -> NodeV {
        node_view(*self)
    }
}

impl Clone for Node {
    fn clone(&self) -> (r: Self)
        ensures
            r@ == self@,
        decreases *self,
    {
        let mut records: Vec<Record> = Vec::new();
        let mut i: usize = 0;
        let n = self.records.len();
        while i < n
            invariant
                n == self.records@.len(),
                i <= n,
                records@.len() == i,
                forall|k: int| 0 <= k < i ==> (#[trigger] records@[k])@ == self.records@[k]@,
            decreases n - i,
        {
            records.push(self.records[i].clone());
            i = i + 1;
        }
        let mut children: Vec<Node> = Vec::new();
        let mut j: usize = 0;
        let m = self.children.len();
        while j < m
            invariant
                m == self.children@.len(),
                j <= m,
                children@.len() == j,
                forall|k: int|
                    0 <= k < j ==> node_view(#[trigger] children@[k]) == node_view(
                        self.children@[k],
                    ),
            decreases m - j,
        {
            proof {
                assert(decreases_to!(*self => self.children));
                assert(decreases_to!(self.children => self.children@));
                assert(decreases_to!(self.children@ => self.children@[j as int]));
            }
            children.push(self.children[j].clone());
            j = j + 1;
        }
        proof {
            lemma_children_view_len(children@);
            lemma_children_view_len(self.children@);
            assert(recs_view(records@) =~= recs_view(self.records@));
            assert forall|k: int| 0 <= k < children@.len() implies children_view(children@)[k]
                == children_view(self.children@)[k] by {
                assert(children_view(children@)[k] == node_view(children@[k]));
                assert(children_view(self.children@)[k] == node_view(self.children@[k]));
            }
            assert(children_view(children@) =~= children_view(self.children@));
        }
        let r = Node { is_leaf: self.is_leaf, records, children };
        proof {
            assert(r@ =~= self@);
        }
        r
    }
}

/// The key a comparison at `node` level sees for record `i`: smoothed in a
/// leaf, as stored in an index node.
pub open spec fn key_at(is_leaf: bool, recs: Seq<RecV>, i: int) -> Seq<u8> {
    if is_leaf {
        smoothed(recs[i].key)
    } else {
        recs[i].key
    }
}

/// Comparison of a query key against record `i`: the query is always
/// smoothed; the stored side is smoothed only in a leaf.
pub open spec fn cmp_at(is_leaf: bool, recs: Seq<RecV>, q: Seq<u8>, i: int) -> Cmp {
    lex_cmp(smoothed(q), key_at(is_leaf, recs, i))
}

/// The records are sorted under the node's comparison.
pub open spec fn node_sorted(is_leaf: bool, recs: Seq<RecV>) -> bool {
    forall|i: int, j: int|
        0 <= i < j < recs.len() ==> lex_cmp(
            key_at(is_leaf, recs, i),
            key_at(is_leaf, recs, j),
        ) != Cmp::Gt
}

/// The least index at or after `i` whose record compares not-greater
/// against the query, or the last index when every record compares
/// greater.  This is the position `index_of` returns.
pub open spec fn first_not_gt(is_leaf: bool, recs: Seq<RecV>, q: Seq<u8>, i: int) -> int
    decreases recs.len() - i,
{
    if i >= recs.len() - 1 {
        recs.len() - 1
    } else if cmp_at(is_leaf, recs, q, i) != Cmp::Gt {
        i
    } else {
        first_not_gt(is_leaf, recs, q, i + 1)
    }
}

/// What `index_of` returns on a sorted node: the position and the
/// comparison of the query against the record there.
pub open spec fn spec_index_of(is_leaf: bool, recs: Seq<RecV>, q: Seq<u8>) -> (int, Cmp) {
    let w = first_not_gt(is_leaf, recs, q, 0);
    (w, cmp_at(is_leaf, recs, q, w))
}

/// A position below which every record compares greater, and which itself
/// compares not-greater or is the last, is the one `first_not_gt` finds.
proof fn lemma_first_not_gt_is(is_leaf: bool, recs: Seq<RecV>, q: Seq<u8>, i: int, w: int)
    requires
        0 <= i <= w < recs.len(),
        forall|j: int| i <= j < w ==> cmp_at(is_leaf, recs, q, j) == Cmp::Gt,
        cmp_at(is_leaf, recs, q, w) != Cmp::Gt || w == recs.len() - 1,
    ensures
        first_not_gt(is_leaf, recs, q, i) == w,
    decreases w - i,
{
    if i < w {
        lemma_first_not_gt_is(is_leaf, recs, q, i + 1, w);
    }
}

impl Record {
    pub fn new(key: EntryKey) -> (r: Self)
        ensures
            r@.key == key@,
            r@.value is None,
    {
        Self { key, value: None }
    }

    pub fn with_value(key: EntryKey, value: EntryValue) -> (r: Self)
        ensures
            r@.key == key@,
            r@.value == Some(value@),
    {
        Self { key, value: Some(value) }
    }

    /// The encoded size, saturated at `u64::MAX`.
    pub fn size(&self) -> (r: u64)
        ensures
            r == sat_cap(rec_size(self@)),
    {
        let ks = self.key.0.len();
        let mut size: u64 = sat_add(ks as u64, 4);
        if let Some(v) = &self.value {
            size = sat_add(size, sat_add(v.0.len() as u64, 4));
        }
        size
    }

    /// The encoded bytes of this record.
    pub fn bytes(&self) -> (r: Vec<u8>)
        requires
            rec_encodable(self@),
        ensures
            r@ == rec_bytes(self@),
    {
        let mut data: Vec<u8> = u32_to_u8v(self.key.0.len() as u32);
        let mut key_bytes = self.key.bytes();
        data.append(&mut key_bytes);
        if let Some(v) = &self.value {
            let mut size_bytes = u32_to_u8v(v.0.len() as u32);
            data.append(&mut size_bytes);
            let mut value_bytes = v.bytes();
            data.append(&mut value_bytes);
            proof {
                assert(data@ =~= rec_bytes(self@));
            }
        } else {
            proof {
                assert(data@ =~= rec_bytes(self@));
            }
        }
        data
    }
}

/// `n`, saturated at `u64::MAX`.
pub open spec fn sat_cap(n: nat) -> u64 {
    if n > u64::MAX {
        u64::MAX
    } else {
        n as u64
    }
}

/// Saturating addition on `u64`.
pub fn sat_add(a: u64, b: u64) -> (r: u64)
    ensures
        r == sat_cap(a as nat + b as nat),
{
    if a > u64::MAX - b {
        u64::MAX
    } else {
        a + b
    }
}

proof fn lemma_sat_add_cap(a: nat, b: nat)
    ensures
        sat_cap(sat_cap(a) as nat + b) == sat_cap(a + b),
{
}

proof fn lemma_sat_add_cap2(a: nat, b: nat)
    ensures
        sat_cap(sat_cap(a) as nat + sat_cap(b) as nat) == sat_cap(a + b),
{
}

impl Node {
    pub fn new(is_leaf: bool) -> (r: Self)
        ensures
            r@.is_leaf == is_leaf,
            r@.records =~= Seq::<RecV>::empty(),
            r@.children =~= Seq::<NodeV>::empty(),
    {
        let r = Self { is_leaf, records: Vec::new(), children: Vec::new() };
        proof {
            assert(r@.records =~= Seq::<RecV>::empty());
        }
        r
    }

    /// The exact on-disk uncompressed size of this node, saturated at
    /// `u64::MAX`.  Saturation keeps the comparison against a size limit
    /// exact for every limit below `u64::MAX`.
    pub fn size(&self) -> (r: u64)
        requires
            self.is_leaf || self.children@.len() == self.records@.len() + 1,
        ensures
            r == sat_cap(node_size(self.is_leaf, self@.records)),
    {
        let mut size: u64 = 5;
        let mut i: usize = 0;
        let n = self.records.len();
        while i < n
            invariant
                n == self.records@.len(),
                i <= n,
                size == sat_cap(5 + recs_size(recs_view(self.records@).take(i as int))),
            decreases n - i,
        {
            let ghost pre = recs_view(self.records@).take(i as int);
            let rs = self.records[i].size();
            size = sat_add(size, rs);
            proof {
                let post = recs_view(self.records@).take(i + 1 as int);
                lemma_recs_size_push(pre, self.records@[i as int]@);
                assert(post =~= pre.push(self.records@[i as int]@));
                lemma_sat_add_cap(5 + recs_size(pre), rec_size(self.records@[i as int]@));
                lemma_sat_add_cap(rec_size(self.records@[i as int]@), 5 + recs_size(pre));
            }
            i = i + 1;
        }
        proof {
            assert(recs_view(self.records@).take(n as int) =~= recs_view(self.records@));
        }
        let ghost all = recs_view(self.records@);
        if self.is_leaf {
            size = sat_add(size, 12);
            proof {
                lemma_sat_add_cap(5 + recs_size(all), 12);
            }
        } else {
            let cc = self.children.len() as u64;
            let block = sat_mul12(cc);
            size = sat_add(size, block);
            proof {
                lemma_sat_add_cap2(5 + recs_size(all), 12 * cc as nat);
                assert(cc as nat == self.records@.len() + 1);
            }
        }
        size
    }

    /// Whether the encoded size exceeds `limit`.  Exact for every
    /// `limit < u64::MAX` even when the size itself saturates.
    pub fn oversized(&self, limit: u64) -> (r: bool)
        requires
            limit < u64::MAX,
            self.is_leaf || self.children@.len() == self.records@.len() + 1,
        ensures
            r == (node_size(self.is_leaf, self@.records) > limit),
    {
        self.size() > limit
    }
}

/// `12 * n`, saturated at `u64::MAX`.
fn sat_mul12(n: u64) -> (r: u64)
    ensures
        r == sat_cap(12 * n as nat),
{
    if n > u64::MAX / 12 {
        proof {
            assert(12 * n as nat > u64::MAX) by (nonlinear_arith)
                requires
                    n as nat > u64::MAX as nat / 12,
            ;
        }
        u64::MAX
    } else {
        proof {
            assert(12 * n as nat <= u64::MAX) by (nonlinear_arith)
                requires
                    n as nat <= u64::MAX as nat / 12,
            ;
        }
        12 * n
    }
}

impl Node {
    /// Compare the smoothed query `q` against record `i` under this node's
    /// comparison.
    fn cmp_rec(&self, i: usize, q: &Vec<u8>) -> (r: Cmp)
        requires
            i < self.records@.len(),
        ensures
            r == lex_cmp(q@, key_at(self.is_leaf, self@.records, i as int)),
    {
        if self.is_leaf {
            let sk = smooth_bytes(self.records[i].key.0.as_slice());
            cmp_bytes(q.as_slice(), sk.as_slice())
        } else {
            cmp_bytes(q.as_slice(), self.records[i].key.0.as_slice())
        }
    }

    /// Binary search for `key` under this node's comparison: the query is
    /// smoothed, the stored side is smoothed only in a leaf.  Returns the
    /// least index whose record is not less than the key, with the final
    /// comparison; when the key is greater than every record, returns the
    /// last index and `Gt`.
    pub fn index_of(&self, key: &EntryKey) -> (r: (usize, Cmp))
        requires
            self.records@.len() >= 1,
            node_sorted(self.is_leaf, self@.records),
        ensures
            r.0 < self.records@.len(),
            r.1 == cmp_at(self.is_leaf, self@.records, key@, r.0 as int),
            forall|j: int|
                0 <= j < r.0 ==> cmp_at(self.is_leaf, self@.records, key@, j) == Cmp::Gt,
            r.1 == Cmp::Gt ==> r.0 == self.records@.len() - 1,
            (r.0 as int, r.1) == spec_index_of(self.is_leaf, self@.records, key@),
    {
        let ghost recs = self@.records;
        let ghost leaf = self.is_leaf;
        let q = smooth_bytes(key.0.as_slice());
        let n = self.records.len();
        proof {
            assert(recs.len() == n) by {
                assert(recs == recs_view(self.records@));
            }
        }
        let mut lo: usize = 0;
        let mut hi: usize = n;
        while lo < hi
            invariant
                lo <= hi <= n,
                n == recs.len(),
                n >= 1,
                recs == self@.records,
                leaf == self.is_leaf,
                n == self.records@.len(),
                node_sorted(leaf, recs),
                q@ == smoothed(key@),
                forall|j: int| 0 <= j < lo ==> cmp_at(leaf, recs, key@, j) == Cmp::Gt,
                forall|j: int| hi <= j < n ==> cmp_at(leaf, recs, key@, j) != Cmp::Gt,
            decreases hi - lo,
        {
            let mid = lo + (hi - lo) / 2;
            let c = self.cmp_rec(mid, &q);
            if c.is_gt() {
                proof {
                    assert forall|j: int| 0 <= j < mid + 1 implies cmp_at(leaf, recs, key@, j)
                        == Cmp::Gt by {
                        if lo <= j < mid {
                            crate::keys::lemma_lex_cmp_flip(key_at(leaf, recs, mid as int), q@);
                            crate::keys::lemma_lex_cmp_trans(
                                key_at(leaf, recs, j),
                                key_at(leaf, recs, mid as int),
                                q@,
                            );
                            crate::keys::lemma_lex_cmp_flip(key_at(leaf, recs, j), q@);
                        }
                    }
                }
                lo = mid + 1;
            } else {
                proof {
                    assert forall|j: int| mid <= j < n implies cmp_at(leaf, recs, key@, j)
                        != Cmp::Gt by {
                        if mid < j {
                            crate::keys::lemma_lex_cmp_trans(
                                q@,
                                key_at(leaf, recs, mid as int),
                                key_at(leaf, recs, j),
                            );
                        }
                    }
                }
                hi = mid;
            }
        }
        if lo < n {
            let c = self.cmp_rec(lo, &q);
            proof {
                lemma_first_not_gt_is(leaf, recs, key@, 0, lo as int);
            }
            (lo, c)
        } else {
            let c = self.cmp_rec(n - 1, &q);
            proof {
                lemma_first_not_gt_is(leaf, recs, key@, 0, n - 1);
            }
            (n - 1, c)
        }
    }

    /// The uncompressed encoding of this node, with `ptrs` as the child
    /// pointer block (the one "next leaf" pointer of a leaf, or one pointer
    /// per child of an index node).
    pub fn bytes(&self, ptrs: &Vec<(u64, u32)>) -> (r: Vec<u8>)
        requires
            recs_encodable(self@.records),
        ensures
            r@ == node_bytes(self.is_leaf, self@.records, ptrs@),
    {
        let ghost recs = self@.records;
        let mut buf: Vec<u8> = Vec::new();
        if self.is_leaf {
            buf.push(0u8);
        } else {
            buf.push(1u8);
        }
        let mut count_bytes = u32_to_u8v(self.records.len() as u32);
        buf.append(&mut count_bytes);
        proof {
            assert(recs.len() == self.records@.len());
            assert(buf@ =~= seq![if self.is_leaf { 0u8 } else { 1u8 }].add(
                be_bytes(recs.len(), 4),
            ));
        }
        let ghost header = buf@;
        let mut i: usize = 0;
        let n = self.records.len();
        while i < n
            invariant
                n == self.records@.len(),
                recs == self@.records,
                recs_encodable(recs),
                i <= n,
                buf@ == header.add(recs_bytes(recs.take(i as int))),
            decreases n - i,
        {
            let mut rb = self.records[i].bytes();
            proof {
                assert(recs[i as int] == self.records@[i as int]@);
                lemma_recs_bytes_push(recs.take(i as int), recs[i as int]);
                assert(recs.take(i + 1 as int) =~= recs.take(i as int).push(recs[i as int]));
            }
            buf.append(&mut rb);
            i = i + 1;
        }
        proof {
            assert(recs.take(n as int) =~= recs);
        }
        let ghost whole = buf@;
        let mut j: usize = 0;
        let m = ptrs.len();
        while j < m
            invariant
                m == ptrs@.len(),
                j <= m,
                buf@ == whole.add(ptrs_bytes(ptrs@.take(j as int))),
            decreases m - j,
        {
            let (off, sz) = ptrs[j];
            let mut ob = u64_to_u8v(off);
            buf.append(&mut ob);
            let mut sb = u32_to_u8v(sz);
            buf.append(&mut sb);
            proof {
                lemma_ptrs_bytes_push(ptrs@.take(j as int), ptrs@[j as int]);
                assert(ptrs@.take(j + 1 as int) =~= ptrs@.take(j as int).push(ptrs@[j as int]));
            }
            j = j + 1;
        }
        proof {
            assert(ptrs@.take(m as int) =~= ptrs@);
            assert(buf@ =~= node_bytes(self.is_leaf, recs, ptrs@));
        }
        buf
    }
}

/// Appending one record appends its bytes.
pub proof fn lemma_recs_bytes_push(rs: Seq<RecV>, r: RecV)
    ensures
        recs_bytes(rs.push(r)) == recs_bytes(rs).add(rec_bytes(r)),
    decreases rs.len(),
{
    if rs.len() == 0 {
        assert(rs.push(r).first() == r);
        assert(rs.push(r).drop_first() =~= Seq::<RecV>::empty());
        assert(recs_bytes(rs.push(r)) == rec_bytes(r).add(
            recs_bytes(rs.push(r).drop_first()),
        ));
        assert(recs_bytes(Seq::<RecV>::empty()) == Seq::<u8>::empty());
        assert(rec_bytes(r).add(Seq::<u8>::empty()) =~= rec_bytes(r));
        assert(recs_bytes(rs).add(rec_bytes(r)) =~= rec_bytes(r));
    } else {
        assert(rs.push(r).first() == rs.first());
        assert(rs.push(r).drop_first() =~= rs.drop_first().push(r));
        lemma_recs_bytes_push(rs.drop_first(), r);
        assert(recs_bytes(rs.push(r)) =~= recs_bytes(rs).add(rec_bytes(r)));
    }
}

/// Appending one pointer appends its bytes.
pub proof fn lemma_ptrs_bytes_push(ps: Seq<(u64, u32)>, p: (u64, u32))
    ensures
        ptrs_bytes(ps.push(p)) == ptrs_bytes(ps).add(
            be_bytes(p.0 as nat, 8).add(be_bytes(p.1 as nat, 4)),
        ),
    decreases ps.len(),
{
    if ps.len() == 0 {
        assert(ps.push(p).first() == p);
        assert(ps.push(p).drop_first() =~= Seq::<(u64, u32)>::empty());
        assert(ptrs_bytes(ps.push(p)) == be_bytes(p.0 as nat, 8).add(
            be_bytes(p.1 as nat, 4).add(ptrs_bytes(ps.push(p).drop_first())),
        ));
        assert(ptrs_bytes(Seq::<(u64, u32)>::empty()) == Seq::<u8>::empty());
        assert(ptrs_bytes(ps.push(p)) =~= ptrs_bytes(ps).add(
            be_bytes(p.0 as nat, 8).add(be_bytes(p.1 as nat, 4)),
        ));
    } else {
        assert(ps.push(p).first() == ps.first());
        assert(ps.push(p).drop_first() =~= ps.drop_first().push(p));
        lemma_ptrs_bytes_push(ps.drop_first(), p);
        assert(ptrs_bytes(ps.push(p)) =~= ptrs_bytes(ps).add(
            be_bytes(p.0 as nat, 8).add(be_bytes(p.1 as nat, 4)),
        ));
    }
}

pub proof fn lemma_recs_size_push(rs: Seq<RecV>, r: RecV)
    ensures
        recs_size(rs.push(r)) == recs_size(rs) + rec_size(r),
    decreases rs.len(),
{
    if rs.len() == 0 {
        assert(rs.push(r).first() == r);
        assert(rs.push(r).drop_first() =~= Seq::<RecV>::empty());
        assert(recs_size(Seq::<RecV>::empty()) == 0);
    } else {
        assert(rs.push(r).first() == rs.first());
        assert(rs.push(r).drop_first() =~= rs.drop_first().push(r));
        lemma_recs_size_push(rs.drop_first(), r);
    }
}

/// Parse one record at `pos`: `u32 key_len | key | [u32 val_len | val]`,
/// the value present exactly when the node is a leaf.  `None` when the data
/// runs out.
pub open spec fn spec_parse_rec(data: Seq<u8>, pos: int, is_leaf: bool) -> Option<(RecV, int)> {
    if 0 <= pos && pos + 4 <= data.len() {
        let klen = be_val(data.subrange(pos, pos + 4)) as int;
        if pos + 4 + klen <= data.len() {
            let key = data.subrange(pos + 4, pos + 4 + klen);
            if is_leaf {
                if pos + 8 + klen <= data.len() {
                    let vlen = be_val(data.subrange(pos + 4 + klen, pos + 8 + klen)) as int;
                    if pos + 8 + klen + vlen <= data.len() {
                        Some(
                            (
                                RecV {
                                    key,
                                    value: Some(
                                        data.subrange(pos + 8 + klen, pos + 8 + klen + vlen),
                                    ),
                                },
                                pos + 8 + klen + vlen,
                            ),
                        )
                    } else {
                        None
                    }
                } else {
                    None
                }
            } else {
                Some((RecV { key, value: None }, pos + 4 + klen))
            }
        } else {
            None
        }
    } else {
        None
    }
}

/// Parse `count` records in sequence starting at `pos`.
pub open spec fn spec_parse_recs(data: Seq<u8>, pos: int, count: nat, is_leaf: bool) -> Option<
    (Seq<RecV>, int),
>
    decreases count,
{
    if count == 0 {
        Some((Seq::empty(), pos))
    } else {
        match spec_parse_rec(data, pos, is_leaf) {
            None => None,
            Some((r, p)) => match spec_parse_recs(data, p, (count - 1) as nat, is_leaf) {
                None => None,
                Some((rs, p2)) => Some((seq![r].add(rs), p2)),
            },
        }
    }
}

/// Parse `count` child pointers (`u64 offset | u32 size`) starting at `pos`.
pub open spec fn spec_parse_ptrs(data: Seq<u8>, pos: int, count: nat) -> Option<
    (Seq<(u64, u32)>, int),
>
    decreases count,
{
    if count == 0 {
        Some((Seq::empty(), pos))
    } else if 0 <= pos && pos + 12 <= data.len() {
        let off = be_val(data.subrange(pos, pos + 8)) as u64;
        let sz = be_val(data.subrange(pos + 8, pos + 12)) as u32;
        match spec_parse_ptrs(data, pos + 12, (count - 1) as nat) {
            None => None,
            Some((ps, p2)) => Some((seq![(off, sz)].add(ps), p2)),
        }
    } else {
        None
    }
}

/// Parse a complete node encoding.  `None` on a bad kind byte, truncated
/// data, or trailing bytes.
pub open spec fn spec_parse_node(data: Seq<u8>) -> Option<(bool, Seq<RecV>, Seq<(u64, u32)>)> {
    if data.len() >= 5 && (data[0] == 0 || data[0] == 1) {
        let is_leaf = data[0] == 0;
        let count = be_val(data.subrange(1, 5));
        match spec_parse_recs(data, 5, count, is_leaf) {
            None => None,
            Some((rs, p)) => match spec_parse_ptrs(data, p, child_count(is_leaf, count)) {
                None => None,
                Some((ps, p2)) => if p2 == data.len() {
                    Some((is_leaf, rs, ps))
                } else {
                    None
                },
            },
        }
    } else {
        None
    }
}

/// Records carry a value exactly when the node is a leaf.
pub open spec fn recs_leaf_shaped(rs: Seq<RecV>, is_leaf: bool) -> bool {
    forall|i: int| 0 <= i < rs.len() ==> ((#[trigger] rs[i].value) is Some <==> is_leaf)
}

impl Node {
    /// Decode a node: the node itself plus the child locations it stores,
    /// so the caller may page children in on demand.  `None` when the bytes
    /// are not a complete node encoding.
    pub fn from_bytes(data: &[u8]) -> (r: Option<(Node, Vec<(u64, u32)>)>)
        ensures
            match spec_parse_node(data@) {
                None => r is None,
                Some((l, rs, ps)) => r matches Some(p) && {
                    &&& p.0.is_leaf == l
                    &&& p.0@.records == rs
                    &&& p.0@.children.len() == 0
                    &&& p.1@ == ps
                },
            },
    {
        let mut scanner = Scanner::new(data);
        if scanner.remaining() < 5 {
            return None;
        }
        let kind = scanner.read_u8();
        if kind > 1 {
            return None;
        }
        let is_leaf = kind == 0;
        let rec_num = scanner.read_u32();
        proof {
            assert(data@.subrange(1, 5) =~= data@.subrange(1, 5));
        }
        let ghost count = be_val(data@.subrange(1, 5));
        proof {
            crate::codec::lemma_be_val_bound(data@.subrange(1, 5));
            crate::codec::lemma_pow256_vals();
            assert(rec_num as nat == count);
        }
        let mut records: Vec<Record> = Vec::new();
        let mut i: u32 = 0;
        while i < rec_num
            invariant
                i <= rec_num,
                rec_num as nat == count,
                is_leaf == (kind == 0),
                kind == data@[0],
                kind <= 1,
                data@.len() >= 5,
                count == be_val(data@.subrange(1, 5)),
                scanner.wf(),
                scanner.buf_spec() == data@,
                records@.len() == i,
                recs_leaf_shaped(recs_view(records@), is_leaf),
                spec_parse_recs(data@, 5, count, is_leaf) == match spec_parse_recs(
                    data@,
                    scanner.pos_spec() as int,
                    (count - i) as nat,
                    is_leaf,
                ) {
                    None => None::<(Seq<RecV>, int)>,
                    Some((rs, p)) => Some((recs_view(records@).add(rs), p)),
                },
            decreases rec_num - i,
        {
            let ghost pos0 = scanner.pos_spec() as int;
            let ghost parsed = recs_view(records@);
            if scanner.remaining() < 4 {
                proof {
                    assert(spec_parse_rec(data@, pos0, is_leaf) is None);
                    assert(spec_parse_recs(data@, pos0, (count - i) as nat, is_leaf) is None);
                    assert(spec_parse_node(data@) is None);
                }
                return None;
            }
            let klen = scanner.read_u32() as usize;
            if scanner.remaining() < klen {
                proof {
                    assert(spec_parse_rec(data@, pos0, is_leaf) is None);
                    assert(spec_parse_recs(data@, pos0, (count - i) as nat, is_leaf) is None);
                    assert(spec_parse_node(data@) is None);
                }
                return None;
            }
            let key_bytes = scanner.read(klen);
            let key = EntryKey(key_bytes);
            let rec: Record;
            if is_leaf {
                if scanner.remaining() < 4 {
                    proof {
                        assert(spec_parse_rec(data@, pos0, is_leaf) is None);
                        assert(spec_parse_recs(data@, pos0, (count - i) as nat, is_leaf) is None);
                        assert(spec_parse_node(data@) is None);
                    }
                    return None;
                }
                let vlen = scanner.read_u32() as usize;
                if scanner.remaining() < vlen {
                    proof {
                        assert(spec_parse_rec(data@, pos0, is_leaf) is None);
                        assert(spec_parse_recs(data@, pos0, (count - i) as nat, is_leaf) is None);
                        assert(spec_parse_node(data@) is None);
                    }
                    return None;
                }
                let value_bytes = scanner.read(vlen);
                rec = Record { key, value: Some(EntryValue(value_bytes)) };
            } else {
                rec = Record { key, value: None };
            }
            proof {
                let step = spec_parse_rec(data@, pos0, is_leaf);
                assert(step == Some((rec@, scanner.pos_spec() as int)));
                assert(spec_parse_recs(data@, pos0, (count - i) as nat, is_leaf)
                    == match spec_parse_recs(
                    data@,
                    scanner.pos_spec() as int,
                    (count - i - 1) as nat,
                    is_leaf,
                ) {
                    None => None::<(Seq<RecV>, int)>,
                    Some((rs, p)) => Some((seq![rec@].add(rs), p)),
                });
                assert(recs_view(records@.push(rec)) =~= parsed.push(rec@));
                assert forall|rs: Seq<RecV>|
                    parsed.add(seq![rec@].add(rs)) =~= parsed.push(rec@).add(rs) by {}
            }
            records.push(rec);
            i = i + 1;
        }
        // All records read; now the child pointer block.
        let cc: u64 = if is_leaf {
            1
        } else {
            (rec_num as u64) + 1
        };
        proof {
            assert(cc as nat == child_count(is_leaf, count));
            assert(spec_parse_recs(
                data@,
                scanner.pos_spec() as int,
                0,
                is_leaf,
            ) == Some((Seq::<RecV>::empty(), scanner.pos_spec() as int)));
            assert(recs_view(records@).add(Seq::empty()) =~= recs_view(records@));
        }
        let ghost recs_end = scanner.pos_spec() as int;
        let mut children: Vec<(u64, u32)> = Vec::new();
        let mut j: u64 = 0;
        while j < cc
            invariant
                j <= cc,
                is_leaf == (kind == 0),
                kind == data@[0],
                kind <= 1,
                data@.len() >= 5,
                count == be_val(data@.subrange(1, 5)),
                cc as nat == child_count(is_leaf, count),
                spec_parse_recs(data@, 5, count, is_leaf) == Some(
                    (recs_view(records@), recs_end),
                ),
                scanner.wf(),
                scanner.buf_spec() == data@,
                children@.len() == j,
                spec_parse_ptrs(data@, recs_end, cc as nat) == match spec_parse_ptrs(
                    data@,
                    scanner.pos_spec() as int,
                    (cc - j) as nat,
                ) {
                    None => None::<(Seq<(u64, u32)>, int)>,
                    Some((ps, p)) => Some((children@.add(ps), p)),
                },
            decreases cc - j,
        {
            let ghost pos0 = scanner.pos_spec() as int;
            let ghost parsed = children@;
            if scanner.remaining() < 12 {
                proof {
                    assert(spec_parse_ptrs(data@, pos0, (cc - j) as nat) is None);
                    assert(spec_parse_ptrs(data@, recs_end, cc as nat) is None);
                    assert(spec_parse_node(data@) is None);
                }
                return None;
            }
            let off = scanner.read_u64();
            let sz = scanner.read_u32();
            proof {
                crate::codec::lemma_be_val_bound(data@.subrange(pos0, pos0 + 8));
                crate::codec::lemma_be_val_bound(data@.subrange(pos0 + 8, pos0 + 12));
                crate::codec::lemma_pow256_vals();
                assert(spec_parse_ptrs(data@, pos0, (cc - j) as nat) == match spec_parse_ptrs(
                    data@,
                    pos0 + 12,
                    (cc - j - 1) as nat,
                ) {
                    None => None::<(Seq<(u64, u32)>, int)>,
                    Some((ps, p)) => Some((seq![(off, sz)].add(ps), p)),
                });
                assert forall|ps: Seq<(u64, u32)>|
                    parsed.add(seq![(off, sz)].add(ps)) =~= parsed.push((off, sz)).add(ps) by {}
            }
            children.push((off, sz));
            j = j + 1;
        }
        proof {
            assert(spec_parse_ptrs(
                data@,
                scanner.pos_spec() as int,
                0,
            ) == Some((Seq::<(u64, u32)>::empty(), scanner.pos_spec() as int)));
            assert(children@.add(Seq::empty()) =~= children@);
        }
        if !scanner.is_end() {
            return None;
        }
        let node = Node { is_leaf, records, children: Vec::new() };
        proof {
            assert(node@.children =~= Seq::<NodeV>::empty());
        }
        Some((node, children))
    }
}

/// Parsing one emitted record returns it.
pub proof fn lemma_parse_rec_at(data: Seq<u8>, pos: int, r: RecV, is_leaf: bool)
    requires
        rec_encodable(r),
        (r.value is Some) == is_leaf,
        0 <= pos,
        pos + rec_size(r) <= data.len(),
        data.subrange(pos, pos + rec_size(r)) == rec_bytes(r),
    ensures
        spec_parse_rec(data, pos, is_leaf) == Some((r, pos + rec_size(r))),
{
    crate::codec::lemma_pow256_vals();
    lemma_rec_bytes_len(r);
    crate::codec::lemma_be_bytes_len(r.key.len(), 4);
    let klen = r.key.len() as int;
    assert(data.subrange(pos, pos + 4) =~= be_bytes(r.key.len(), 4)) by {
        assert forall|k: int| 0 <= k < 4 implies data.subrange(pos, pos + 4)[k] == be_bytes(
            r.key.len(),
            4,
        )[k] by {
            assert(data.subrange(pos, pos + rec_size(r) as int)[k] == rec_bytes(r)[k]);
        }
    }
    crate::codec::lemma_be_round_trip(r.key.len(), 4);
    assert(data.subrange(pos + 4, pos + 4 + klen) =~= r.key) by {
        assert forall|k: int| 0 <= k < klen implies data.subrange(pos + 4, pos + 4 + klen)[k]
            == r.key[k] by {
            assert(data.subrange(pos, pos + rec_size(r) as int)[4 + k] == rec_bytes(r)[4 + k]);
        }
    }
    match r.value {
        Some(v) => {
            crate::codec::lemma_be_bytes_len(v.len(), 4);
            assert(data.subrange(pos + 4 + klen, pos + 8 + klen) =~= be_bytes(v.len(), 4)) by {
                assert forall|k: int| 0 <= k < 4 implies data.subrange(
                    pos + 4 + klen,
                    pos + 8 + klen,
                )[k] == be_bytes(v.len(), 4)[k] by {
                    assert(data.subrange(pos, pos + rec_size(r) as int)[4 + klen + k]
                        == rec_bytes(r)[4 + klen + k]);
                }
            }
            crate::codec::lemma_be_round_trip(v.len(), 4);
            let vlen = v.len() as int;
            assert(data.subrange(pos + 8 + klen, pos + 8 + klen + vlen) =~= v) by {
                assert forall|k: int| 0 <= k < vlen implies data.subrange(
                    pos + 8 + klen,
                    pos + 8 + klen + vlen,
                )[k] == v[k] by {
                    assert(data.subrange(pos, pos + rec_size(r) as int)[8 + klen + k]
                        == rec_bytes(r)[8 + klen + k]);
                }
            }
        },
        None => {},
    }
}

/// Parsing an emitted record list returns it.
pub proof fn lemma_parse_recs_at(data: Seq<u8>, pos: int, rs: Seq<RecV>, is_leaf: bool)
    requires
        forall|i: int| 0 <= i < rs.len() ==> rec_encodable(#[trigger] rs[i]),
        recs_leaf_shaped(rs, is_leaf),
        0 <= pos,
        pos + recs_bytes(rs).len() <= data.len(),
        data.subrange(pos, pos + recs_bytes(rs).len()) == recs_bytes(rs),
    ensures
        spec_parse_recs(data, pos, rs.len(), is_leaf) == Some((rs, pos + recs_bytes(rs).len())),
    decreases rs.len(),
{
    if rs.len() == 0 {
        assert(spec_parse_recs(data, pos, 0, is_leaf) == Some((Seq::<RecV>::empty(), pos)));
        assert(rs =~= Seq::<RecV>::empty());
    } else {
        let r = rs.first();
        let rest = rs.drop_first();
        lemma_rec_bytes_len(r);
        lemma_recs_bytes_len(rs);
        lemma_recs_bytes_len(rest);
        let rlen = rec_bytes(r).len() as int;
        let total = recs_bytes(rs).len() as int;
        assert(recs_bytes(rs) == rec_bytes(r).add(recs_bytes(rest)));
        assert(data.subrange(pos, pos + rlen) =~= rec_bytes(r)) by {
            assert forall|k: int| 0 <= k < rlen implies data.subrange(pos, pos + rlen)[k]
                == rec_bytes(r)[k] by {
                assert(data.subrange(pos, pos + total)[k] == recs_bytes(rs)[k]);
            }
        }
        assert(rs[0] == r);
        lemma_parse_rec_at(data, pos, r, is_leaf);
        let pos2 = pos + rec_size(r) as int;
        assert(data.subrange(pos2, pos2 + recs_bytes(rest).len()) =~= recs_bytes(rest)) by {
            assert forall|k: int| 0 <= k < recs_bytes(rest).len() implies data.subrange(
                pos2,
                pos2 + recs_bytes(rest).len(),
            )[k] == recs_bytes(rest)[k] by {
                assert(data.subrange(pos, pos + total)[rlen + k] == recs_bytes(rs)[rlen + k]);
            }
        }
        assert forall|i: int| 0 <= i < rest.len() implies rec_encodable(#[trigger] rest[i]) by {
            assert(rest[i] == rs[i + 1]);
        }
        assert forall|i: int| 0 <= i < rest.len() implies ((#[trigger] rest[i].value) is Some
            <==> is_leaf) by {
            assert(rest[i] == rs[i + 1]);
        }
        lemma_parse_recs_at(data, pos2, rest, is_leaf);
        assert(seq![r].add(rest) =~= rs);
    }
}

/// Parsing an emitted pointer block returns it.
pub proof fn lemma_parse_ptrs_at(data: Seq<u8>, pos: int, ps: Seq<(u64, u32)>)
    requires
        0 <= pos,
        pos + 12 * ps.len() <= data.len(),
        data.subrange(pos, pos + 12 * ps.len()) == ptrs_bytes(ps),
    ensures
        spec_parse_ptrs(data, pos, ps.len()) == Some((ps, pos + 12 * ps.len())),
    decreases ps.len(),
{
    lemma_ptrs_bytes_len(ps);
    if ps.len() == 0 {
        assert(ps =~= Seq::<(u64, u32)>::empty());
    } else {
        crate::codec::lemma_pow256_vals();
        let (off, sz) = ps.first();
        let rest = ps.drop_first();
        lemma_ptrs_bytes_len(rest);
        crate::codec::lemma_be_bytes_len(off as nat, 8);
        crate::codec::lemma_be_bytes_len(sz as nat, 4);
        let total = 12 * ps.len() as int;
        assert(data.subrange(pos, pos + 8) =~= be_bytes(off as nat, 8)) by {
            assert forall|k: int| 0 <= k < 8 implies data.subrange(pos, pos + 8)[k] == be_bytes(
                off as nat,
                8,
            )[k] by {
                assert(data.subrange(pos, pos + total)[k] == ptrs_bytes(ps)[k]);
            }
        }
        assert(data.subrange(pos + 8, pos + 12) =~= be_bytes(sz as nat, 4)) by {
            assert forall|k: int| 0 <= k < 4 implies data.subrange(pos + 8, pos + 12)[k]
                == be_bytes(sz as nat, 4)[k] by {
                assert(data.subrange(pos, pos + total)[8 + k] == ptrs_bytes(ps)[8 + k]);
            }
        }
        crate::codec::lemma_be_round_trip(off as nat, 8);
        crate::codec::lemma_be_round_trip(sz as nat, 4);
        assert(data.subrange(pos + 12, pos + 12 + 12 * rest.len()) =~= ptrs_bytes(rest)) by {
            assert forall|k: int| 0 <= k < 12 * rest.len() implies data.subrange(
                pos + 12,
                pos + 12 + 12 * rest.len(),
            )[k] == ptrs_bytes(rest)[k] by {
                assert(data.subrange(pos, pos + total)[12 + k] == ptrs_bytes(ps)[12 + k]);
            }
        }
        lemma_parse_ptrs_at(data, pos + 12, rest);
        assert(seq![(off, sz)].add(rest) =~= ps);
    }
}

/// Parsing an emitted node returns it whole: the decoder inverts the
/// encoder on every encodable node.
pub proof fn lemma_parse_node_bytes(is_leaf: bool, rs: Seq<RecV>, ps: Seq<(u64, u32)>)
    requires
        recs_encodable(rs),
        recs_leaf_shaped(rs, is_leaf),
        ps.len() == child_count(is_leaf, rs.len()),
    ensures
        spec_parse_node(node_bytes(is_leaf, rs, ps)) == Some((is_leaf, rs, ps)),
{
    let data = node_bytes(is_leaf, rs, ps);
    crate::codec::lemma_pow256_vals();
    crate::codec::lemma_be_bytes_len(rs.len(), 4);
    lemma_recs_bytes_len(rs);
    lemma_ptrs_bytes_len(ps);
    lemma_node_bytes_len(is_leaf, rs, ps);
    assert(data[0] == if is_leaf { 0u8 } else { 1u8 });
    assert(data.subrange(1, 5) =~= be_bytes(rs.len(), 4));
    crate::codec::lemma_be_round_trip(rs.len(), 4);
    let clen = recs_bytes(rs).len() as int;
    assert(data.subrange(5, 5 + clen) =~= recs_bytes(rs));
    lemma_parse_recs_at(data, 5, rs, is_leaf);
    let pos2 = 5 + clen;
    assert(data.subrange(pos2, pos2 + 12 * ps.len()) =~= ptrs_bytes(ps));
    lemma_parse_ptrs_at(data, pos2, ps);
    assert(pos2 + 12 * ps.len() == data.len());
}

/// The record list a successful parse yields has exactly the declared count,
/// and a successful node parse yields as many records as its count field.
pub proof fn lemma_parse_recs_len(data: Seq<u8>, pos: int, count: nat, is_leaf: bool)
    ensures
        spec_parse_recs(data, pos, count, is_leaf) matches Some(p) ==> p.0.len() == count,
    decreases count,
{
    if count > 0 {
        match spec_parse_rec(data, pos, is_leaf) {
            None => {},
            Some((r, p2)) => {
                lemma_parse_recs_len(data, p2, (count - 1) as nat, is_leaf);
            },
        }
    }
}

/// A successfully parsed node's record list length equals its count field.
pub proof fn lemma_parse_recs_count(raw: Seq<u8>)
    ensures
        spec_parse_node(raw) matches Some(t) ==> t.1.len() == be_val(raw.subrange(1, 5)),
{
    if raw.len() >= 5 && (raw[0] == 0 || raw[0] == 1) {
        lemma_parse_recs_len(raw, 5, be_val(raw.subrange(1, 5)), raw[0] == 0);
    }
}

/// The records a leaf parse yields carry values; an index parse yields none.
pub proof fn lemma_parse_recs_values(data: Seq<u8>, pos: int, count: nat, is_leaf: bool)
    ensures
        spec_parse_recs(data, pos, count, is_leaf) matches Some(p) ==> recs_leaf_shaped(
            p.0,
            is_leaf,
        ),
    decreases count,
{
    if count > 0 {
        match spec_parse_rec(data, pos, is_leaf) {
            None => {},
            Some((r, p2)) => {
                lemma_parse_recs_values(data, p2, (count - 1) as nat, is_leaf);
                match spec_parse_recs(data, p2, (count - 1) as nat, is_leaf) {
                    None => {},
                    Some((rs, _p3)) => {
                        assert forall|i: int| 0 <= i < seq![r].add(rs).len() implies ((
                        #[trigger] seq![r].add(rs)[i].value) is Some <==> is_leaf) by {
                            if i > 0 {
                                assert(seq![r].add(rs)[i] == rs[i - 1]);
                            }
                        }
                    },
                }
            },
        }
    }
}

} // verus!
