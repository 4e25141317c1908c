//! The build-time B+ tree: insertion with node splitting, post-order
//! serialization, and reconstruction from a serialized image.
//!
//! The tree's abstract content is the concatenation of its leaf records in
//! leaf order, `node_recs`.  Well-formedness (`node_wf`) carries the key
//! invariants: leaf records sorted by smoothed key, index separators sorted
//! raw, every record of child `i` at most separator `i` (smoothed), every
//! record of child `i + 1` at least separator `i`.

use crate::compress::{deflate_bytes, deflate_len_of, inflate_bytes, inflate_of};
use crate::keys::{lex_cmp, smoothed, Cmp, EntryKey, EntryValue};
use crate::node::{
    rec_encodable,
    child_count, children_view, cmp_at, key_at, lemma_children_view_len, node_bytes, node_size,
    node_sorted, node_view, recs_encodable, recs_leaf_shaped, recs_view, spec_parse_node, Node,
    NodeV, RecV, Record,
};
use vstd::prelude::*;
use vstd::seq_lib::lemma_multiset_commutative;

verus! {

/// All records stored in the subtree, in leaf order.
pub open spec fn node_recs(nv: NodeV) -> Seq<RecV>
    decreases nv,
{
    if nv.is_leaf {
        nv.records
    } else {
        children_recs(nv.children)
    }
}

/// The concatenated records of a run of subtrees.
pub open spec fn children_recs(cs: Seq<NodeV>) -> Seq<RecV>
    decreases cs,
{
    if cs.len() == 0 {
        Seq::empty()
    } else {
        children_recs(cs.drop_last()).add(node_recs(cs.last()))
    }
}

/// Every record's smoothed key is at most `b`.
pub open spec fn all_le(rs: Seq<RecV>, b: Seq<u8>) -> bool {
    forall|i: int| 0 <= i < rs.len() ==> lex_cmp(smoothed(#[trigger] rs[i].key), b) != Cmp::Gt
}

/// Every record's smoothed key is at least `b`.
pub open spec fn all_ge(rs: Seq<RecV>, b: Seq<u8>) -> bool {
    forall|i: int| 0 <= i < rs.len() ==> lex_cmp(smoothed(#[trigger] rs[i].key), b) != Cmp::Lt
}

/// Records sorted by smoothed key (non-strict: equal smoothed keys are
/// allowed, raw spellings of one smoothed form cluster together).
pub open spec fn recs_sorted(rs: Seq<RecV>) -> bool {
    forall|i: int, j: int|
        0 <= i < j < rs.len() ==> lex_cmp(
            smoothed(#[trigger] rs[i].key),
            smoothed(#[trigger] rs[j].key),
        ) != Cmp::Gt
}

/// Within one smoothed form, spellings sit in ascending raw order: the
/// order the tie-aware insertion position keeps inside every leaf, and what
/// makes a run's first spelling its byte-least variant.
pub open spec fn ties_raw_sorted(rs: Seq<RecV>) -> bool {
    forall|i: int, j: int|
        0 <= i < j < rs.len() && smoothed((#[trigger] rs[i]).key) == smoothed(
            (#[trigger] rs[j]).key,
        ) ==> lex_cmp(rs[i].key, rs[j].key) != Cmp::Gt
}

/// Every leaf of the subtree keeps its smoothed ties in ascending raw order.
pub open spec fn leaf_ties_sorted(nv: NodeV) -> bool
    decreases nv,
{
    if nv.is_leaf {
        ties_raw_sorted(nv.records)
    } else {
        forall|i: int| 0 <= i < nv.children.len() ==> leaf_ties_sorted(#[trigger] nv.children[i])
    }
}

/// Well-formedness of the subtrees of an index node.
pub open spec fn children_wf(cs: Seq<NodeV>) -> bool
    decreases cs,
{
    if cs.len() == 0 {
        true
    } else {
        children_wf(cs.drop_last()) && node_wf(cs.last())
    }
}

/// Well-formedness of a build-time node.
pub open spec fn node_wf(nv: NodeV) -> bool
    decreases nv,
{
    if nv.is_leaf {
        &&& nv.children.len() == 0
        &&& forall|i: int| 0 <= i < nv.records.len() ==> (#[trigger] nv.records[i]).value is Some
        &&& recs_sorted(nv.records)
        &&& ties_raw_sorted(nv.records)
    } else {
        &&& nv.records.len() >= 1
        &&& nv.children.len() == nv.records.len() + 1
        &&& forall|i: int| 0 <= i < nv.records.len() ==> (#[trigger] nv.records[i]).value is None
        &&& node_sorted(false, nv.records)
        &&& children_wf(nv.children)
        &&& forall|i: int|
            0 <= i < nv.children.len() ==> node_recs(#[trigger] nv.children[i]).len() >= 1
        &&& forall|i: int|
            0 <= i < nv.records.len() ==> all_le(
                node_recs(nv.children[i]),
                (#[trigger] nv.records[i]).key,
            )
        &&& forall|i: int|
            0 <= i < nv.records.len() ==> all_ge(
                node_recs(nv.children[i + 1]),
                (#[trigger] nv.records[i]).key,
            )
    }
}

pub proof fn lemma_children_wf_elem(cs: Seq<NodeV>)
    requires
        children_wf(cs),
    ensures
        forall|i: int| 0 <= i < cs.len() ==> node_wf(#[trigger] cs[i]),
    decreases cs.len(),
{
    if cs.len() > 0 {
        lemma_children_wf_elem(cs.drop_last());
        assert forall|i: int| 0 <= i < cs.len() implies node_wf(#[trigger] cs[i]) by {
            if i < cs.len() - 1 {
                assert(cs.drop_last()[i] == cs[i]);
            } else {
                assert(cs.last() == cs[i]);
            }
        }
    }
}

pub proof fn lemma_children_wf_from_elems(cs: Seq<NodeV>)
    requires
        forall|i: int| 0 <= i < cs.len() ==> node_wf(#[trigger] cs[i]),
    ensures
        children_wf(cs),
    decreases cs.len(),
{
    if cs.len() > 0 {
        assert forall|i: int| 0 <= i < cs.drop_last().len() implies node_wf(
            #[trigger] cs.drop_last()[i],
        ) by {
            assert(cs.drop_last()[i] == cs[i]);
        }
        lemma_children_wf_from_elems(cs.drop_last());
        assert(cs.last() == cs[cs.len() - 1]);
    }
}

/// Concatenation distributes over `children_recs`.
pub proof fn lemma_children_recs_add(a: Seq<NodeV>, b: Seq<NodeV>)
    ensures
        children_recs(a.add(b)) == children_recs(a).add(children_recs(b)),
    decreases b.len(),
{
    if b.len() == 0 {
        assert(a.add(b) =~= a);
        assert(children_recs(a).add(children_recs(b)) =~= children_recs(a));
    } else {
        assert(a.add(b).drop_last() =~= a.add(b.drop_last()));
        assert(a.add(b).last() == b.last());
        lemma_children_recs_add(a, b.drop_last());
        assert(children_recs(a).add(children_recs(b.drop_last())).add(node_recs(b.last()))
            =~= children_recs(a).add(children_recs(b.drop_last()).add(node_recs(b.last()))));
    }
}

/// `children_recs` of one subtree is that subtree's records.
pub proof fn lemma_children_recs_one(c: NodeV)
    ensures
        children_recs(seq![c]) == node_recs(c),
{
    assert(seq![c].drop_last() =~= Seq::<NodeV>::empty());
    assert(children_recs(seq![c]) == children_recs(Seq::<NodeV>::empty()).add(node_recs(c)));
    assert(children_recs(Seq::<NodeV>::empty()).add(node_recs(c)) =~= node_recs(c));
}

/// Split a run of subtrees at `i`: the concatenation splits with it.
pub proof fn lemma_children_recs_split(cs: Seq<NodeV>, i: int)
    requires
        0 <= i < cs.len(),
    ensures
        children_recs(cs) == children_recs(cs.take(i)).add(node_recs(cs[i])).add(
            children_recs(cs.skip(i + 1)),
        ),
{
    assert(cs =~= cs.take(i).add(seq![cs[i]]).add(cs.skip(i + 1)));
    lemma_children_recs_add(cs.take(i).add(seq![cs[i]]), cs.skip(i + 1));
    lemma_children_recs_add(cs.take(i), seq![cs[i]]);
    lemma_children_recs_one(cs[i]);
}

/// A bound that holds of every subtree's records holds of the
/// concatenation.
pub proof fn lemma_children_recs_all_le(cs: Seq<NodeV>, b: Seq<u8>)
    requires
        forall|i: int| 0 <= i < cs.len() ==> all_le(node_recs(#[trigger] cs[i]), b),
    ensures
        all_le(children_recs(cs), b),
    decreases cs.len(),
{
    if cs.len() > 0 {
        assert forall|i: int| 0 <= i < cs.drop_last().len() implies all_le(
            node_recs(#[trigger] cs.drop_last()[i]),
            b,
        ) by {
            assert(cs.drop_last()[i] == cs[i]);
        }
        lemma_children_recs_all_le(cs.drop_last(), b);
        assert(cs.last() == cs[cs.len() - 1]);
        let l = children_recs(cs.drop_last());
        let r = node_recs(cs.last());
        assert forall|k: int| 0 <= k < children_recs(cs).len() implies lex_cmp(
            smoothed(#[trigger] children_recs(cs)[k].key),
            b,
        ) != Cmp::Gt by {
            if k < l.len() {
                assert(children_recs(cs)[k] == l[k]);
            } else {
                assert(children_recs(cs)[k] == r[k - l.len()]);
            }
        }
    }
}

pub proof fn lemma_children_recs_all_ge(cs: Seq<NodeV>, b: Seq<u8>)
    requires
        forall|i: int| 0 <= i < cs.len() ==> all_ge(node_recs(#[trigger] cs[i]), b),
    ensures
        all_ge(children_recs(cs), b),
    decreases cs.len(),
{
    if cs.len() > 0 {
        assert forall|i: int| 0 <= i < cs.drop_last().len() implies all_ge(
            node_recs(#[trigger] cs.drop_last()[i]),
            b,
        ) by {
            assert(cs.drop_last()[i] == cs[i]);
        }
        lemma_children_recs_all_ge(cs.drop_last(), b);
        assert(cs.last() == cs[cs.len() - 1]);
        let l = children_recs(cs.drop_last());
        let r = node_recs(cs.last());
        assert forall|k: int| 0 <= k < children_recs(cs).len() implies lex_cmp(
            smoothed(#[trigger] children_recs(cs)[k].key),
            b,
        ) != Cmp::Lt by {
            if k < l.len() {
                assert(children_recs(cs)[k] == l[k]);
            } else {
                assert(children_recs(cs)[k] == r[k - l.len()]);
            }
        }
    }
}

/// Two sorted runs separated by a bound concatenate to a sorted run.
pub proof fn lemma_concat_sorted(a: Seq<RecV>, b: Seq<RecV>, sep: Seq<u8>)
    requires
        recs_sorted(a),
        recs_sorted(b),
        all_le(a, sep),
        all_ge(b, sep),
    ensures
        recs_sorted(a.add(b)),
{
    let c = a.add(b);
    assert forall|i: int, j: int| 0 <= i < j < c.len() implies lex_cmp(
        smoothed(#[trigger] c[i].key),
        smoothed(#[trigger] c[j].key),
    ) != Cmp::Gt by {
        if i < a.len() && j < a.len() {
            assert(c[i] == a[i] && c[j] == a[j]);
        } else if i >= a.len() {
            assert(c[i] == b[i - a.len()] && c[j] == b[j - a.len()]);
        } else {
            assert(c[i] == a[i] && c[j] == b[j - a.len()]);
            crate::keys::lemma_lex_cmp_flip(smoothed(b[j - a.len()].key), sep);
            crate::keys::lemma_lex_cmp_trans(smoothed(a[i].key), sep, smoothed(b[j - a.len()].key));
        }
    }
}

/// The records of a well-formed subtree are sorted by smoothed key.
pub proof fn lemma_wf_sorted(nv: NodeV)
    requires
        node_wf(nv),
    ensures
        recs_sorted(node_recs(nv)),
    decreases nv, 1int,
{
    if nv.is_leaf {
    } else {
        lemma_wf_sorted_children(nv, nv.children.len() as int);
        assert(nv.children.take(nv.children.len() as int) =~= nv.children);
    }
}

/// Induction over a prefix of an index node's children: the prefix
/// concatenation is sorted and bounded by the separator to its right.
proof fn lemma_wf_sorted_children(nv: NodeV, t: int)
    requires
        node_wf(nv),
        !nv.is_leaf,
        1 <= t <= nv.children.len(),
    ensures
        recs_sorted(children_recs(nv.children.take(t))),
        t <= nv.records.len() ==> all_le(children_recs(nv.children.take(t)), nv.records[t - 1].key),
    decreases nv, 0int, t,
{
    lemma_children_wf_elem(nv.children);
    if t == 1 {
        assert(decreases_to!(nv => nv.children));
        assert(decreases_to!(nv.children => nv.children[0]));
        lemma_wf_sorted(nv.children[0]);
        assert(nv.children.take(1) =~= seq![nv.children[0]]);
        lemma_children_recs_one(nv.children[0]);
    } else {
        lemma_wf_sorted_children(nv, t - 1);
        assert(decreases_to!(nv => nv.children));
        assert(decreases_to!(nv.children => nv.children[t - 1]));
        lemma_wf_sorted(nv.children[t - 1]);
        assert(nv.children.take(t) =~= nv.children.take(t - 1).add(seq![nv.children[t - 1]]));
        lemma_children_recs_add(nv.children.take(t - 1), seq![nv.children[t - 1]]);
        lemma_children_recs_one(nv.children[t - 1]);
        // prefix <= sep(t-2) <= everything in child t-1
        lemma_concat_sorted(
            children_recs(nv.children.take(t - 1)),
            node_recs(nv.children[t - 1]),
            nv.records[t - 2].key,
        );
    }
    if t <= nv.records.len() {
        // every child u < t is bounded by separator u, which is at most
        // separator t-1
        assert forall|u: int| 0 <= u < t implies all_le(
            node_recs(#[trigger] nv.children.take(t)[u]),
            nv.records[t - 1].key,
        ) by {
            assert(nv.children.take(t)[u] == nv.children[u]);
            let rs = node_recs(nv.children[u]);
            assert forall|k: int| 0 <= k < rs.len() implies lex_cmp(
                smoothed(#[trigger] rs[k].key),
                nv.records[t - 1].key,
            ) != Cmp::Gt by {
                assert(lex_cmp(smoothed(rs[k].key), nv.records[u].key) != Cmp::Gt);
                if u < t - 1 {
                    assert(lex_cmp(
                        key_at(false, nv.records, u),
                        key_at(false, nv.records, t - 1),
                    ) != Cmp::Gt);
                    crate::keys::lemma_lex_cmp_trans(
                        smoothed(rs[k].key),
                        nv.records[u].key,
                        nv.records[t - 1].key,
                    );
                }
            }
        }
        lemma_children_recs_all_le(nv.children.take(t), nv.records[t - 1].key);
    }
}

/// Bounds carry from a run to the run with one record added.
pub proof fn lemma_bound_le_from_multiset(nw: Seq<RecV>, prev: Seq<RecV>, r: RecV, b: Seq<u8>)
    requires
        nw.to_multiset() == prev.to_multiset().insert(r),
        all_le(prev, b),
        lex_cmp(smoothed(r.key), b) != Cmp::Gt,
    ensures
        all_le(nw, b),
{
    broadcast use vstd::seq_lib::group_to_multiset_ensures;

    assert forall|k: int| 0 <= k < nw.len() implies lex_cmp(smoothed(#[trigger] nw[k].key), b)
        != Cmp::Gt by {
        let e = nw[k];
        assert(nw.contains(e));
        assert(nw.to_multiset().count(e) > 0);
        if e != r {
            assert(prev.to_multiset().count(e) > 0);
            assert(prev.contains(e));
            let j = choose|j: int| 0 <= j < prev.len() && prev[j] == e;
            assert(lex_cmp(smoothed(prev[j].key), b) != Cmp::Gt);
        }
    }
}

pub proof fn lemma_bound_ge_from_multiset(nw: Seq<RecV>, prev: Seq<RecV>, r: RecV, b: Seq<u8>)
    requires
        nw.to_multiset() == prev.to_multiset().insert(r),
        all_ge(prev, b),
        lex_cmp(smoothed(r.key), b) != Cmp::Lt,
    ensures
        all_ge(nw, b),
{
    broadcast use vstd::seq_lib::group_to_multiset_ensures;

    assert forall|k: int| 0 <= k < nw.len() implies lex_cmp(smoothed(#[trigger] nw[k].key), b)
        != Cmp::Lt by {
        let e = nw[k];
        assert(nw.contains(e));
        assert(nw.to_multiset().count(e) > 0);
        if e != r {
            assert(prev.to_multiset().count(e) > 0);
            assert(prev.contains(e));
            let j = choose|j: int| 0 <= j < prev.len() && prev[j] == e;
            assert(lex_cmp(smoothed(prev[j].key), b) != Cmp::Lt);
        }
    }
}

/// Inserting a record between its bounds keeps a run sorted.
pub proof fn lemma_sorted_insert(rs: Seq<RecV>, pos: int, r: RecV)
    requires
        recs_sorted(rs),
        0 <= pos <= rs.len(),
        forall|j: int|
            0 <= j < pos ==> lex_cmp(smoothed(#[trigger] rs[j].key), smoothed(r.key)) != Cmp::Gt,
        forall|j: int|
            pos <= j < rs.len() ==> lex_cmp(smoothed(r.key), smoothed(#[trigger] rs[j].key))
                != Cmp::Gt,
    ensures
        recs_sorted(rs.insert(pos, r)),
{
    let s2 = rs.insert(pos, r);
    assert forall|i: int, j: int| 0 <= i < j < s2.len() implies lex_cmp(
        smoothed(#[trigger] s2[i].key),
        smoothed(#[trigger] s2[j].key),
    ) != Cmp::Gt by {
        if i < pos {
            assert(s2[i] == rs[i]);
        } else if i == pos {
            assert(s2[i] == r);
        } else {
            assert(s2[i] == rs[i - 1]);
        }
        if j < pos {
            assert(s2[j] == rs[j]);
        } else if j == pos {
            assert(s2[j] == r);
        } else {
            assert(s2[j] == rs[j - 1]);
        }
    }
}

/// The raw-key analogue for index-node separators.
pub proof fn lemma_seps_sorted_insert(rs: Seq<RecV>, pos: int, r: RecV)
    requires
        node_sorted(false, rs),
        0 <= pos <= rs.len(),
        forall|j: int| 0 <= j < pos ==> lex_cmp((#[trigger] rs[j]).key, r.key) != Cmp::Gt,
        forall|j: int| pos <= j < rs.len() ==> lex_cmp(r.key, (#[trigger] rs[j]).key) != Cmp::Gt,
    ensures
        node_sorted(false, rs.insert(pos, r)),
{
    let s2 = rs.insert(pos, r);
    assert forall|i: int, j: int| 0 <= i < j < s2.len() implies lex_cmp(
        key_at(false, s2, i),
        key_at(false, s2, j),
    ) != Cmp::Gt by {
        if i < pos {
            assert(s2[i] == rs[i]);
        } else if i == pos {
            assert(s2[i] == r);
        } else {
            assert(s2[i] == rs[i - 1]);
        }
        if j < pos {
            assert(s2[j] == rs[j]);
        } else if j == pos {
            assert(s2[j] == r);
        } else {
            assert(s2[j] == rs[j - 1]);
        }
        assert(forall|u: int, v: int|
            0 <= u < v < rs.len() ==> lex_cmp((#[trigger] rs[u]).key, (#[trigger] rs[v]).key)
                != Cmp::Gt) by {
            assert forall|u: int, v: int| 0 <= u < v < rs.len() implies lex_cmp(
                (#[trigger] rs[u]).key,
                (#[trigger] rs[v]).key,
            ) != Cmp::Gt by {
                assert(lex_cmp(key_at(false, rs, u), key_at(false, rs, v)) != Cmp::Gt);
            }
        }
    }
}

/// Every leaf of a well-formed subtree keeps its smoothed ties in
/// ascending raw order.
pub proof fn lemma_wf_leaf_ties(nv: NodeV)
    requires
        node_wf(nv),
    ensures
        leaf_ties_sorted(nv),
    decreases nv, 1int,
{
    if !nv.is_leaf {
        lemma_children_wf_elem(nv.children);
        lemma_wf_leaf_ties_kids(nv.children);
    }
}

proof fn lemma_wf_leaf_ties_kids(cs: Seq<NodeV>)
    requires
        forall|i: int| 0 <= i < cs.len() ==> node_wf(#[trigger] cs[i]),
    ensures
        forall|i: int| 0 <= i < cs.len() ==> leaf_ties_sorted(#[trigger] cs[i]),
    decreases cs, 0int,
{
    if cs.len() > 0 {
        assert forall|i: int| 0 <= i < cs.drop_last().len() implies node_wf(
            #[trigger] cs.drop_last()[i],
        ) by {
            assert(cs.drop_last()[i] == cs[i]);
        }
        lemma_wf_leaf_ties_kids(cs.drop_last());
        assert(decreases_to!(cs => cs[cs.len() - 1]));
        lemma_wf_leaf_ties(cs[cs.len() - 1]);
        assert forall|i: int| 0 <= i < cs.len() implies leaf_ties_sorted(#[trigger] cs[i]) by {
            if i < cs.len() - 1 {
                assert(cs.drop_last()[i] == cs[i]);
            }
        }
    }
}

/// Where the tie walk stops, every remaining spelling of the key's
/// smoothed form is raw-not-smaller: the record there is not a raw-smaller
/// tie, and order carries that to the rest.
pub proof fn lemma_tie_position(rs0: Seq<RecV>, pos: int, rv: RecV)
    requires
        recs_sorted(rs0),
        ties_raw_sorted(rs0),
        0 <= pos <= rs0.len(),
        forall|j: int|
            pos <= j < rs0.len() ==> lex_cmp(smoothed(rv.key), smoothed(#[trigger] rs0[j].key))
                != Cmp::Gt,
        pos < rs0.len() ==> !(lex_cmp(smoothed(rv.key), smoothed(rs0[pos].key)) == Cmp::Eq
            && lex_cmp(rs0[pos].key, rv.key) == Cmp::Lt),
    ensures
        forall|j: int|
            pos <= j < rs0.len() && smoothed((#[trigger] rs0[j]).key) == smoothed(rv.key)
                ==> lex_cmp(rv.key, rs0[j].key) != Cmp::Gt,
{
    assert forall|j: int|
        pos <= j < rs0.len() && smoothed((#[trigger] rs0[j]).key) == smoothed(
            rv.key,
        ) implies lex_cmp(rv.key, rs0[j].key) != Cmp::Gt by {
        if smoothed(rs0[pos].key) == smoothed(rv.key) {
            crate::keys::lemma_lex_cmp_eq(smoothed(rv.key), smoothed(rs0[pos].key));
            assert(lex_cmp(rs0[pos].key, rv.key) != Cmp::Lt);
            crate::keys::lemma_lex_cmp_flip(rs0[pos].key, rv.key);
            if j > pos {
                assert(lex_cmp(rs0[pos].key, rs0[j].key) != Cmp::Gt);
                crate::keys::lemma_lex_cmp_trans(rv.key, rs0[pos].key, rs0[j].key);
            }
        } else {
            crate::keys::lemma_lex_cmp_eq(smoothed(rv.key), smoothed(rs0[pos].key));
            assert(lex_cmp(smoothed(rv.key), smoothed(rs0[pos].key)) == Cmp::Lt);
            assert(lex_cmp(smoothed(rs0[pos].key), smoothed(rs0[j].key)) != Cmp::Gt);
            crate::keys::lemma_lex_cmp_trans(
                smoothed(rv.key),
                smoothed(rs0[pos].key),
                smoothed(rs0[j].key),
            );
            crate::keys::lemma_lex_cmp_eq(smoothed(rv.key), smoothed(rs0[j].key));
            assert(false);
        }
    }
}

/// Inserting at a position past every raw-smaller spelling of the key's
/// smoothed form, and before every raw-not-smaller one, keeps the leaf's
/// ties in raw order.
pub proof fn lemma_ties_insert(rs: Seq<RecV>, pos: int, r: RecV)
    requires
        ties_raw_sorted(rs),
        0 <= pos <= rs.len(),
        forall|j: int|
            0 <= j < pos && smoothed((#[trigger] rs[j]).key) == smoothed(r.key) ==> lex_cmp(
                rs[j].key,
                r.key,
            ) == Cmp::Lt,
        forall|j: int|
            pos <= j < rs.len() && smoothed((#[trigger] rs[j]).key) == smoothed(r.key) ==> lex_cmp(
                r.key,
                rs[j].key,
            ) != Cmp::Gt,
    ensures
        ties_raw_sorted(rs.insert(pos, r)),
{
    let s2 = rs.insert(pos, r);
    assert forall|i: int, j: int|
        0 <= i < j < s2.len() && smoothed((#[trigger] s2[i]).key) == smoothed(
            (#[trigger] s2[j]).key,
        ) implies lex_cmp(s2[i].key, s2[j].key) != Cmp::Gt by {
        if i < pos {
            assert(s2[i] == rs[i]);
        } else if i == pos {
            assert(s2[i] == r);
        } else {
            assert(s2[i] == rs[i - 1]);
        }
        if j < pos {
            assert(s2[j] == rs[j]);
        } else if j == pos {
            assert(s2[j] == r);
        } else {
            assert(s2[j] == rs[j - 1]);
        }
    }
}

/// Cutting a leaf keeps its ties in raw order: both halves of a split do.
pub proof fn lemma_ties_subrange(rs: Seq<RecV>, k: int)
    requires
        ties_raw_sorted(rs),
        0 <= k <= rs.len(),
    ensures
        ties_raw_sorted(rs.take(k)),
        ties_raw_sorted(rs.skip(k)),
{
    assert forall|i: int, j: int|
        0 <= i < j < rs.take(k).len() && smoothed((#[trigger] rs.take(k)[i]).key) == smoothed(
            (#[trigger] rs.take(k)[j]).key,
        ) implies lex_cmp(rs.take(k)[i].key, rs.take(k)[j].key) != Cmp::Gt by {
        assert(rs.take(k)[i] == rs[i]);
        assert(rs.take(k)[j] == rs[j]);
    }
    assert forall|i: int, j: int|
        0 <= i < j < rs.skip(k).len() && smoothed((#[trigger] rs.skip(k)[i]).key) == smoothed(
            (#[trigger] rs.skip(k)[j]).key,
        ) implies lex_cmp(rs.skip(k)[i].key, rs.skip(k)[j].key) != Cmp::Gt by {
        assert(rs.skip(k)[i] == rs[k + i]);
        assert(rs.skip(k)[j] == rs[k + j]);
    }
}

/// What a leaf split at `div` leaves on each side: both halves sorted with
/// ties in raw order, the left at most the separator — the smoothed key of
/// its last record — and the right at least it.
pub proof fn lemma_leaf_split_parts(rall: Seq<RecV>, div: int, b: Seq<u8>)
    requires
        recs_sorted(rall),
        ties_raw_sorted(rall),
        1 <= div < rall.len(),
        b == smoothed(rall[div - 1].key),
    ensures
        recs_sorted(rall.take(div)),
        recs_sorted(rall.skip(div)),
        ties_raw_sorted(rall.take(div)),
        ties_raw_sorted(rall.skip(div)),
        all_le(rall.take(div), b),
        all_ge(rall.skip(div), b),
{
    let lrs = rall.take(div);
    let rrs = rall.skip(div);
    lemma_ties_subrange(rall, div);
    assert forall|i: int, j: int| 0 <= i < j < lrs.len() implies lex_cmp(
        smoothed(#[trigger] lrs[i].key),
        smoothed(#[trigger] lrs[j].key),
    ) != Cmp::Gt by {
        assert(lrs[i] == rall[i] && lrs[j] == rall[j]);
    }
    assert forall|i: int| 0 <= i < lrs.len() implies lex_cmp(
        smoothed(#[trigger] lrs[i].key),
        b,
    ) != Cmp::Gt by {
        assert(lrs[i] == rall[i]);
        if i == div - 1 {
            crate::keys::lemma_lex_cmp_eq(smoothed(rall[i].key), b);
        }
    }
    assert forall|i: int, j: int| 0 <= i < j < rrs.len() implies lex_cmp(
        smoothed(#[trigger] rrs[i].key),
        smoothed(#[trigger] rrs[j].key),
    ) != Cmp::Gt by {
        assert(rrs[i] == rall[div + i] && rrs[j] == rall[div + j]);
    }
    assert forall|i: int| 0 <= i < rrs.len() implies lex_cmp(
        smoothed(#[trigger] rrs[i].key),
        b,
    ) != Cmp::Lt by {
        assert(rrs[i] == rall[div + i]);
        crate::keys::lemma_lex_cmp_flip(smoothed(rall[div + i].key), b);
    }
}

/// Does the record at `pos` share the key's smoothed form and precede it in
/// raw order?  Used to keep one smoothed form's spellings in raw order
/// within a leaf.
fn tie_before(records: &Vec<Record>, pos: usize, key: &EntryKey) -> (r: bool)
    requires
        pos < records@.len(),
    ensures
        r == (lex_cmp(smoothed(key@), smoothed(recs_view(records@)[pos as int].key)) == Cmp::Eq
            && lex_cmp(recs_view(records@)[pos as int].key, key@) == Cmp::Lt),
{
    let sq = crate::keys::smooth_bytes(key.0.as_slice());
    let sk = crate::keys::smooth_bytes(records[pos].key.0.as_slice());
    let c1 = crate::keys::cmp_bytes(sq.as_slice(), sk.as_slice());
    if !c1.is_eq() {
        return false;
    }
    let c2 = crate::keys::cmp_bytes(records[pos].key.0.as_slice(), key.0.as_slice());
    c2.is_lt()
}

/// Recursive insertion.  Descends to the right leaf, inserts, and splits on
/// the way back up any node whose encoded size exceeds its limit.  A split
/// hands the promoted separator and the new right sibling to the caller.
#[verifier::rlimit(100)]
fn insert_into_leaf(node: &mut Node, rec: Record, leaf_limit: u64) -> (r: Option<(Record, Node)>)
    requires
        old(node)@.is_leaf,
        node_wf(old(node)@),
        node_recs(old(node)@).len() >= 1,
        rec@.value is Some,
        leaf_limit < u64::MAX,
    ensures
        final(node)@.is_leaf,
        node_wf(final(node)@),
        node_recs(final(node)@).len() >= 1,
        match r {
            None => node_recs(final(node)@).to_multiset() == node_recs(
                old(node)@,
            ).to_multiset().insert(rec@),
            Some(sr) => {
                &&& sr.1@.is_leaf
                &&& node_wf(sr.1@)
                &&& node_recs(sr.1@).len() >= 1
                &&& sr.0@.value is None
                &&& all_le(node_recs(final(node)@), sr.0@.key)
                &&& all_ge(node_recs(sr.1@), sr.0@.key)
                &&& node_recs(final(node)@).add(node_recs(sr.1@)).to_multiset() == node_recs(
                    old(node)@,
                ).to_multiset().insert(rec@)
            },
        },
{
    broadcast use vstd::seq_lib::group_to_multiset_ensures;
    broadcast use vstd::seq_lib::to_multiset_insert;

    let ghost orig = node@;
    let ghost rs0 = orig.records;
    let (idx, cr) = node.index_of(&rec.key);
    let mut pos: usize = if cr.is_gt() {
        node.records.len()
    } else {
        idx
    };
    proof {
        assert forall|j: int| 0 <= j < pos implies lex_cmp(
            smoothed(#[trigger] rs0[j].key),
            smoothed(rec@.key),
        ) != Cmp::Gt by {
            assert(cmp_at(true, rs0, rec.key@, j) == Cmp::Gt);
            crate::keys::lemma_lex_cmp_flip(smoothed(rs0[j].key), smoothed(rec.key@));
        }
        assert forall|j: int| pos <= j < rs0.len() implies lex_cmp(
            smoothed(rec@.key),
            smoothed(#[trigger] rs0[j].key),
        ) != Cmp::Gt by {
            if !(cr == Cmp::Gt) {
                if j > idx {
                    assert(lex_cmp(key_at(true, rs0, idx as int), key_at(true, rs0, j))
                        != Cmp::Gt);
                    crate::keys::lemma_lex_cmp_trans(
                        smoothed(rec.key@),
                        smoothed(rs0[idx as int].key),
                        smoothed(rs0[j].key),
                    );
                }
            }
        }
        assert forall|j: int|
            0 <= j < pos && smoothed((#[trigger] rs0[j]).key) == smoothed(rec@.key) implies lex_cmp(
            rs0[j].key,
            rec@.key,
        ) == Cmp::Lt by {
            assert(cmp_at(true, rs0, rec.key@, j) == Cmp::Gt);
            crate::keys::lemma_lex_cmp_eq(smoothed(rec@.key), smoothed(rs0[j].key));
            assert(false);
        }
    }
    while pos < node.records.len() && tie_before(&node.records, pos, &rec.key)
        invariant
            node == old(node),
            node@ == orig,
            rs0 == orig.records,
            pos <= node.records@.len(),
            forall|j: int|
                0 <= j < pos ==> lex_cmp(smoothed(#[trigger] rs0[j].key), smoothed(rec@.key))
                    != Cmp::Gt,
            forall|j: int|
                pos <= j < rs0.len() ==> lex_cmp(
                    smoothed(rec@.key),
                    smoothed(#[trigger] rs0[j].key),
                ) != Cmp::Gt,
            forall|j: int|
                0 <= j < pos && smoothed((#[trigger] rs0[j]).key) == smoothed(rec@.key)
                    ==> lex_cmp(rs0[j].key, rec@.key) == Cmp::Lt,
        decreases node.records@.len() - pos,
    {
        proof {
            crate::keys::lemma_lex_cmp_flip(smoothed(rs0[pos as int].key), smoothed(rec.key@));
            crate::keys::lemma_lex_cmp_eq(smoothed(rs0[pos as int].key), smoothed(rec@.key));
        }
        pos = pos + 1;
    }
    proof {
        lemma_sorted_insert(rs0, pos as int, rec@);
        // ties stay in raw order: the loop walked past exactly the
        // raw-smaller spellings of the key's smoothed form
        lemma_tie_position(rs0, pos as int, rec@);
        lemma_ties_insert(rs0, pos as int, rec@);
    }
    node.records.insert(pos, rec);
    proof {
        assert(recs_view(node.records@) =~= rs0.insert(pos as int, rec@));
        assert(node@.children =~= Seq::<NodeV>::empty());
    }
    let ghost rall = recs_view(node.records@);
    proof {
        assert(rall.to_multiset() =~= rs0.to_multiset().insert(rec@));
    }
    if node.records.len() > 1 && node.oversized(leaf_limit) {
        let div = node.records.len() / 2;
        let right_records = node.records.split_off(div);
        let sep_key = node.records[div - 1].key.smooth();
        let sep = Record::new(sep_key);
        let right = Node { is_leaf: true, records: right_records, children: Vec::new() };
        proof {
            assert(recs_view(node.records@) =~= rall.take(div as int));
            assert(recs_view(right.records@) =~= rall.skip(div as int));
            assert(right@.children =~= Seq::<NodeV>::empty());
            assert(node@.children =~= Seq::<NodeV>::empty());
            let lrs = rall.take(div as int);
            let rrs = rall.skip(div as int);
            let b = sep@.key;
            assert(b == smoothed(rall[div - 1].key));
            lemma_leaf_split_parts(rall, div as int, b);
            assert(lrs.add(rrs) =~= rall);
            lemma_multiset_commutative(lrs, rrs);
            assert(lrs.add(rrs).to_multiset() =~= lrs.to_multiset().add(rrs.to_multiset()));
        }
        return Some((sep, right));
    }
    return None;
}

#[verifier::rlimit(80)]
fn insert_into(node: &mut Node, rec: Record, index_limit: u64, leaf_limit: u64) -> (r: Option<
    (Record, Node),
>)
    requires
        node_wf(old(node)@),
        node_recs(old(node)@).len() >= 1,
        rec@.value is Some,
        index_limit < u64::MAX,
        leaf_limit < u64::MAX,
    ensures
        final(node)@.is_leaf == old(node)@.is_leaf,
        node_wf(final(node)@),
        node_recs(final(node)@).len() >= 1,
        match r {
            None => node_recs(final(node)@).to_multiset() == node_recs(
                old(node)@,
            ).to_multiset().insert(rec@),
            Some(sr) => {
                &&& sr.1@.is_leaf == old(node)@.is_leaf
                &&& node_wf(sr.1@)
                &&& node_recs(sr.1@).len() >= 1
                &&& sr.0@.value is None
                &&& all_le(node_recs(final(node)@), sr.0@.key)
                &&& all_ge(node_recs(sr.1@), sr.0@.key)
                &&& node_recs(final(node)@).add(node_recs(sr.1@)).to_multiset() == node_recs(
                    old(node)@,
                ).to_multiset().insert(rec@)
            },
        },
    decreases *old(node),
{
    broadcast use vstd::seq_lib::group_to_multiset_ensures;

    let ghost orig = node@;
    if node.is_leaf {
        return insert_into_leaf(node, rec, leaf_limit);
    }
    // Index node: route to the child, insert there, splice in a split.
    let ghost rs0 = orig.records;
    let ghost cs0 = orig.children;
    let nrec = node.records.len();
    let nchild = node.children.len();
    let (idx, cr) = node.index_of(&rec.key);
    let child_idx = if cr.is_le() {
        idx
    } else {
        idx + 1
    };
    let ghost ci = child_idx as int;
    proof {
        lemma_children_view_len(node.children@);
        lemma_children_wf_elem(cs0);
        // routing bounds for the chosen child
        assert forall|j: int| 0 <= j < ci implies lex_cmp(smoothed(rec@.key), (#[trigger] rs0[j]).key)
            == Cmp::Gt by {
            assert(cmp_at(false, rs0, rec.key@, j) == Cmp::Gt);
        }
        if ci < rs0.len() {
            assert(lex_cmp(smoothed(rec@.key), rs0[ci].key) != Cmp::Gt);
        }
    }
    let mut child = node.children.remove(child_idx);
    let ghost child0 = child@;
    proof {
        assert(child0 == cs0[ci]);
        assert(decreases_to!(*old(node) => old(node).children));
        assert(decreases_to!(old(node).children => old(node).children@));
        assert(decreases_to!(old(node).children@ => old(node).children@[ci]));
    }
    let split = insert_into(&mut child, rec, index_limit, leaf_limit);
    let ghost child1 = child@;
    node.children.insert(child_idx, child);
    match split {
        None => {
            proof {
                assert(node.children@ =~= old(node).children@.update(ci, child));
                lemma_children_view_len(node.children@);
                let cs1 = children_view(node.children@);
                assert(cs1 =~= cs0.update(ci, child1)) by {
                    assert forall|k: int| 0 <= k < cs1.len() implies cs1[k] == cs0.update(
                        ci,
                        child1,
                    )[k] by {
                        assert(cs1[k] == node_view(node.children@[k]));
                        if k != ci {
                            assert(node.children@[k] == old(node).children@[k]);
                        }
                    }
                }
                lemma_insert_index_wf_nosplit(orig, node@, ci, child1, rec@);
            }
            return None;
        },
        Some((sep, right)) => {
            let ghost sepv = sep@;
            let ghost rightv = right@;
            node.records.insert(child_idx, sep);
            node.children.insert(child_idx + 1, right);
            proof {
                lemma_children_view_len(node.children@);
                let cs1 = children_view(node.children@);
                assert(cs1 =~= cs0.update(ci, child1).insert(ci + 1, rightv)) by {
                    assert forall|k: int| 0 <= k < cs1.len() implies cs1[k] == cs0.update(
                        ci,
                        child1,
                    ).insert(ci + 1, rightv)[k] by {
                        assert(cs1[k] == node_view(node.children@[k]));
                        if k < ci {
                            assert(node.children@[k] == old(node).children@[k]);
                        } else if k > ci + 1 {
                            assert(node.children@[k] == old(node).children@[k - 1]);
                        }
                    }
                }
                assert(recs_view(node.records@) =~= rs0.insert(ci, sepv));
                lemma_insert_index_wf_split(orig, node@, ci, child1, rightv, sepv, rec@);
            }
            // the index node itself may now be oversized
            let nrec2 = node.records.len();
            if nrec2 >= 3 && node.oversized(index_limit) {
                let ghost rs1 = recs_view(node.records@);
                let ghost cs1 = children_view(node.children@);
                let ghost csvec = node.children@;
                let div = nrec2 / 2 + 1;
                let right_records = node.records.split_off(div);
                let precord = node.records.pop().unwrap();
                let right_children = node.children.split_off(div);
                let right2 = Node { is_leaf: false, records: right_records, children: right_children };
                proof {
                    lemma_children_view_len(csvec);
                    lemma_children_view_len(node.children@);
                    lemma_children_view_len(right2.children@);
                    assert(node.children@ =~= csvec.take(div as int));
                    assert(right2.children@ =~= csvec.skip(div as int));
                    assert(recs_view(node.records@) =~= rs1.take(div as int).drop_last());
                    assert(recs_view(right2.records@) =~= rs1.skip(div as int));
                    assert(precord@ == rs1[div - 1]);
                    assert(children_view(node.children@) =~= cs1.take(div as int)) by {
                        assert forall|k: int| 0 <= k < node.children@.len() implies children_view(
                            node.children@,
                        )[k] == cs1.take(div as int)[k] by {
                            assert(children_view(node.children@)[k] == node_view(
                                node.children@[k],
                            ));
                            assert(node.children@[k] == csvec[k]);
                        }
                    }
                    assert(children_view(right2.children@) =~= cs1.skip(div as int)) by {
                        assert forall|k: int| 0 <= k < right2.children@.len() implies children_view(
                            right2.children@,
                        )[k] == cs1.skip(div as int)[k] by {
                            assert(children_view(right2.children@)[k] == node_view(
                                right2.children@[k],
                            ));
                            assert(right2.children@[k] == csvec[div + k]);
                        }
                    }
                    lemma_split_index_wf(node@, right2@, precord@, rs1, cs1, div as int);
                }
                return Some((precord, right2));
            }
            return None;
        },
    }
}

/// Splicing a child whose insertion did not split back into its index node
/// keeps the node well-formed and adds the record to its content.
proof fn lemma_insert_index_wf_nosplit(orig: NodeV, nw: NodeV, ci: int, child1: NodeV, r: RecV)
    requires
        node_wf(orig),
        !orig.is_leaf,
        0 <= ci <= orig.records.len(),
        !nw.is_leaf,
        nw.records == orig.records,
        nw.children == orig.children.update(ci, child1),
        node_wf(child1),
        node_recs(child1).len() >= 1,
        node_recs(child1).to_multiset() == node_recs(orig.children[ci]).to_multiset().insert(r),
        forall|j: int| 0 <= j < ci ==> lex_cmp(smoothed(r.key), (#[trigger] orig.records[j]).key)
            == Cmp::Gt,
        ci < orig.records.len() ==> lex_cmp(smoothed(r.key), orig.records[ci].key) != Cmp::Gt,
    ensures
        node_wf(nw),
        node_recs(nw).len() >= 1,
        node_recs(nw).to_multiset() == node_recs(orig).to_multiset().insert(r),
{
    broadcast use vstd::seq_lib::group_to_multiset_ensures;

    lemma_children_wf_elem(orig.children);
    let cs0 = orig.children;
    let cs1 = nw.children;
    assert forall|i: int| 0 <= i < cs1.len() implies node_wf(#[trigger] cs1[i]) by {
        if i != ci {
            assert(cs1[i] == cs0[i]);
        }
    }
    lemma_children_wf_from_elems(cs1);
    assert forall|i: int| 0 <= i < cs1.len() implies node_recs(#[trigger] cs1[i]).len() >= 1 by {
        if i != ci {
            assert(cs1[i] == cs0[i]);
        }
    }
    // bounds
    assert forall|i: int| 0 <= i < nw.records.len() implies all_le(
        node_recs(nw.children[i]),
        (#[trigger] nw.records[i]).key,
    ) by {
        if i != ci {
            assert(nw.children[i] == cs0[i]);
        } else {
            lemma_bound_le_from_multiset(
                node_recs(child1),
                node_recs(cs0[ci]),
                r,
                orig.records[ci].key,
            );
        }
    }
    assert forall|i: int| 0 <= i < nw.records.len() implies all_ge(
        node_recs(nw.children[i + 1]),
        (#[trigger] nw.records[i]).key,
    ) by {
        if i + 1 != ci {
            assert(nw.children[i + 1] == cs0[i + 1]);
        } else {
            lemma_bound_ge_from_multiset(
                node_recs(child1),
                node_recs(cs0[ci]),
                r,
                orig.records[ci - 1].key,
            );
        }
    }
    // content
    lemma_children_recs_split(cs0, ci);
    lemma_children_recs_split(cs1, ci);
    assert(cs1.take(ci) =~= cs0.take(ci));
    assert(cs1.skip(ci + 1) =~= cs0.skip(ci + 1));
    let a = children_recs(cs0.take(ci));
    let b = children_recs(cs0.skip(ci + 1));
    let m0 = node_recs(cs0[ci]);
    let m1 = node_recs(child1);
    lemma_multiset_commutative(a.add(m0), b);
    lemma_multiset_commutative(a, m0);
    lemma_multiset_commutative(a.add(m1), b);
    lemma_multiset_commutative(a, m1);
    assert(a.to_multiset().add(m0.to_multiset().insert(r)).add(b.to_multiset()) =~= a.to_multiset().add(m0.to_multiset()).add(b.to_multiset()).insert(r));
}

/// Splicing a split child (left half, promoted separator, right half) into
/// its index node keeps the node well-formed and adds the record.
#[verifier::rlimit(80)]
proof fn lemma_insert_index_wf_split(
    orig: NodeV,
    nw: NodeV,
    ci: int,
    child1: NodeV,
    rightv: NodeV,
    sepv: RecV,
    r: RecV,
)
    requires
        node_wf(orig),
        !orig.is_leaf,
        0 <= ci <= orig.records.len(),
        !nw.is_leaf,
        nw.records == orig.records.insert(ci, sepv),
        nw.children == orig.children.update(ci, child1).insert(ci + 1, rightv),
        node_wf(child1),
        node_wf(rightv),
        node_recs(child1).len() >= 1,
        node_recs(rightv).len() >= 1,
        sepv.value is None,
        all_le(node_recs(child1), sepv.key),
        all_ge(node_recs(rightv), sepv.key),
        node_recs(child1).add(node_recs(rightv)).to_multiset() == node_recs(
            orig.children[ci],
        ).to_multiset().insert(r),
        forall|j: int| 0 <= j < ci ==> lex_cmp(smoothed(r.key), (#[trigger] orig.records[j]).key)
            == Cmp::Gt,
        ci < orig.records.len() ==> lex_cmp(smoothed(r.key), orig.records[ci].key) != Cmp::Gt,
    ensures
        node_wf(nw),
        node_recs(nw).len() >= 1,
        node_recs(nw).to_multiset() == node_recs(orig).to_multiset().insert(r),
{
    broadcast use vstd::seq_lib::group_to_multiset_ensures;

    lemma_children_wf_elem(orig.children);
    let cs0 = orig.children;
    let rs0 = orig.records;
    let conc = node_recs(child1).add(node_recs(rightv));
    let lpart = node_recs(child1);
    let rpart = node_recs(rightv);
    // bounds on the combined run, from the old child's bounds and routing,
    // carried down to each half
    if ci >= 1 {
        lemma_bound_ge_from_multiset(conc, node_recs(cs0[ci]), r, rs0[ci - 1].key);
        assert forall|k: int| 0 <= k < lpart.len() implies lex_cmp(
            smoothed(#[trigger] lpart[k].key),
            rs0[ci - 1].key,
        ) != Cmp::Lt by {
            assert(lpart[k] == conc[k]);
            assert(lex_cmp(smoothed(conc[k].key), rs0[ci - 1].key) != Cmp::Lt);
        }
        assert forall|k: int| 0 <= k < rpart.len() implies lex_cmp(
            smoothed(#[trigger] rpart[k].key),
            rs0[ci - 1].key,
        ) != Cmp::Lt by {
            assert(rpart[k] == conc[lpart.len() + k]);
            assert(lex_cmp(smoothed(conc[lpart.len() + k].key), rs0[ci - 1].key) != Cmp::Lt);
        }
    }
    if ci < rs0.len() {
        lemma_bound_le_from_multiset(conc, node_recs(cs0[ci]), r, rs0[ci].key);
        assert forall|k: int| 0 <= k < lpart.len() implies lex_cmp(
            smoothed(#[trigger] lpart[k].key),
            rs0[ci].key,
        ) != Cmp::Gt by {
            assert(lpart[k] == conc[k]);
            assert(lex_cmp(smoothed(conc[k].key), rs0[ci].key) != Cmp::Gt);
        }
        assert forall|k: int| 0 <= k < rpart.len() implies lex_cmp(
            smoothed(#[trigger] rpart[k].key),
            rs0[ci].key,
        ) != Cmp::Gt by {
            assert(rpart[k] == conc[lpart.len() + k]);
            assert(lex_cmp(smoothed(conc[lpart.len() + k].key), rs0[ci].key) != Cmp::Gt);
        }
    }
    // the separator lies between its new neighbours
    let e0 = lpart[0];
    let e1 = rpart[0];
    if ci >= 1 {
        assert(lex_cmp(smoothed(e0.key), rs0[ci - 1].key) != Cmp::Lt);
        crate::keys::lemma_lex_cmp_flip(smoothed(e0.key), rs0[ci - 1].key);
        crate::keys::lemma_lex_cmp_flip(rs0[ci - 1].key, smoothed(e0.key));
        assert(lex_cmp(rs0[ci - 1].key, smoothed(e0.key)) != Cmp::Gt);
        crate::keys::lemma_lex_cmp_trans(rs0[ci - 1].key, smoothed(e0.key), sepv.key);
        assert(lex_cmp(rs0[ci - 1].key, sepv.key) != Cmp::Gt);
    }
    if ci < rs0.len() {
        assert(lex_cmp(smoothed(e1.key), sepv.key) != Cmp::Lt);
        crate::keys::lemma_lex_cmp_flip(sepv.key, smoothed(e1.key));
        crate::keys::lemma_lex_cmp_flip(smoothed(e1.key), sepv.key);
        assert(lex_cmp(sepv.key, smoothed(e1.key)) != Cmp::Gt);
        crate::keys::lemma_lex_cmp_trans(sepv.key, smoothed(e1.key), rs0[ci].key);
        assert(lex_cmp(sepv.key, rs0[ci].key) != Cmp::Gt);
    }
    // separators stay sorted
    assert forall|j: int| 0 <= j < ci implies lex_cmp((#[trigger] rs0[j]).key, sepv.key)
        != Cmp::Gt by {
        if j < ci - 1 {
            assert(lex_cmp(key_at(false, rs0, j), key_at(false, rs0, ci - 1)) != Cmp::Gt);
            crate::keys::lemma_lex_cmp_trans(rs0[j].key, rs0[ci - 1].key, sepv.key);
        }
    }
    assert forall|j: int| ci <= j < rs0.len() implies lex_cmp(sepv.key, (#[trigger] rs0[j]).key)
        != Cmp::Gt by {
        if j > ci {
            assert(lex_cmp(key_at(false, rs0, ci), key_at(false, rs0, j)) != Cmp::Gt);
            crate::keys::lemma_lex_cmp_trans(sepv.key, rs0[ci].key, rs0[j].key);
        }
    }
    lemma_seps_sorted_insert(rs0, ci, sepv);
    // well-formed children, each nonempty
    let cs1 = nw.children;
    assert(cs1.len() == cs0.len() + 1);
    assert forall|i: int| 0 <= i < cs1.len() implies node_wf(#[trigger] cs1[i]) && node_recs(
        #[trigger] cs1[i],
    ).len() >= 1 by {
        if i < ci {
            assert(cs1[i] == cs0[i]);
        } else if i == ci {
            assert(cs1[i] == child1);
        } else if i == ci + 1 {
            assert(cs1[i] == rightv);
        } else {
            assert(cs1[i] == cs0[i - 1]);
        }
    }
    lemma_children_wf_from_elems(cs1);
    // bounds at every position
    assert forall|i: int| 0 <= i < nw.records.len() implies all_le(
        node_recs(nw.children[i]),
        (#[trigger] nw.records[i]).key,
    ) by {
        if i < ci {
            assert(nw.children[i] == cs0[i] && nw.records[i] == rs0[i]);
        } else if i == ci {
            assert(nw.children[i] == child1 && nw.records[i] == sepv);
        } else if i == ci + 1 {
            assert(nw.children[i] == rightv && nw.records[i] == rs0[ci]);
        } else {
            assert(nw.children[i] == cs0[i - 1] && nw.records[i] == rs0[i - 1]);
        }
    }
    assert forall|i: int| 0 <= i < nw.records.len() implies all_ge(
        node_recs(nw.children[i + 1]),
        (#[trigger] nw.records[i]).key,
    ) by {
        if i < ci - 1 {
            assert(nw.children[i + 1] == cs0[i + 1] && nw.records[i] == rs0[i]);
        } else if i == ci - 1 {
            assert(nw.children[i + 1] == child1 && nw.records[i] == rs0[ci - 1]);
        } else if i == ci {
            assert(nw.children[i + 1] == rightv && nw.records[i] == sepv);
        } else if i == ci + 1 {
            assert(nw.children[i + 1] == cs0[ci + 1] && nw.records[i] == rs0[ci]);
        } else {
            assert(nw.children[i + 1] == cs0[i] && nw.records[i] == rs0[i - 1]);
        }
    }
    // content
    lemma_children_recs_split(cs0, ci);
    assert(cs1 =~= cs0.take(ci).add(seq![child1, rightv]).add(cs0.skip(ci + 1)));
    lemma_children_recs_add(cs0.take(ci).add(seq![child1, rightv]), cs0.skip(ci + 1));
    lemma_children_recs_add(cs0.take(ci), seq![child1, rightv]);
    assert(seq![child1, rightv].drop_last() =~= seq![child1]);
    assert(seq![child1, rightv].last() == rightv);
    lemma_children_recs_one(child1);
    assert(children_recs(seq![child1, rightv]) == node_recs(child1).add(node_recs(rightv)));
    let a = children_recs(cs0.take(ci));
    let b = children_recs(cs0.skip(ci + 1));
    let m0 = node_recs(cs0[ci]);
    lemma_multiset_commutative(a.add(m0), b);
    lemma_multiset_commutative(a, m0);
    lemma_multiset_commutative(a.add(conc), b);
    lemma_multiset_commutative(a, conc);
    assert(children_recs(cs1) == a.add(conc).add(b));
    assert(a.to_multiset().add(m0.to_multiset().insert(r)).add(b.to_multiset()) =~= a.to_multiset().add(m0.to_multiset()).add(b.to_multiset()).insert(r));
}

/// Splitting an oversized index node: both halves are well-formed, the
/// promoted separator bounds them, and no record is lost.
#[verifier::rlimit(100)]
#[verifier::spinoff_prover]
proof fn lemma_split_index_wf(
    leftv: NodeV,
    rightv: NodeV,
    pre: RecV,
    rs1: Seq<RecV>,
    cs1: Seq<NodeV>,
    div: int,
)
    requires
        node_wf(NodeV { is_leaf: false, records: rs1, children: cs1 }),
        2 <= div <= rs1.len() - 1,
        !leftv.is_leaf,
        !rightv.is_leaf,
        leftv.records == rs1.take(div).drop_last(),
        leftv.children == cs1.take(div),
        rightv.records == rs1.skip(div),
        rightv.children == cs1.skip(div),
        pre == rs1[div - 1],
    ensures
        node_wf(leftv),
        node_wf(rightv),
        node_recs(leftv).len() >= 1,
        node_recs(rightv).len() >= 1,
        pre.value is None,
        all_le(node_recs(leftv), pre.key),
        all_ge(node_recs(rightv), pre.key),
        node_recs(leftv).add(node_recs(rightv)) == children_recs(cs1),
    decreases 0int,
{
    let nv1 = NodeV { is_leaf: false, records: rs1, children: cs1 };
    lemma_children_wf_elem(cs1);
    assert(leftv.records =~= rs1.take(div - 1));
    // left half
    assert forall|i: int| 0 <= i < leftv.children.len() implies node_wf(#[trigger] leftv.children[i])
        && node_recs(#[trigger] leftv.children[i]).len() >= 1 by {
        assert(leftv.children[i] == cs1[i]);
    }
    lemma_children_wf_from_elems(leftv.children);
    assert forall|i: int, j: int| 0 <= i < j < leftv.records.len() implies lex_cmp(
        key_at(false, leftv.records, i),
        key_at(false, leftv.records, j),
    ) != Cmp::Gt by {
        assert(leftv.records[i] == rs1[i] && leftv.records[j] == rs1[j]);
        assert(lex_cmp(key_at(false, rs1, i), key_at(false, rs1, j)) != Cmp::Gt);
    }
    assert forall|i: int| 0 <= i < leftv.records.len() implies all_le(
        node_recs(leftv.children[i]),
        (#[trigger] leftv.records[i]).key,
    ) && all_ge(node_recs(leftv.children[i + 1]), (#[trigger] leftv.records[i]).key) by {
        assert(leftv.children[i] == cs1[i] && leftv.children[i + 1] == cs1[i + 1]);
        assert(leftv.records[i] == rs1[i]);
    }
    assert forall|i: int| 0 <= i < leftv.records.len() implies (#[trigger] leftv.records[i]).value
        is None by {
        assert(leftv.records[i] == rs1[i]);
    }
    // right half
    assert forall|i: int| 0 <= i < rightv.children.len() implies node_wf(
        #[trigger] rightv.children[i],
    ) && node_recs(#[trigger] rightv.children[i]).len() >= 1 by {
        assert(rightv.children[i] == cs1[div + i]);
    }
    lemma_children_wf_from_elems(rightv.children);
    assert forall|i: int, j: int| 0 <= i < j < rightv.records.len() implies lex_cmp(
        key_at(false, rightv.records, i),
        key_at(false, rightv.records, j),
    ) != Cmp::Gt by {
        assert(rightv.records[i] == rs1[div + i] && rightv.records[j] == rs1[div + j]);
        assert(lex_cmp(key_at(false, rs1, div + i), key_at(false, rs1, div + j)) != Cmp::Gt);
    }
    assert forall|i: int| 0 <= i < rightv.records.len() implies all_le(
        node_recs(rightv.children[i]),
        (#[trigger] rightv.records[i]).key,
    ) && all_ge(node_recs(rightv.children[i + 1]), (#[trigger] rightv.records[i]).key) by {
        assert(rightv.children[i] == cs1[div + i] && rightv.children[i + 1] == cs1[div + i + 1]);
        assert(rightv.records[i] == rs1[div + i]);
        assert(all_le(node_recs(cs1[div + i]), rs1[div + i].key));
        assert(all_ge(node_recs(cs1[div + i + 1]), rs1[div + i].key));
    }
    assert forall|i: int| 0 <= i < rightv.records.len() implies (#[trigger] rightv.records[i]).value
        is None by {
        assert(rightv.records[i] == rs1[div + i]);
    }
    // the promoted separator bounds both halves
    assert forall|u: int| 0 <= u < leftv.children.len() implies all_le(
        node_recs(#[trigger] leftv.children[u]),
        pre.key,
    ) by {
        assert(leftv.children[u] == cs1[u]);
        let rsu = node_recs(cs1[u]);
        assert forall|k: int| 0 <= k < rsu.len() implies lex_cmp(smoothed(#[trigger] rsu[k].key), pre.key)
            != Cmp::Gt by {
            if u <= div - 2 {
                assert(all_le(node_recs(cs1[u]), rs1[u].key));
                assert(lex_cmp(key_at(false, rs1, u), key_at(false, rs1, div - 1)) != Cmp::Gt);
                crate::keys::lemma_lex_cmp_trans(smoothed(rsu[k].key), rs1[u].key, rs1[div - 1].key);
            } else {
                assert(u == div - 1);
                assert(all_le(node_recs(cs1[div - 1]), rs1[div - 1].key));
            }
        }
    }
    lemma_children_recs_all_le(leftv.children, pre.key);
    assert forall|u: int| 0 <= u < rightv.children.len() implies all_ge(
        node_recs(#[trigger] rightv.children[u]),
        pre.key,
    ) by {
        assert(rightv.children[u] == cs1[div + u]);
        let rsu = node_recs(cs1[div + u]);
        assert forall|k: int| 0 <= k < rsu.len() implies lex_cmp(smoothed(#[trigger] rsu[k].key), pre.key)
            != Cmp::Lt by {
            assert(all_ge(node_recs(cs1[div + u]), rs1[div + u - 1].key));
            assert(lex_cmp(smoothed(rsu[k].key), rs1[div + u - 1].key) != Cmp::Lt);
            if div + u - 1 > div - 1 {
                assert(lex_cmp(key_at(false, rs1, div - 1), key_at(false, rs1, div + u - 1))
                    != Cmp::Gt);
                crate::keys::lemma_lex_cmp_flip(smoothed(rsu[k].key), rs1[div + u - 1].key);
                crate::keys::lemma_lex_cmp_trans(
                    rs1[div - 1].key,
                    rs1[div + u - 1].key,
                    smoothed(rsu[k].key),
                );
                crate::keys::lemma_lex_cmp_flip(smoothed(rsu[k].key), pre.key);
            }
        }
    }
    lemma_children_recs_all_ge(rightv.children, pre.key);
    // no record is lost
    assert(cs1 =~= cs1.take(div).add(cs1.skip(div)));
    lemma_children_recs_add(cs1.take(div), cs1.skip(div));
    // a nonempty run of children has records
    assert(node_recs(leftv) == children_recs(leftv.children));
    lemma_children_recs_split(leftv.children, 0);
    lemma_children_recs_split(rightv.children, 0);
}

/// A well-formed index node holds at least one record somewhere below.
pub proof fn lemma_index_nonempty(nv: NodeV)
    requires
        node_wf(nv),
        !nv.is_leaf,
    ensures
        node_recs(nv).len() >= 1,
{
    lemma_children_recs_split(nv.children, 0);
}

/// A B+ tree under construction or reconstructed from a file image.
pub struct Tree {
    root: Node,
    index_size_limit: u64,
    leaf_size_limit: u64,
}

impl Tree {
    /// The root's abstract value.
    pub closed spec fn root_view(&self) -> NodeV {
        self.root@
    }

    /// The tree's content: all records in leaf order.
    pub open spec fn records_spec(&self) -> Seq<RecV> {
        node_recs(self.root_view())
    }

    pub closed spec fn wf(&self) -> bool {
        &&& node_wf(self.root@)
        &&& self.index_size_limit < u64::MAX
        &&& self.leaf_size_limit < u64::MAX
    }

    /// A well-formed tree's content is sorted by smoothed key: what
    /// `traverse` hands out, and what a saved image replays, is the
    /// insertion multiset in ascending smoothed order.
    pub proof fn lemma_records_sorted(&self)
        requires
            self.wf(),
        ensures
            recs_sorted(self.records_spec()),
    {
        lemma_wf_sorted(self.root@);
    }

    /// Every leaf of a well-formed tree keeps its smoothed ties in
    /// ascending raw order: the insertion position walks past exactly the
    /// raw-smaller spellings of a key's smoothed form.
    pub proof fn lemma_leaf_ties(&self)
        requires
            self.wf(),
        ensures
            leaf_ties_sorted(self.root_view()),
    {
        lemma_wf_leaf_ties(self.root@);
    }

    /// In a tree still held in one leaf, the whole content keeps its
    /// smoothed ties in ascending raw order: the first spelling of every
    /// smoothed run is its byte-least variant.
    pub proof fn lemma_root_leaf_ties_sorted(&self)
        requires
            self.wf(),
            self.root_view().is_leaf,
        ensures
            ties_raw_sorted(self.records_spec()),
    {
        lemma_wf_leaf_ties(self.root@);
    }

    /// An empty tree: a leaf root with no records.
    pub fn new(index_size_limit: u64, leaf_size_limit: u64) -> (r: Self)
        requires
            index_size_limit < u64::MAX,
            leaf_size_limit < u64::MAX,
        ensures
            r.wf(),
            r.records_spec() =~= Seq::<RecV>::empty(),
    {
        let r = Tree { root: Node::new(true), index_size_limit, leaf_size_limit };
        proof {
            assert(r.root@.records =~= Seq::<RecV>::empty());
        }
        r
    }

    /// Insert one record.  Descends under raw routing, inserts at the
    /// smoothed position, and splits oversized nodes on the way back up,
    /// growing a new root when the old root splits.
    pub fn insert(&mut self, key: EntryKey, value: EntryValue)
        requires
            old(self).wf(),
        ensures
            final(self).wf(),
            final(self).records_spec().to_multiset() == old(self).records_spec().to_multiset().insert(
                RecV { key: key@, value: Some(value@) },
            ),
    {
        broadcast use vstd::seq_lib::group_to_multiset_ensures;

        let ghost rv = RecV { key: key@, value: Some(value@) };
        let rec = Record::with_value(key, value);
        if self.root.is_leaf && self.root.records.len() == 0 {
            let ghost rs0 = recs_view(self.root.records@);
            self.root.records.push(rec);
            proof {
                assert(recs_view(self.root.records@) =~= rs0.push(rv));
                assert(self.root@.children =~= Seq::<NodeV>::empty());
                assert(rs0.push(rv).to_multiset() =~= rs0.to_multiset().insert(rv));
            }
            return;
        }
        proof {
            if !self.root@.is_leaf {
                lemma_index_nonempty(self.root@);
            }
        }
        let split = insert_into(&mut self.root, rec, self.index_size_limit, self.leaf_size_limit);
        if let Some((sep, right)) = split {
            let ghost leftv = self.root@;
            let ghost rightv = right@;
            let ghost sepv = sep@;
            let mut old_root = Node::new(true);
            core::mem::swap(&mut old_root, &mut self.root);
            let mut new_root = Node::new(false);
            new_root.records.push(sep);
            new_root.children.push(old_root);
            new_root.children.push(right);
            proof {
                assert(recs_view(new_root.records@) =~= seq![sepv]);
                lemma_children_view_len(new_root.children@);
                assert(children_view(new_root.children@)[0] == node_view(new_root.children@[0]));
                assert(children_view(new_root.children@)[1] == node_view(new_root.children@[1]));
                assert(children_view(new_root.children@) =~= seq![leftv, rightv]);
            }
            self.root = new_root;
            proof {
                let nv = self.root@;
                assert(nv.records == seq![sepv] && nv.children == seq![leftv, rightv]);
                assert(nv.children[0] == leftv && nv.children[1] == rightv);
                lemma_children_wf_from_elems(nv.children);
                assert(node_wf(nv));
                assert(nv.children =~= seq![leftv].add(seq![rightv]));
                lemma_children_recs_add(seq![leftv], seq![rightv]);
                lemma_children_recs_one(leftv);
                lemma_children_recs_one(rightv);
                assert(node_recs(nv) == node_recs(leftv).add(node_recs(rightv)));
            }
        }
    }

    /// Every record of the tree, in leaf order.
    pub fn traverse(&self) -> (r: Vec<Record>)
        ensures
            recs_view(r@) == self.records_spec(),
    {
        let mut out: Vec<Record> = Vec::new();
        proof {
            assert(recs_view(out@) =~= Seq::<RecV>::empty());
        }
        collect_records(&self.root, &mut out);
        proof {
            assert(Seq::<RecV>::empty().add(node_recs(self.root@)) =~= node_recs(self.root@));
        }
        out
    }

    /// How many records the tree holds.
    pub fn record_num(&self) -> (r: usize)
        ensures
            r == self.records_spec().len(),
    {
        let v = self.traverse();
        v.len()
    }
}

/// Append every record under `node` to `out`, in leaf order.
fn collect_records(node: &Node, out: &mut Vec<Record>)
    ensures
        recs_view(final(out)@) == recs_view(old(out)@).add(node_recs(node@)),
    decreases *node,
{
    let ghost start = recs_view(old(out)@);
    if node.is_leaf {
        let n = node.records.len();
        let mut i: usize = 0;
        proof {
            assert(recs_view(node.records@).take(0) =~= Seq::<RecV>::empty());
            assert(start.add(Seq::<RecV>::empty()) =~= start);
        }
        while i < n
            invariant
                n == node.records@.len(),
                i <= n,
                node@.is_leaf,
                recs_view(out@) =~= start.add(recs_view(node.records@).take(i as int)),
            decreases n - i,
        {
            let ghost pre = out@;
            out.push(node.records[i].clone());
            i = i + 1;
            proof {
                let cur = recs_view(node.records@).take(i as int);
                assert(recs_view(pre) == start.add(recs_view(node.records@).take(i - 1)));
                assert(recs_view(pre).len() == pre.len());
                assert(recs_view(node.records@).take(i - 1).len() == i - 1);
                assert(pre.len() == start.len() + i - 1);
                assert(out@ == pre.push(out@[pre.len() as int]));
                assert(out@.len() == start.len() + i);
                assert(cur.len() == i);
                assert forall|k: int| 0 <= k < out@.len() implies recs_view(out@)[k] == start.add(
                    cur,
                )[k] by {
                    if k < pre.len() {
                        assert(out@[k] == pre[k]);
                        assert(recs_view(pre)[k] == start.add(
                            recs_view(node.records@).take(i - 1),
                        )[k]);
                    } else {
                        assert(out@[k]@ == node.records@[i - 1]@);
                    }
                }
                assert(recs_view(out@) =~= start.add(cur));
            }
        }
        proof {
            assert(recs_view(node.records@).take(n as int) =~= recs_view(node.records@));
            assert(node_recs(node@) == recs_view(node.records@));
        }
    } else {
        let m = node.children.len();
        let mut j: usize = 0;
        proof {
            lemma_children_view_len(node.children@);
            assert(children_view(node.children@).take(0) =~= Seq::<NodeV>::empty());
            assert(start.add(Seq::<RecV>::empty()) =~= start);
        }
        while j < m
            invariant
                m == node.children@.len(),
                j <= m,
                !node@.is_leaf,
                recs_view(out@) =~= start.add(
                    children_recs(children_view(node.children@).take(j as int)),
                ),
            decreases m - j,
        {
            proof {
                assert(decreases_to!(*node => node.children));
                assert(decreases_to!(node.children => node.children@));
                assert(decreases_to!(node.children@ => node.children@[j as int]));
            }
            collect_records(&node.children[j], out);
            j = j + 1;
            proof {
                lemma_children_view_len(node.children@);
                let cs = children_view(node.children@);
                assert(cs.take(j as int) =~= cs.take(j - 1).push(node_view(node.children@[j - 1])));
                assert(cs.take(j as int).drop_last() =~= cs.take(j - 1));
                assert(children_recs(cs.take(j as int)) == children_recs(cs.take(j - 1)).add(
                    node_recs(cs.take(j as int).last()),
                ));
                assert(recs_view(out@) =~= start.add(children_recs(cs.take(j as int))));
            }
        }
        proof {
            let cs = children_view(node.children@);
            assert(cs.take(m as int) =~= cs);
            assert(node_recs(node@) == children_recs(cs));
        }
    }
}

/// Structural soundness of a node: child counts and value presence match
/// the node kind.  Weaker than `node_wf`: no ordering.  Every tree decoded
/// from a file image satisfies it, which is what re-serialization needs.
pub open spec fn node_shaped(nv: NodeV) -> bool
    decreases nv,
{
    if nv.is_leaf {
        &&& nv.children.len() == 0
        &&& forall|i: int| 0 <= i < nv.records.len() ==> (#[trigger] nv.records[i]).value is Some
    } else {
        &&& nv.children.len() == nv.records.len() + 1
        &&& forall|i: int| 0 <= i < nv.records.len() ==> (#[trigger] nv.records[i]).value is None
        &&& children_shaped(nv.children)
    }
}

pub open spec fn children_shaped(cs: Seq<NodeV>) -> bool
    decreases cs,
{
    if cs.len() == 0 {
        true
    } else {
        children_shaped(cs.drop_last()) && node_shaped(cs.last())
    }
}

pub proof fn lemma_children_shaped_elem(cs: Seq<NodeV>)
    requires
        children_shaped(cs),
    ensures
        forall|i: int| 0 <= i < cs.len() ==> node_shaped(#[trigger] cs[i]),
    decreases cs.len(),
{
    if cs.len() > 0 {
        lemma_children_shaped_elem(cs.drop_last());
        assert forall|i: int| 0 <= i < cs.len() implies node_shaped(#[trigger] cs[i]) by {
            if i < cs.len() - 1 {
                assert(cs.drop_last()[i] == cs[i]);
            } else {
                assert(cs.last() == cs[i]);
            }
        }
    }
}

pub proof fn lemma_children_shaped_from_elems(cs: Seq<NodeV>)
    requires
        forall|i: int| 0 <= i < cs.len() ==> node_shaped(#[trigger] cs[i]),
    ensures
        children_shaped(cs),
    decreases cs.len(),
{
    if cs.len() > 0 {
        assert forall|i: int| 0 <= i < cs.drop_last().len() implies node_shaped(
            #[trigger] cs.drop_last()[i],
        ) by {
            assert(cs.drop_last()[i] == cs[i]);
        }
        lemma_children_shaped_from_elems(cs.drop_last());
        assert(cs.last() == cs[cs.len() - 1]);
    }
}

/// Every well-formed node is structurally sound.
pub proof fn lemma_wf_shaped(nv: NodeV)
    ensures
        node_wf(nv) ==> node_shaped(nv),
    decreases nv, 1int,
{
    if node_wf(nv) && !nv.is_leaf {
        lemma_children_wf_elem(nv.children);
        lemma_wf_shaped_children(nv.children);
    }
}

proof fn lemma_wf_shaped_children(cs: Seq<NodeV>)
    requires
        forall|i: int| 0 <= i < cs.len() ==> node_wf(#[trigger] cs[i]),
    ensures
        children_shaped(cs),
    decreases cs, 0int,
{
    if cs.len() > 0 {
        assert forall|i: int| 0 <= i < cs.drop_last().len() implies node_wf(
            #[trigger] cs.drop_last()[i],
        ) by {
            assert(cs.drop_last()[i] == cs[i]);
        }
        lemma_wf_shaped_children(cs.drop_last());
        assert(decreases_to!(cs => cs[cs.len() - 1]));
        lemma_wf_shaped(cs[cs.len() - 1]);
        assert(cs.last() == cs[cs.len() - 1]);
    }
}

/// What a node image at `(off, size)` inside `data` decodes to, children
/// included.  Children must lie strictly before their parent, which the
/// post-order writer guarantees; anything else fails.
pub open spec fn spec_parse_tree(data: Seq<u8>, off: int, size: int) -> Option<NodeV>
    decreases off, 1int, 0int,
{
    if 1 <= off && size > 0 && off + size <= data.len() {
        match inflate_of(data.subrange(off, off + size)) {
            None => None,
            Some(raw) => match spec_parse_node(raw) {
                None => None,
                Some((is_leaf, rs, ps)) => {
                    if is_leaf {
                        Some(NodeV { is_leaf: true, records: rs, children: Seq::empty() })
                    } else {
                        match spec_parse_kids(data, ps, off) {
                            None => None,
                            Some(cs) => Some(NodeV { is_leaf: false, records: rs, children: cs }),
                        }
                    }
                },
            },
        }
    } else {
        None
    }
}

/// Decode the children named by a pointer block, left to right, stopping at
/// a zero-size entry.
pub open spec fn spec_parse_kids(data: Seq<u8>, ps: Seq<(u64, u32)>, parent_off: int) -> Option<
    Seq<NodeV>,
>
    decreases parent_off, 0int, ps.len(),
{
    if ps.len() == 0 {
        Some(Seq::empty())
    } else if ps.first().1 == 0 {
        Some(Seq::empty())
    } else if 0 <= parent_off && ps.first().0 < parent_off {
        match spec_parse_tree(data, ps.first().0 as int, ps.first().1 as int) {
            None => None,
            Some(c) => match spec_parse_kids(data, ps.drop_first(), parent_off) {
                None => None,
                Some(rest) => Some(seq![c].add(rest)),
            },
        }
    } else {
        None
    }
}

/// Can every record here be encoded (lengths fit their `u32` fields)?
fn check_recs_encodable(records: &Vec<Record>) -> (r: bool)
    ensures
        r == recs_encodable(recs_view(records@)),
{
    let n = records.len();
    if n as u64 > u32::MAX as u64 {
        return false;
    }
    let mut i: usize = 0;
    while i < n
        invariant
            n == records@.len(),
            i <= n,
            forall|k: int| 0 <= k < i ==> rec_encodable(#[trigger] recs_view(records@)[k]),
        decreases n - i,
    {
        if records[i].key.0.len() as u64 > u32::MAX as u64 {
            return false;
        }
        if let Some(v) = &records[i].value {
            if v.0.len() as u64 > u32::MAX as u64 {
                return false;
            }
        }
        proof {
            assert(rec_encodable(recs_view(records@)[i as int]));
        }
        i = i + 1;
    }
    true
}

/// The leaf the image holds at `(off, size)`: its records and its one
/// trailer pointer, the next-leaf link.  Parse only — the chain is a
/// structural property of the emitted bytes.
pub open spec fn leaf_at(data: Seq<u8>, off: int, size: int) -> Option<(Seq<RecV>, (u64, u32))> {
    if 1 <= off && size > 0 && off + size <= data.len() {
        match inflate_of(data.subrange(off, off + size)) {
            None => None,
            Some(raw) => match spec_parse_node(raw) {
                None => None,
                Some((is_leaf, rs, ps)) => if is_leaf && ps.len() == 1 {
                    Some((rs, ps[0]))
                } else {
                    None
                },
            },
        }
    } else {
        None
    }
}

/// The records collected by following next-leaf trailers from `from` until
/// the chain reaches `stop`, each link strictly decreasing in offset.
/// `None` when a link is no leaf or the offsets do not descend.
pub open spec fn chain_to(data: Seq<u8>, from: (u64, u32), stop: (u64, u32)) -> Option<Seq<RecV>>
    decreases from.0,
{
    if from == stop {
        Some(Seq::empty())
    } else {
        match leaf_at(data, from.0 as int, from.1 as int) {
            None => None,
            Some((recs, next)) => if next.0 < from.0 {
                match chain_to(data, next, stop) {
                    None => None,
                    Some(rest) => Some(recs.add(rest)),
                }
            } else {
                None
            },
        }
    }
}

/// A chain only descends: its stop sits at or below its start.
proof fn lemma_chain_le(data: Seq<u8>, from: (u64, u32), stop: (u64, u32))
    requires
        chain_to(data, from, stop) is Some,
    ensures
        stop.0 <= from.0,
    decreases from.0,
{
    if from != stop {
        let (recs, next) = leaf_at(data, from.0 as int, from.1 as int).unwrap();
        lemma_chain_le(data, next, stop);
    }
}

/// Chains compose: walking to `b` and on to `c` is walking to `c`.
proof fn lemma_chain_compose(
    data: Seq<u8>,
    a: (u64, u32),
    b: (u64, u32),
    c: (u64, u32),
    x: Seq<RecV>,
    y: Seq<RecV>,
)
    requires
        chain_to(data, a, b) == Some(x),
        chain_to(data, b, c) == Some(y),
        c.0 < b.0 || c == b,
    ensures
        chain_to(data, a, c) == Some(x.add(y)),
    decreases a.0,
{
    if a == b {
        assert(x =~= Seq::<RecV>::empty());
        assert(x.add(y) =~= y);
    } else {
        let (recs, next) = leaf_at(data, a.0 as int, a.1 as int).unwrap();
        let rest = chain_to(data, next, b).unwrap();
        lemma_chain_le(data, next, b);
        lemma_chain_compose(data, next, b, c, rest, y);
        assert(a != c);
        assert(recs.add(rest).add(y) =~= recs.add(rest.add(y)));
    }
}

/// The serializer's layout, mirrored over the compressed lengths alone:
/// what writing the subtree after `len` buffered bytes at absolute `base`
/// yields — the new buffer length, the node's `(offset, size)`, and the
/// next-leaf link afterwards.  `None` exactly where a record length, a
/// compressed size or an offset would not fit its field.
pub open spec fn spec_layout(nv: NodeV, base: int, len: int, next: (u64, u32)) -> Option<
    (int, u64, u32, (u64, u32)),
>
    decreases nv, 1int, 0int,
{
    if nv.is_leaf {
        if !recs_encodable(nv.records) {
            None
        } else {
            let z = deflate_len_of(node_bytes(true, nv.records, seq![next]));
            if z == 0 || z > u32::MAX {
                None
            } else if base > u64::MAX - len {
                None
            } else {
                Some((len + z, (base + len) as u64, z as u32, ((base + len) as u64, z as u32)))
            }
        }
    } else {
        match spec_layout_kids(nv.children, base, len, next) {
            None => None,
            Some(t2) => if !recs_encodable(nv.records) {
                None
            } else {
                let z = deflate_len_of(node_bytes(false, nv.records, t2.1));
                if z == 0 || z > u32::MAX {
                    None
                } else if base > u64::MAX - t2.0 {
                    None
                } else {
                    Some((t2.0 + z, (base + t2.0) as u64, z as u32, t2.2))
                }
            },
        }
    }
}

/// The layout of a run of subtrees, written right to left: the new buffer
/// length, their pointer block in child order, and the next-leaf link.
pub open spec fn spec_layout_kids(cs: Seq<NodeV>, base: int, len: int, next: (u64, u32)) -> Option<
    (int, Seq<(u64, u32)>, (u64, u32)),
>
    decreases cs, 0int, 0int,
{
    if cs.len() == 0 {
        Some((len, Seq::empty(), next))
    } else {
        match spec_layout(cs.last(), base, len, next) {
            None => None,
            Some(t) => match spec_layout_kids(cs.drop_last(), base, t.0, t.3) {
                None => None,
                Some(t2) => Some((t2.0, t2.1.push((t.1, t.2)), t2.2)),
            },
        }
    }
}

/// The layout of a whole tree as `write_to` emits it at absolute `base`:
/// the buffer length and the root's `(offset, size)`, with zeroes for an
/// empty tree.  `None` exactly where a record length, a compressed size or
/// an offset would not fit its field.
pub open spec fn spec_tree_layout(root: NodeV, base: int) -> Option<(int, u64, u32)> {
    if root.is_leaf && root.records.len() == 0 {
        Some((0, 0u64, 0u32))
    } else {
        match spec_layout(root, base, 0, (0u64, 0u32)) {
            None => None,
            Some(t) => Some((t.0, t.1, t.2)),
        }
    }
}

/// Serialize the subtree at `node` into `out` (to be placed at absolute
/// offset `base`), post-order, right-most child first so every leaf can
/// point at its successor.  Returns the node's `(offset, compressed size)`,
/// or `None` when a length field or offset would overflow.
#[verifier::rlimit(100)]
#[verifier::loop_isolation(false)]
fn write_node(node: &Node, base: u64, out: &mut Vec<u8>, next_leaf: &mut (u64, u32)) -> (r: Option<
    (u64, u32),
>)
    requires
        node_shaped(node@),
        base >= 1,
        old(next_leaf).0 < base + old(out)@.len(),
    ensures
        final(out)@.len() >= old(out)@.len(),
        final(out)@.subrange(0, old(out)@.len() as int) == old(out)@,
        match r {
            Some(p) => {
                &&& p.1 > 0
                &&& base + old(out)@.len() <= p.0 as int
                &&& p.0 as int + p.1 as int <= base + final(out)@.len()
                &&& forall|data: Seq<u8>|
                    base + final(out)@.len() <= data.len() && data.subrange(
                        base as int,
                        base + final(out)@.len(),
                    ) == final(out)@ ==> #[trigger] spec_parse_tree(
                        data,
                        p.0 as int,
                        p.1 as int,
                    ) == Some(node_view(*node))
                &&& base + old(out)@.len() <= final(next_leaf).0 as int
                &&& (final(next_leaf).0 as int) < base + final(out)@.len()
                &&& forall|data: Seq<u8>|
                    base + final(out)@.len() <= data.len() && data.subrange(
                        base as int,
                        base + final(out)@.len(),
                    ) == final(out)@ ==> #[trigger] chain_to(
                        data,
                        *final(next_leaf),
                        *old(next_leaf),
                    ) == Some(node_recs(node@))
                &&& spec_layout(node@, base as int, old(out)@.len() as int, *old(next_leaf))
                    == Some((final(out)@.len() as int, p.0, p.1, *final(next_leaf)))
            },
            None => spec_layout(node@, base as int, old(out)@.len() as int, *old(next_leaf))
                is None,
        },
    decreases *node,
{
    let ghost orig_out = out@;
    if node.is_leaf {
        if !check_recs_encodable(&node.records) {
            proof {
                assert(out@.subrange(0, orig_out.len() as int) =~= orig_out);
            }
            return None;
        }
        let mut ptrs: Vec<(u64, u32)> = Vec::new();
        ptrs.push((next_leaf.0, next_leaf.1));
        proof {
            assert(ptrs@ =~= seq![*old(next_leaf)]);
        }
        let buf = node.bytes(&ptrs);
        let zipped = deflate_bytes(buf.as_slice());
        proof {
            assert(buf@ == node_bytes(true, node@.records, seq![*old(next_leaf)]));
        }
        if zipped.len() == 0 || zipped.len() as u64 > u32::MAX as u64 {
            proof {
                assert(out@.subrange(0, orig_out.len() as int) =~= orig_out);
            }
            return None;
        }
        let pre_len = out.len();
        if base > u64::MAX - (pre_len as u64) {
            proof {
                assert(out@.subrange(0, orig_out.len() as int) =~= orig_out);
            }
            return None;
        }
        let off = base + (pre_len as u64);
        let size = zipped.len() as u32;
        let ghost zv = zipped@;
        let mut z = zipped;
        out.append(&mut z);
        *next_leaf = (off, size);
        proof {
            assert(out@.subrange(0, orig_out.len() as int) =~= orig_out);
            crate::node::lemma_parse_node_bytes(true, recs_view(node.records@), ptrs@);
            assert(node@.children =~= Seq::<NodeV>::empty());
            assert forall|data: Seq<u8>|
                base + out@.len() <= data.len() && data.subrange(base as int, base + out@.len())
                    == out@ implies #[trigger] spec_parse_tree(data, off as int, size as int)
                == Some(node_view(*node)) by {
                assert(data.subrange(off as int, off as int + size as int) =~= zv) by {
                    assert forall|k: int| 0 <= k < size as int implies data.subrange(
                        off as int,
                        off as int + size as int,
                    )[k] == zv[k] by {
                        assert(data.subrange(base as int, base + out@.len())[orig_out.len() + k]
                            == out@[orig_out.len() + k]);
                    }
                }
                assert(inflate_of(data.subrange(off as int, off as int + size as int)) == Some(
                    buf@,
                ));
            }
            // the chain from this leaf: its records, then the trailer —
            // which points strictly below it, where the caller's chain ends
            assert(ptrs@ =~= seq![*old(next_leaf)]);
            assert forall|data: Seq<u8>|
                base + out@.len() <= data.len() && data.subrange(base as int, base + out@.len())
                    == out@ implies #[trigger] chain_to(data, (off, size), *old(next_leaf)) == Some(
                node_recs(node@),
            ) by {
                assert(data.subrange(off as int, off as int + size as int) =~= zv) by {
                    assert forall|k: int| 0 <= k < size as int implies data.subrange(
                        off as int,
                        off as int + size as int,
                    )[k] == zv[k] by {
                        assert(data.subrange(base as int, base + out@.len())[orig_out.len() + k]
                            == out@[orig_out.len() + k]);
                    }
                }
                assert(inflate_of(data.subrange(off as int, off as int + size as int)) == Some(
                    buf@,
                ));
                assert(leaf_at(data, off as int, size as int) == Some(
                    (recs_view(node.records@), *old(next_leaf)),
                ));
                assert((off, size) != *old(next_leaf));
                assert(chain_to(data, *old(next_leaf), *old(next_leaf)) == Some(
                    Seq::<RecV>::empty(),
                ));
                assert(recs_view(node.records@).add(Seq::<RecV>::empty()) =~= recs_view(
                    node.records@,
                ));
            }
        }
        return Some((off, size));
    }
    // Index node: children first, right to left.
    let m = node.children.len();
    let mut cnt: usize = m;
    let mut ptrs: Vec<(u64, u32)> = Vec::new();
    proof {
        lemma_children_view_len(node.children@);
        lemma_children_shaped_elem(children_view(node.children@));
        assert(children_view(node.children@).skip(m as int) =~= Seq::<NodeV>::empty());
        assert(children_recs(children_view(node.children@).skip(m as int)) =~= Seq::<
            RecV,
        >::empty());
        assert(children_view(node.children@).take(m as int) =~= children_view(node.children@));
        assert(ptrs@ =~= Seq::<(u64, u32)>::empty());
        let full = spec_layout_kids(
            children_view(node.children@),
            base as int,
            orig_out.len() as int,
            *old(next_leaf),
        );
        match full {
            Some(t2) => {
                assert(t2.1.add(Seq::<(u64, u32)>::empty()) =~= t2.1);
            },
            None => {},
        }
    }
    while cnt > 0
        invariant
            cnt <= m,
            m == node.children@.len(),
            node_shaped(node@),
            !node@.is_leaf,
            base >= 1,
            ptrs@.len() == m - cnt,
            out@.len() >= orig_out.len(),
            out@.subrange(0, orig_out.len() as int) == orig_out,
            forall|t: int|
                0 <= t < ptrs@.len() ==> (#[trigger] ptrs@[t]).1 > 0 && base <= ptrs@[t].0 as int
                    && ptrs@[t].0 as int + ptrs@[t].1 as int <= base + out@.len(),
            forall|data: Seq<u8>, po: int|
                base + out@.len() <= data.len() && data.subrange(base as int, base + out@.len())
                    == out@ && po >= base + out@.len() ==> #[trigger] spec_parse_kids(
                    data,
                    ptrs@,
                    po,
                ) == Some(children_view(node.children@).skip(cnt as int)),
            cnt == m ==> *next_leaf == *old(next_leaf),
            cnt < m ==> base + orig_out.len() <= next_leaf.0 && (next_leaf.0 as int) < base
                + out@.len(),
            forall|data: Seq<u8>|
                base + out@.len() <= data.len() && data.subrange(base as int, base + out@.len())
                    == out@ ==> #[trigger] chain_to(data, *next_leaf, *old(next_leaf)) == Some(
                    children_recs(children_view(node.children@).skip(cnt as int)),
                ),
            spec_layout_kids(
                children_view(node.children@),
                base as int,
                orig_out.len() as int,
                *old(next_leaf),
            ) == (match spec_layout_kids(
                children_view(node.children@).take(cnt as int),
                base as int,
                out@.len() as int,
                *next_leaf,
            ) {
                None => None,
                Some(t2) => Some((t2.0, t2.1.add(ptrs@), t2.2)),
            }),
        decreases cnt,
    {
        cnt = cnt - 1;
        let ghost pre_out = out@;
        let ghost pre_ptrs = ptrs@;
        let ghost pre_next = *next_leaf;
        proof {
            assert(decreases_to!(*node => node.children));
            assert(decreases_to!(node.children => node.children@));
            assert(decreases_to!(node.children@ => node.children@[cnt as int]));
            assert(node_shaped(children_view(node.children@)[cnt as int]));
        }
        let cr = write_node(&node.children[cnt], base, out, next_leaf);
        match cr {
            None => {
                proof {
                    lemma_prefix_chain(orig_out, pre_out, out@);
                    // the failing child makes the whole layout fail
                    let cv = children_view(node.children@);
                    assert(cv.take(cnt + 1).last() == cv[cnt as int]);
                    assert(cv.take(cnt + 1).drop_last() =~= cv.take(cnt as int));
                    assert(cv[cnt as int] == node_view(node.children@[cnt as int]));
                    assert(spec_layout_kids(
                        cv.take(cnt + 1),
                        base as int,
                        pre_out.len() as int,
                        pre_next,
                    ) is None);
                    assert(spec_layout_kids(
                        cv,
                        base as int,
                        orig_out.len() as int,
                        *old(next_leaf),
                    ) is None);
                    assert(node@.children == cv);
                }
                return None;
            },
            Some(p) => {
                ptrs.insert(0, p);
                proof {
                    lemma_prefix_chain(orig_out, pre_out, out@);
                    assert(ptrs@ =~= seq![p].add(pre_ptrs));
                    let cv = children_view(node.children@);
                    assert forall|data: Seq<u8>, po: int|
                        base + out@.len() <= data.len() && data.subrange(
                            base as int,
                            base + out@.len(),
                        ) == out@ && po >= base + out@.len() implies #[trigger] spec_parse_kids(
                        data,
                        ptrs@,
                        po,
                    ) == Some(cv.skip(cnt as int)) by {
                        assert(spec_parse_tree(data, p.0 as int, p.1 as int) == Some(
                            node_view(node.children@[cnt as int]),
                        ));
                        // the earlier pointers still parse: the data still
                        // covers the earlier prefix of the buffer
                        assert(data.subrange(base as int, base + pre_out.len()) =~= pre_out) by {
                            assert forall|k: int| 0 <= k < pre_out.len() implies data.subrange(
                                base as int,
                                base + pre_out.len(),
                            )[k] == pre_out[k] by {
                                assert(data.subrange(base as int, base + out@.len())[k] == out@[k]);
                                assert(out@.subrange(0, pre_out.len() as int)[k] == pre_out[k]);
                            }
                        }
                        assert(spec_parse_kids(data, pre_ptrs, po) == Some(
                            cv.skip(cnt + 1 as int),
                        ));
                        assert(ptrs@.drop_first() =~= pre_ptrs);
                        assert(ptrs@.first() == p);
                        assert(seq![node_view(node.children@[cnt as int])].add(
                            cv.skip(cnt + 1 as int),
                        ) =~= cv.skip(cnt as int));
                    }
                    // the chain grows leftward: this child's leaves, then
                    // the chain the earlier children left behind
                    assert forall|data: Seq<u8>|
                        base + out@.len() <= data.len() && data.subrange(
                            base as int,
                            base + out@.len(),
                        ) == out@ implies #[trigger] chain_to(data, *next_leaf, *old(next_leaf))
                        == Some(children_recs(cv.skip(cnt as int))) by {
                        assert(data.subrange(base as int, base + pre_out.len()) =~= pre_out) by {
                            assert forall|k: int| 0 <= k < pre_out.len() implies data.subrange(
                                base as int,
                                base + pre_out.len(),
                            )[k] == pre_out[k] by {
                                assert(data.subrange(base as int, base + out@.len())[k] == out@[k]);
                                assert(out@.subrange(0, pre_out.len() as int)[k] == pre_out[k]);
                            }
                        }
                        assert(chain_to(data, pre_next, *old(next_leaf)) == Some(
                            children_recs(cv.skip(cnt + 1)),
                        ));
                        assert(chain_to(data, *next_leaf, pre_next) == Some(
                            node_recs(node_view(node.children@[cnt as int])),
                        ));
                        lemma_chain_compose(
                            data,
                            *next_leaf,
                            pre_next,
                            *old(next_leaf),
                            node_recs(node_view(node.children@[cnt as int])),
                            children_recs(cv.skip(cnt + 1)),
                        );
                        assert(cv.skip(cnt as int) =~= seq![cv[cnt as int]].add(
                            cv.skip(cnt + 1),
                        ));
                        lemma_children_recs_add(seq![cv[cnt as int]], cv.skip(cnt + 1));
                        lemma_children_recs_one(cv[cnt as int]);
                        assert(cv[cnt as int] == node_view(node.children@[cnt as int]));
                    }
                    // the layout mirror advances by the child just written
                    assert(cv.take(cnt + 1).last() == cv[cnt as int]);
                    assert(cv.take(cnt + 1).drop_last() =~= cv.take(cnt as int));
                    assert(spec_layout(cv[cnt as int], base as int, pre_out.len() as int, pre_next)
                        == Some((out@.len() as int, p.0, p.1, *next_leaf)));
                    assert(spec_layout_kids(
                        cv.take(cnt + 1),
                        base as int,
                        pre_out.len() as int,
                        pre_next,
                    ) == (match spec_layout_kids(
                        cv.take(cnt as int),
                        base as int,
                        out@.len() as int,
                        *next_leaf,
                    ) {
                        None => None,
                        Some(t2) => Some((t2.0, t2.1.push((p.0, p.1)), t2.2)),
                    }));
                    match spec_layout_kids(
                        cv.take(cnt as int),
                        base as int,
                        out@.len() as int,
                        *next_leaf,
                    ) {
                        None => {},
                        Some(t2) => {
                            assert(t2.1.push((p.0, p.1)).add(pre_ptrs) =~= t2.1.add(
                                seq![(p.0, p.1)].add(pre_ptrs),
                            ));
                            assert(ptrs@ =~= seq![(p.0, p.1)].add(pre_ptrs));
                        },
                    }
                }
            },
        }
    }
    // Now the node itself.
    proof {
        let cv = children_view(node.children@);
        assert(cv.take(0) =~= Seq::<NodeV>::empty());
        let part = spec_layout_kids(cv.take(0), base as int, out@.len() as int, *next_leaf);
        assert(part == Some((out@.len() as int, Seq::<(u64, u32)>::empty(), *next_leaf)));
        match part {
            Some(t2) => {
                assert(t2.1.add(ptrs@) =~= ptrs@);
            },
            None => {},
        }
        assert(spec_layout_kids(cv, base as int, orig_out.len() as int, *old(next_leaf)) == Some(
            (out@.len() as int, ptrs@, *next_leaf),
        ));
        assert(node@.children == cv);
    }
    if !check_recs_encodable(&node.records) {
        return None;
    }
    let buf = node.bytes(&ptrs);
    let zipped = deflate_bytes(buf.as_slice());
    proof {
        assert(buf@ == node_bytes(false, node@.records, ptrs@));
    }
    if zipped.len() == 0 || zipped.len() as u64 > u32::MAX as u64 {
        return None;
    }
    let pre_len = out.len();
    if base > u64::MAX - (pre_len as u64) {
        return None;
    }
    let ghost pre_out = out@;
    let off = base + (pre_len as u64);
    let size = zipped.len() as u32;
    let ghost zv = zipped@;
    let mut z = zipped;
    out.append(&mut z);
    proof {
        assert(out@.subrange(0, pre_out.len() as int) =~= pre_out);
        lemma_prefix_chain(orig_out, pre_out, out@);
        assert(ptrs@.len() == child_count(false, recs_view(node.records@).len()));
        crate::node::lemma_parse_node_bytes(false, recs_view(node.records@), ptrs@);
        assert forall|data: Seq<u8>|
            base + out@.len() <= data.len() && data.subrange(base as int, base + out@.len())
                == out@ implies #[trigger] spec_parse_tree(data, off as int, size as int) == Some(
            node_view(*node),
        ) by {
            assert(data.subrange(off as int, off as int + size as int) =~= zv) by {
                assert forall|k: int| 0 <= k < size as int implies data.subrange(
                    off as int,
                    off as int + size as int,
                )[k] == zv[k] by {
                    assert(data.subrange(base as int, base + out@.len())[pre_out.len() + k]
                        == out@[pre_out.len() + k]);
                }
            }
            assert(inflate_of(data.subrange(off as int, off as int + size as int)) == Some(buf@));
            assert(data.subrange(base as int, base + pre_out.len()) =~= pre_out) by {
                assert forall|k: int| 0 <= k < pre_out.len() implies data.subrange(
                    base as int,
                    base + pre_out.len(),
                )[k] == pre_out[k] by {
                    assert(data.subrange(base as int, base + out@.len())[k] == out@[k]);
                    assert(out@.subrange(0, pre_out.len() as int)[k] == pre_out[k]);
                }
            }
            assert(spec_parse_kids(data, ptrs@, off as int) == Some(
                children_view(node.children@).skip(0),
            ));
            assert(children_view(node.children@).skip(0) =~= children_view(node.children@));
        }
        // the chain the children left behind is untouched by the node's own
        // bytes: a final embedding still embeds the children's region
        assert(node@.children == children_view(node.children@));
        assert(children_view(node.children@).skip(0) =~= children_view(node.children@));
        assert forall|data: Seq<u8>|
            base + out@.len() <= data.len() && data.subrange(base as int, base + out@.len())
                == out@ implies #[trigger] chain_to(data, *next_leaf, *old(next_leaf)) == Some(
            node_recs(node@),
        ) by {
            assert(data.subrange(base as int, base + pre_out.len()) =~= pre_out) by {
                assert forall|k: int| 0 <= k < pre_out.len() implies data.subrange(
                    base as int,
                    base + pre_out.len(),
                )[k] == pre_out[k] by {
                    assert(data.subrange(base as int, base + out@.len())[k] == out@[k]);
                    assert(out@.subrange(0, pre_out.len() as int)[k] == pre_out[k]);
                }
            }
            assert(chain_to(data, *next_leaf, *old(next_leaf)) == Some(
                children_recs(children_view(node.children@).skip(0)),
            ));
        }
    }
    Some((off, size))
}

/// A prefix of a prefix is a prefix.
proof fn lemma_prefix_chain(a: Seq<u8>, b: Seq<u8>, c: Seq<u8>)
    requires
        b.len() >= a.len(),
        b.subrange(0, a.len() as int) == a,
        c.len() >= b.len(),
        c.subrange(0, b.len() as int) == b,
    ensures
        c.subrange(0, a.len() as int) == a,
{
    assert(c.subrange(0, a.len() as int) =~= a) by {
        assert forall|k: int| 0 <= k < a.len() implies c[k] == a[k] by {
            assert(c.subrange(0, b.len() as int)[k] == b[k]);
            assert(b.subrange(0, a.len() as int)[k] == a[k]);
        }
    }
}

impl Tree {
    /// Structural soundness: what re-serialization needs.  Holds of every
    /// built tree and of every tree decoded from a file image.
    pub open spec fn shaped(&self) -> bool {
        &&& node_shaped(self.root_view())
        &&& self.root_view().records.len() == 0 ==> self.root_view().is_leaf
        &&& !self.root_view().is_leaf ==> node_recs(self.root_view()).len() >= 1
    }

    pub proof fn lemma_wf_is_shaped(&self)
        requires
            self.wf(),
        ensures
            self.shaped(),
    {
        lemma_wf_shaped(self.root@);
        if !self.root@.is_leaf {
            lemma_index_nonempty(self.root@);
        }
    }

    /// Serialize the whole tree, post-order, as it would sit at absolute
    /// offset `base` in a file.  Returns the image and the root's
    /// `(offset, compressed size)`; `(0, 0)` stands for an empty tree.
    /// `None` exactly when a length field or offset would not fit, or the
    /// compressor returns an overlong stream — `spec_tree_layout` pins the
    /// outcome, the buffer length and the root location as functions of the
    /// tree and the compressed lengths.  The emitted leaves form a chain:
    /// following each leaf's trailer from the left-most one visits every
    /// record in leaf order and ends at the zero sentinel, which is the
    /// chain the forward scans of a search walk.
    pub fn write_to(&self, base: u64) -> (r: Option<(Vec<u8>, u64, u32)>)
        requires
            self.shaped(),
            base >= 1,
        ensures
            match r {
                Some(t) => {
                    &&& t.2 == 0 ==> self.records_spec().len() == 0 && t.0@.len() == 0
                    &&& t.2 != 0 ==> forall|data: Seq<u8>|
                        base + t.0@.len() <= data.len() && data.subrange(
                            base as int,
                            base + t.0@.len(),
                        ) == t.0@ ==> #[trigger] spec_parse_tree(data, t.1 as int, t.2 as int)
                            == Some(self.root_view())
                },
                None => true,
            },
            self.records_spec().len() == 0 ==> (r matches Some(t) && t.0@.len() == 0 && t.1 == 0
                && t.2 == 0),
            match r {
                Some(t) => spec_tree_layout(self.root_view(), base as int) == Some(
                    (t.0@.len() as int, t.1, t.2),
                ),
                None => spec_tree_layout(self.root_view(), base as int) is None,
            },
            match r {
                Some(t) => t.2 != 0 ==> forall|data: Seq<u8>|
                    base + t.0@.len() <= data.len() && #[trigger] data.subrange(
                        base as int,
                        base + t.0@.len(),
                    ) == t.0@ ==> exists|start: (u64, u32)|
                        #[trigger] chain_to(data, start, (0u64, 0u32)) == Some(self.records_spec()),
                None => true,
            },
    {
        proof {
            if self.records_spec().len() == 0 {
                assert(self.root_view().is_leaf);
                assert(node_recs(self.root_view()) == self.root_view().records);
            }
        }
        if self.root.is_leaf && self.root.records.len() == 0 {
            let empty: Vec<u8> = Vec::new();
            return Some((empty, 0, 0));
        }
        let mut out: Vec<u8> = Vec::new();
        let mut next: (u64, u32) = (0, 0);
        match write_node(&self.root, base, &mut out, &mut next) {
            None => None,
            Some(p) => {
                proof {
                    if self.root@.is_leaf {
                        assert(node_recs(self.root@).len() >= 1);
                    }
                    // the emitted leaf chain enumerates the whole content:
                    // from the left-most leaf, each trailer names the next
                    // leaf at a strictly smaller offset, ending at zero
                    assert forall|data: Seq<u8>|
                        base + out@.len() <= data.len() && #[trigger] data.subrange(
                            base as int,
                            base + out@.len(),
                        ) == out@ implies exists|start: (u64, u32)|
                        #[trigger] chain_to(data, start, (0u64, 0u32)) == Some(
                        self.records_spec(),
                    ) by {
                        assert(chain_to(data, next, (0u64, 0u32)) == Some(node_recs(self.root@)));
                    }
                }
                Some((out, p.0, p.1))
            },
        }
    }
}

/// Every node of a decoded tree carries at least one record, with counts
/// and value presence matching its kind.
pub open spec fn node_ok(nv: NodeV) -> bool
    decreases nv,
{
    &&& nv.records.len() >= 1
    &&& if nv.is_leaf {
        &&& nv.children.len() == 0
        &&& forall|i: int| 0 <= i < nv.records.len() ==> (#[trigger] nv.records[i]).value is Some
    } else {
        &&& nv.children.len() == nv.records.len() + 1
        &&& forall|i: int| 0 <= i < nv.records.len() ==> (#[trigger] nv.records[i]).value is None
        &&& kids_ok(nv.children)
    }
}

pub open spec fn kids_ok(cs: Seq<NodeV>) -> bool
    decreases cs,
{
    if cs.len() == 0 {
        true
    } else {
        kids_ok(cs.drop_last()) && node_ok(cs.last())
    }
}

pub proof fn lemma_kids_ok_elem(cs: Seq<NodeV>)
    requires
        kids_ok(cs),
    ensures
        forall|i: int| 0 <= i < cs.len() ==> node_ok(#[trigger] cs[i]),
    decreases cs.len(),
{
    if cs.len() > 0 {
        lemma_kids_ok_elem(cs.drop_last());
        assert forall|i: int| 0 <= i < cs.len() implies node_ok(#[trigger] cs[i]) by {
            if i < cs.len() - 1 {
                assert(cs.drop_last()[i] == cs[i]);
            } else {
                assert(cs.last() == cs[i]);
            }
        }
    }
}

pub proof fn lemma_kids_ok_from_elems(cs: Seq<NodeV>)
    requires
        forall|i: int| 0 <= i < cs.len() ==> node_ok(#[trigger] cs[i]),
    ensures
        kids_ok(cs),
    decreases cs.len(),
{
    if cs.len() > 0 {
        assert forall|i: int| 0 <= i < cs.drop_last().len() implies node_ok(
            #[trigger] cs.drop_last()[i],
        ) by {
            assert(cs.drop_last()[i] == cs[i]);
        }
        lemma_kids_ok_from_elems(cs.drop_last());
        assert(cs.last() == cs[cs.len() - 1]);
    }
}

/// A decoded tree is structurally sound and holds records.
pub proof fn lemma_ok_shaped(nv: NodeV)
    requires
        node_ok(nv),
    ensures
        node_shaped(nv),
        node_recs(nv).len() >= 1,
    decreases nv, 1int,
{
    if !nv.is_leaf {
        lemma_kids_ok_elem(nv.children);
        lemma_ok_shaped_kids(nv.children);
        assert(decreases_to!(nv => nv.children));
        assert(decreases_to!(nv.children => nv.children[0]));
        lemma_ok_shaped(nv.children[0]);
        lemma_children_recs_split(nv.children, 0);
    }
}

proof fn lemma_ok_shaped_kids(cs: Seq<NodeV>)
    requires
        forall|i: int| 0 <= i < cs.len() ==> node_ok(#[trigger] cs[i]),
    ensures
        children_shaped(cs),
    decreases cs, 0int,
{
    if cs.len() > 0 {
        assert forall|i: int| 0 <= i < cs.drop_last().len() implies node_ok(
            #[trigger] cs.drop_last()[i],
        ) by {
            assert(cs.drop_last()[i] == cs[i]);
        }
        lemma_ok_shaped_kids(cs.drop_last());
        assert(decreases_to!(cs => cs[cs.len() - 1]));
        lemma_ok_shaped(cs[cs.len() - 1]);
        assert(cs.last() == cs[cs.len() - 1]);
    }
}


/// Decode the node image at `(off, size)` and, recursively, its children.
/// Mirrors `spec_parse_tree` exactly, with one more check: child counts must
/// match the node kind, so the result is structurally sound.
#[verifier::loop_isolation(false)]
fn parse_node_at(data: &[u8], off: u64, size: u32) -> (r: Option<Node>)
    ensures
        match spec_parse_tree(data@, off as int, size as int) {
            None => r is None,
            Some(nv) => if node_ok(nv) {
                r matches Some(n) && n@ == nv
            } else {
                r is None
            },
        },
    decreases off,
{
    if size == 0 || off == 0 {
        return None;
    }
    let dlen = data.len();
    if (size as u64) > dlen as u64 || off > (dlen as u64) - (size as u64) {
        return None;
    }
    let sub = vstd::slice::slice_subrange(data, off as usize, (off as usize) + (size as usize));
    let raw = match inflate_bytes(sub) {
        None => {
            return None;
        },
        Some(raw) => raw,
    };
    let (mut node, kids) = match Node::from_bytes(raw.as_slice()) {
        None => {
            return None;
        },
        Some(p) => p,
    };
    let ghost parsed = spec_parse_node(
        inflate_of(data@.subrange(off as int, off as int + size as int))->0,
    );
    proof {
        crate::node::lemma_parse_recs_count(
            inflate_of(data@.subrange(off as int, off as int + size as int))->0,
        );
    }
    if node.is_leaf {
        proof {
            let raw = inflate_of(data@.subrange(off as int, off as int + size as int))->0;
            crate::node::lemma_parse_recs_values(raw, 5, crate::codec::be_val(raw.subrange(1, 5)), true);
        }
        if node.records.len() == 0 {
            proof {
                let nv = spec_parse_tree(data@, off as int, size as int)->Some_0;
                assert(nv.records.len() == 0);
                assert(!node_ok(nv));
            }
            return None;
        }
        proof {
            let nv = spec_parse_tree(data@, off as int, size as int)->Some_0;
            assert(node@ =~= nv);
            assert(node_ok(node@));
        }
        return Some(node);
    }
    proof {
        let raw = inflate_of(data@.subrange(off as int, off as int + size as int))->0;
        crate::node::lemma_parse_recs_values(raw, 5, crate::codec::be_val(raw.subrange(1, 5)), false);
    }
    let m = kids.len();
    let mut j: usize = 0;
    let mut stopped: bool = false;
    let ghost ps = kids@;
    proof {
        assert(ps.skip(0) =~= ps);
        assert(children_view(node.children@) =~= Seq::<NodeV>::empty());
        if spec_parse_kids(data@, ps, off as int) is Some {
            let rest = spec_parse_kids(data@, ps, off as int)->Some_0;
            assert(Seq::<NodeV>::empty().add(rest) =~= rest);
        }
    }
    while j < m && !stopped
        invariant
            j <= m,
            m == ps.len(),
            node.is_leaf == false,
            node@.records == (parsed->Some_0).1,
            children_view(node.children@).len() == j,
            forall|k: int|
                0 <= k < j ==> node_ok(#[trigger] children_view(node.children@)[k]),
            !stopped ==> spec_parse_kids(data@, ps, off as int) == match spec_parse_kids(
                data@,
                ps.skip(j as int),
                off as int,
            ) {
                None => None::<Seq<NodeV>>,
                Some(rest) => Some(children_view(node.children@).add(rest)),
            },
            stopped ==> spec_parse_kids(data@, ps, off as int) == Some(
                children_view(node.children@),
            ),
        decreases m - j, (if stopped { 0int } else { 1int }),
    {
        let (co, cs) = kids[j];
        if cs == 0 {
            proof {
                assert(ps.skip(j as int).first().1 == 0);
                assert(spec_parse_kids(data@, ps.skip(j as int), off as int) == Some(
                    Seq::<NodeV>::empty(),
                ));
                assert(children_view(node.children@).add(Seq::<NodeV>::empty()) =~= children_view(
                    node.children@,
                ));
            }
            stopped = true;
        } else if co >= off {
            proof {
                assert(ps.skip(j as int).first() == ps[j as int]);
                assert(spec_parse_kids(data@, ps.skip(j as int), off as int) is None);
            }
            return None;
        } else {
            let child = match parse_node_at(data, co, cs) {
                None => {
                    proof {
                        assert(ps.skip(j as int).first() == ps[j as int]);
                        let ct = spec_parse_tree(data@, co as int, cs as int);
                        if ct is Some {
                            // the child image decodes but is malformed, so
                            // the whole node is malformed
                            let cnv = ct->Some_0;
                            assert(!node_ok(cnv));
                            let sk = spec_parse_kids(data@, ps.skip(j as int), off as int);
                            if sk is Some {
                                let rest2 = sk->Some_0;
                                assert(rest2.first() == cnv);
                                let nv = spec_parse_tree(data@, off as int, size as int)->Some_0;
                                assert(nv.children == children_view(node.children@).add(rest2));
                                assert(nv.children[j as int] == cnv);
                                if node_ok(nv) {
                                    lemma_kids_ok_elem(nv.children);
                                    assert(node_ok(cnv));
                                }
                            }
                        }
                    }
                    return None;
                },
                Some(c) => c,
            };
            let ghost pre_children = node.children@;
            node.children.push(child);
            j = j + 1;
            proof {
                lemma_children_view_len(node.children@);
                lemma_children_view_len(pre_children);
                assert(children_view(node.children@) =~= children_view(pre_children).push(
                    child@,
                )) by {
                    assert forall|k: int| 0 <= k < node.children@.len() implies children_view(
                        node.children@,
                    )[k] == children_view(pre_children).push(child@)[k] by {
                        assert(children_view(node.children@)[k] == node_view(node.children@[k]));
                        if k < pre_children.len() {
                            assert(node.children@[k] == pre_children[k]);
                            assert(children_view(pre_children)[k] == node_view(pre_children[k]));
                        }
                    }
                }
                assert(ps.skip(j - 1).first() == ps[j - 1]);
                assert(ps.skip(j - 1).drop_first() =~= ps.skip(j as int));
                assert forall|rest: Seq<NodeV>|
                    children_view(pre_children).add(seq![child@].add(rest)) =~= children_view(
                        node.children@,
                    ).add(rest) by {}
            }
        }
    }
    proof {
        if !stopped {
            assert(ps.skip(m as int) =~= Seq::<(u64, u32)>::empty());
            assert(children_view(node.children@).add(Seq::<NodeV>::empty()) =~= children_view(
                node.children@,
            ));
        }
    }
    let rec_count = node.records.len();
    let child_cnt = node.children.len();
    proof {
        lemma_children_view_len(node.children@);
        let nv = spec_parse_tree(data@, off as int, size as int)->Some_0;
        assert(nv.records.len() == rec_count);
        assert(nv.children == children_view(node.children@));
        assert(nv.children.len() == child_cnt);
    }
    if rec_count == 0 {
        proof {
            let nv = spec_parse_tree(data@, off as int, size as int)->Some_0;
            assert(!node_ok(nv));
        }
        return None;
    }
    if child_cnt == 0 || child_cnt - 1 != rec_count {
        proof {
            let nv = spec_parse_tree(data@, off as int, size as int)->Some_0;
            assert(!node_ok(nv));
        }
        return None;
    }
    proof {
        let nv = spec_parse_tree(data@, off as int, size as int)->Some_0;
        lemma_kids_ok_from_elems(children_view(node.children@));
        assert(node@ =~= nv);
        assert(node_ok(node@));
    }
    Some(node)
}

impl Tree {
    /// Rebuild a tree from a file image and its root location.  A zero root
    /// size is the empty tree.  `None` on any decode failure.
    pub fn parse(
        data: &[u8],
        root_offset: u64,
        root_size: u32,
        index_size_limit: u64,
        leaf_size_limit: u64,
    ) -> (r: Option<Tree>)
        requires
            index_size_limit < u64::MAX,
            leaf_size_limit < u64::MAX,
        ensures
            match r {
                Some(t) => {
                    &&& t.shaped()
                    &&& if root_size == 0 {
                        t.records_spec() == Seq::<RecV>::empty()
                    } else {
                        spec_parse_tree(data@, root_offset as int, root_size as int) == Some(
                            t.root_view(),
                        ) && node_ok(t.root_view())
                    }
                },
                None => root_size != 0 && match spec_parse_tree(
                    data@,
                    root_offset as int,
                    root_size as int,
                ) {
                    None => true,
                    Some(nv) => !node_ok(nv),
                },
            },
    {
        if root_size == 0 {
            let t = Tree { root: Node::new(true), index_size_limit, leaf_size_limit };
            proof {
                assert(t.root@.records =~= Seq::<RecV>::empty());
            }
            return Some(t);
        }
        match parse_node_at(data, root_offset, root_size) {
            None => None,
            Some(root) => {
                proof {
                    lemma_ok_shaped(root@);
                }
                Some(Tree { root, index_size_limit, leaf_size_limit })
            },
        }
    }
}

} // verus!
