//! The library's laws: properties of the orders, the lookup semantics and
//! the split policy, proved over the spec-level models that the executable
//! functions' contracts use.

use crate::dict::{decoded_at, spec_scan_entry, spec_scan_leaves, spec_search, spec_search_entry};
use crate::dictionary::{redirect_of, spec_resolve_entry};
use crate::keys::{is_prefix, lex_cmp, smoothed, Cmp};
use crate::node::{
    cmp_at, first_not_gt, key_at, node_size, node_sorted, rec_size, recs_size, spec_index_of, RecV,
};
use crate::tree::ties_raw_sorted;
use vstd::prelude::*;

verus! {

/// A key that a prefix matches is at least the prefix in the lexicographic
/// order: no key below the search's lower bound can match.
pub proof fn lemma_prefix_implies_ge(p: Seq<u8>, k: Seq<u8>)
    requires
        is_prefix(p, k),
    ensures
        lex_cmp(k, p) != Cmp::Lt,
    decreases p.len(),
{
    if p.len() > 0 {
        assert(k.take(p.len() as int)[0] == k[0]);
        if k[0] == p[0] {
            assert(is_prefix(p.drop_first(), k.drop_first())) by {
                assert forall|m: int| 0 <= m < p.drop_first().len() implies k.drop_first().take(
                    p.len() - 1,
                )[m] == p.drop_first()[m] by {
                    assert(k.take(p.len() as int)[m + 1] == p[m + 1]);
                }
                assert(k.drop_first().take(p.len() - 1) =~= p.drop_first());
            }
            lemma_prefix_implies_ge(p.drop_first(), k.drop_first());
        }
    }
}

/// Keys one prefix matches form one contiguous run of the sorted order:
/// between two matching keys every key matches.  This is why the forward
/// scan of a prefix search, stopping at the first key that no longer
/// matches, misses nothing.
pub proof fn lemma_prefix_window(p: Seq<u8>, a: Seq<u8>, b: Seq<u8>, c: Seq<u8>)
    requires
        lex_cmp(a, b) != Cmp::Gt,
        lex_cmp(b, c) != Cmp::Gt,
        is_prefix(p, a),
        is_prefix(p, c),
    ensures
        is_prefix(p, b),
    decreases p.len(),
{
    if p.len() == 0 {
        assert(b.take(0) =~= p);
    } else {
        assert(a.take(p.len() as int)[0] == a[0] && a[0] == p[0]);
        assert(c.take(p.len() as int)[0] == c[0] && c[0] == p[0]);
        assert(b.len() > 0) by {
            if b.len() == 0 {
                assert(lex_cmp(b, c) == Cmp::Lt);
                assert(lex_cmp(a, b) == Cmp::Gt);
            }
        }
        assert(a[0] <= b[0] <= c[0]);
        assert(b[0] == p[0]);
        assert(is_prefix(p.drop_first(), a.drop_first())) by {
            assert forall|m: int| 0 <= m < p.len() - 1 implies a.drop_first().take(p.len() - 1)[m]
                == p.drop_first()[m] by {
                assert(a.take(p.len() as int)[m + 1] == p[m + 1]);
            }
            assert(a.drop_first().take(p.len() - 1) =~= p.drop_first());
        }
        assert(is_prefix(p.drop_first(), c.drop_first())) by {
            assert forall|m: int| 0 <= m < p.len() - 1 implies c.drop_first().take(p.len() - 1)[m]
                == p.drop_first()[m] by {
                assert(c.take(p.len() as int)[m + 1] == p[m + 1]);
            }
            assert(c.drop_first().take(p.len() - 1) =~= p.drop_first());
        }
        lemma_prefix_window(p.drop_first(), a.drop_first(), b.drop_first(), c.drop_first());
        assert(b.take(p.len() as int) =~= p) by {
            assert forall|m: int| 0 <= m < p.len() implies b.take(p.len() as int)[m] == p[m] by {
                if m > 0 {
                    assert(b.drop_first().take(p.len() - 1)[m - 1] == p.drop_first()[m - 1]);
                }
            }
        }
    }
}

/// The scan of a smoothed-equal run: the first raw-equal record.
pub open spec fn run_lookup(recs: Seq<RecV>, name: Seq<u8>) -> Option<RecV>
    decreases recs.len(),
{
    if recs.len() == 0 {
        None
    } else if recs.first().key == name {
        Some(recs.first())
    } else {
        run_lookup(recs.drop_first(), name)
    }
}

/// Exact lookup over a smoothed-equal run: the first raw match wins;
/// failing that, the run's first record.
pub open spec fn exact_result(recs: Seq<RecV>, name: Seq<u8>) -> Option<RecV> {
    match run_lookup(recs, name) {
        Some(r) => Some(r),
        None => if recs.len() > 0 {
            Some(recs[0])
        } else {
            None
        },
    }
}

/// Exact lookup under case folding: over the run of records whose smoothed
/// key equals the smoothed query, the lookup returns a raw-matching record
/// exactly when one exists; otherwise, for a nonempty run, the value of the
/// run's first spelling.
pub proof fn lemma_exact_lookup_case_folding(recs: Seq<RecV>, name: Seq<u8>)
    requires
        forall|i: int| 0 <= i < recs.len() ==> smoothed((#[trigger] recs[i]).key) == smoothed(name),
    ensures
        run_lookup(recs, name) matches Some(r) ==> r.key == name,
        (exists|i: int| 0 <= i < recs.len() && (#[trigger] recs[i]).key == name) <==> (run_lookup(
            recs,
            name,
        ) matches Some(r) && r.key == name),
        exact_result(recs, name) matches Some(r) ==> smoothed(r.key) == smoothed(name),
        (recs.len() > 0 && !(exists|i: int|
            0 <= i < recs.len() && (#[trigger] recs[i]).key == name)) ==> exact_result(recs, name)
            == Some(recs[0]),
        recs.len() == 0 ==> exact_result(recs, name) is None,
    decreases recs.len(),
{
    if recs.len() > 0 {
        assert forall|i: int| 0 <= i < recs.drop_first().len() implies smoothed(
            (#[trigger] recs.drop_first()[i]).key,
        ) == smoothed(name) by {
            assert(recs.drop_first()[i] == recs[i + 1]);
        }
        lemma_exact_lookup_case_folding(recs.drop_first(), name);
        if recs.first().key != name {
            if exists|i: int| 0 <= i < recs.len() && (#[trigger] recs[i]).key == name {
                let i = choose|i: int| 0 <= i < recs.len() && (#[trigger] recs[i]).key == name;
                assert(recs.drop_first()[i - 1] == recs[i]);
            }
            if exists|i: int|
                0 <= i < recs.drop_first().len() && (#[trigger] recs.drop_first()[i]).key == name {
                let i = choose|i: int|
                    0 <= i < recs.drop_first().len() && (#[trigger] recs.drop_first()[i]).key
                        == name;
                assert(recs[i + 1] == recs.drop_first()[i]);
            }
        }
        match run_lookup(recs, name) {
            Some(r) => {
                if recs.first().key != name {
                    assert(smoothed(r.key) == smoothed(name));
                }
            },
            None => {},
        }
    }
}

/// Bounded redirect resolution over a key-to-value map, the model of the
/// dictionary's exact lookup with `@@@LINK=` chasing.
pub open spec fn resolve(m: Map<Seq<u8>, Seq<u8>>, k: Seq<u8>, fuel: nat) -> Option<Seq<u8>>
    decreases fuel,
{
    if fuel == 0 {
        None
    } else if !m.dom().contains(k) {
        None
    } else {
        match redirect_of(m[k]) {
            Some(k2) => resolve(m, k2, (fuel - 1) as nat),
            None => Some(m[k]),
        }
    }
}

/// Redirect resolution: a chain of two links ending in a plain value
/// resolves, within the three hops allowed, to that value.
pub proof fn lemma_redirect_chain_resolves(
    m: Map<Seq<u8>, Seq<u8>>,
    k0: Seq<u8>,
    k1: Seq<u8>,
    k2: Seq<u8>,
)
    requires
        m.dom().contains(k0),
        m.dom().contains(k1),
        m.dom().contains(k2),
        redirect_of(m[k0]) == Some(k1),
        redirect_of(m[k1]) == Some(k2),
        redirect_of(m[k2]) is None,
    ensures
        resolve(m, k0, 3) == Some(m[k2]),
{
    assert(resolve(m, k0, 3) == resolve(m, k1, 2));
    assert(resolve(m, k1, 2) == resolve(m, k2, 1));
    assert(resolve(m, k2, 1) == Some(m[k2]));
}

/// Redirect resolution gives up: a chain that is still redirecting after
/// three hops resolves to absent.
pub proof fn lemma_redirect_chain_exhausted(
    m: Map<Seq<u8>, Seq<u8>>,
    k0: Seq<u8>,
    k1: Seq<u8>,
    k2: Seq<u8>,
    k3: Seq<u8>,
)
    requires
        m.dom().contains(k0),
        m.dom().contains(k1),
        m.dom().contains(k2),
        redirect_of(m[k0]) == Some(k1),
        redirect_of(m[k1]) == Some(k2),
        redirect_of(m[k2]) == Some(k3),
    ensures
        resolve(m, k0, 3) is None,
{
    assert(resolve(m, k0, 3) == resolve(m, k1, 2));
    assert(resolve(m, k1, 2) == resolve(m, k2, 1));
    assert(resolve(m, k2, 1) == resolve(m, k3, 0));
    assert(resolve(m, k3, 0) is None);
}

/// The records from position `i` on whose smoothed key equals the smoothed
/// query: the run the exact lookup's scan collects.
pub open spec fn run_from(recs: Seq<RecV>, i: int, name: Seq<u8>) -> Seq<RecV>
    decreases recs.len() - i,
{
    if i < 0 || i >= recs.len() {
        Seq::empty()
    } else if smoothed(recs[i].key) == smoothed(name) {
        seq![recs[i]].add(run_from(recs, i + 1, name))
    } else {
        run_from(recs, i + 1, name)
    }
}

/// A stretch without smoothed matches contributes nothing to the run.
proof fn lemma_run_from_shift(recs: Seq<RecV>, i: int, j: int, name: Seq<u8>)
    requires
        0 <= i <= j <= recs.len(),
        forall|k: int| i <= k < j ==> smoothed((#[trigger] recs[k]).key) != smoothed(name),
    ensures
        run_from(recs, i, name) == run_from(recs, j, name),
    decreases j - i,
{
    if i < j {
        lemma_run_from_shift(recs, i + 1, j, name);
    }
}

/// Past a record whose smoothed key is above the query, a sorted leaf holds
/// no smoothed match at all.
proof fn lemma_no_match_after_gt(recs: Seq<RecV>, i: int, name: Seq<u8>)
    requires
        node_sorted(true, recs),
        0 <= i < recs.len(),
        lex_cmp(smoothed(recs[i].key), smoothed(name)) == Cmp::Gt,
    ensures
        forall|k: int|
            i <= k < recs.len() ==> smoothed((#[trigger] recs[k]).key) != smoothed(name),
{
    assert forall|k: int|
        i <= k < recs.len() implies smoothed((#[trigger] recs[k]).key) != smoothed(name) by {
        crate::keys::lemma_lex_cmp_eq(smoothed(recs[i].key), smoothed(name));
        if smoothed(recs[k].key) == smoothed(name) {
            if k == i {
            } else {
                assert(key_at(true, recs, i) == smoothed(recs[i].key));
                assert(key_at(true, recs, k) == smoothed(recs[k].key));
                assert(lex_cmp(smoothed(recs[i].key), smoothed(recs[k].key)) != Cmp::Gt);
            }
        }
    }
}

/// The scan with the fallback already set: the first raw match from `i`
/// wins, else the fallback answers.
proof fn lemma_scan_entry_inside_run(
    data: Seq<u8>,
    off: int,
    recs: Seq<RecV>,
    kids: Seq<(u64, u32)>,
    i: int,
    name: Seq<u8>,
    v: Seq<u8>,
)
    requires
        node_sorted(true, recs),
        0 <= i <= recs.len(),
        kids.len() == 0 || kids[0].0 == 0 || kids[0].0 >= off,
        forall|k: int| i <= k < recs.len() ==> (#[trigger] recs[k]).value is Some,
    ensures
        spec_scan_entry(data, off, recs, kids, i, name, Some(v)) == match run_lookup(
            run_from(recs, i, name),
            name,
        ) {
            Some(r) => r.value,
            None => Some(v),
        },
    decreases recs.len() - i,
{
    if i < recs.len() {
        crate::keys::lemma_lex_cmp_eq(smoothed(recs[i].key), smoothed(name));
        if recs[i].key == name {
            assert(run_from(recs, i, name) == seq![recs[i]].add(run_from(recs, i + 1, name)));
            assert(run_from(recs, i, name).first() == recs[i]);
        } else if smoothed(recs[i].key) == smoothed(name) {
            lemma_scan_entry_inside_run(data, off, recs, kids, i + 1, name, v);
            assert(run_from(recs, i, name) == seq![recs[i]].add(run_from(recs, i + 1, name)));
            assert(run_from(recs, i, name).first() == recs[i]);
            assert(run_from(recs, i, name).drop_first() =~= run_from(recs, i + 1, name));
        } else if lex_cmp(smoothed(recs[i].key), smoothed(name)) == Cmp::Gt {
            // the run is over: nothing at or after `i` matches
            lemma_no_match_after_gt(recs, i, name);
            lemma_run_from_shift(recs, i, recs.len() as int, name);
        } else {
            assert(run_from(recs, i, name) == run_from(recs, i + 1, name));
            lemma_scan_entry_inside_run(data, off, recs, kids, i + 1, name, v);
        }
    }
}

/// The scan before any match: on a sorted leaf it answers exactly
/// `exact_result` of the smoothed run from `i` — the first raw match, else
/// the run's first spelling, else absent.
proof fn lemma_scan_entry_run(
    data: Seq<u8>,
    off: int,
    recs: Seq<RecV>,
    kids: Seq<(u64, u32)>,
    i: int,
    name: Seq<u8>,
)
    requires
        node_sorted(true, recs),
        0 <= i <= recs.len(),
        kids.len() == 0 || kids[0].0 == 0 || kids[0].0 >= off,
        forall|k: int| i <= k < recs.len() ==> (#[trigger] recs[k]).value is Some,
    ensures
        spec_scan_entry(data, off, recs, kids, i, name, None) == match exact_result(
            run_from(recs, i, name),
            name,
        ) {
            Some(r) => r.value,
            None => None,
        },
    decreases recs.len() - i,
{
    if i < recs.len() {
        crate::keys::lemma_lex_cmp_eq(smoothed(recs[i].key), smoothed(name));
        if recs[i].key == name {
            assert(run_from(recs, i, name) == seq![recs[i]].add(run_from(recs, i + 1, name)));
            assert(run_from(recs, i, name).first() == recs[i]);
        } else if smoothed(recs[i].key) == smoothed(name) {
            let run = run_from(recs, i, name);
            assert(run.first() == recs[i]);
            assert(run.drop_first() =~= run_from(recs, i + 1, name));
            match recs[i].value {
                Some(v) => {
                    lemma_scan_entry_inside_run(data, off, recs, kids, i + 1, name, v);
                },
                None => {},
            }
        } else if lex_cmp(smoothed(recs[i].key), smoothed(name)) == Cmp::Gt {
            lemma_no_match_after_gt(recs, i, name);
            lemma_run_from_shift(recs, i, recs.len() as int, name);
        } else {
            assert(run_from(recs, i, name) == run_from(recs, i + 1, name));
            lemma_scan_entry_run(data, off, recs, kids, i + 1, name);
        }
    }
}

/// The properties of the position the binary search names: everything below
/// it compares greater, and it compares not-greater unless it is the last.
proof fn lemma_first_not_gt_props(is_leaf: bool, recs: Seq<RecV>, q: Seq<u8>, i: int)
    requires
        0 <= i < recs.len(),
    ensures
        i <= first_not_gt(is_leaf, recs, q, i) < recs.len(),
        forall|j: int|
            i <= j < first_not_gt(is_leaf, recs, q, i) ==> cmp_at(is_leaf, recs, q, j) == Cmp::Gt,
        cmp_at(is_leaf, recs, q, first_not_gt(is_leaf, recs, q, i)) != Cmp::Gt || first_not_gt(
            is_leaf,
            recs,
            q,
            i,
        ) == recs.len() - 1,
    decreases recs.len() - i,
{
    if i < recs.len() - 1 && cmp_at(is_leaf, recs, q, i) == Cmp::Gt {
        lemma_first_not_gt_props(is_leaf, recs, q, i + 1);
    }
}

/// Exact lookup under case folding, of the lookup the executable scan is
/// proved to return: on a root that decodes to one sorted leaf whose
/// records carry values and whose sibling pointer ends the chain, the
/// pinned lookup answers exactly `exact_result` over the run of records
/// whose smoothed key equals the smoothed query — a raw-equal record's
/// value always wins, and failing that the run's first spelling answers.
pub proof fn lemma_single_leaf_exact_lookup(data: Seq<u8>, off: int, size: int, name: Seq<u8>)
    requires
        decoded_at(data, off, size) matches Some((is_leaf, recs, kids)) && is_leaf && (kids.len()
            == 0 || kids[0].0 == 0 || kids[0].0 >= off) && (forall|k: int|
            0 <= k < recs.len() ==> (#[trigger] recs[k]).value is Some),
    ensures
        ({
            let (is_leaf, recs, kids) = decoded_at(data, off, size).unwrap();
            spec_search_entry(data, off, size, name) == match exact_result(
                run_from(recs, 0, name),
                name,
            ) {
                Some(r) => r.value,
                None => None,
            }
        }),
{
    let (is_leaf, recs, kids) = decoded_at(data, off, size).unwrap();
    assert(node_sorted(true, recs));
    if recs.len() == 0 {
        assert(run_from(recs, 0, name) =~= Seq::<RecV>::empty());
    } else {
        let w = first_not_gt(true, recs, name, 0);
        let c = cmp_at(true, recs, name, w);
        lemma_first_not_gt_props(true, recs, name, 0);
        assert(spec_index_of(true, recs, name) == (w, c));
        assert forall|j: int| 0 <= j < w implies smoothed((#[trigger] recs[j]).key) != smoothed(
            name,
        ) by {
            assert(cmp_at(true, recs, name, j) == Cmp::Gt);
            crate::keys::lemma_lex_cmp_eq(smoothed(name), smoothed(recs[j].key));
        }
        if c == Cmp::Lt && w == 0 {
            // the query is below every stored key: the run is empty
            assert forall|k: int| 0 <= k < recs.len() implies smoothed((#[trigger] recs[k]).key)
                != smoothed(name) by {
                crate::keys::lemma_lex_cmp_flip(smoothed(name), smoothed(recs[0].key));
                lemma_no_match_after_gt(recs, 0, name);
            }
            lemma_run_from_shift(recs, 0, recs.len() as int, name);
        } else {
            let idx = if c != Cmp::Lt {
                w
            } else {
                w + 1
            };
            assert forall|j: int| 0 <= j < idx implies smoothed((#[trigger] recs[j]).key)
                != smoothed(name) by {
                if j == w {
                    crate::keys::lemma_lex_cmp_eq(smoothed(name), smoothed(recs[w].key));
                }
            }
            lemma_run_from_shift(recs, 0, idx, name);
            lemma_scan_entry_run(data, off, recs, kids, idx, name);
        }
    }
}

/// The keys from position `i` on whose smoothed form extends the smoothed
/// query: the matches the prefix scan collects.
pub open spec fn prefix_matches_from(recs: Seq<RecV>, i: int, name: Seq<u8>) -> Seq<Seq<u8>>
    decreases recs.len() - i,
{
    if i < 0 || i >= recs.len() {
        Seq::empty()
    } else if is_prefix(smoothed(name), smoothed(recs[i].key)) {
        seq![recs[i].key].add(prefix_matches_from(recs, i + 1, name))
    } else {
        prefix_matches_from(recs, i + 1, name)
    }
}

/// A stretch without prefix matches contributes nothing to the matches.
proof fn lemma_matches_shift(recs: Seq<RecV>, i: int, j: int, name: Seq<u8>)
    requires
        0 <= i <= j <= recs.len(),
        forall|k: int| i <= k < j ==> !is_prefix(smoothed(name), smoothed((#[trigger] recs[k]).key)),
    ensures
        prefix_matches_from(recs, i, name) == prefix_matches_from(recs, j, name),
    decreases j - i,
{
    if i < j {
        lemma_matches_shift(recs, i + 1, j, name);
    }
}

/// The prefix scan within one sorted leaf is complete: starting at or after
/// the least key not below the query, it returns the accumulator followed by
/// the matching keys in order, cut at the limit.  Sortedness makes the
/// matches one contiguous window, so stopping at the first non-match loses
/// nothing.
proof fn lemma_scan_leaves_window(
    data: Seq<u8>,
    off: int,
    recs: Seq<RecV>,
    kids: Seq<(u64, u32)>,
    i: int,
    name: Seq<u8>,
    limit: int,
    acc: Seq<Seq<u8>>,
)
    requires
        node_sorted(true, recs),
        0 <= i <= recs.len(),
        kids.len() == 0 || kids[0].0 == 0 || kids[0].0 >= off,
        limit >= 1,
        acc.len() < limit,
        forall|j: int|
            i <= j < recs.len() ==> lex_cmp(smoothed(name), smoothed((#[trigger] recs[j]).key))
                != Cmp::Gt,
    ensures
        spec_scan_leaves(data, off, recs, kids, i, name, false, limit, acc) == acc.add(
            prefix_matches_from(recs, i, name).take(
                if limit - acc.len() <= prefix_matches_from(recs, i, name).len() {
                    limit - acc.len()
                } else {
                    prefix_matches_from(recs, i, name).len() as int
                },
            ),
        ),
    decreases recs.len() - i,
{
    let m = prefix_matches_from(recs, i, name);
    if i >= recs.len() {
        assert(m.take(0) =~= Seq::<Seq<u8>>::empty());
        assert(acc.add(Seq::<Seq<u8>>::empty()) =~= acc);
    } else if is_prefix(smoothed(name), smoothed(recs[i].key)) {
        let rest = prefix_matches_from(recs, i + 1, name);
        assert(m == seq![recs[i].key].add(rest));
        let acc2 = acc.push(recs[i].key);
        assert(acc2 =~= acc.add(seq![recs[i].key]));
        if acc2.len() >= limit {
            assert(limit - acc.len() == 1);
            assert(m.take(1) =~= seq![recs[i].key]);
            assert(acc.add(m.take(1)) =~= acc2);
        } else {
            lemma_scan_leaves_window(data, off, recs, kids, i + 1, name, limit, acc2);
            let t2: int = if limit - acc2.len() <= rest.len() {
                limit - acc2.len()
            } else {
                rest.len() as int
            };
            let t: int = if limit - acc.len() <= m.len() {
                limit - acc.len()
            } else {
                m.len() as int
            };
            assert(t == t2 + 1);
            assert(m.take(t) =~= seq![recs[i].key].add(rest.take(t2)));
            assert(acc.add(m.take(t)) =~= acc2.add(rest.take(t2)));
        }
    } else {
        // the window is closed: by sortedness nothing after `i` matches
        assert forall|k: int|
            i <= k < recs.len() implies !is_prefix(
            smoothed(name),
            smoothed((#[trigger] recs[k]).key),
        ) by {
            if is_prefix(smoothed(name), smoothed(recs[k].key)) && k > i {
                assert(smoothed(name).take(smoothed(name).len() as int) =~= smoothed(name));
                assert(key_at(true, recs, i) == smoothed(recs[i].key));
                assert(key_at(true, recs, k) == smoothed(recs[k].key));
                assert(lex_cmp(smoothed(recs[i].key), smoothed(recs[k].key)) != Cmp::Gt);
                lemma_prefix_window(
                    smoothed(name),
                    smoothed(name),
                    smoothed(recs[i].key),
                    smoothed(recs[k].key),
                );
            }
        }
        lemma_matches_shift(recs, i, recs.len() as int, name);
        assert(m.take(0) =~= Seq::<Seq<u8>>::empty());
        assert(acc.add(Seq::<Seq<u8>>::empty()) =~= acc);
    }
}

/// The keys of `keys` whose raw form extends the raw query: what `strict`
/// keeps.
pub open spec fn raw_filtered(keys: Seq<Seq<u8>>, name: Seq<u8>) -> Seq<Seq<u8>>
    decreases keys.len(),
{
    if keys.len() == 0 {
        Seq::empty()
    } else if is_prefix(name, keys.first()) {
        seq![keys.first()].add(raw_filtered(keys.drop_first(), name))
    } else {
        raw_filtered(keys.drop_first(), name)
    }
}

/// The strict scan within one sorted leaf: the accumulator followed by the
/// smoothed matches that also extend the raw query, in order, cut at the
/// limit.  A key failing only the raw test is skipped without ending the
/// scan, so the termination boundary is the non-strict one.
proof fn lemma_scan_leaves_strict(
    data: Seq<u8>,
    off: int,
    recs: Seq<RecV>,
    kids: Seq<(u64, u32)>,
    i: int,
    name: Seq<u8>,
    limit: int,
    acc: Seq<Seq<u8>>,
)
    requires
        node_sorted(true, recs),
        0 <= i <= recs.len(),
        kids.len() == 0 || kids[0].0 == 0 || kids[0].0 >= off,
        limit >= 1,
        acc.len() < limit,
        forall|j: int|
            i <= j < recs.len() ==> lex_cmp(smoothed(name), smoothed((#[trigger] recs[j]).key))
                != Cmp::Gt,
    ensures
        ({
            let f = raw_filtered(prefix_matches_from(recs, i, name), name);
            spec_scan_leaves(data, off, recs, kids, i, name, true, limit, acc) == acc.add(
                f.take(
                    if limit - acc.len() <= f.len() {
                        limit - acc.len()
                    } else {
                        f.len() as int
                    },
                ),
            )
        }),
    decreases recs.len() - i,
{
    let m = prefix_matches_from(recs, i, name);
    let f = raw_filtered(m, name);
    if i >= recs.len() {
        assert(f.take(0) =~= Seq::<Seq<u8>>::empty());
        assert(acc.add(Seq::<Seq<u8>>::empty()) =~= acc);
    } else if is_prefix(smoothed(name), smoothed(recs[i].key)) {
        let rest = prefix_matches_from(recs, i + 1, name);
        assert(m == seq![recs[i].key].add(rest));
        assert(m.first() == recs[i].key);
        assert(m.drop_first() =~= rest);
        let frest = raw_filtered(rest, name);
        if is_prefix(name, recs[i].key) {
            assert(f == seq![recs[i].key].add(frest));
            let acc2 = acc.push(recs[i].key);
            assert(acc2 =~= acc.add(seq![recs[i].key]));
            if acc2.len() >= limit {
                assert(limit - acc.len() == 1);
                assert(f.take(1) =~= seq![recs[i].key]);
                assert(acc.add(f.take(1)) =~= acc2);
            } else {
                lemma_scan_leaves_strict(data, off, recs, kids, i + 1, name, limit, acc2);
                let t2: int = if limit - acc2.len() <= frest.len() {
                    limit - acc2.len()
                } else {
                    frest.len() as int
                };
                let t: int = if limit - acc.len() <= f.len() {
                    limit - acc.len()
                } else {
                    f.len() as int
                };
                assert(t == t2 + 1);
                assert(f.take(t) =~= seq![recs[i].key].add(frest.take(t2)));
                assert(acc.add(f.take(t)) =~= acc2.add(frest.take(t2)));
            }
        } else {
            assert(f == frest);
            lemma_scan_leaves_strict(data, off, recs, kids, i + 1, name, limit, acc);
        }
    } else {
        assert forall|k: int|
            i <= k < recs.len() implies !is_prefix(
            smoothed(name),
            smoothed((#[trigger] recs[k]).key),
        ) by {
            if is_prefix(smoothed(name), smoothed(recs[k].key)) && k > i {
                assert(smoothed(name).take(smoothed(name).len() as int) =~= smoothed(name));
                assert(key_at(true, recs, i) == smoothed(recs[i].key));
                assert(key_at(true, recs, k) == smoothed(recs[k].key));
                assert(lex_cmp(smoothed(recs[i].key), smoothed(recs[k].key)) != Cmp::Gt);
                lemma_prefix_window(
                    smoothed(name),
                    smoothed(name),
                    smoothed(recs[i].key),
                    smoothed(recs[k].key),
                );
            }
        }
        lemma_matches_shift(recs, i, recs.len() as int, name);
        assert(f.take(0) =~= Seq::<Seq<u8>>::empty());
        assert(acc.add(Seq::<Seq<u8>>::empty()) =~= acc);
    }
}

/// Strictness on one leaf: the pinned strict search is the non-strict match
/// list further filtered to keys whose raw form extends the raw query, cut
/// at the limit.  A key failing only the raw test is skipped silently; the
/// scan still ends where the non-strict one would.
pub proof fn lemma_single_leaf_strict_search(
    data: Seq<u8>,
    off: int,
    size: int,
    name: Seq<u8>,
    limit: int,
)
    requires
        decoded_at(data, off, size) matches Some((is_leaf, recs, kids)) && is_leaf && (kids.len()
            == 0 || kids[0].0 == 0 || kids[0].0 >= off),
        limit >= 1,
    ensures
        ({
            let (is_leaf, recs, kids) = decoded_at(data, off, size).unwrap();
            let f = raw_filtered(prefix_matches_from(recs, 0, name), name);
            spec_search(data, off, size, name, true, limit) == f.take(
                if limit <= f.len() {
                    limit
                } else {
                    f.len() as int
                },
            )
        }),
{
    let (is_leaf, recs, kids) = decoded_at(data, off, size).unwrap();
    assert(node_sorted(true, recs));
    let m = prefix_matches_from(recs, 0, name);
    let f = raw_filtered(m, name);
    if recs.len() == 0 {
        assert(f.take(0) =~= Seq::<Seq<u8>>::empty());
    } else {
        let w = first_not_gt(true, recs, name, 0);
        let c = cmp_at(true, recs, name, w);
        lemma_first_not_gt_props(true, recs, name, 0);
        assert(spec_index_of(true, recs, name) == (w, c));
        assert forall|j: int|
            0 <= j < recs.len() && cmp_at(true, recs, name, j) == Cmp::Gt implies !is_prefix(
            smoothed(name),
            smoothed((#[trigger] recs[j]).key),
        ) by {
            if is_prefix(smoothed(name), smoothed(recs[j].key)) {
                lemma_prefix_implies_ge(smoothed(name), smoothed(recs[j].key));
                crate::keys::lemma_lex_cmp_flip(smoothed(name), smoothed(recs[j].key));
            }
        }
        if c != Cmp::Gt {
            assert forall|j: int|
                w <= j < recs.len() implies lex_cmp(
                smoothed(name),
                smoothed((#[trigger] recs[j]).key),
            ) != Cmp::Gt by {
                if j > w {
                    assert(key_at(true, recs, w) == smoothed(recs[w].key));
                    assert(key_at(true, recs, j) == smoothed(recs[j].key));
                    assert(lex_cmp(smoothed(recs[w].key), smoothed(recs[j].key)) != Cmp::Gt);
                    crate::keys::lemma_lex_cmp_trans(
                        smoothed(name),
                        smoothed(recs[w].key),
                        smoothed(recs[j].key),
                    );
                }
            }
            lemma_matches_shift(recs, 0, w, name);
            lemma_scan_leaves_strict(data, off, recs, kids, w, name, limit, Seq::empty());
            let fw = raw_filtered(prefix_matches_from(recs, w, name), name);
            assert(Seq::<Seq<u8>>::empty().add(
                fw.take(
                    if limit <= fw.len() {
                        limit
                    } else {
                        fw.len() as int
                    },
                ),
            ) =~= fw.take(
                if limit <= fw.len() {
                    limit
                } else {
                    fw.len() as int
                },
            ));
        } else {
            lemma_matches_shift(recs, 0, recs.len() as int, name);
            assert(f.take(0) =~= Seq::<Seq<u8>>::empty());
        }
    }
}

/// Prefix search on one leaf is sound and complete: on a root that decodes
/// to one sorted leaf whose sibling pointer ends the chain, the pinned
/// search returns exactly the first `limit` stored keys, in order, whose
/// smoothed form extends the smoothed query — every match up to the limit,
/// and nothing else.
pub proof fn lemma_single_leaf_prefix_search(
    data: Seq<u8>,
    off: int,
    size: int,
    name: Seq<u8>,
    limit: int,
)
    requires
        decoded_at(data, off, size) matches Some((is_leaf, recs, kids)) && is_leaf && (kids.len()
            == 0 || kids[0].0 == 0 || kids[0].0 >= off),
        limit >= 1,
    ensures
        ({
            let (is_leaf, recs, kids) = decoded_at(data, off, size).unwrap();
            let m = prefix_matches_from(recs, 0, name);
            spec_search(data, off, size, name, false, limit) == m.take(
                if limit <= m.len() {
                    limit
                } else {
                    m.len() as int
                },
            )
        }),
{
    let (is_leaf, recs, kids) = decoded_at(data, off, size).unwrap();
    assert(node_sorted(true, recs));
    let m = prefix_matches_from(recs, 0, name);
    if recs.len() == 0 {
        assert(m.take(0) =~= Seq::<Seq<u8>>::empty());
    } else {
        let w = first_not_gt(true, recs, name, 0);
        let c = cmp_at(true, recs, name, w);
        lemma_first_not_gt_props(true, recs, name, 0);
        assert(spec_index_of(true, recs, name) == (w, c));
        assert forall|j: int|
            0 <= j < recs.len() && cmp_at(true, recs, name, j) == Cmp::Gt implies !is_prefix(
            smoothed(name),
            smoothed((#[trigger] recs[j]).key),
        ) by {
            if is_prefix(smoothed(name), smoothed(recs[j].key)) {
                lemma_prefix_implies_ge(smoothed(name), smoothed(recs[j].key));
                crate::keys::lemma_lex_cmp_flip(smoothed(name), smoothed(recs[j].key));
            }
        }
        if c != Cmp::Gt {
            // scan starts at the window's first candidate
            assert forall|j: int|
                w <= j < recs.len() implies lex_cmp(
                smoothed(name),
                smoothed((#[trigger] recs[j]).key),
            ) != Cmp::Gt by {
                if j > w {
                    assert(key_at(true, recs, w) == smoothed(recs[w].key));
                    assert(key_at(true, recs, j) == smoothed(recs[j].key));
                    assert(lex_cmp(smoothed(recs[w].key), smoothed(recs[j].key)) != Cmp::Gt);
                    crate::keys::lemma_lex_cmp_trans(
                        smoothed(name),
                        smoothed(recs[w].key),
                        smoothed(recs[j].key),
                    );
                }
            }
            lemma_matches_shift(recs, 0, w, name);
            lemma_scan_leaves_window(
                data,
                off,
                recs,
                kids,
                w,
                name,
                limit,
                Seq::empty(),
            );
            assert(Seq::<Seq<u8>>::empty().add(
                prefix_matches_from(recs, w, name).take(
                    if limit <= prefix_matches_from(recs, w, name).len() {
                        limit
                    } else {
                        prefix_matches_from(recs, w, name).len() as int
                    },
                ),
            ) =~= prefix_matches_from(recs, w, name).take(
                if limit <= prefix_matches_from(recs, w, name).len() {
                    limit
                } else {
                    prefix_matches_from(recs, w, name).len() as int
                },
            ));
        } else {
            // the query is above every stored key: nothing matches
            lemma_matches_shift(recs, 0, recs.len() as int, name);
            assert(m.take(0) =~= Seq::<Seq<u8>>::empty());
        }
    }
}

/// A run without a raw match looks nothing up.
proof fn lemma_run_lookup_none(run: Seq<RecV>, name: Seq<u8>)
    requires
        forall|m: int| 0 <= m < run.len() ==> (#[trigger] run[m]).key != name,
    ensures
        run_lookup(run, name) is None,
    decreases run.len(),
{
    if run.len() > 0 {
        assert forall|m: int| 0 <= m < run.drop_first().len() implies (
        #[trigger] run.drop_first()[m]).key != name by {
            assert(run.drop_first()[m] == run[m + 1]);
        }
        lemma_run_lookup_none(run.drop_first(), name);
    }
}

/// A record below every smoothed match from `i` on is below every element
/// of the run from `i`.
proof fn lemma_run_elements_ge(recs: Seq<RecV>, i: int, name: Seq<u8>, x: RecV)
    requires
        0 <= i <= recs.len(),
        forall|k: int|
            i <= k < recs.len() && smoothed((#[trigger] recs[k]).key) == smoothed(name)
                ==> lex_cmp(x.key, recs[k].key) != Cmp::Gt,
    ensures
        forall|m: int|
            0 <= m < run_from(recs, i, name).len() ==> lex_cmp(
                x.key,
                (#[trigger] run_from(recs, i, name)[m]).key,
            ) != Cmp::Gt,
    decreases recs.len() - i,
{
    if i < recs.len() {
        lemma_run_elements_ge(recs, i + 1, name, x);
        if smoothed(recs[i].key) == smoothed(name) {
            let run = run_from(recs, i, name);
            assert(run == seq![recs[i]].add(run_from(recs, i + 1, name)));
            assert forall|m: int| 0 <= m < run.len() implies lex_cmp(
                x.key,
                (#[trigger] run[m]).key,
            ) != Cmp::Gt by {
                if m == 0 {
                    assert(run[0] == recs[i]);
                } else {
                    assert(run[m] == run_from(recs, i + 1, name)[m - 1]);
                }
            }
        }
    }
}

/// The run's first spelling is its byte-least variant: when a leaf keeps
/// smoothed ties in ascending raw order — what building keeps — the first
/// record of any smoothed run compares at most every record of the run.
/// With `exact_result`'s fallback clause, a lookup that finds no raw match
/// answers with the least stored spelling's value.
pub proof fn lemma_run_first_raw_least(recs: Seq<RecV>, i: int, name: Seq<u8>)
    requires
        ties_raw_sorted(recs),
        0 <= i <= recs.len(),
    ensures
        run_from(recs, i, name).len() > 0 ==> forall|m: int|
            0 <= m < run_from(recs, i, name).len() ==> lex_cmp(
                run_from(recs, i, name)[0].key,
                (#[trigger] run_from(recs, i, name)[m]).key,
            ) != Cmp::Gt,
    decreases recs.len() - i,
{
    if i < recs.len() {
        if smoothed(recs[i].key) == smoothed(name) {
            assert forall|k: int|
                i <= k < recs.len() && smoothed((#[trigger] recs[k]).key) == smoothed(
                    name,
                ) implies lex_cmp(recs[i].key, recs[k].key) != Cmp::Gt by {
                if k == i {
                    crate::keys::lemma_lex_cmp_eq(recs[i].key, recs[i].key);
                }
            }
            lemma_run_elements_ge(recs, i, name, recs[i]);
            assert(run_from(recs, i, name)[0] == recs[i]);
        } else {
            assert(run_from(recs, i, name) == run_from(recs, i + 1, name));
            lemma_run_first_raw_least(recs, i + 1, name);
        }
    }
}

/// The case-variant answer is the byte-least stored spelling: on a root
/// that decodes to one sorted leaf whose smoothed ties sit in ascending raw
/// order — what building keeps in every leaf — a lookup that finds no
/// raw-equal spelling returns the value of the run's first record, and that
/// record's raw key is at most every spelling of the run.
pub proof fn lemma_single_leaf_variant_least(data: Seq<u8>, off: int, size: int, name: Seq<u8>)
    requires
        decoded_at(data, off, size) matches Some((is_leaf, recs, kids)) && is_leaf && (kids.len()
            == 0 || kids[0].0 == 0 || kids[0].0 >= off) && (forall|k: int|
            0 <= k < recs.len() ==> (#[trigger] recs[k]).value is Some) && ties_raw_sorted(recs),
    ensures
        ({
            let (is_leaf, recs, kids) = decoded_at(data, off, size).unwrap();
            let run = run_from(recs, 0, name);
            (run.len() > 0 && (forall|m: int| 0 <= m < run.len() ==> (#[trigger] run[m]).key
                != name)) ==> spec_search_entry(data, off, size, name) == run[0].value && (forall|
                m: int,
            |
                0 <= m < run.len() ==> lex_cmp(run[0].key, (#[trigger] run[m]).key) != Cmp::Gt)
        }),
{
    let (is_leaf, recs, kids) = decoded_at(data, off, size).unwrap();
    let run = run_from(recs, 0, name);
    lemma_single_leaf_exact_lookup(data, off, size, name);
    lemma_run_first_raw_least(recs, 0, name);
    if run.len() > 0 && (forall|m: int| 0 <= m < run.len() ==> (#[trigger] run[m]).key != name) {
        lemma_run_lookup_none(run, name);
    }
}

/// The pinned redirect chase follows the map model: on a file whose exact
/// lookup realizes a key-to-value map, `spec_resolve_entry` — which the
/// executable lookup is proved to return — is `resolve` over that map, hop
/// for hop.  A two-link chain therefore resolves to its final value, and a
/// longer one to absent, by the lemmas above.
pub proof fn lemma_resolve_entry_follows_model(
    data: Seq<u8>,
    root: (u64, u32),
    m: Map<Seq<u8>, Seq<u8>>,
    name: Seq<u8>,
    fuel: nat,
)
    requires
        forall|k: Seq<u8>| #[trigger] spec_search_entry(data, root.0 as int, root.1 as int, k) == (
        if m.dom().contains(k) {
            Some(m[k])
        } else {
            None::<Seq<u8>>
        }),
    ensures
        spec_resolve_entry(data, root, name, fuel) == resolve(m, name, fuel),
    decreases fuel,
{
    if fuel > 0 {
        assert(spec_search_entry(data, root.0 as int, root.1 as int, name) == (
        if m.dom().contains(name) {
            Some(m[name])
        } else {
            None::<Seq<u8>>
        }));
        if m.dom().contains(name) {
            match redirect_of(m[name]) {
                Some(next) => {
                    lemma_resolve_entry_follows_model(data, root, m, next, (fuel - 1) as nat);
                },
                None => {},
            }
        }
    }
}

/// A run of records of one encoded size sums to that size times the count.
pub proof fn lemma_uniform_recs_size(rs: Seq<RecV>, s: nat)
    requires
        forall|i: int| 0 <= i < rs.len() ==> rec_size(#[trigger] rs[i]) == s,
    ensures
        recs_size(rs) == rs.len() * s,
    decreases rs.len(),
{
    if rs.len() == 0 {
        assert(0 * s == 0) by (nonlinear_arith);
    } else {
        assert forall|i: int| 0 <= i < rs.drop_first().len() implies rec_size(
            #[trigger] rs.drop_first()[i],
        ) == s by {
            assert(rs.drop_first()[i] == rs[i + 1]);
        }
        lemma_uniform_recs_size(rs.drop_first(), s);
        assert(rs[0] == rs.first());
        assert(s + (rs.len() - 1) * s == rs.len() * s) by (nonlinear_arith);
    }
}

/// Node fits, for leaves of uniform record size: when a leaf that fit
/// before one insertion splits at half its record count, both halves fit
/// the limit again.  (With records of unequal sizes the count-based split
/// point cannot bound the halves, so the property is stated for the uniform
/// case.)
pub proof fn lemma_uniform_leaf_split_fits(rs: Seq<RecV>, s: nat, limit: nat)
    requires
        forall|i: int| 0 <= i < rs.len() ==> rec_size(#[trigger] rs[i]) == s,
        rs.len() >= 2,
        // the leaf fit its limit before the record that triggered the split
        node_size(true, rs.drop_last()) <= limit,
    ensures
        node_size(true, rs.take(rs.len() as int / 2)) <= limit,
        node_size(true, rs.skip(rs.len() as int / 2)) <= limit,
{
    let n = rs.len() as int;
    let div = n / 2;
    lemma_uniform_recs_size(rs, s);
    assert forall|i: int| 0 <= i < rs.drop_last().len() implies rec_size(
        #[trigger] rs.drop_last()[i],
    ) == s by {
        assert(rs.drop_last()[i] == rs[i]);
    }
    lemma_uniform_recs_size(rs.drop_last(), s);
    assert forall|i: int| 0 <= i < rs.take(div).len() implies rec_size(#[trigger] rs.take(div)[i])
        == s by {
        assert(rs.take(div)[i] == rs[i]);
    }
    lemma_uniform_recs_size(rs.take(div), s);
    assert forall|i: int| 0 <= i < rs.skip(div).len() implies rec_size(#[trigger] rs.skip(div)[i])
        == s by {
        assert(rs.skip(div)[i] == rs[div + i]);
    }
    lemma_uniform_recs_size(rs.skip(div), s);
    assert(div * s <= (n - 1) * s) by (nonlinear_arith)
        requires
            1 <= div <= n - 1,
            s >= 0,
    ;
    assert((n - div) * s <= (n - 1) * s) by (nonlinear_arith)
        requires
            1 <= n - div <= n - 1,
            s >= 0,
    ;
}

} // verus!
