//! A size-bounded LRU cache keyed by `(cache id, offset)`.
//!
//! The capacity is a byte budget; each entry is charged the size its value
//! reports.  `put` inserts or replaces at the most-recent end and evicts from
//! the least-recent end until the charge is back in budget.  `get` does not
//! promote: promotion on read would force exclusive access on every hit,
//! which a read-heavy engine cannot afford.

use vstd::prelude::*;

verus! {

/// A cache value that knows the size it is charged for.
pub trait SizedValue: Sized {
    spec fn size_spec(&self) -> u64;

    fn size(&self) -> (r: u64)
        ensures
            r == self.size_spec(),
    ;
}

/// One resident entry: its key halves, its charged size, and the value.
pub struct CacheEntry<V> {
    pub id: u32,
    pub offset: u64,
    pub size: u64,
    pub val: V,
}

/// The total charge of a run of entries.
pub open spec fn total_charge<V>(s: Seq<CacheEntry<V>>) -> nat
    decreases s.len(),
{
    if s.len() == 0 {
        0
    } else {
        total_charge(s.drop_last()) + s.last().size as nat
    }
}

pub proof fn lemma_total_charge_push<V>(s: Seq<CacheEntry<V>>, e: CacheEntry<V>)
    ensures
        total_charge(s.push(e)) == total_charge(s) + e.size,
{
    assert(s.push(e).drop_last() =~= s);
}

pub proof fn lemma_total_charge_remove<V>(s: Seq<CacheEntry<V>>, i: int)
    requires
        0 <= i < s.len(),
    ensures
        total_charge(s.remove(i)) == total_charge(s) - s[i].size,
    decreases s.len(),
{
    if i == s.len() - 1 {
        assert(s.remove(i) =~= s.drop_last());
    } else {
        assert(s.remove(i).drop_last() =~= s.drop_last().remove(i));
        assert(s.remove(i).last() == s.last());
        lemma_total_charge_remove(s.drop_last(), i);
    }
}

/// Whether some entry carries the key `(id, offset)`.
pub open spec fn has_key<V>(s: Seq<CacheEntry<V>>, id: u32, offset: u64) -> bool {
    exists|i: int| 0 <= i < s.len() && (#[trigger] s[i]).id == id && s[i].offset == offset
}

/// No two entries carry the same key.
pub open spec fn keys_unique<V>(s: Seq<CacheEntry<V>>) -> bool {
    forall|i: int, j: int|
        0 <= i < j < s.len() ==> !((#[trigger] s[i]).id == (#[trigger] s[j]).id && s[i].offset
            == s[j].offset)
}

/// `s` with its first entry keyed `(id, offset)` removed, the rest kept in
/// order: what `put` does to a resident key before re-inserting it.
pub open spec fn remove_key<V>(s: Seq<CacheEntry<V>>, id: u32, offset: u64) -> Seq<CacheEntry<V>>
    decreases s.len(),
{
    if s.len() == 0 {
        s
    } else if s.first().id == id && s.first().offset == offset {
        s.drop_first()
    } else {
        seq![s.first()].add(remove_key(s.drop_first(), id, offset))
    }
}

/// When `at` is the first index keyed `(id, offset)`, removing the key is
/// removing that index.
proof fn lemma_remove_key_at<V>(s: Seq<CacheEntry<V>>, id: u32, offset: u64, at: int)
    requires
        0 <= at < s.len(),
        s[at].id == id && s[at].offset == offset,
        forall|j: int| 0 <= j < at ==> !((#[trigger] s[j]).id == id && s[j].offset == offset),
    ensures
        remove_key(s, id, offset) == s.remove(at),
    decreases s.len(),
{
    if at == 0 {
        assert(remove_key(s, id, offset) =~= s.remove(0));
    } else {
        assert forall|j: int| 0 <= j < at - 1 implies !((#[trigger] s.drop_first()[j]).id == id
            && s.drop_first()[j].offset == offset) by {
            assert(s.drop_first()[j] == s[j + 1]);
        }
        assert(s.drop_first()[at - 1] == s[at]);
        lemma_remove_key_at(s.drop_first(), id, offset, at - 1);
        assert(remove_key(s, id, offset) =~= s.remove(at)) by {
            assert(remove_key(s, id, offset) == seq![s.first()].add(s.drop_first().remove(at - 1)));
            assert forall|k: int| 0 <= k < s.len() - 1 implies seq![s.first()].add(
                s.drop_first().remove(at - 1),
            )[k] == s.remove(at)[k] by {
                if k > 0 {
                    if k < at {
                        assert(s.drop_first().remove(at - 1)[k - 1] == s.drop_first()[k - 1]);
                    } else {
                        assert(s.drop_first().remove(at - 1)[k - 1] == s.drop_first()[k]);
                    }
                }
            }
        }
    }
}

/// The staging a `put` performs before eviction: the resident entry under
/// the key removed, the new entry appended as most recent.
pub open spec fn put_staged<V: SizedValue>(
    s: Seq<CacheEntry<V>>,
    id: u32,
    offset: u64,
    val: V,
) -> Seq<CacheEntry<V>> {
    remove_key(s, id, offset).push(CacheEntry { id, offset, size: val.size_spec(), val })
}

/// A suffix of entries with unique keys has unique keys.
proof fn lemma_unique_skip<V>(s: Seq<CacheEntry<V>>, d: int)
    requires
        keys_unique(s),
        0 <= d <= s.len(),
    ensures
        keys_unique(s.skip(d)),
{
    assert forall|i: int, j: int| 0 <= i < j < s.skip(d).len() implies !((
    #[trigger] s.skip(d)[i]).id == (#[trigger] s.skip(d)[j]).id && s.skip(d)[i].offset == s.skip(
        d,
    )[j].offset) by {
        assert(s.skip(d)[i] == s[d + i]);
        assert(s.skip(d)[j] == s[d + j]);
    }
}

/// Removing one entry keeps keys unique.
proof fn lemma_unique_remove<V>(s: Seq<CacheEntry<V>>, at: int)
    requires
        keys_unique(s),
        0 <= at < s.len(),
    ensures
        keys_unique(s.remove(at)),
{
    assert forall|i: int, j: int| 0 <= i < j < s.remove(at).len() implies !((
    #[trigger] s.remove(at)[i]).id == (#[trigger] s.remove(at)[j]).id && s.remove(at)[i].offset
        == s.remove(at)[j].offset) by {
        let i2: int = if i < at {
            i
        } else {
            i + 1
        };
        let j2: int = if j < at {
            j
        } else {
            j + 1
        };
        assert(s.remove(at)[i] == s[i2]);
        assert(s.remove(at)[j] == s[j2]);
    }
}

/// Removing an absent key changes nothing.
proof fn lemma_remove_key_absent<V>(s: Seq<CacheEntry<V>>, id: u32, offset: u64)
    requires
        forall|j: int| 0 <= j < s.len() ==> !((#[trigger] s[j]).id == id && s[j].offset == offset),
    ensures
        remove_key(s, id, offset) == s,
    decreases s.len(),
{
    if s.len() > 0 {
        assert(!(s[0].id == id && s[0].offset == offset));
        assert forall|j: int| 0 <= j < s.drop_first().len() implies !((
        #[trigger] s.drop_first()[j]).id == id && s.drop_first()[j].offset == offset) by {
            assert(s.drop_first()[j] == s[j + 1]);
        }
        lemma_remove_key_absent(s.drop_first(), id, offset);
        assert(remove_key(s, id, offset) =~= s);
    }
}

/// A size-bounded cache with least-recently-inserted eviction.  Entries are
/// ordered oldest first; the most recent sits at the end.
pub struct LruCache<V: SizedValue> {
    cap: u64,
    charge: u128,
    entries: Vec<CacheEntry<V>>,
}

impl<V: SizedValue> LruCache<V> {
    /// The resident entries, oldest first.
    pub closed spec fn entries_spec(&self) -> Seq<CacheEntry<V>> {
        self.entries@
    }

    /// The byte budget.
    pub closed spec fn cap_spec(&self) -> u64 {
        self.cap
    }

    /// The tracked charge equals the summed entry sizes, and no key is
    /// resident twice.
    pub closed spec fn wf(&self) -> bool {
        self.charge == total_charge(self.entries@) && keys_unique(self.entries@)
    }

    /// The budget holds: the total charge never exceeds the capacity.
    pub open spec fn in_budget(&self) -> bool {
        total_charge(self.entries_spec()) <= self.cap_spec()
    }

    pub fn new(cap: u64) -> (r: Self)
        ensures
            r.wf(),
            r.in_budget(),
            r.cap_spec() == cap,
            r.entries_spec() =~= Seq::<CacheEntry<V>>::empty(),
    {
        let r = LruCache { cap, charge: 0, entries: Vec::new() };
        proof {
            assert(r.entries@ =~= Seq::<CacheEntry<V>>::empty());
        }
        r
    }

    /// Look the key up without touching recency.  A hit hands back a
    /// borrowed value.
    pub fn get(&self, id: u32, offset: u64) -> (r: Option<&V>)
        ensures
            match r {
                Some(v) => exists|i: int|
                    0 <= i < self.entries_spec().len() && (#[trigger] self.entries_spec()[i]).id
                        == id && self.entries_spec()[i].offset == offset
                        && self.entries_spec()[i].val == *v,
                None => !has_key(self.entries_spec(), id, offset),
            },
    {
        let n = self.entries.len();
        let mut i: usize = 0;
        while i < n
            invariant
                n == self.entries@.len(),
                i <= n,
                forall|j: int|
                    0 <= j < i ==> !((#[trigger] self.entries@[j]).id == id
                        && self.entries@[j].offset == offset),
            decreases n - i,
        {
            let e = &self.entries[i];
            if e.id == id && e.offset == offset {
                proof {
                    assert((self.entries_spec()[i as int]).id == id && self.entries_spec()[
                        i as int
                    ].offset == offset && self.entries_spec()[i as int].val == e.val);
                }
                return Some(&e.val);
            }
            i = i + 1;
        }
        None
    }

    /// Evict oldest entries until the charge is back within the budget: the
    /// survivors are the shortest suffix whose charge fits.
    fn shrink(&mut self)
        requires
            old(self).wf(),
        ensures
            final(self).wf(),
            final(self).in_budget(),
            final(self).cap_spec() == old(self).cap_spec(),
            exists|d: int|
                0 <= d <= old(self).entries_spec().len() && final(self).entries_spec()
                    == #[trigger] old(self).entries_spec().skip(d) && (d == 0 || total_charge(
                    old(self).entries_spec().skip(d - 1),
                ) > old(self).cap_spec()),
            forall|i: int|
                0 <= i < final(self).entries_spec().len() ==> old(self).entries_spec().contains(
                    #[trigger] final(self).entries_spec()[i],
                ),
    {
        let ghost orig = self.entries@;
        let ghost mut d: int = 0;
        proof {
            assert(orig.skip(0) =~= orig);
        }
        while self.charge > self.cap as u128
            invariant
                self.wf(),
                self.cap == old(self).cap,
                keys_unique(orig),
                0 <= d <= orig.len(),
                self.entries@ == orig.skip(d),
                d == 0 || total_charge(orig.skip(d - 1)) > old(self).cap,
            decreases self.entries@.len(),
        {
            proof {
                if self.entries@.len() == 0 {
                    assert(total_charge(self.entries@) == 0);
                }
                lemma_total_charge_remove(self.entries@, 0);
                lemma_charge_entry_bound(self.entries@, 0);
            }
            let e = self.entries.remove(0);
            self.charge = self.charge - e.size as u128;
            proof {
                d = d + 1;
                assert(self.entries@ =~= orig.skip(d));
                lemma_unique_skip(orig, d);
            }
        }
        proof {
            assert forall|i: int| 0 <= i < self.entries@.len() implies orig.contains(
                #[trigger] self.entries@[i],
            ) by {
                assert(self.entries@[i] == orig[d + i]);
            }
            assert(orig == old(self).entries_spec());
            assert(0 <= d <= old(self).entries_spec().len() && self.entries@ == old(
                self,
            ).entries_spec().skip(d) && (d == 0 || total_charge(
                old(self).entries_spec().skip(d - 1),
            ) > old(self).cap_spec()));
            assert(exists|e: int|
                0 <= e <= old(self).entries_spec().len() && self.entries@ == #[trigger] old(
                    self,
                ).entries_spec().skip(e) && (e == 0 || total_charge(
                    old(self).entries_spec().skip(e - 1),
                ) > old(self).cap_spec()));
        }
    }

    /// Insert or replace the value for `(id, offset)` as the most recent
    /// entry, then evict until the charge is within the budget.  The outcome
    /// is pinned: the staging is the old entries with the resident same-key
    /// entry dropped and the new entry appended, and what survives is the
    /// shortest suffix of the staging whose charge fits the budget.  A value
    /// that fits the budget on its own is therefore resident after the call.
    pub fn put(&mut self, id: u32, offset: u64, val: V)
        requires
            old(self).wf(),
            old(self).in_budget(),
        ensures
            final(self).wf(),
            final(self).in_budget(),
            final(self).cap_spec() == old(self).cap_spec(),
            forall|i: int|
                0 <= i < final(self).entries_spec().len() ==> old(self).entries_spec().contains(
                    #[trigger] final(self).entries_spec()[i],
                ) || (final(self).entries_spec()[i].id == id
                    && final(self).entries_spec()[i].offset == offset
                    && final(self).entries_spec()[i].val == val),
            exists|d: int|
                0 <= d <= put_staged(old(self).entries_spec(), id, offset, val).len()
                    && final(self).entries_spec() == #[trigger] put_staged(
                    old(self).entries_spec(),
                    id,
                    offset,
                    val,
                ).skip(d) && (d == 0 || total_charge(
                    put_staged(old(self).entries_spec(), id, offset, val).skip(d - 1),
                ) > old(self).cap_spec()),
            val.size_spec() <= old(self).cap_spec() ==> final(self).entries_spec().len() > 0
                && final(self).entries_spec().last() == (CacheEntry {
                id,
                offset,
                size: val.size_spec(),
                val,
            }),
    {
        let ghost orig = self.entries@;
        let ghost entry_spec = CacheEntry { id, offset, size: val.size_spec(), val };
        // Drop the resident entry with the same key.
        let n = self.entries.len();
        let mut i: usize = 0;
        let mut found: bool = false;
        let mut at: usize = 0;
        while i < n
            invariant
                n == self.entries@.len(),
                self.entries@ == orig,
                i <= n,
                found ==> i == n,
                found ==> at < n && orig[at as int].id == id && orig[at as int].offset == offset
                    && forall|j: int|
                    0 <= j < at ==> !((#[trigger] orig[j]).id == id && orig[j].offset == offset),
                !found ==> forall|j: int|
                    0 <= j < i ==> !((#[trigger] orig[j]).id == id && orig[j].offset == offset),
            decreases n - i,
        {
            let e = &self.entries[i];
            if e.id == id && e.offset == offset {
                found = true;
                at = i;
                i = n;
            } else {
                i = i + 1;
            }
        }
        if found {
            proof {
                lemma_total_charge_remove(self.entries@, at as int);
                lemma_charge_entry_bound(self.entries@, at as int);
                lemma_remove_key_at(orig, id, offset, at as int);
                lemma_unique_remove(orig, at as int);
            }
            let e = self.entries.remove(at);
            self.charge = self.charge - e.size as u128;
        } else {
            proof {
                lemma_remove_key_absent(orig, id, offset);
            }
        }
        let ghost trimmed = self.entries@;
        proof {
            assert(trimmed == remove_key(orig, id, offset));
            assert forall|k: int| 0 <= k < trimmed.len() implies !((#[trigger] trimmed[k]).id == id
                && trimmed[k].offset == offset) by {
                if found {
                    if k < at {
                        assert(trimmed[k] == orig[k]);
                    } else {
                        assert(trimmed[k] == orig[k + 1]);
                        assert(orig[at as int].id == orig[k + 1].id ==> !(orig[at as int].offset
                            == orig[k + 1].offset));
                    }
                }
            }
        }
        let size = val.size();
        let entry = CacheEntry { id, offset, size, val };
        proof {
            lemma_total_charge_push(self.entries@, entry);
            assert(entry == entry_spec);
        }
        self.entries.push(entry);
        self.charge = self.charge + size as u128;
        let ghost pre_shrink = self.entries@;
        proof {
            assert(pre_shrink == put_staged(orig, id, offset, entry_spec.val));
            assert(keys_unique(pre_shrink)) by {
                assert forall|a: int, b: int| 0 <= a < b < pre_shrink.len() implies !((
                #[trigger] pre_shrink[a]).id == (#[trigger] pre_shrink[b]).id && pre_shrink[a].offset
                    == pre_shrink[b].offset) by {
                    if b < pre_shrink.len() - 1 {
                        assert(pre_shrink[a] == trimmed[a]);
                        assert(pre_shrink[b] == trimmed[b]);
                    } else {
                        assert(pre_shrink[a] == trimmed[a]);
                        assert(pre_shrink[b] == entry_spec);
                    }
                }
            }
            assert forall|k: int| 0 <= k < pre_shrink.len() implies orig.contains(
                #[trigger] pre_shrink[k],
            ) || (pre_shrink[k].id == id && pre_shrink[k].offset == offset && pre_shrink[k].val
                == val) by {
                if k < pre_shrink.len() - 1 {
                    assert(pre_shrink[k] == trimmed[k]);
                    if found {
                        if k < at {
                            assert(trimmed[k] == orig[k]);
                        } else {
                            assert(trimmed[k] == orig[k + 1]);
                        }
                    }
                    assert(orig.contains(trimmed[k]));
                }
            }
        }
        self.shrink();
        proof {
            assert forall|k: int| 0 <= k < self.entries@.len() implies orig.contains(
                #[trigger] self.entries@[k],
            ) || (self.entries@[k].id == id && self.entries@[k].offset == offset
                && self.entries@[k].val == val) by {
                assert(pre_shrink.contains(self.entries@[k]));
                let j = choose|j: int|
                    0 <= j < pre_shrink.len() && pre_shrink[j] == self.entries@[k];
                assert(orig.contains(pre_shrink[j]) || (pre_shrink[j].id == id
                    && pre_shrink[j].offset == offset && pre_shrink[j].val == val));
            }
            let d = choose|d: int|
                0 <= d <= pre_shrink.len() && self.entries@ == #[trigger] pre_shrink.skip(d) && (d
                    == 0 || total_charge(pre_shrink.skip(d - 1)) > old(self).cap);
            assert(exists|e: int|
                0 <= e <= put_staged(orig, id, offset, entry_spec.val).len() && self.entries@
                    == #[trigger] put_staged(orig, id, offset, entry_spec.val).skip(e) && (e == 0
                    || total_charge(put_staged(orig, id, offset, entry_spec.val).skip(e - 1)) > old(
                    self,
                ).cap));
            if entry_spec.size <= old(self).cap {
                if d == pre_shrink.len() {
                    assert(pre_shrink.skip(d - 1) =~= seq![entry_spec]);
                    assert(seq![entry_spec].drop_last() =~= Seq::<CacheEntry<V>>::empty());
                    assert(total_charge(Seq::<CacheEntry<V>>::empty()) == 0);
                    assert(total_charge(seq![entry_spec]) == entry_spec.size);
                    assert(false);
                }
                assert(self.entries@.last() == pre_shrink[pre_shrink.len() - 1]);
                assert(pre_shrink.last() == entry_spec);
            }
        }
    }

    /// Change the budget and evict until the charge fits it: the survivors
    /// are the shortest suffix of the old entries whose charge fits the new
    /// budget.
    pub fn resize(&mut self, cap: u64)
        requires
            old(self).wf(),
        ensures
            final(self).wf(),
            final(self).in_budget(),
            final(self).cap_spec() == cap,
            exists|d: int|
                0 <= d <= old(self).entries_spec().len() && final(self).entries_spec()
                    == #[trigger] old(self).entries_spec().skip(d) && (d == 0 || total_charge(
                    old(self).entries_spec().skip(d - 1),
                ) > cap),
            forall|i: int|
                0 <= i < final(self).entries_spec().len() ==> old(self).entries_spec().contains(
                    #[trigger] final(self).entries_spec()[i],
                ),
    {
        let ghost orig = self.entries@;
        self.cap = cap;
        self.shrink();
        proof {
            let d = choose|d: int|
                0 <= d <= orig.len() && self.entries@ == #[trigger] orig.skip(d) && (d == 0
                    || total_charge(orig.skip(d - 1)) > cap);
            assert(orig == old(self).entries_spec());
            assert(0 <= d <= old(self).entries_spec().len() && self.entries@ == old(
                self,
            ).entries_spec().skip(d) && (d == 0 || total_charge(
                old(self).entries_spec().skip(d - 1),
            ) > cap));
            assert(exists|e: int|
                0 <= e <= old(self).entries_spec().len() && self.entries@ == #[trigger] old(
                    self,
                ).entries_spec().skip(e) && (e == 0 || total_charge(
                    old(self).entries_spec().skip(e - 1),
                ) > cap));
        }
    }
}

/// Every entry's own charge is at most the total.
proof fn lemma_charge_entry_bound<V>(s: Seq<CacheEntry<V>>, i: int)
    requires
        0 <= i < s.len(),
    ensures
        s[i].size <= total_charge(s),
    decreases s.len(),
{
    if i == s.len() - 1 {
    } else {
        lemma_charge_entry_bound(s.drop_last(), i);
    }
}

} // verus!
