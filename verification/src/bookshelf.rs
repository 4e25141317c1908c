//! The registry of open dictionaries: counter-assigned handles, one shared
//! node cache, and dispatch of every query to the addressed dictionary.

use crate::beluga::Metadata;
use crate::cache::{CacheEntry, LruCache};
use crate::dict::{cache_coherent, opt_bytes, DictNode};
use crate::dictionary::{
    files_coherent, ids_distinct, spec_dict_search, spec_resolve_entry, spec_resource_lookup,
    Dictionary, MAX_REDIRECTS,
};
use vstd::prelude::*;

verus! {

/// Whether some registered dictionary carries the handle.
pub open spec fn has_handle(s: Seq<(u32, Dictionary)>, id: u32) -> bool {
    exists|i: int| 0 <= i < s.len() && (#[trigger] s[i]).0 == id
}

/// The first index carrying the handle, or the length when none does: the
/// dictionary the queries address.
pub open spec fn find_handle(s: Seq<(u32, Dictionary)>, id: u32) -> int
    decreases s.len(),
{
    if s.len() == 0 {
        0
    } else if s.first().0 == id {
        0
    } else {
        1 + find_handle(s.drop_first(), id)
    }
}

/// The last index carrying the handle, or minus one when none does: the
/// dictionary `remove` drops.
pub open spec fn rfind_handle(s: Seq<(u32, Dictionary)>, id: u32) -> int
    decreases s.len(),
{
    if s.len() == 0 {
        -1
    } else if s.last().0 == id {
        s.len() - 1
    } else {
        rfind_handle(s.drop_last(), id)
    }
}

/// A position below which no entry carries the handle, and which does, is
/// the one `find_handle` names.
proof fn lemma_find_handle_is(s: Seq<(u32, Dictionary)>, id: u32, w: int)
    requires
        0 <= w < s.len(),
        s[w].0 == id,
        forall|j: int| 0 <= j < w ==> (#[trigger] s[j]).0 != id,
    ensures
        find_handle(s, id) == w,
    decreases s.len(),
{
    if w > 0 {
        assert forall|j: int| 0 <= j < w - 1 implies (#[trigger] s.drop_first()[j]).0 != id by {
            assert(s.drop_first()[j] == s[j + 1]);
        }
        assert(s.drop_first()[w - 1] == s[w]);
        lemma_find_handle_is(s.drop_first(), id, w - 1);
    }
}

/// A position above which no entry carries the handle, and which does, is
/// the one `rfind_handle` names.
proof fn lemma_rfind_handle_is(s: Seq<(u32, Dictionary)>, id: u32, w: int)
    requires
        0 <= w < s.len(),
        s[w].0 == id,
        forall|j: int| w < j < s.len() ==> (#[trigger] s[j]).0 != id,
    ensures
        rfind_handle(s, id) == w,
    decreases s.len(),
{
    if w == s.len() - 1 {
    } else {
        assert(s.last().0 != id);
        assert forall|j: int| w < j < s.drop_last().len() implies (
        #[trigger] s.drop_last()[j]).0 != id by {
            assert(s.drop_last()[j] == s[j]);
        }
        assert(s.drop_last()[w] == s[w]);
        lemma_rfind_handle_is(s.drop_last(), id, w);
    }
}

/// Open dictionaries behind integer handles, sharing one node cache.
pub struct Bookshelf {
    dict_id: u32,
    dictionaries: Vec<(u32, Dictionary)>,
    cache_id: u32,
    cache: LruCache<DictNode>,
}

impl Bookshelf {
    pub closed spec fn wf(&self) -> bool {
        self.cache.wf() && self.cache.in_budget()
    }

    /// The shared cache's byte budget.
    pub closed spec fn cache_cap_spec(&self) -> u64 {
        self.cache.cap_spec()
    }

    pub closed spec fn count_spec(&self) -> nat {
        self.dictionaries@.len()
    }

    /// The registered dictionaries with their handles, in registration order.
    pub closed spec fn dicts_spec(&self) -> Seq<(u32, Dictionary)> {
        self.dictionaries@
    }

    /// The handle the next registration receives.
    pub closed spec fn dict_id_spec(&self) -> u32 {
        self.dict_id
    }

    /// The shared cache's resident entries.
    pub closed spec fn cache_entries_spec(&self) -> Seq<CacheEntry<DictNode>> {
        self.cache.entries_spec()
    }

    /// An empty bookshelf whose cache is bounded by `cap` bytes.  The cache
    /// starts empty — coherent with every file — and the handle counter at
    /// zero.
    pub fn new(cap: u64) -> (r: Self)
        ensures
            r.wf(),
            r.cache_cap_spec() == cap,
            r.count_spec() == 0,
            r.dicts_spec().len() == 0,
            r.dict_id_spec() == 0,
            r.cache_entries_spec() == Seq::<CacheEntry<DictNode>>::empty(),
    {
        Bookshelf { dict_id: 0, dictionaries: Vec::new(), cache_id: 0, cache: LruCache::new(cap) }
    }

    /// The next fresh cache id, for opening files that will share this
    /// bookshelf's cache.
    pub fn next_cache_id(&mut self) -> (r: u32)
        requires
            old(self).wf(),
        ensures
            final(self).wf(),
            final(self).cache_cap_spec() == old(self).cache_cap_spec(),
            final(self).count_spec() == old(self).count_spec(),
    {
        let id = self.cache_id;
        if self.cache_id < u32::MAX {
            self.cache_id = self.cache_id + 1;
        }
        id
    }

    /// Register an assembled dictionary; returns its handle and metadata.
    /// The handle is the running counter's value, which then advances,
    /// saturating at its maximum (after which handles repeat).
    pub fn add(&mut self, dict: Dictionary) -> (r: (u32, Metadata))
        requires
            old(self).wf(),
        ensures
            final(self).wf(),
            final(self).cache_cap_spec() == old(self).cache_cap_spec(),
            final(self).count_spec() == old(self).count_spec() + 1,
            r.0 == old(self).dict_id_spec(),
            r.1.entry_num == dict.entry_spec().metadata_spec().entry_num,
            final(self).dicts_spec() == old(self).dicts_spec().push((old(self).dict_id_spec(), dict)),
            final(self).dict_id_spec() as int == if old(self).dict_id_spec() < u32::MAX {
                old(self).dict_id_spec() + 1
            } else {
                old(self).dict_id_spec() as int
            },
            final(self).cache_entries_spec() == old(self).cache_entries_spec(),
    {
        let metadata = dict.metadata();
        let id = self.dict_id;
        self.dictionaries.push((id, dict));
        if self.dict_id < u32::MAX {
            self.dict_id = self.dict_id + 1;
        }
        (id, metadata)
    }

    /// Drop the dictionary behind `id`: the latest registration under that
    /// handle leaves, and an unknown handle changes nothing.
    pub fn remove(&mut self, id: u32)
        requires
            old(self).wf(),
        ensures
            final(self).wf(),
            final(self).cache_cap_spec() == old(self).cache_cap_spec(),
            final(self).count_spec() <= old(self).count_spec(),
            has_handle(old(self).dicts_spec(), id) ==> final(self).dicts_spec() == old(
                self,
            ).dicts_spec().remove(rfind_handle(old(self).dicts_spec(), id)),
            !has_handle(old(self).dicts_spec(), id) ==> final(self).dicts_spec() == old(
                self,
            ).dicts_spec(),
    {
        let ghost dicts = self.dictionaries@;
        let n = self.dictionaries.len();
        let mut index: usize = 0;
        let mut exists: bool = false;
        let mut i: usize = 0;
        while i < n
            invariant
                i <= n,
                n == self.dictionaries@.len(),
                self.dictionaries@ == dicts,
                exists ==> index < i && dicts[index as int].0 == id && forall|j: int|
                    index < j < i ==> (#[trigger] dicts[j]).0 != id,
                !exists ==> forall|j: int| 0 <= j < i ==> (#[trigger] dicts[j]).0 != id,
            decreases n - i,
        {
            if self.dictionaries[i].0 == id {
                index = i;
                exists = true;
            }
            i = i + 1;
        }
        if exists {
            proof {
                lemma_rfind_handle_is(dicts, id, index as int);
            }
            let _ = self.dictionaries.remove(index);
        } else {
            proof {
                if has_handle(dicts, id) {
                    let j = choose|j: int| 0 <= j < dicts.len() && (#[trigger] dicts[j]).0 == id;
                    assert(dicts[j].0 != id);
                }
            }
        }
    }

    /// Drop every dictionary.
    pub fn clear(&mut self)
        requires
            old(self).wf(),
        ensures
            final(self).wf(),
            final(self).cache_cap_spec() == old(self).cache_cap_spec(),
            final(self).count_spec() == 0,
            final(self).dicts_spec().len() == 0,
    {
        self.dictionaries.clear();
    }

    /// Prefix search plus token expansion in the dictionary behind `id`.
    /// An empty word or an unknown handle yields no results; otherwise the
    /// first dictionary under the handle answers, and on a coherent cache
    /// its answer is exactly `spec_dict_search` of its entry file.
    pub fn search(
        &mut self,
        id: u32,
        word: &[u8],
        strict: bool,
        prefix_limit: usize,
        phrase_limit: usize,
    ) -> (r: Vec<Vec<u8>>)
        requires
            old(self).wf(),
        ensures
            final(self).wf(),
            final(self).cache_cap_spec() == old(self).cache_cap_spec(),
            word@.len() == 0 ==> r@.len() == 0,
            final(self).dicts_spec() == old(self).dicts_spec(),
            !has_handle(old(self).dicts_spec(), id) ==> r@.len() == 0
                && final(self).cache_entries_spec() == old(self).cache_entries_spec(),
            word@.len() != 0 && has_handle(old(self).dicts_spec(), id) && cache_coherent(
                old(self).cache_entries_spec(),
                old(self).dicts_spec()[find_handle(old(self).dicts_spec(), id)].1.entry_spec().cache_id_spec(),
                old(self).dicts_spec()[find_handle(old(self).dicts_spec(), id)].1.entry_spec().data_spec(),
            ) ==> cache_coherent(
                final(self).cache_entries_spec(),
                old(self).dicts_spec()[find_handle(old(self).dicts_spec(), id)].1.entry_spec().cache_id_spec(),
                old(self).dicts_spec()[find_handle(old(self).dicts_spec(), id)].1.entry_spec().data_spec(),
            ) && crate::beluga::vecs_view(r@) == spec_dict_search(
                old(self).dicts_spec()[find_handle(old(self).dicts_spec(), id)].1.entry_spec().data_spec(),
                old(self).dicts_spec()[find_handle(old(self).dicts_spec(), id)].1.entry_spec().entry_root_spec(),
                old(self).dicts_spec()[find_handle(old(self).dicts_spec(), id)].1.entry_spec().token_root_spec(),
                word@,
                strict,
                prefix_limit as int,
                phrase_limit as int,
            ),
            forall|id2: u32, d2: Seq<u8>|
                (has_handle(old(self).dicts_spec(), id) ==> id2 != old(self).dicts_spec()[
                    find_handle(old(self).dicts_spec(), id)
                ].1.entry_spec().cache_id_spec()) && #[trigger] cache_coherent(
                    old(self).cache_entries_spec(),
                    id2,
                    d2,
                ) ==> cache_coherent(final(self).cache_entries_spec(), id2, d2),
    {
        let mut out: Vec<Vec<u8>> = Vec::new();
        if word.len() == 0 {
            return out;
        }
        let ghost dicts = self.dictionaries@;
        let n = self.dictionaries.len();
        let mut i: usize = 0;
        while i < n
            invariant
                i <= n,
                n == self.dictionaries@.len(),
                self.wf(),
                *self == *old(self),
                dicts == self.dictionaries@,
                word@.len() != 0,
                forall|j: int| 0 <= j < i ==> (#[trigger] dicts[j]).0 != id,
            decreases n - i,
        {
            if self.dictionaries[i].0 == id {
                proof {
                    lemma_find_handle_is(dicts, id, i as int);
                }
                let d = &self.dictionaries[i].1;
                let r = d.search(&mut self.cache, word, strict, prefix_limit, phrase_limit);
                return r;
            }
            i = i + 1;
        }
        proof {
            if has_handle(dicts, id) {
                let j = choose|j: int| 0 <= j < dicts.len() && (#[trigger] dicts[j]).0 == id;
                assert(dicts[j].0 != id);
            }
        }
        out
    }

    /// Exact lookup with redirect chasing in the dictionary behind `id`.
    /// An empty name or an unknown handle yields absent; otherwise the first
    /// dictionary under the handle answers, and on a coherent cache its
    /// answer is exactly `spec_resolve_entry` with the full hop budget.
    pub fn search_entry(&mut self, id: u32, name: &[u8]) -> (r: Option<Vec<u8>>)
        requires
            old(self).wf(),
        ensures
            final(self).wf(),
            final(self).cache_cap_spec() == old(self).cache_cap_spec(),
            name@.len() == 0 ==> r is None,
            r matches Some(v) ==> crate::dictionary::redirect_of(v@) is None,
            final(self).dicts_spec() == old(self).dicts_spec(),
            !has_handle(old(self).dicts_spec(), id) ==> r is None
                && final(self).cache_entries_spec() == old(self).cache_entries_spec(),
            name@.len() != 0 && has_handle(old(self).dicts_spec(), id) && cache_coherent(
                old(self).cache_entries_spec(),
                old(self).dicts_spec()[find_handle(old(self).dicts_spec(), id)].1.entry_spec().cache_id_spec(),
                old(self).dicts_spec()[find_handle(old(self).dicts_spec(), id)].1.entry_spec().data_spec(),
            ) ==> cache_coherent(
                final(self).cache_entries_spec(),
                old(self).dicts_spec()[find_handle(old(self).dicts_spec(), id)].1.entry_spec().cache_id_spec(),
                old(self).dicts_spec()[find_handle(old(self).dicts_spec(), id)].1.entry_spec().data_spec(),
            ) && opt_bytes(r) == spec_resolve_entry(
                old(self).dicts_spec()[find_handle(old(self).dicts_spec(), id)].1.entry_spec().data_spec(),
                old(self).dicts_spec()[find_handle(old(self).dicts_spec(), id)].1.entry_spec().entry_root_spec(),
                name@,
                MAX_REDIRECTS as nat,
            ),
            forall|id2: u32, d2: Seq<u8>|
                (has_handle(old(self).dicts_spec(), id) ==> id2 != old(self).dicts_spec()[
                    find_handle(old(self).dicts_spec(), id)
                ].1.entry_spec().cache_id_spec()) && #[trigger] cache_coherent(
                    old(self).cache_entries_spec(),
                    id2,
                    d2,
                ) ==> cache_coherent(final(self).cache_entries_spec(), id2, d2),
    {
        if name.len() == 0 {
            return None;
        }
        let ghost dicts = self.dictionaries@;
        let n = self.dictionaries.len();
        let mut i: usize = 0;
        while i < n
            invariant
                i <= n,
                n == self.dictionaries@.len(),
                self.wf(),
                *self == *old(self),
                dicts == self.dictionaries@,
                name@.len() != 0,
                forall|j: int| 0 <= j < i ==> (#[trigger] dicts[j]).0 != id,
            decreases n - i,
        {
            if self.dictionaries[i].0 == id {
                proof {
                    lemma_find_handle_is(dicts, id, i as int);
                }
                let d = &self.dictionaries[i].1;
                let r = d.search_entry(&mut self.cache, name);
                return r;
            }
            i = i + 1;
        }
        proof {
            if has_handle(dicts, id) {
                let j = choose|j: int| 0 <= j < dicts.len() && (#[trigger] dicts[j]).0 == id;
                assert(dicts[j].0 != id);
            }
        }
        None
    }

    /// Resource lookup in the dictionary behind `id`.  An empty name or an
    /// unknown handle yields absent; otherwise the first dictionary under
    /// the handle answers, and on a coherent cache over its resource files
    /// with distinct cache ids, its answer is exactly
    /// `spec_resource_lookup` in file order.
    pub fn search_resource(&mut self, id: u32, name: &[u8]) -> (r: Option<Vec<u8>>)
        requires
            old(self).wf(),
        ensures
            final(self).wf(),
            final(self).cache_cap_spec() == old(self).cache_cap_spec(),
            name@.len() == 0 ==> r is None,
            final(self).dicts_spec() == old(self).dicts_spec(),
            !has_handle(old(self).dicts_spec(), id) ==> r is None
                && final(self).cache_entries_spec() == old(self).cache_entries_spec(),
            name@.len() != 0 && has_handle(old(self).dicts_spec(), id) && files_coherent(
                old(self).cache_entries_spec(),
                old(self).dicts_spec()[find_handle(old(self).dicts_spec(), id)].1.resources_spec(),
            ) && ids_distinct(
                old(self).dicts_spec()[find_handle(old(self).dicts_spec(), id)].1.resources_spec(),
            ) ==> files_coherent(
                final(self).cache_entries_spec(),
                old(self).dicts_spec()[find_handle(old(self).dicts_spec(), id)].1.resources_spec(),
            ) && opt_bytes(r) == spec_resource_lookup(
                old(self).dicts_spec()[find_handle(old(self).dicts_spec(), id)].1.resources_spec(),
                name@,
                0,
            ),
            forall|id2: u32, d2: Seq<u8>|
                (has_handle(old(self).dicts_spec(), id) ==> forall|k: int|
                    0 <= k < old(self).dicts_spec()[find_handle(old(self).dicts_spec(), id)].1.resources_spec().len()
                        ==> id2 != (#[trigger] old(self).dicts_spec()[
                        find_handle(old(self).dicts_spec(), id)
                    ].1.resources_spec()[k]).cache_id_spec()) && #[trigger] cache_coherent(
                    old(self).cache_entries_spec(),
                    id2,
                    d2,
                ) ==> cache_coherent(final(self).cache_entries_spec(), id2, d2),
    {
        if name.len() == 0 {
            return None;
        }
        let ghost dicts = self.dictionaries@;
        let n = self.dictionaries.len();
        let mut i: usize = 0;
        while i < n
            invariant
                i <= n,
                n == self.dictionaries@.len(),
                self.wf(),
                *self == *old(self),
                dicts == self.dictionaries@,
                name@.len() != 0,
                forall|j: int| 0 <= j < i ==> (#[trigger] dicts[j]).0 != id,
            decreases n - i,
        {
            if self.dictionaries[i].0 == id {
                proof {
                    lemma_find_handle_is(dicts, id, i as int);
                }
                let d = &self.dictionaries[i].1;
                let r = d.search_resource(&mut self.cache, name);
                return r;
            }
            i = i + 1;
        }
        proof {
            if has_handle(dicts, id) {
                let j = choose|j: int| 0 <= j < dicts.len() && (#[trigger] dicts[j]).0 == id;
                assert(dicts[j].0 != id);
            }
        }
        None
    }

    /// The CSS and JS sidecars of the dictionary behind `id`: exactly the
    /// sidecars the first dictionary under the handle was assembled with,
    /// and absent on an unknown handle.
    pub fn get_static_files(&self, id: u32) -> (r: Option<(Option<Vec<u8>>, Option<Vec<u8>>)>)
        ensures
            !has_handle(self.dicts_spec(), id) ==> r is None,
            has_handle(self.dicts_spec(), id) ==> (r matches Some(p) && opt_bytes(p.0)
                == self.dicts_spec()[find_handle(self.dicts_spec(), id)].1.css_spec() && opt_bytes(
                p.1,
            ) == self.dicts_spec()[find_handle(self.dicts_spec(), id)].1.js_spec()),
    {
        let ghost dicts = self.dictionaries@;
        let n = self.dictionaries.len();
        let mut i: usize = 0;
        while i < n
            invariant
                i <= n,
                n == self.dictionaries@.len(),
                dicts == self.dictionaries@,
                forall|j: int| 0 <= j < i ==> (#[trigger] dicts[j]).0 != id,
            decreases n - i,
        {
            if self.dictionaries[i].0 == id {
                proof {
                    lemma_find_handle_is(dicts, id, i as int);
                }
                return Some(self.dictionaries[i].1.static_files());
            }
            i = i + 1;
        }
        proof {
            if has_handle(dicts, id) {
                let j = choose|j: int| 0 <= j < dicts.len() && (#[trigger] dicts[j]).0 == id;
                assert(dicts[j].0 != id);
            }
        }
        None
    }

    /// Change the cache budget; the charge is brought back within it.
    /// Eviction only drops entries, so coherence with every file is kept.
    pub fn resize_cache(&mut self, cap: u64)
        requires
            old(self).wf(),
        ensures
            final(self).wf(),
            final(self).cache_cap_spec() == cap,
            final(self).dicts_spec() == old(self).dicts_spec(),
            forall|id2: u32, d2: Seq<u8>|
                #[trigger] cache_coherent(old(self).cache_entries_spec(), id2, d2)
                    ==> cache_coherent(final(self).cache_entries_spec(), id2, d2),
    {
        let ghost pre = self.cache.entries_spec();
        self.cache.resize(cap);
        proof {
            assert forall|id2: u32, d2: Seq<u8>|
                #[trigger] cache_coherent(pre, id2, d2) implies cache_coherent(
                self.cache.entries_spec(),
                id2,
                d2,
            ) by {
                assert forall|i: int|
                    0 <= i < self.cache.entries_spec().len() && (
                    #[trigger] self.cache.entries_spec()[i]).id == id2 implies crate::dict::decoded_at(
                    d2,
                    self.cache.entries_spec()[i].offset as int,
                    self.cache.entries_spec()[i].val.size as int,
                ) == Some(crate::dict::dict_node_model(self.cache.entries_spec()[i].val)) by {
                    assert(pre.contains(self.cache.entries_spec()[i]));
                    let j = choose|j: int|
                        0 <= j < pre.len() && pre[j] == self.cache.entries_spec()[i];
                    assert(pre[j].id == id2);
                }
            }
        }
    }
}

} // verus!
