//! One logical dictionary: a primary entry file, sibling resource files,
//! and optional CSS/JS sidecar text, with token expansion and bounded
//! redirect chasing on top of the file-level searches.

use crate::beluga::{spec_parse_tokens, vecs_view, Beluga, Metadata};
use crate::cache::LruCache;
use crate::cache::CacheEntry;
use crate::dict::{
    cache_coherent, opt_bytes, spec_search, spec_search_entry, DictFile, DictNode,
};
use crate::keys::is_prefix;
use vstd::prelude::*;

verus! {

/// The value prefix that redirects lookup to another key: `@@@LINK=`.
pub open spec fn redirect_prefix() -> Seq<u8> {
    seq![64u8, 64u8, 64u8, 76u8, 73u8, 78u8, 75u8, 61u8]
}

/// Is `b` ASCII whitespace, as `trim` removes it?
pub open spec fn is_space(b: u8) -> bool {
    b == 32 || b == 9 || b == 10 || b == 13 || b == 12 || b == 11
}

/// `v` with leading and trailing ASCII whitespace removed.
pub open spec fn trimmed(v: Seq<u8>) -> Seq<u8>
    decreases v.len(),
{
    if v.len() == 0 {
        v
    } else if is_space(v.first()) {
        trimmed(v.drop_first())
    } else if is_space(v.last()) {
        trimmed(v.drop_last())
    } else {
        v
    }
}

/// Where a value sends the lookup next: the rest of the trimmed value when
/// it starts with the redirect prefix, absent otherwise.
pub open spec fn redirect_of(v: Seq<u8>) -> Option<Seq<u8>> {
    if is_prefix(redirect_prefix(), trimmed(v)) {
        Some(trimmed(v).skip(8))
    } else {
        None
    }
}

/// Trim ASCII whitespace from both ends.
pub fn trim_bytes(v: &[u8]) -> (r: Vec<u8>)
    ensures
        r@ == trimmed(v@),
{
    let mut lo: usize = 0;
    let mut hi: usize = v.len();
    proof {
        assert(v@.subrange(0, v@.len() as int) =~= v@);
    }
    while lo < hi && is_space_u8(v[lo]) || lo < hi && is_space_u8(v[hi - 1])
        invariant
            lo <= hi <= v@.len(),
            trimmed(v@) == trimmed(v@.subrange(lo as int, hi as int)),
        decreases hi - lo,
    {
        let ghost pre = v@.subrange(lo as int, hi as int);
        if is_space_u8(v[lo]) {
            proof {
                assert(pre.first() == v@[lo as int]);
                assert(pre.drop_first() =~= v@.subrange(lo + 1, hi as int));
            }
            lo = lo + 1;
        } else {
            proof {
                assert(!is_space(pre.first()));
                assert(pre.last() == v@[hi - 1]);
                assert(pre.drop_last() =~= v@.subrange(lo as int, hi - 1));
            }
            hi = hi - 1;
        }
    }
    let mut r: Vec<u8> = Vec::new();
    let mut i: usize = lo;
    while i < hi
        invariant
            lo <= i <= hi <= v@.len(),
            r@ =~= v@.subrange(lo as int, i as int),
        decreases hi - i,
    {
        r.push(v[i]);
        i = i + 1;
        proof {
            assert(r@ =~= v@.subrange(lo as int, i as int));
        }
    }
    proof {
        let fin = v@.subrange(lo as int, hi as int);
        if fin.len() > 0 {
            assert(!is_space(fin.first()) && !is_space(fin.last()));
        }
        assert(trimmed(fin) == fin);
    }
    r
}

fn is_space_u8(b: u8) -> (r: bool)
    ensures
        r == is_space(b),
{
    b == 32 || b == 9 || b == 10 || b == 13 || b == 12 || b == 11
}

/// The next lookup key a value names, if it is a redirect.
pub fn redirect_target(v: &[u8]) -> (r: Option<Vec<u8>>)
    ensures
        match r {
            Some(t) => redirect_of(v@) == Some(t@),
            None => redirect_of(v@) is None,
        },
{
    let t = trim_bytes(v);
    let prefix: [u8; 8] = [64, 64, 64, 76, 73, 78, 75, 61];
    proof {
        assert(prefix@ =~= redirect_prefix());
    }
    if crate::keys::starts_with(t.as_slice(), prefix.as_slice()) {
        let mut rest: Vec<u8> = Vec::new();
        let mut i: usize = 8;
        let n = t.len();
        while i < n
            invariant
                8 <= i <= n,
                n == t@.len(),
                rest@ =~= t@.subrange(8, i as int),
            decreases n - i,
        {
            rest.push(t[i]);
            i = i + 1;
            proof {
                assert(rest@ =~= t@.subrange(8, i as int));
            }
        }
        proof {
            assert(t@.subrange(8, n as int) =~= t@.skip(8));
        }
        Some(rest)
    } else {
        None
    }
}

/// Up to how many redirect hops `search_entry` follows.
pub const MAX_REDIRECTS: u64 = 3;

/// Bounded redirect resolution over the entry tree in the file bytes: up to
/// `fuel` exact lookups, each `@@@LINK=` value sending the next one to the
/// named key; absent when the budget is spent while still redirecting, or
/// when any hop's lookup finds nothing.
pub open spec fn spec_resolve_entry(
    data: Seq<u8>,
    root: (u64, u32),
    name: Seq<u8>,
    fuel: nat,
) -> Option<Seq<u8>>
    decreases fuel,
{
    if fuel == 0 {
        None
    } else {
        match spec_search_entry(data, root.0 as int, root.1 as int, name) {
            None => None,
            Some(v) => match redirect_of(v) {
                Some(next) => spec_resolve_entry(data, root, next, (fuel - 1) as nat),
                None => Some(v),
            },
        }
    }
}

/// Appending the token expansion to the prefix results: each listed entry
/// not already present is added, in the token record's order, up to `limit`
/// additions; an entry already present neither adds nor spends the budget.
pub open spec fn spec_append_tokens(
    acc: Seq<Seq<u8>>,
    entries: Seq<Seq<u8>>,
    i: int,
    count: int,
    limit: int,
) -> Seq<Seq<u8>>
    decreases entries.len() - i,
{
    if i >= entries.len() {
        acc
    } else if acc.contains(entries[i]) {
        spec_append_tokens(acc, entries, i + 1, count, limit)
    } else if count >= limit {
        acc
    } else {
        spec_append_tokens(acc.push(entries[i]), entries, i + 1, count + 1, limit)
    }
}

/// The dictionary-level search over the file bytes: the prefix scan of the
/// entry tree, then, for a positive phrase budget and a present token tree,
/// the token expansion of the exact query appended deduplicated.
pub open spec fn spec_dict_search(
    data: Seq<u8>,
    entry_root: (u64, u32),
    token_root: (u64, u32),
    name: Seq<u8>,
    strict: bool,
    prefix_limit: int,
    phrase_limit: int,
) -> Seq<Seq<u8>> {
    let base = spec_search(data, entry_root.0 as int, entry_root.1 as int, name, strict, prefix_limit);
    if phrase_limit > 0 && token_root.1 != 0 {
        match spec_search_entry(data, token_root.0 as int, token_root.1 as int, name) {
            None => base,
            Some(tv) => match spec_parse_tokens(tv, 0) {
                None => base,
                Some(entries) => spec_append_tokens(base, entries, 0, 0, phrase_limit),
            },
        }
    } else {
        base
    }
}

/// The first resource file whose entry tree holds the key, in file order.
pub open spec fn spec_resource_lookup(files: Seq<DictFile>, name: Seq<u8>, i: int) -> Option<
    Seq<u8>,
>
    decreases files.len() - i,
{
    if i >= files.len() {
        None
    } else {
        match spec_search_entry(
            files[i].data_spec(),
            files[i].entry_root_spec().0 as int,
            files[i].entry_root_spec().1 as int,
            name,
        ) {
            Some(v) => Some(v),
            None => spec_resource_lookup(files, name, i + 1),
        }
    }
}

/// The cache agrees with each of the files.
pub open spec fn files_coherent(entries: Seq<CacheEntry<DictNode>>, files: Seq<DictFile>) -> bool {
    forall|i: int|
        0 <= i < files.len() ==> cache_coherent(
            entries,
            (#[trigger] files[i]).cache_id_spec(),
            files[i].data_spec(),
        )
}

/// No two of the files share a cache id.
pub open spec fn ids_distinct(files: Seq<DictFile>) -> bool {
    forall|i: int, j: int|
        0 <= i < j < files.len() ==> (#[trigger] files[i]).cache_id_spec() != (
        #[trigger] files[j]).cache_id_spec()
}

/// The resource id under which a directory entry names a sibling resource
/// file of `basename`: the stem before a `.beld` extension must be
/// `basename` itself (the empty id) or `basename` followed by a dot and a
/// nonempty id.  Anything else is no sibling.
pub open spec fn spec_sibling_resource_id(name: Seq<u8>, basename: Seq<u8>) -> Option<Seq<u8>> {
    if name.len() < 5 || name.skip(name.len() - 5) != seq![46u8, 98u8, 101u8, 108u8, 100u8] {
        None
    } else {
        let stem = name.take(name.len() - 5);
        if !is_prefix(basename, stem) {
            None
        } else if stem.len() == basename.len() {
            Some(Seq::empty())
        } else if stem.len() > basename.len() + 1 && stem[basename.len() as int] == 46 {
            Some(stem.skip(basename.len() as int + 1))
        } else {
            None
        }
    }
}

/// Decide whether a directory entry names a sibling resource file of
/// `basename`, and under which resource id.
pub fn sibling_resource_id(name: &[u8], basename: &[u8]) -> (r: Option<Vec<u8>>)
    ensures
        opt_bytes(r) == spec_sibling_resource_id(name@, basename@),
{
    let ext: [u8; 5] = [46, 98, 101, 108, 100];
    let n = name.len();
    if n < 5 {
        return None;
    }
    let mut i: usize = 0;
    while i < 5
        invariant
            i <= 5,
            n == name@.len(),
            5 <= n,
            ext@ == seq![46u8, 98u8, 101u8, 108u8, 100u8],
            forall|k: int| 0 <= k < i ==> name@.skip(n - 5)[k] == ext@[k],
        decreases 5 - i,
    {
        if name[n - 5 + i] != ext[i] {
            proof {
                assert(name@.skip(n - 5)[i as int] == name@[n - 5 + i]);
                assert(name@.skip(n - 5) != seq![46u8, 98u8, 101u8, 108u8, 100u8]);
            }
            return None;
        }
        proof {
            assert(name@.skip(n - 5)[i as int] == name@[n - 5 + i]);
        }
        i = i + 1;
    }
    proof {
        assert(name@.skip(n - 5) =~= seq![46u8, 98u8, 101u8, 108u8, 100u8]);
    }
    let stem = vstd::slice::slice_subrange(name, 0, n - 5);
    proof {
        assert(stem@ == name@.take(n - 5));
    }
    if !crate::keys::starts_with(stem, basename) {
        return None;
    }
    let blen = basename.len();
    if stem.len() == blen {
        let empty: Vec<u8> = Vec::new();
        proof {
            assert(empty@ =~= Seq::<u8>::empty());
        }
        return Some(empty);
    }
    if stem.len() > blen + 1 && stem[blen] == 46 {
        let mut id: Vec<u8> = Vec::new();
        let mut j: usize = blen + 1;
        let m = stem.len();
        while j < m
            invariant
                blen + 1 <= j <= m,
                m == stem@.len(),
                id@ =~= stem@.subrange(blen + 1, j as int),
            decreases m - j,
        {
            id.push(stem[j]);
            j = j + 1;
            proof {
                assert(id@ =~= stem@.subrange(blen + 1, j as int));
            }
        }
        proof {
            assert(stem@.subrange(blen + 1, m as int) =~= stem@.skip(blen + 1));
        }
        Some(id)
    } else {
        None
    }
}

/// A primary entry file with its sibling resource files and sidecar text.
pub struct Dictionary {
    entry: DictFile,
    resources: Vec<DictFile>,
    css: Option<Vec<u8>>,
    js: Option<Vec<u8>>,
}

impl Dictionary {
    pub closed spec fn entry_spec(&self) -> DictFile {
        self.entry
    }

    /// The resource files, in lookup order.
    pub closed spec fn resources_spec(&self) -> Seq<DictFile> {
        self.resources@
    }

    /// The CSS sidecar text, when present.
    pub closed spec fn css_spec(&self) -> Option<Seq<u8>> {
        opt_bytes(self.css)
    }

    /// The JS sidecar text, when present.
    pub closed spec fn js_spec(&self) -> Option<Seq<u8>> {
        opt_bytes(self.js)
    }

    /// Assemble a dictionary from already-opened files and sidecar text.
    pub fn assemble(
        entry: DictFile,
        resources: Vec<DictFile>,
        css: Option<Vec<u8>>,
        js: Option<Vec<u8>>,
    ) -> (r: Dictionary)
        ensures
            r.entry_spec() == entry,
            r.resources_spec() == resources@,
            r.css_spec() == opt_bytes(css),
            r.js_spec() == opt_bytes(js),
    {
        Dictionary { entry, resources, css, js }
    }

    pub fn metadata(&self) -> (r: Metadata)
        ensures
            r.version@ == self.entry_spec().metadata_spec().version@,
            r.entry_num == self.entry_spec().metadata_spec().entry_num,
            r.author@ == self.entry_spec().metadata_spec().author@,
            r.email@ == self.entry_spec().metadata_spec().email@,
            r.create_time@ == self.entry_spec().metadata_spec().create_time@,
            r.comment@ == self.entry_spec().metadata_spec().comment@,
    {
        self.entry.metadata()
    }

    /// Prefix search over the entry tree, then token expansion: entries the
    /// token tree lists for `name` are appended, deduplicated, up to
    /// `phrase_limit` additions.  On a cache coherent with the entry file
    /// the result is exactly `spec_dict_search` of the file bytes.
    pub fn search(
        &self,
        cache: &mut LruCache<DictNode>,
        name: &[u8],
        strict: bool,
        prefix_limit: usize,
        phrase_limit: usize,
    ) -> (r: Vec<Vec<u8>>)
        requires
            old(cache).wf(),
            old(cache).in_budget(),
        ensures
            final(cache).wf(),
            final(cache).in_budget(),
            final(cache).cap_spec() == old(cache).cap_spec(),
            r@.len() <= prefix_limit + phrase_limit,
            cache_coherent(
                old(cache).entries_spec(),
                self.entry_spec().cache_id_spec(),
                self.entry_spec().data_spec(),
            ) ==> cache_coherent(
                final(cache).entries_spec(),
                self.entry_spec().cache_id_spec(),
                self.entry_spec().data_spec(),
            ) && vecs_view(r@) == spec_dict_search(
                self.entry_spec().data_spec(),
                self.entry_spec().entry_root_spec(),
                self.entry_spec().token_root_spec(),
                name@,
                strict,
                prefix_limit as int,
                phrase_limit as int,
            ),
            forall|id2: u32, d2: Seq<u8>|
                id2 != self.entry_spec().cache_id_spec() && #[trigger] cache_coherent(
                    old(cache).entries_spec(),
                    id2,
                    d2,
                ) ==> cache_coherent(final(cache).entries_spec(), id2, d2),
    {
        let ghost coh = cache_coherent(
            old(cache).entries_spec(),
            self.entry_spec().cache_id_spec(),
            self.entry_spec().data_spec(),
        );
        let ghost target = spec_dict_search(
            self.entry_spec().data_spec(),
            self.entry_spec().entry_root_spec(),
            self.entry_spec().token_root_spec(),
            name@,
            strict,
            prefix_limit as int,
            phrase_limit as int,
        );
        let mut result = self.entry.search(cache, name, strict, prefix_limit);
        let (_, token_root_size) = self.entry.token_root();
        if phrase_limit > 0 && token_root_size != 0 {
            let root = self.entry.token_root();
            if let Some(data) = self.entry.search_entry(cache, root, name) {
                if let Some(entries) = Beluga::parse_token_entries(data.as_slice()) {
                    let ghost entriesv = vecs_view(entries@);
                    let mut token_count: usize = 0;
                    let n = entries.len();
                    let mut i: usize = 0;
                    let ghost base = result@.len();
                    while i < n
                        invariant
                            i <= n,
                            n == entries@.len(),
                            n == entriesv.len(),
                            entriesv == vecs_view(entries@),
                            token_count <= phrase_limit,
                            result@.len() <= base + token_count,
                            coh ==> target == spec_append_tokens(
                                vecs_view(result@),
                                entriesv,
                                i as int,
                                token_count as int,
                                phrase_limit as int,
                            ),
                        decreases n - i,
                    {
                        let e = &entries[i];
                        proof {
                            assert(entriesv[i as int] == entries@[i as int]@);
                        }
                        if !contains_vec(&result, e) {
                            if token_count >= phrase_limit {
                                // the addition budget is spent: nothing more
                                // can be appended
                                i = n;
                            } else {
                                let ghost pre = result@;
                                result.push(clone_bytes(e));
                                token_count = token_count + 1;
                                i = i + 1;
                                proof {
                                    assert forall|m: int|
                                        0 <= m < result@.len() implies vecs_view(result@)[m]
                                        == vecs_view(pre).push(entriesv[i - 1])[m] by {
                                        if m < pre.len() {
                                            assert(result@[m] == pre[m]);
                                        }
                                    }
                                    assert(vecs_view(result@) =~= vecs_view(pre).push(
                                        entriesv[i - 1],
                                    ));
                                }
                            }
                        } else {
                            i = i + 1;
                        }
                    }
                }
            }
        }
        result
    }

    /// Exact lookup with up to three redirect hops.  A returned value is
    /// never itself a redirect; a chain longer than the limit yields absent.
    /// On a cache coherent with the entry file the result is exactly
    /// `spec_resolve_entry` with the full hop budget.
    pub fn search_entry(&self, cache: &mut LruCache<DictNode>, name: &[u8]) -> (r: Option<Vec<u8>>)
        requires
            old(cache).wf(),
            old(cache).in_budget(),
        ensures
            final(cache).wf(),
            final(cache).in_budget(),
            final(cache).cap_spec() == old(cache).cap_spec(),
            r matches Some(v) ==> redirect_of(v@) is None,
            cache_coherent(
                old(cache).entries_spec(),
                self.entry_spec().cache_id_spec(),
                self.entry_spec().data_spec(),
            ) ==> cache_coherent(
                final(cache).entries_spec(),
                self.entry_spec().cache_id_spec(),
                self.entry_spec().data_spec(),
            ) && opt_bytes(r) == spec_resolve_entry(
                self.entry_spec().data_spec(),
                self.entry_spec().entry_root_spec(),
                name@,
                MAX_REDIRECTS as nat,
            ),
            forall|id2: u32, d2: Seq<u8>|
                id2 != self.entry_spec().cache_id_spec() && #[trigger] cache_coherent(
                    old(cache).entries_spec(),
                    id2,
                    d2,
                ) ==> cache_coherent(final(cache).entries_spec(), id2, d2),
    {
        let ghost coh = cache_coherent(
            old(cache).entries_spec(),
            self.entry_spec().cache_id_spec(),
            self.entry_spec().data_spec(),
        );
        let mut keyword = clone_slice(name);
        let mut hops: u64 = 0;
        while hops < MAX_REDIRECTS
            invariant
                cache.wf(),
                cache.in_budget(),
                cache.cap_spec() == old(cache).cap_spec(),
                hops <= MAX_REDIRECTS,
                coh == cache_coherent(
                    old(cache).entries_spec(),
                    self.entry_spec().cache_id_spec(),
                    self.entry_spec().data_spec(),
                ),
                coh ==> cache_coherent(
                    cache.entries_spec(),
                    self.entry_spec().cache_id_spec(),
                    self.entry_spec().data_spec(),
                ),
                coh ==> spec_resolve_entry(
                    self.entry_spec().data_spec(),
                    self.entry_spec().entry_root_spec(),
                    name@,
                    MAX_REDIRECTS as nat,
                ) == spec_resolve_entry(
                    self.entry_spec().data_spec(),
                    self.entry_spec().entry_root_spec(),
                    keyword@,
                    (MAX_REDIRECTS - hops) as nat,
                ),
                forall|id2: u32, d2: Seq<u8>|
                    id2 != self.entry_spec().cache_id_spec() && #[trigger] cache_coherent(
                        old(cache).entries_spec(),
                        id2,
                        d2,
                    ) ==> cache_coherent(cache.entries_spec(), id2, d2),
            decreases MAX_REDIRECTS - hops,
        {
            let root = self.entry.entry_root();
            match self.entry.search_entry(cache, root, keyword.as_slice()) {
                None => {
                    return None;
                },
                Some(data) => {
                    match redirect_target(data.as_slice()) {
                        Some(next) => {
                            keyword = next;
                        },
                        None => {
                            return Some(data);
                        },
                    }
                },
            }
            hops = hops + 1;
        }
        None
    }

    /// Look `name` up in each resource file, first hit wins.  On a cache
    /// coherent with the resource files, whose cache ids are distinct, the
    /// result is exactly `spec_resource_lookup` in file order.
    pub fn search_resource(&self, cache: &mut LruCache<DictNode>, name: &[u8]) -> (r: Option<
        Vec<u8>,
    >)
        requires
            old(cache).wf(),
            old(cache).in_budget(),
        ensures
            final(cache).wf(),
            final(cache).in_budget(),
            final(cache).cap_spec() == old(cache).cap_spec(),
            files_coherent(old(cache).entries_spec(), self.resources_spec()) && ids_distinct(
                self.resources_spec(),
            ) ==> files_coherent(final(cache).entries_spec(), self.resources_spec()) && opt_bytes(r)
                == spec_resource_lookup(self.resources_spec(), name@, 0),
            forall|id2: u32, d2: Seq<u8>|
                (forall|k: int|
                    0 <= k < self.resources_spec().len() ==> id2 != (
                    #[trigger] self.resources_spec()[k]).cache_id_spec()) && #[trigger] cache_coherent(
                    old(cache).entries_spec(),
                    id2,
                    d2,
                ) ==> cache_coherent(final(cache).entries_spec(), id2, d2),
    {
        let ghost coh = files_coherent(old(cache).entries_spec(), self.resources_spec())
            && ids_distinct(self.resources_spec());
        let n = self.resources.len();
        let mut i: usize = 0;
        while i < n
            invariant
                i <= n,
                n == self.resources@.len(),
                cache.wf(),
                cache.in_budget(),
                cache.cap_spec() == old(cache).cap_spec(),
                coh == (files_coherent(old(cache).entries_spec(), self.resources_spec())
                    && ids_distinct(self.resources_spec())),
                coh ==> files_coherent(cache.entries_spec(), self.resources_spec()),
                coh ==> spec_resource_lookup(self.resources_spec(), name@, 0)
                    == spec_resource_lookup(self.resources_spec(), name@, i as int),
                forall|id2: u32, d2: Seq<u8>|
                    (forall|k: int|
                        0 <= k < self.resources_spec().len() ==> id2 != (
                        #[trigger] self.resources_spec()[k]).cache_id_spec())
                        && #[trigger] cache_coherent(old(cache).entries_spec(), id2, d2)
                        ==> cache_coherent(cache.entries_spec(), id2, d2),
            decreases n - i,
        {
            let dict = &self.resources[i];
            let root = dict.entry_root();
            let ghost pre = cache.entries_spec();
            let found = dict.search_entry(cache, root, name);
            proof {
                if coh {
                    assert(cache_coherent(
                        pre,
                        self.resources_spec()[i as int].cache_id_spec(),
                        self.resources_spec()[i as int].data_spec(),
                    ));
                    assert forall|k: int|
                        0 <= k < self.resources_spec().len() implies cache_coherent(
                        cache.entries_spec(),
                        (#[trigger] self.resources_spec()[k]).cache_id_spec(),
                        self.resources_spec()[k].data_spec(),
                    ) by {
                        if k != i as int {
                            let ghost ki = if k < i as int {
                                k
                            } else {
                                i as int
                            };
                            let ghost kj = if k < i as int {
                                i as int
                            } else {
                                k
                            };
                            assert(self.resources_spec()[ki].cache_id_spec()
                                != self.resources_spec()[kj].cache_id_spec());
                        }
                    }
                }
            }
            if let Some(v) = found {
                return Some(v);
            }
            i = i + 1;
        }
        None
    }

    /// The CSS and JS sidecar text, when present: exactly the sidecars the
    /// dictionary was assembled with.
    pub fn static_files(&self) -> (r: (Option<Vec<u8>>, Option<Vec<u8>>))
        ensures
            opt_bytes(r.0) == self.css_spec(),
            opt_bytes(r.1) == self.js_spec(),
    {
        let css = match &self.css {
            Some(c) => Some(clone_slice(c.as_slice())),
            None => None,
        };
        let js = match &self.js {
            Some(j) => Some(clone_slice(j.as_slice())),
            None => None,
        };
        (css, js)
    }
}

/// Does `v` already hold `x`?
fn contains_vec(v: &Vec<Vec<u8>>, x: &Vec<u8>) -> (r: bool)
    ensures
        r == vecs_view(v@).contains(x@),
{
    let n = v.len();
    let mut i: usize = 0;
    while i < n
        invariant
            i <= n,
            n == v@.len(),
            forall|k: int| 0 <= k < i ==> vecs_view(v@)[k] != x@,
        decreases n - i,
    {
        if eq_bytes(v[i].as_slice(), x.as_slice()) {
            proof {
                assert(vecs_view(v@)[i as int] == x@);
            }
            return true;
        }
        i = i + 1;
    }
    proof {
        if vecs_view(v@).contains(x@) {
            let j = choose|j: int| 0 <= j < vecs_view(v@).len() && vecs_view(v@)[j] == x@;
            assert(vecs_view(v@)[j] != x@);
        }
    }
    false
}

/// Byte-for-byte equality.
fn eq_bytes(a: &[u8], b: &[u8]) -> (r: bool)
    ensures
        r == (a@ == b@),
{
    let c = crate::keys::cmp_bytes(a, b);
    proof {
        crate::keys::lemma_lex_cmp_eq(a@, b@);
    }
    c.is_eq()
}

/// An owned copy of a byte slice.
fn clone_slice(v: &[u8]) -> (r: Vec<u8>)
    ensures
        r@ == v@,
{
    crate::keys::EntryKey::from_bytes(v).0
}

/// An owned copy of a byte vector.
fn clone_bytes(v: &Vec<u8>) -> (r: Vec<u8>)
    ensures
        r@ == v@,
{
    clone_slice(v.as_slice())
}

} // verus!
