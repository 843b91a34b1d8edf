//! The registry distribution index.
//!
//! A lazily-populated, per-package index of locally cached distributions,
//! merged across all configured indexes, filtered by platform compatibility
//! and by the hash-verification policy, and deduplicated to the best
//! candidate per version. Population happens at most once per package name;
//! a populated entry never changes, so repeated lookups are deterministic.

use vstd::prelude::*;
use crate::cache::{
    all_indexes, area_of, BuildShardV, Cache, IndexLocations, PackageAreaV, PointerFileV,
    PointerKind,
};
use crate::dist::{CachedRegistryDist, CachedWheel, IndexKind, IndexUrl, IndexUrlV, Version, WheelV};
use crate::hashes::{hash_ok, satisfies, HashEntryV, HashStrategy};
use crate::name::PackageName;
use crate::tags::{opt_gt, opt_gt_exec, wheel_rank, Tags};

verus! {

// ------------------------------------------------------------------
// The per-index version map: candidates of one index, one per version,
// kept in ascending version order.
// ------------------------------------------------------------------

/// The mathematical value of a version map held as a vector.
pub open spec fn vmap_view(s: Seq<(Version, CachedRegistryDist)>) -> Seq<(Version, WheelV)> {
    Seq::new(s.len(), |i: int| (s[i].0, s[i].1@))
}

/// Versions strictly ascending: each version appears at most once.
pub open spec fn sorted_unique(m: Seq<(Version, WheelV)>) -> bool {
    forall|i: int, j: int| 0 <= i < j < m.len() ==> m[i].0.0 < m[j].0.0
}

/// The position at which version `v` lives or would be inserted: the first
/// position whose version is not below `v`.
pub open spec fn find_pos(m: Seq<(Version, WheelV)>, v: Version) -> int
    decreases m.len(),
{
    if m.len() == 0 {
        0
    } else if m[0].0.0 >= v.0 {
        0
    } else {
        1 + find_pos(m.skip(1), v)
    }
}

pub proof fn lemma_find_pos_bounds(m: Seq<(Version, WheelV)>, v: Version)
    ensures
        0 <= find_pos(m, v) <= m.len(),
        forall|j: int| 0 <= j < find_pos(m, v) ==> m[j].0.0 < v.0,
        find_pos(m, v) < m.len() ==> m[find_pos(m, v)].0.0 >= v.0,
    decreases m.len(),
{
    if m.len() > 0 && m[0].0.0 < v.0 {
        lemma_find_pos_bounds(m.skip(1), v);
        assert forall|j: int| 0 <= j < find_pos(m, v) implies m[j].0.0 < v.0 by {
            if j > 0 {
                assert(m.skip(1)[j - 1] == m[j]);
            }
        }
        if find_pos(m, v) < m.len() {
            assert(m.skip(1)[find_pos(m.skip(1), v)] == m[find_pos(m, v)]);
        }
    }
}

/// Any position below which all versions are below `v` and at which the
/// version is not below `v` is the position `find_pos` names.
pub proof fn lemma_find_pos_is(m: Seq<(Version, WheelV)>, v: Version, i: int)
    requires
        0 <= i <= m.len(),
        forall|j: int| 0 <= j < i ==> m[j].0.0 < v.0,
        i < m.len() ==> m[i].0.0 >= v.0,
    ensures
        find_pos(m, v) == i,
    decreases m.len(),
{
    if i == 0 {
    } else {
        assert(m[0].0.0 < v.0);
        assert forall|j: int| 0 <= j < i - 1 implies m.skip(1)[j].0.0 < v.0 by {
            assert(m.skip(1)[j] == m[j + 1]);
        }
        if i - 1 < m.skip(1).len() {
            assert(m.skip(1)[i - 1] == m[i]);
        }
        lemma_find_pos_is(m.skip(1), v, i - 1);
    }
}

/// The admission rule of the index, applied to one sighted candidate `w`:
/// a new version is admitted when it is at least minimally compatible; a
/// version already present is replaced only by a strictly more compatible
/// candidate, so ties keep the earlier sighting.
pub open spec fn add_wheel_spec(
    m: Seq<(Version, WheelV)>,
    w: WheelV,
    ts: Seq<(u64, u64)>,
) -> Seq<(Version, WheelV)> {
    let r = wheel_rank(ts, w.filename.tags);
    let i = find_pos(m, w.filename.version);
    if i < m.len() && m[i].0 == w.filename.version {
        if opt_gt(r, wheel_rank(ts, m[i].1.filename.tags)) {
            m.update(i, (w.filename.version, w))
        } else {
            m
        }
    } else {
        if r is Some {
            m.insert(i, (w.filename.version, w))
        } else {
            m
        }
    }
}

pub proof fn lemma_add_wheel_sorted(m: Seq<(Version, WheelV)>, w: WheelV, ts: Seq<(u64, u64)>)
    requires
        sorted_unique(m),
    ensures
        sorted_unique(add_wheel_spec(m, w, ts)),
{
    lemma_find_pos_bounds(m, w.filename.version);
    let i = find_pos(m, w.filename.version);
    let r = wheel_rank(ts, w.filename.tags);
    if i < m.len() && m[i].0 == w.filename.version {
    } else if r is Some {
        let m2 = m.insert(i, (w.filename.version, w));
        assert forall|p: int, q: int| 0 <= p < q < m2.len() implies m2[p].0.0 < m2[q].0.0 by {
            if p < i && q == i {
                assert(m2[p] == m[p]);
            } else if p == i && q > i {
                assert(m2[q] == m[q - 1]);
                if i < m.len() {
                    assert(m[i].0.0 >= w.filename.version.0);
                    assert(m[i].0.0 != w.filename.version.0);
                }
            } else if p < i && q > i {
                assert(m2[p] == m[p]);
                assert(m2[q] == m[q - 1]);
            } else if p > i && q > i {
                assert(m2[p] == m[p - 1]);
                assert(m2[q] == m[q - 1]);
            } else {
                assert(m2[p] == m[p]);
                assert(m2[q] == m[q]);
            }
        }
    }
}

// ------------------------------------------------------------------
// Executable admission of one sighted candidate.
// ------------------------------------------------------------------

impl CachedWheel {
    /// Adds one sighted candidate to a version map under the admission rule.
    pub fn add_wheel(self, tags: &Tags, versions: &mut Vec<(Version, CachedRegistryDist)>)
        requires
            sorted_unique(vmap_view(old(versions)@)),
        ensures
            vmap_view(final(versions)@) == add_wheel_spec(
                vmap_view(old(versions)@),
                self@,
                tags@,
            ),
            sorted_unique(vmap_view(final(versions)@)),
    {
        let ghost m0 = vmap_view(versions@);
        proof {
            lemma_add_wheel_sorted(m0, self@, tags@);
        }
        let compatibility = self.filename.compatibility(tags);
        let v = self.filename.version;
        let mut i: usize = 0;
        while i < versions.len() && versions[i].0.0 < v.0
            invariant
                i <= versions.len(),
                m0 == vmap_view(versions@),
                forall|j: int| 0 <= j < i ==> m0[j].0.0 < v.0,
            decreases versions.len() - i,
        {
            assert(m0[i as int].0.0 == versions@[i as int].0.0);
            i = i + 1;
        }
        proof {
            if (i as int) < m0.len() {
                assert(m0[i as int].0 == versions@[i as int].0);
            }
            lemma_find_pos_is(m0, v, i as int);
        }
        if i < versions.len() && versions[i].0.0 == v.0 {
            let existing_rank = versions[i].1.filename.compatibility(tags);
            proof {
                assert(m0[i as int].1 == versions@[i as int].1@);
                assert(m0[i as int].0 == versions@[i as int].0);
            }
            if opt_gt_exec(&compatibility, &existing_rank) {
                let dist = self.into_registry_dist();
                versions.set(i, (v, dist));
                proof {
                    assert(vmap_view(versions@) =~= m0.update(
                        i as int,
                        (v, dist@),
                    ));
                }
            }
        } else {
            if compatibility.is_some() {
                let dist = self.into_registry_dist();
                versions.insert(i, (v, dist));
                proof {
                    assert(vmap_view(versions@) =~= m0.insert(i as int, (v, dist@)));
                }
            }
        }
    }
}

// ------------------------------------------------------------------
// The sighting streams: the candidates one population pass yields, in
// scan order, after the kind filter, the parse filter and the hash gate.
// ------------------------------------------------------------------

/// Does a pointer record kind belong to an index kind? Remote indexes read
/// remote-fetch records, local path-based indexes read local records.
pub open spec fn kind_matches(ik: IndexKind, pk: PointerKind) -> bool {
    (ik == IndexKind::Remote && pk == PointerKind::Http) || (ik == IndexKind::Local
        && pk == PointerKind::LocalRev)
}

/// The candidates sighted in the wheel area: records of the index's kind
/// that parsed and whose own fingerprints pass the policy.
pub open spec fn file_sightings(
    files: Seq<PointerFileV>,
    kind: IndexKind,
    h: Seq<HashEntryV>,
) -> Seq<WheelV>
    decreases files.len(),
{
    if files.len() == 0 {
        Seq::empty()
    } else {
        let rest = file_sightings(files.skip(1), kind, h);
        match files[0].record {
            Some(w) => if kind_matches(kind, files[0].kind) && hash_ok(
                h,
                w.filename.name,
                w.filename.version,
                w.hashes,
            ) {
                seq![w] + rest
            } else {
                rest
            },
            None => rest,
        }
    }
}

/// The candidates sighted among the outputs of one revision: outputs that
/// parsed and whose *revision's* fingerprints pass the policy — a built
/// wheel inherits the trust of its source.
pub open spec fn rev_sightings(
    outputs: Seq<Option<WheelV>>,
    digests: Seq<u64>,
    h: Seq<HashEntryV>,
) -> Seq<WheelV>
    decreases outputs.len(),
{
    if outputs.len() == 0 {
        Seq::empty()
    } else {
        let rest = rev_sightings(outputs.skip(1), digests, h);
        match outputs[0] {
            Some(w) => if hash_ok(h, w.filename.name, w.filename.version, digests) {
                seq![w] + rest
            } else {
                rest
            },
            None => rest,
        }
    }
}

/// The revision pointer an index of kind `kind` reads from a build shard.
pub open spec fn shard_revision(s: BuildShardV, kind: IndexKind) -> Option<
    crate::cache::RevisionV,
> {
    match kind {
        IndexKind::Remote => s.http_revision,
        IndexKind::Local => s.local_revision,
    }
}

/// The candidates sighted in the build-output area, shard by shard.
pub open spec fn shard_sightings(
    shards: Seq<BuildShardV>,
    kind: IndexKind,
    h: Seq<HashEntryV>,
) -> Seq<WheelV>
    decreases shards.len(),
{
    if shards.len() == 0 {
        Seq::empty()
    } else {
        (match shard_revision(shards[0], kind) {
            Some(rev) => rev_sightings(rev.outputs, rev.digests, h),
            None => Seq::empty(),
        }) + shard_sightings(shards.skip(1), kind, h)
    }
}

/// Every candidate one (index, package) population pass sights, in order:
/// the wheel area first, then the build-output area.
pub open spec fn package_sightings(
    area: PackageAreaV,
    kind: IndexKind,
    h: Seq<HashEntryV>,
) -> Seq<WheelV> {
    file_sightings(area.wheel_files, kind, h) + shard_sightings(area.build_shards, kind, h)
}

/// The version map after admitting a stream of sightings in order.
pub open spec fn fold_add(
    m0: Seq<(Version, WheelV)>,
    ws: Seq<WheelV>,
    ts: Seq<(u64, u64)>,
) -> Seq<(Version, WheelV)>
    decreases ws.len(),
{
    if ws.len() == 0 {
        m0
    } else {
        fold_add(add_wheel_spec(m0, ws[0], ts), ws.skip(1), ts)
    }
}

/// The permanent entry of one (index, package) pair: the whole sighting
/// stream admitted into an empty map.
pub open spec fn index_one_spec(
    c: Seq<PackageAreaV>,
    idx: IndexUrlV,
    package: Seq<u8>,
    ts: Seq<(u64, u64)>,
    h: Seq<HashEntryV>,
) -> Seq<(Version, WheelV)> {
    fold_add(
        Seq::empty(),
        package_sightings(area_of(c, idx.url, package), idx.kind, h),
        ts,
    )
}

/// The mathematical value of a vector of index identities.
pub open spec fn index_views(s: Seq<IndexUrl>) -> Seq<IndexUrlV> {
    Seq::new(s.len(), |i: int| s[i]@)
}

/// Is some identity with canonical form `url` among `idxs`?
pub open spec fn url_in(idxs: Seq<IndexUrlV>, url: Seq<u8>) -> bool {
    exists|j: int| 0 <= j < idxs.len() && (#[trigger] idxs[j]).url == url
}

/// No two identities share a canonical form.
pub open spec fn urls_unique(idxs: Seq<IndexUrlV>) -> bool {
    forall|i: int, j: int| 0 <= i < j < idxs.len() ==> (#[trigger] idxs[i]).url != (
    #[trigger] idxs[j]).url
}

/// The configured identities with later repetitions of a canonical form
/// dropped: each source once, at the position of its first occurrence,
/// which also decides how its storage is scanned. This is the key set of
/// the per-index map a population pass builds.
pub open spec fn dedup_indexes(idxs: Seq<IndexUrlV>) -> Seq<IndexUrlV>
    decreases idxs.len(),
{
    if idxs.len() == 0 {
        Seq::empty()
    } else if url_in(idxs.drop_last(), idxs.last().url) {
        dedup_indexes(idxs.drop_last())
    } else {
        dedup_indexes(idxs.drop_last()).push(idxs.last())
    }
}

pub proof fn lemma_url_in_push(s: Seq<IndexUrlV>, x: IndexUrlV, u: Seq<u8>)
    ensures
        url_in(s.push(x), u) == (url_in(s, u) || x.url == u),
{
    if url_in(s, u) {
        let j = choose|j: int| 0 <= j < s.len() && (#[trigger] s[j]).url == u;
        assert(s.push(x)[j].url == u);
    }
    if x.url == u {
        assert(s.push(x)[s.len() as int].url == u);
    }
    if url_in(s.push(x), u) {
        let j = choose|j: int| 0 <= j < s.push(x).len() && (#[trigger] s.push(x)[j]).url == u;
        if j < s.len() {
            assert(s[j].url == u);
        }
    }
}

/// Dropping repetitions drops no source and invents none.
pub proof fn lemma_dedup_urls(idxs: Seq<IndexUrlV>, u: Seq<u8>)
    ensures
        url_in(dedup_indexes(idxs), u) == url_in(idxs, u),
    decreases idxs.len(),
{
    if idxs.len() > 0 {
        let s0 = idxs.drop_last();
        let x = idxs.last();
        lemma_dedup_urls(s0, u);
        assert(s0.push(x) =~= idxs);
        lemma_url_in_push(s0, x, u);
        if !url_in(s0, x.url) {
            lemma_url_in_push(dedup_indexes(s0), x, u);
        }
    }
}

/// After dropping repetitions, every source appears exactly once.
pub proof fn lemma_dedup_unique(idxs: Seq<IndexUrlV>)
    ensures
        urls_unique(dedup_indexes(idxs)),
    decreases idxs.len(),
{
    if idxs.len() > 0 {
        let s0 = idxs.drop_last();
        let x = idxs.last();
        lemma_dedup_unique(s0);
        if !url_in(s0, x.url) {
            lemma_dedup_urls(s0, x.url);
            let d = dedup_indexes(s0);
            let d2 = d.push(x);
            assert forall|i: int, j: int| 0 <= i < j < d2.len() implies d2[i].url != d2[j].url by {
                if j == d.len() {
                    assert(d2[j] == x);
                    assert(d2[i] == d[i]);
                    if d[i].url == x.url {
                        assert(url_in(d, x.url));
                    }
                } else {
                    assert(d2[i] == d[i]);
                    assert(d2[j] == d[j]);
                }
            }
        }
    }
}

/// The permanent per-package entry: one version map per configured source,
/// in priority order, later repetitions of a source dropped — as a map
/// keyed by index identity retains one entry per key.
pub open spec fn index_all_spec(
    c: Seq<PackageAreaV>,
    idxs: Seq<IndexUrlV>,
    package: Seq<u8>,
    ts: Seq<(u64, u64)>,
    h: Seq<HashEntryV>,
) -> Seq<(IndexUrlV, Seq<(Version, WheelV)>)> {
    let ds = dedup_indexes(idxs);
    Seq::new(ds.len(), |i: int| (ds[i], index_one_spec(c, ds[i], package, ts, h)))
}

pub proof fn lemma_fold_add_concat(
    m0: Seq<(Version, WheelV)>,
    a: Seq<WheelV>,
    b: Seq<WheelV>,
    ts: Seq<(u64, u64)>,
)
    ensures
        fold_add(m0, a + b, ts) == fold_add(fold_add(m0, a, ts), b, ts),
    decreases a.len(),
{
    if a.len() == 0 {
        assert(a + b =~= b);
    } else {
        assert((a + b)[0] == a[0]);
        assert((a + b).skip(1) =~= a.skip(1) + b);
        lemma_fold_add_concat(add_wheel_spec(m0, a[0], ts), a.skip(1), b, ts);
    }
}

pub proof fn lemma_fold_add_singleton(m0: Seq<(Version, WheelV)>, w: WheelV, ts: Seq<(u64, u64)>)
    ensures
        fold_add(m0, seq![w], ts) == add_wheel_spec(m0, w, ts),
{
    assert(seq![w].skip(1) =~= Seq::<WheelV>::empty());
    assert(fold_add(add_wheel_spec(m0, w, ts), Seq::<WheelV>::empty(), ts) == add_wheel_spec(
        m0,
        w,
        ts,
    ));
}

pub proof fn lemma_fold_add_sorted(
    m0: Seq<(Version, WheelV)>,
    ws: Seq<WheelV>,
    ts: Seq<(u64, u64)>,
)
    requires
        sorted_unique(m0),
    ensures
        sorted_unique(fold_add(m0, ws, ts)),
    decreases ws.len(),
{
    if ws.len() > 0 {
        lemma_add_wheel_sorted(m0, ws[0], ts);
        lemma_fold_add_sorted(add_wheel_spec(m0, ws[0], ts), ws.skip(1), ts);
    }
}

pub proof fn lemma_file_sightings_concat(
    a: Seq<PointerFileV>,
    b: Seq<PointerFileV>,
    kind: IndexKind,
    h: Seq<HashEntryV>,
)
    ensures
        file_sightings(a + b, kind, h) == file_sightings(a, kind, h) + file_sightings(b, kind, h),
    decreases a.len(),
{
    if a.len() == 0 {
        assert(a + b =~= b);
        assert(file_sightings(a, kind, h) + file_sightings(b, kind, h) =~= file_sightings(
            b,
            kind,
            h,
        ));
    } else {
        assert((a + b)[0] == a[0]);
        assert((a + b).skip(1) =~= a.skip(1) + b);
        lemma_file_sightings_concat(a.skip(1), b, kind, h);
        assert(file_sightings(a + b, kind, h) =~= file_sightings(a, kind, h) + file_sightings(
            b,
            kind,
            h,
        ));
    }
}

pub proof fn lemma_rev_sightings_concat(
    a: Seq<Option<WheelV>>,
    b: Seq<Option<WheelV>>,
    digests: Seq<u64>,
    h: Seq<HashEntryV>,
)
    ensures
        rev_sightings(a + b, digests, h) == rev_sightings(a, digests, h) + rev_sightings(
            b,
            digests,
            h,
        ),
    decreases a.len(),
{
    if a.len() == 0 {
        assert(a + b =~= b);
        assert(rev_sightings(a, digests, h) + rev_sightings(b, digests, h) =~= rev_sightings(
            b,
            digests,
            h,
        ));
    } else {
        assert((a + b)[0] == a[0]);
        assert((a + b).skip(1) =~= a.skip(1) + b);
        lemma_rev_sightings_concat(a.skip(1), b, digests, h);
        assert(rev_sightings(a + b, digests, h) =~= rev_sightings(a, digests, h) + rev_sightings(
            b,
            digests,
            h,
        ));
    }
}

pub proof fn lemma_shard_sightings_concat(
    a: Seq<BuildShardV>,
    b: Seq<BuildShardV>,
    kind: IndexKind,
    h: Seq<HashEntryV>,
)
    ensures
        shard_sightings(a + b, kind, h) == shard_sightings(a, kind, h) + shard_sightings(
            b,
            kind,
            h,
        ),
    decreases a.len(),
{
    if a.len() == 0 {
        assert(a + b =~= b);
        assert(shard_sightings(a, kind, h) + shard_sightings(b, kind, h) =~= shard_sightings(
            b,
            kind,
            h,
        ));
    } else {
        assert((a + b)[0] == a[0]);
        assert((a + b).skip(1) =~= a.skip(1) + b);
        lemma_shard_sightings_concat(a.skip(1), b, kind, h);
        assert(shard_sightings(a + b, kind, h) =~= shard_sightings(a, kind, h) + shard_sightings(
            b,
            kind,
            h,
        ));
    }
}

// ------------------------------------------------------------------
// The index itself.
// ------------------------------------------------------------------

/// The mathematical value of a per-package entry.
pub open spec fn per_index_view(
    s: Seq<(IndexUrl, Vec<(Version, CachedRegistryDist)>)>,
) -> Seq<(IndexUrlV, Seq<(Version, WheelV)>)> {
    Seq::new(s.len(), |i: int| (s[i].0@, vmap_view(s[i].1@)))
}

/// The flattened (index, version, candidate) triples of one per-index entry.
pub open spec fn row_triples(
    e: (IndexUrlV, Seq<(Version, WheelV)>),
) -> Seq<(IndexUrlV, Version, WheelV)> {
    Seq::new(e.1.len(), |j: int| (e.0, e.1[j].0, e.1[j].1))
}

/// The whole per-package entry flattened: indexes in priority order,
/// versions ascending within each index.
pub open spec fn triples(
    per: Seq<(IndexUrlV, Seq<(Version, WheelV)>)>,
) -> Seq<(IndexUrlV, Version, WheelV)>
    decreases per.len(),
{
    if per.len() == 0 {
        Seq::empty()
    } else {
        row_triples(per[0]) + triples(per.skip(1))
    }
}

/// Does the memo already hold an entry for `name`?
pub open spec fn memo_has(
    m: Seq<(PackageName, Vec<(IndexUrl, Vec<(Version, CachedRegistryDist)>)>)>,
    name: Seq<u8>,
) -> bool {
    exists|k: int| 0 <= k < m.len() && (#[trigger] m[k]).0@ == name
}

/// The mathematical value of a flattened result vector.
pub open spec fn triple_view(
    s: Seq<(IndexUrl, Version, CachedRegistryDist)>,
) -> Seq<(IndexUrlV, Version, WheelV)> {
    Seq::new(s.len(), |i: int| (s[i].0@, s[i].1, s[i].2@))
}

/// A local index of distributions that originate from a registry.
///
/// `index` is the memo: per package name, the per-index version maps, each
/// computed at most once and equal to `index_all_spec` of the fixed
/// configuration — which is why repeated lookups are deterministic.
pub struct RegistryWheelIndex {
    pub cache: Cache,
    pub tags: Tags,
    pub index_locations: IndexLocations,
    pub hasher: HashStrategy,
    pub index: Vec<(PackageName, Vec<(IndexUrl, Vec<(Version, CachedRegistryDist)>)>)>,
}

impl RegistryWheelIndex {
    /// Every memoized entry is exactly what population of that package name
    /// yields from the fixed configuration.
    pub open spec fn wf(self) -> bool {
        forall|k: int| 0 <= k < self.index@.len() ==> #[trigger] per_index_view(
            self.index@[k].1@,
        ) == index_all_spec(
            self.cache@,
            all_indexes(self.index_locations@),
            self.index@[k].0@,
            self.tags@,
            self.hasher@,
        )
    }

    /// Initialize an index of registry distributions over a cache snapshot,
    /// the active tag set, the configured indexes and the hash policy.
    pub fn new(
        cache: Cache,
        tags: Tags,
        index_locations: IndexLocations,
        hasher: HashStrategy,
    ) -> (r: Self)
        ensures
            r.wf(),
            r.cache@ == cache@,
            r.tags@ == tags@,
            r.index_locations@ == index_locations@,
            r.hasher@ == hasher@,
            r.index@.len() == 0,
    {
        RegistryWheelIndex { cache, tags, index_locations, hasher, index: Vec::new() }
    }

    /// Populates the entry of one (index, package) pair by scanning the two
    /// storage areas: the wheel area of records downloaded from the index,
    /// then the build-output area of wheels built from source revisions.
    fn index_one(
        index: &IndexUrl,
        package: &PackageName,
        cache: &Cache,
        tags: &Tags,
        hasher: &HashStrategy,
    ) -> (r: Vec<(Version, CachedRegistryDist)>)
        ensures
            vmap_view(r@) == index_one_spec(cache@, index@, package@, tags@, hasher@),
            sorted_unique(vmap_view(r@)),
    {
        let mut versions: Vec<(Version, CachedRegistryDist)> = Vec::new();
        let ghost areav = area_of(cache@, index@.url, package@);
        let ghost kind = index@.kind;
        let area_opt = cache.lookup_area(&index.url, package);
        match area_opt {
            None => {
                proof {
                    assert(vmap_view(versions@) =~= Seq::<(Version, WheelV)>::empty());
                    assert(file_sightings(areav.wheel_files, kind, hasher@)
                        =~= Seq::<WheelV>::empty());
                    assert(shard_sightings(areav.build_shards, kind, hasher@)
                        =~= Seq::<WheelV>::empty());
                    assert(package_sightings(areav, kind, hasher@) =~= Seq::<WheelV>::empty());
                }
                versions
            },
            Some(area) => {
                let ghost fs_all = file_sightings(areav.wheel_files, kind, hasher@);
                let mut i: usize = 0;
                proof {
                    assert(areav.wheel_files.take(0) =~= Seq::<PointerFileV>::empty());
                    assert(file_sightings(Seq::empty(), kind, hasher@) =~= Seq::<WheelV>::empty());
                    assert(vmap_view(versions@) =~= Seq::<(Version, WheelV)>::empty());
                }
                while i < area.wheel_files.len()
                    invariant
                        i <= area.wheel_files.len(),
                        area@ == areav,
                        kind == index@.kind,
                        sorted_unique(vmap_view(versions@)),
                        vmap_view(versions@) == fold_add(
                            Seq::empty(),
                            file_sightings(areav.wheel_files.take(i as int), kind, hasher@),
                            tags@,
                        ),
                    decreases area.wheel_files.len() - i,
                {
                    let ghost m_pre = vmap_view(versions@);
                    let ghost pre = file_sightings(
                        areav.wheel_files.take(i as int),
                        kind,
                        hasher@,
                    );
                    let ghost fv = areav.wheel_files[i as int];
                    proof {
                        assert(fv == area.wheel_files@[i as int]@);
                        assert(areav.wheel_files.take(i + 1) =~= areav.wheel_files.take(i as int)
                            + seq![fv]);
                        lemma_file_sightings_concat(
                            areav.wheel_files.take(i as int),
                            seq![fv],
                            kind,
                            hasher@,
                        );
                        assert(seq![fv].skip(1) =~= Seq::<PointerFileV>::empty());
                        assert(file_sightings(Seq::empty(), kind, hasher@)
                            =~= Seq::<WheelV>::empty());
                    }
                    let f = &area.wheel_files[i];
                    let kind_ok = match (index.kind, f.kind) {
                        (IndexKind::Remote, PointerKind::Http) => true,
                        (IndexKind::Local, PointerKind::LocalRev) => true,
                        _ => false,
                    };
                    proof {
                        assert(kind_ok == kind_matches(kind, fv.kind));
                    }
                    let mut admitted = false;
                    let ghost mut wv_admitted: WheelV = arbitrary();
                    if kind_ok {
                        if let Some(wheel) = &f.record {
                            proof {
                                assert(fv.record == Some(wheel@));
                            }
                            let required = hasher.get_package(
                                &wheel.filename.name,
                                wheel.filename.version,
                            );
                            if satisfies(&required, &wheel.hashes) {
                                let w = wheel.clone();
                                admitted = true;
                                proof {
                                    wv_admitted = w@;
                                }
                                w.add_wheel(tags, &mut versions);
                            }
                        }
                    }
                    proof {
                        if admitted {
                            assert(file_sightings(seq![fv], kind, hasher@) =~= seq![wv_admitted]);
                            lemma_fold_add_concat(Seq::empty(), pre, seq![wv_admitted], tags@);
                            lemma_fold_add_singleton(m_pre, wv_admitted, tags@);
                            assert(file_sightings(areav.wheel_files.take(i + 1), kind, hasher@)
                                =~= pre + seq![wv_admitted]);
                        } else {
                            assert(file_sightings(seq![fv], kind, hasher@)
                                =~= Seq::<WheelV>::empty());
                            assert(pre + Seq::<WheelV>::empty() =~= pre);
                            assert(file_sightings(areav.wheel_files.take(i + 1), kind, hasher@)
                                =~= pre);
                        }
                    }
                    i = i + 1;
                }
                proof {
                    assert(areav.wheel_files.take(areav.wheel_files.len() as int)
                        =~= areav.wheel_files);
                }
                // The build-output area: one shard per resolved revision of
                // the source distribution.
                let mut s: usize = 0;
                proof {
                    assert(areav.build_shards.take(0) =~= Seq::<BuildShardV>::empty());
                    assert(shard_sightings(Seq::empty(), kind, hasher@) =~= Seq::<WheelV>::empty());
                    assert(fs_all + Seq::<WheelV>::empty() =~= fs_all);
                }
                while s < area.build_shards.len()
                    invariant
                        s <= area.build_shards.len(),
                        area@ == areav,
                        kind == index@.kind,
                        fs_all == file_sightings(areav.wheel_files, kind, hasher@),
                        sorted_unique(vmap_view(versions@)),
                        vmap_view(versions@) == fold_add(
                            Seq::empty(),
                            fs_all + shard_sightings(
                                areav.build_shards.take(s as int),
                                kind,
                                hasher@,
                            ),
                            tags@,
                        ),
                    decreases area.build_shards.len() - s,
                {
                    let ghost m_start = vmap_view(versions@);
                    let ghost seen = fs_all + shard_sightings(
                        areav.build_shards.take(s as int),
                        kind,
                        hasher@,
                    );
                    let ghost sv = areav.build_shards[s as int];
                    proof {
                        assert(sv == area.build_shards@[s as int]@);
                        assert(areav.build_shards.take(s + 1) =~= areav.build_shards.take(s as int)
                            + seq![sv]);
                        lemma_shard_sightings_concat(
                            areav.build_shards.take(s as int),
                            seq![sv],
                            kind,
                            hasher@,
                        );
                        assert(seq![sv].skip(1) =~= Seq::<BuildShardV>::empty());
                        assert(shard_sightings(Seq::empty(), kind, hasher@)
                            =~= Seq::<WheelV>::empty());
                    }
                    let shard = &area.build_shards[s];
                    let revision_opt = match index.kind {
                        IndexKind::Remote => &shard.http_revision,
                        IndexKind::Local => &shard.local_revision,
                    };
                    let ghost block: Seq<WheelV> = match shard_revision(sv, kind) {
                        Some(rev) => rev_sightings(rev.outputs, rev.digests, hasher@),
                        None => Seq::empty(),
                    };
                    proof {
                        assert(shard_sightings(seq![sv], kind, hasher@) =~= block
                            + Seq::<WheelV>::empty());
                        assert(block + Seq::<WheelV>::empty() =~= block);
                    }
                    if let Some(revision) = revision_opt {
                        let ghost revv = revision@;
                        proof {
                            assert(shard_revision(sv, kind) == Some(revv));
                        }
                        let mut j: usize = 0;
                        proof {
                            assert(revv.outputs.take(0) =~= Seq::<Option<WheelV>>::empty());
                            assert(rev_sightings(Seq::empty(), revv.digests, hasher@)
                                =~= Seq::<WheelV>::empty());
                            assert(fold_add(m_start, Seq::<WheelV>::empty(), tags@) == m_start);
                        }
                        while j < revision.outputs.len()
                            invariant
                                j <= revision.outputs.len(),
                                revv == revision@,
                                kind == index@.kind,
                                sorted_unique(vmap_view(versions@)),
                                vmap_view(versions@) == fold_add(
                                    m_start,
                                    rev_sightings(
                                        revv.outputs.take(j as int),
                                        revv.digests,
                                        hasher@,
                                    ),
                                    tags@,
                                ),
                            decreases revision.outputs.len() - j,
                        {
                            let ghost m_pre = vmap_view(versions@);
                            let ghost pre = rev_sightings(
                                revv.outputs.take(j as int),
                                revv.digests,
                                hasher@,
                            );
                            let ghost ov = revv.outputs[j as int];
                            proof {
                                assert(ov == crate::cache::opt_wheel_view(
                                    revision.outputs@[j as int],
                                ));
                                assert(revv.outputs.take(j + 1) =~= revv.outputs.take(j as int)
                                    + seq![ov]);
                                lemma_rev_sightings_concat(
                                    revv.outputs.take(j as int),
                                    seq![ov],
                                    revv.digests,
                                    hasher@,
                                );
                                assert(seq![ov].skip(1) =~= Seq::<Option<WheelV>>::empty());
                                assert(rev_sightings(
                                    Seq::<Option<WheelV>>::empty(),
                                    revv.digests,
                                    hasher@,
                                ) =~= Seq::<WheelV>::empty());
                            }
                            let mut admitted = false;
                            let ghost mut wv_admitted: WheelV = arbitrary();
                            if let Some(wheel) = &revision.outputs[j] {
                                proof {
                                    assert(ov == Some(wheel@));
                                }
                                let required = hasher.get_package(
                                    &wheel.filename.name,
                                    wheel.filename.version,
                                );
                                if satisfies(&required, &revision.digests) {
                                    let w = wheel.clone();
                                    admitted = true;
                                    proof {
                                        wv_admitted = w@;
                                    }
                                    w.add_wheel(tags, &mut versions);
                                }
                            }
                            proof {
                                if admitted {
                                    assert(rev_sightings(seq![ov], revv.digests, hasher@)
                                        =~= seq![wv_admitted]);
                                    lemma_fold_add_concat(m_start, pre, seq![wv_admitted], tags@);
                                    lemma_fold_add_singleton(m_pre, wv_admitted, tags@);
                                    assert(rev_sightings(
                                        revv.outputs.take(j + 1),
                                        revv.digests,
                                        hasher@,
                                    ) =~= pre + seq![wv_admitted]);
                                } else {
                                    assert(rev_sightings(seq![ov], revv.digests, hasher@)
                                        =~= Seq::<WheelV>::empty());
                                    assert(pre + Seq::<WheelV>::empty() =~= pre);
                                    assert(rev_sightings(
                                        revv.outputs.take(j + 1),
                                        revv.digests,
                                        hasher@,
                                    ) =~= pre);
                                }
                            }
                            j = j + 1;
                        }
                        proof {
                            assert(revv.outputs.take(revv.outputs.len() as int) =~= revv.outputs);
                            lemma_fold_add_concat(Seq::empty(), seen, block, tags@);
                            assert(seen + block =~= fs_all + shard_sightings(
                                areav.build_shards.take(s + 1),
                                kind,
                                hasher@,
                            ));
                        }
                    } else {
                        proof {
                            assert(shard_revision(sv, kind) is None);
                            assert(block =~= Seq::<WheelV>::empty());
                            assert(seen + block =~= seen);
                            assert(seen =~= fs_all + shard_sightings(
                                areav.build_shards.take(s + 1),
                                kind,
                                hasher@,
                            ));
                        }
                    }
                    s = s + 1;
                }
                proof {
                    assert(areav.build_shards.take(areav.build_shards.len() as int)
                        =~= areav.build_shards);
                }
                versions
            },
        }
    }

    /// Populates the whole per-package entry: every configured index in
    /// priority order, the flat sources last.
    fn index(
        package: &PackageName,
        cache: &Cache,
        tags: &Tags,
        index_locations: &IndexLocations,
        hasher: &HashStrategy,
    ) -> (r: Vec<(IndexUrl, Vec<(Version, CachedRegistryDist)>)>)
        ensures
            per_index_view(r@) == index_all_spec(
                cache@,
                all_indexes(index_locations@),
                package@,
                tags@,
                hasher@,
            ),
    {
        let all = index_locations.allowed_indexes();
        let ghost allv = index_views(all@);
        proof {
            assert(allv =~= all_indexes(index_locations@));
        }
        // Drop later repetitions of a configured source, as a map keyed by
        // index identity would: the first occurrence wins.
        let mut uniq: Vec<IndexUrl> = Vec::new();
        let mut i: usize = 0;
        proof {
            assert(allv.take(0) =~= Seq::<IndexUrlV>::empty());
            assert(dedup_indexes(Seq::<IndexUrlV>::empty()) =~= Seq::<IndexUrlV>::empty());
            assert(index_views(uniq@) =~= dedup_indexes(allv.take(0)));
        }
        while i < all.len()
            invariant
                i <= all.len(),
                allv == index_views(all@),
                index_views(uniq@) == dedup_indexes(allv.take(i as int)),
            decreases all.len() - i,
        {
            let ghost uv = index_views(uniq@);
            let mut seen = false;
            let mut j: usize = 0;
            while j < uniq.len()
                invariant
                    j <= uniq.len(),
                    i < all.len(),
                    uv == index_views(uniq@),
                    seen ==> url_in(uv, all@[i as int]@.url),
                    !seen ==> forall|j0: int| 0 <= j0 < j ==> uv[j0].url != all@[i as int]@.url,
                decreases uniq.len() - j,
            {
                proof {
                    assert(uv[j as int] == uniq@[j as int]@);
                }
                if !seen && crate::bytes::bytes_eq(&uniq[j].url, &all[i].url) {
                    seen = true;
                    proof {
                        assert(uv[j as int].url == all@[i as int]@.url);
                    }
                }
                j = j + 1;
            }
            proof {
                assert(allv.take(i + 1).drop_last() =~= allv.take(i as int));
                assert(allv.take(i + 1).last() == allv[i as int]);
                assert(allv[i as int] == all@[i as int]@);
                lemma_dedup_urls(allv.take(i as int), allv[i as int].url);
                if !seen {
                    assert(!url_in(uv, all@[i as int]@.url));
                }
            }
            if !seen {
                let iu = all[i].clone();
                let ghost uniq0 = index_views(uniq@);
                let ghost iuv = iu@;
                uniq.push(iu);
                proof {
                    assert(index_views(uniq@) =~= uniq0.push(iuv));
                    assert(iuv == allv[i as int]);
                    assert(index_views(uniq@) =~= dedup_indexes(allv.take(i + 1)));
                }
            } else {
                proof {
                    assert(index_views(uniq@) =~= dedup_indexes(allv.take(i + 1)));
                }
            }
            i = i + 1;
        }
        proof {
            assert(allv.take(allv.len() as int) =~= allv);
        }
        let ghost spec_all = index_all_spec(
            cache@,
            all_indexes(index_locations@),
            package@,
            tags@,
            hasher@,
        );
        let ghost ds = dedup_indexes(all_indexes(index_locations@));
        proof {
            assert(ds == index_views(uniq@));
            assert(spec_all.len() == ds.len());
        }
        let mut map: Vec<(IndexUrl, Vec<(Version, CachedRegistryDist)>)> = Vec::new();
        let mut k: usize = 0;
        proof {
            assert(per_index_view(map@) =~= spec_all.take(0));
        }
        while k < uniq.len()
            invariant
                k <= uniq.len(),
                map@.len() == k,
                ds == index_views(uniq@),
                ds == dedup_indexes(all_indexes(index_locations@)),
                spec_all == index_all_spec(
                    cache@,
                    all_indexes(index_locations@),
                    package@,
                    tags@,
                    hasher@,
                ),
                per_index_view(map@) == spec_all.take(k as int),
            decreases uniq.len() - k,
        {
            let versions = Self::index_one(&uniq[k], package, cache, tags, hasher);
            let iu = uniq[k].clone();
            let ghost map0 = map@;
            let ghost iuv = iu@;
            let ghost versv = versions@;
            map.push((iu, versions));
            proof {
                assert(ds[k as int] == uniq@[k as int]@);
                assert(vmap_view(versv) == index_one_spec(
                    cache@,
                    ds[k as int],
                    package@,
                    tags@,
                    hasher@,
                ));
                assert(spec_all[k as int] == (
                    ds[k as int],
                    index_one_spec(cache@, ds[k as int], package@, tags@, hasher@),
                ));
                assert forall|q: int| 0 <= q < k + 1 implies per_index_view(map@)[q]
                    == spec_all.take(k + 1)[q] by {
                    if q < k {
                        assert(map@[q] == map0[q]);
                        assert(per_index_view(map@)[q] == per_index_view(map0)[q]);
                        assert(per_index_view(map0)[q] == spec_all.take(k as int)[q]);
                    } else {
                        assert(map@[q].0@ == iuv);
                        assert(map@[q].1@ == versv);
                        assert(per_index_view(map@)[q] == (iuv, vmap_view(versv)));
                    }
                }
                assert(per_index_view(map@) =~= spec_all.take(k + 1));
            }
            k = k + 1;
        }
        proof {
            assert(spec_all.take(spec_all.len() as int) =~= spec_all);
        }
        map
    }

    /// Gets the memoized entry of a package, populating it on first request.
    fn get_impl(&mut self, name: &PackageName) -> (pos: usize)
        requires
            old(self).wf(),
        ensures
            final(self).wf(),
            final(self).cache@ == old(self).cache@,
            final(self).tags@ == old(self).tags@,
            final(self).index_locations@ == old(self).index_locations@,
            final(self).hasher@ == old(self).hasher@,
            pos < final(self).index@.len(),
            final(self).index@[pos as int].0@ == name@,
            memo_has(old(self).index@, name@) ==> final(self).index@ == old(self).index@,
            !memo_has(old(self).index@, name@) ==> pos == old(self).index@.len()
                && final(self).index@ == old(self).index@.push(
                final(self).index@[pos as int],
            ),
    {
        let mut k: usize = 0;
        while k < self.index.len()
            invariant
                k <= self.index.len(),
                *self == *old(self),
                old(self).wf(),
                forall|j: int| 0 <= j < k ==> (#[trigger] self.index@[j]).0@ != name@,
            decreases self.index.len() - k,
        {
            if self.index[k].0.eq_name(name) {
                proof {
                    assert(memo_has(old(self).index@, name@));
                }
                return k;
            }
            k = k + 1;
        }
        proof {
            assert(!memo_has(self.index@, name@));
        }
        let computed = Self::index(name, &self.cache, &self.tags, &self.index_locations,
            &self.hasher);
        self.index.push((name.clone(), computed));
        proof {
            let n = self.index@.len() - 1;
            assert(self.index@ == old(self).index@.push(self.index@[n]));
            assert forall|k: int| 0 <= k < self.index@.len() implies #[trigger] per_index_view(
                self.index@[k].1@,
            ) == index_all_spec(
                self.cache@,
                all_indexes(self.index_locations@),
                self.index@[k].0@,
                self.tags@,
                self.hasher@,
            ) by {
                if k < n {
                    assert(self.index@[k] == old(self).index@[k]);
                } else {
                    assert(self.index@[k].1@ == computed@);
                    assert(self.index@[k].0@ == name@);
                }
            }
        }
        self.index.len() - 1
    }

    /// Return the available wheels for a given package, as (index, version,
    /// candidate) triples: indexes in configured priority order, versions
    /// ascending within an index.
    ///
    /// If the package is not yet indexed, this indexes it by reading from
    /// the cache snapshot; the entry is then permanent. The result is a
    /// function of the fixed configuration and the name alone, so repeated
    /// calls return the same triples in the same order.
    pub fn get(&mut self, name: &PackageName) -> (r: Vec<(IndexUrl, Version, CachedRegistryDist)>)
        requires
            old(self).wf(),
        ensures
            final(self).wf(),
            final(self).cache@ == old(self).cache@,
            final(self).tags@ == old(self).tags@,
            final(self).index_locations@ == old(self).index_locations@,
            final(self).hasher@ == old(self).hasher@,
            memo_has(old(self).index@, name@) ==> final(self).index@ == old(self).index@,
            !memo_has(old(self).index@, name@) ==> final(self).index@ == old(self).index@.push(
                final(self).index@.last(),
            ),
            triple_view(r@) == triples(
                index_all_spec(
                    old(self).cache@,
                    all_indexes(old(self).index_locations@),
                    name@,
                    old(self).tags@,
                    old(self).hasher@,
                ),
            ),
    {
        let pos = self.get_impl(name);
        proof {
            if !memo_has(old(self).index@, name@) {
                assert(self.index@[pos as int] == self.index@.last());
            }
        }
        let entry = &self.index[pos].1;
        let ghost perv = per_index_view(entry@);
        proof {
            assert(perv == index_all_spec(
                self.cache@,
                all_indexes(self.index_locations@),
                name@,
                self.tags@,
                self.hasher@,
            ));
        }
        let mut out: Vec<(IndexUrl, Version, CachedRegistryDist)> = Vec::new();
        let mut i: usize = 0;
        proof {
            assert(perv.take(0) =~= Seq::<(IndexUrlV, Seq<(Version, WheelV)>)>::empty());
            assert(triple_view(out@) =~= Seq::<(IndexUrlV, Version, WheelV)>::empty());
            assert(triples(perv.take(0)) =~= Seq::<(IndexUrlV, Version, WheelV)>::empty());
        }
        while i < entry.len()
            invariant
                i <= entry.len(),
                perv == per_index_view(entry@),
                triple_view(out@) == triples(perv.take(i as int)),
            decreases entry.len() - i,
        {
            let ghost ev = perv[i as int];
            let mut j: usize = 0;
            proof {
                assert(row_triples(ev).take(0) =~= Seq::<(IndexUrlV, Version, WheelV)>::empty());
                assert(triple_view(out@) =~= triples(perv.take(i as int)) + row_triples(ev).take(
                    0,
                ));
            }
            while j < entry[i].1.len()
                invariant
                    i < entry.len(),
                    j <= entry[i as int].1.len(),
                    perv == per_index_view(entry@),
                    ev == perv[i as int],
                    triple_view(out@) == triples(perv.take(i as int)) + row_triples(ev).take(
                        j as int,
                    ),
                decreases entry[i as int].1.len() - j,
            {
                let iu = entry[i].0.clone();
                let v = entry[i].1[j].0;
                let d = entry[i].1[j].1.clone();
                let ghost out0 = out@;
                let ghost pushedv = (iu@, v, d@);
                out.push((iu, v, d));
                proof {
                    let t0 = triples(perv.take(i as int));
                    let row1 = row_triples(ev).take(j + 1);
                    assert(ev.0 == entry@[i as int].0@);
                    assert(row_triples(ev)[j as int] == (ev.0, ev.1[j as int].0, ev.1[j as int].1));
                    assert(ev.1[j as int] == (entry@[i as int].1@[j as int].0,
                        entry@[i as int].1@[j as int].1@));
                    assert(pushedv == (ev.0, ev.1[j as int].0, ev.1[j as int].1));
                    assert(out@.len() == out0.len() + 1);
                    assert(ev.1 == vmap_view(entry@[i as int].1@));
                    assert(ev.1.len() == entry@[i as int].1@.len());
                    assert(row_triples(ev).len() == ev.1.len());
                    assert(row_triples(ev).take(j as int).len() == j);
                    assert(triple_view(out0).len() == t0.len() + j);
                    assert(triple_view(out@).len() == t0.len() + j + 1);
                    assert forall|k: int| 0 <= k < triple_view(out@).len() implies triple_view(
                        out@,
                    )[k] == (t0 + row1)[k] by {
                        if k < t0.len() + j {
                            assert(out@[k] == out0[k]);
                            assert(triple_view(out@)[k] == triple_view(out0)[k]);
                            assert(triple_view(out0)[k] == (t0 + row_triples(ev).take(
                                j as int,
                            ))[k]);
                            if k >= t0.len() {
                                assert((t0 + row_triples(ev).take(j as int))[k]
                                    == row_triples(ev)[k - t0.len()]);
                                assert((t0 + row1)[k] == row_triples(ev)[k - t0.len()]);
                            }
                        } else {
                            assert(triple_view(out@)[k] == (out@[k].0@, out@[k].1, out@[k].2@));
                            assert((out@[k].0@, out@[k].1, out@[k].2@) == pushedv);
                            assert((t0 + row1)[k] == row_triples(ev)[j as int]);
                        }
                    }
                    assert(triple_view(out@) =~= t0 + row1);
                }
                j = j + 1;
            }
            proof {
                assert(row_triples(ev).take(row_triples(ev).len() as int) =~= row_triples(ev));
                assert(perv.take(i + 1) =~= perv.take(i as int) + seq![ev]);
                lemma_triples_concat(perv.take(i as int), seq![ev]);
                assert(seq![ev].skip(1) =~= Seq::<(IndexUrlV, Seq<(Version, WheelV)>)>::empty());
                assert(seq![ev][0] == ev);
                assert(triples(Seq::<(IndexUrlV, Seq<(Version, WheelV)>)>::empty())
                    =~= Seq::<(IndexUrlV, Version, WheelV)>::empty());
                assert(triples(seq![ev]) =~= row_triples(ev));
                assert(triple_view(out@) =~= triples(perv.take(i + 1)));
            }
            i = i + 1;
        }
        proof {
            assert(perv.take(perv.len() as int) =~= perv);
        }
        out
    }
}

// ------------------------------------------------------------------
// The laws of population.
// ------------------------------------------------------------------

/// Every retained candidate is at least minimally compatible.
pub open spec fn all_compatible(m: Seq<(Version, WheelV)>, ts: Seq<(u64, u64)>) -> bool {
    forall|k: int| 0 <= k < m.len() ==> wheel_rank(ts, (#[trigger] m[k]).1.filename.tags) is Some
}

/// Every retained candidate is stored under its own version.
pub open spec fn keyed(m: Seq<(Version, WheelV)>) -> bool {
    forall|k: int| 0 <= k < m.len() ==> (#[trigger] m[k]).0 == m[k].1.filename.version
}

pub proof fn lemma_add_wheel_compatible(m: Seq<(Version, WheelV)>, w: WheelV, ts: Seq<(u64, u64)>)
    requires
        all_compatible(m, ts),
    ensures
        all_compatible(add_wheel_spec(m, w, ts), ts),
        keyed(m) ==> keyed(add_wheel_spec(m, w, ts)),
{
    lemma_find_pos_bounds(m, w.filename.version);
    let m2 = add_wheel_spec(m, w, ts);
    let i = find_pos(m, w.filename.version);
    let r = wheel_rank(ts, w.filename.tags);
    if i < m.len() && m[i].0 == w.filename.version {
        if opt_gt(r, wheel_rank(ts, m[i].1.filename.tags)) {
            assert forall|k: int| 0 <= k < m2.len() implies wheel_rank(
                ts,
                (#[trigger] m2[k]).1.filename.tags,
            ) is Some by {
                if k != i {
                    assert(m2[k] == m[k]);
                }
            }
            if keyed(m) {
                assert forall|k: int| 0 <= k < m2.len() implies (#[trigger] m2[k]).0
                    == m2[k].1.filename.version by {
                    if k != i {
                        assert(m2[k] == m[k]);
                    }
                }
            }
        }
    } else if r is Some {
        assert forall|k: int| 0 <= k < m2.len() implies wheel_rank(
            ts,
            (#[trigger] m2[k]).1.filename.tags,
        ) is Some by {
            if k < i {
                assert(m2[k] == m[k]);
            } else if k > i {
                assert(m2[k] == m[k - 1]);
            }
        }
        if keyed(m) {
            assert forall|k: int| 0 <= k < m2.len() implies (#[trigger] m2[k]).0
                == m2[k].1.filename.version by {
                if k < i {
                    assert(m2[k] == m[k]);
                } else if k > i {
                    assert(m2[k] == m[k - 1]);
                }
            }
        }
    }
}

pub proof fn lemma_fold_add_compatible(
    m0: Seq<(Version, WheelV)>,
    ws: Seq<WheelV>,
    ts: Seq<(u64, u64)>,
)
    requires
        all_compatible(m0, ts),
    ensures
        all_compatible(fold_add(m0, ws, ts), ts),
        keyed(m0) ==> keyed(fold_add(m0, ws, ts)),
    decreases ws.len(),
{
    if ws.len() > 0 {
        lemma_add_wheel_compatible(m0, ws[0], ts);
        lemma_fold_add_compatible(add_wheel_spec(m0, ws[0], ts), ws.skip(1), ts);
    }
}

/// Compatibility admission: a candidate with an incompatible tag signature
/// for the active tag set never appears in a populated entry, whatever the
/// cache holds.
pub proof fn lemma_compatibility_admission(
    c: Seq<PackageAreaV>,
    idx: IndexUrlV,
    package: Seq<u8>,
    ts: Seq<(u64, u64)>,
    h: Seq<HashEntryV>,
)
    ensures
        all_compatible(index_one_spec(c, idx, package, ts, h), ts),
        keyed(index_one_spec(c, idx, package, ts, h)),
        sorted_unique(index_one_spec(c, idx, package, ts, h)),
{
    let ws = package_sightings(area_of(c, idx.url, package), idx.kind, h);
    assert(all_compatible(Seq::empty(), ts));
    assert(keyed(Seq::<(Version, WheelV)>::empty()));
    assert(sorted_unique(Seq::<(Version, WheelV)>::empty()));
    lemma_fold_add_compatible(Seq::empty(), ws, ts);
    lemma_fold_add_sorted(Seq::empty(), ws, ts);
}

/// The candidate a populated entry retains for version `v`, if any.
pub open spec fn lookup_version(m: Seq<(Version, WheelV)>, v: Version) -> Option<WheelV>
    decreases m.len(),
{
    if m.len() == 0 {
        None
    } else if m[0].0 == v {
        Some(m[0].1)
    } else {
        lookup_version(m.skip(1), v)
    }
}

/// The ranking of a retained candidate, incompatible when absent.
pub open spec fn rank_of_lookup(ts: Seq<(u64, u64)>, o: Option<WheelV>) -> Option<u64> {
    match o {
        None => None,
        Some(e) => wheel_rank(ts, e.filename.tags),
    }
}

pub proof fn lemma_lookup_none(m: Seq<(Version, WheelV)>, v: Version)
    requires
        forall|k: int| 0 <= k < m.len() ==> (#[trigger] m[k]).0.0 != v.0,
    ensures
        lookup_version(m, v) is None,
    decreases m.len(),
{
    if m.len() > 0 {
        assert forall|k: int| 0 <= k < m.skip(1).len() implies (#[trigger] m.skip(1)[k]).0.0
            != v.0 by {
            assert(m.skip(1)[k] == m[k + 1]);
        }
        lemma_lookup_none(m.skip(1), v);
    }
}

/// In a sorted map, lookup reads exactly the `find_pos` position.
pub proof fn lemma_lookup_at_pos(m: Seq<(Version, WheelV)>, v: Version)
    requires
        sorted_unique(m),
    ensures
        lookup_version(m, v) == ({
            let i = find_pos(m, v);
            if i < m.len() && m[i].0 == v {
                Some(m[i].1)
            } else {
                None
            }
        }),
    decreases m.len(),
{
    lemma_find_pos_bounds(m, v);
    if m.len() > 0 {
        if m[0].0.0 >= v.0 {
            if m[0].0 != v {
                assert forall|k: int| 0 <= k < m.len() implies (#[trigger] m[k]).0.0 != v.0 by {
                    if k > 0 {
                        assert(m[0].0.0 < m[k].0.0);
                    }
                }
                lemma_lookup_none(m, v);
            }
        } else {
            assert forall|p: int, q: int| 0 <= p < q < m.skip(1).len() implies m.skip(1)[p].0.0
                < m.skip(1)[q].0.0 by {
                assert(m.skip(1)[p] == m[p + 1]);
                assert(m.skip(1)[q] == m[q + 1]);
            }
            lemma_lookup_at_pos(m.skip(1), v);
            let i = find_pos(m, v);
            assert(find_pos(m.skip(1), v) == i - 1);
            if i < m.len() {
                assert(m.skip(1)[i - 1] == m[i]);
            }
        }
    }
}

/// How one admission changes what is retained for each version `v`.
pub proof fn lemma_add_wheel_lookup(
    m: Seq<(Version, WheelV)>,
    w: WheelV,
    ts: Seq<(u64, u64)>,
    v: Version,
)
    requires
        sorted_unique(m),
    ensures
        v == w.filename.version ==> lookup_version(add_wheel_spec(m, w, ts), v) == (if opt_gt(
            wheel_rank(ts, w.filename.tags),
            rank_of_lookup(ts, lookup_version(m, v)),
        ) {
            Some(w)
        } else {
            lookup_version(m, v)
        }),
        v != w.filename.version ==> lookup_version(add_wheel_spec(m, w, ts), v)
            == lookup_version(m, v),
{
    lemma_find_pos_bounds(m, w.filename.version);
    lemma_find_pos_bounds(m, v);
    lemma_lookup_at_pos(m, v);
    lemma_add_wheel_sorted(m, w, ts);
    let m2 = add_wheel_spec(m, w, ts);
    let i = find_pos(m, w.filename.version);
    let p = find_pos(m, v);
    let r = wheel_rank(ts, w.filename.tags);
    if i < m.len() && m[i].0 == w.filename.version {
        if opt_gt(r, wheel_rank(ts, m[i].1.filename.tags)) {
            // Replacement at position i; every key is unchanged.
            assert forall|j: int| 0 <= j < p implies m2[j].0.0 < v.0 by {
                assert(m2[j].0 == m[j].0);
            }
            if p < m.len() {
                assert(m2[p].0 == m[p].0);
            }
            lemma_find_pos_is(m2, v, p);
            lemma_lookup_at_pos(m2, v);
            if v == w.filename.version {
                assert(p == i) by {
                    lemma_find_pos_is(m, v, i);
                }
            } else {
                if p < m.len() && m[p].0 == v {
                    assert(p != i);
                    assert(m2[p].1 == m[p].1);
                }
            }
        }
    } else if r is Some {
        // Insertion at position i.
        lemma_lookup_at_pos(m2, v);
        if v == w.filename.version {
            assert(lookup_version(m, v) is None) by {
                if p < m.len() {
                    assert(m[p].0 != v);
                }
            }
            lemma_find_pos_is(m2, v, i);
            assert(m2[i] == (w.filename.version, w));
        } else {
            if p < i {
                assert forall|j: int| 0 <= j < p implies m2[j].0.0 < v.0 by {
                    assert(m2[j] == m[j]);
                }
                assert(m2[p] == m[p]);
                lemma_find_pos_is(m2, v, p);
            } else {
                // p >= i: v sorts at or after the inserted position.
                if v.0 < w.filename.version.0 {
                    assert(p <= i) by {
                        if p > i {
                            if i < m.len() {
                                assert(m[i].0.0 < v.0);
                            }
                        }
                    }
                    assert(p == i);
                    assert forall|j: int| 0 <= j < i implies m2[j].0.0 < v.0 by {
                        assert(m2[j] == m[j]);
                    }
                    assert(m2[i].0.0 >= v.0);
                    lemma_find_pos_is(m2, v, i);
                    assert(m2[i].0 != v);
                    if p < m.len() {
                        assert(m[p].0 != v);
                    }
                } else {
                    assert(v.0 > w.filename.version.0);
                    assert forall|j: int| 0 <= j < p + 1 implies m2[j].0.0 < v.0 by {
                        if j < i {
                            assert(m2[j] == m[j]);
                        } else if j > i {
                            assert(m2[j] == m[j - 1]);
                        }
                    }
                    if p + 1 < m2.len() {
                        assert(m2[p + 1] == m[p]);
                    }
                    lemma_find_pos_is(m2, v, p + 1);
                    if p < m.len() {
                        assert(m2[p + 1] == m[p]);
                    }
                }
            }
        }
    }
}

/// Best-of-version: after admitting a whole sighting stream, what is
/// retained for version `v` is itself one of the sightings of `v`, and no
/// sighting of `v` ranks strictly above it. In particular, with at least
/// two sightings of one version, the retained candidate ranks at least as
/// high as every other, and a strictly highest-ranked sighting is retained.
pub proof fn lemma_fold_best(ws: Seq<WheelV>, ts: Seq<(u64, u64)>, v: Version)
    ensures
        lookup_version(fold_add(Seq::empty(), ws, ts), v) matches Some(e) ==> e.filename.version
            == v && exists|k: int| 0 <= k < ws.len() && ws[k] == e,
        forall|k: int| 0 <= k < ws.len() && (#[trigger] ws[k]).filename.version == v ==> !opt_gt(
            wheel_rank(ts, ws[k].filename.tags),
            rank_of_lookup(ts, lookup_version(fold_add(Seq::empty(), ws, ts), v)),
        ),
    decreases ws.len(),
{
    if ws.len() == 0 {
    } else {
        let ws0 = ws.drop_last();
        let w = ws.last();
        assert(ws =~= ws0 + seq![w]);
        lemma_fold_add_concat(Seq::empty(), ws0, seq![w], ts);
        let m1 = fold_add(Seq::empty(), ws0, ts);
        lemma_fold_add_singleton(m1, w, ts);
        assert(fold_add(Seq::empty(), ws, ts) == add_wheel_spec(m1, w, ts));
        assert(sorted_unique(Seq::<(Version, WheelV)>::empty()));
        assert(keyed(Seq::<(Version, WheelV)>::empty()));
        assert(all_compatible(Seq::<(Version, WheelV)>::empty(), ts));
        lemma_fold_add_sorted(Seq::empty(), ws0, ts);
        lemma_fold_add_compatible(Seq::empty(), ws0, ts);
        lemma_fold_best(ws0, ts, v);
        lemma_add_wheel_lookup(m1, w, ts, v);
        let m2 = add_wheel_spec(m1, w, ts);
        assert forall|k: int| 0 <= k < ws.len() && (#[trigger] ws[k]).filename.version == v
            implies !opt_gt(
            wheel_rank(ts, ws[k].filename.tags),
            rank_of_lookup(ts, lookup_version(m2, v)),
        ) by {
            if k < ws0.len() {
                assert(ws0[k] == ws[k]);
            }
        }
        match lookup_version(m2, v) {
            Some(e) => {
                if lookup_version(m1, v) == Some(e) {
                    let k = choose|k: int| 0 <= k < ws0.len() && ws0[k] == e;
                    assert(ws[k] == e);
                } else {
                    assert(e == w);
                    assert(ws[ws.len() - 1] == e);
                }
            },
            None => {},
        }
    }
}

/// Best-of-version at the level of one populated (index, package) entry.
pub proof fn lemma_best_of_version(
    c: Seq<PackageAreaV>,
    idx: IndexUrlV,
    package: Seq<u8>,
    ts: Seq<(u64, u64)>,
    h: Seq<HashEntryV>,
    v: Version,
)
    ensures
        ({
            let ws = package_sightings(area_of(c, idx.url, package), idx.kind, h);
            let m = index_one_spec(c, idx, package, ts, h);
            &&& (lookup_version(m, v) matches Some(e) ==> e.filename.version == v && exists|k: int|
                0 <= k < ws.len() && ws[k] == e)
            &&& forall|k: int| 0 <= k < ws.len() && (#[trigger] ws[k]).filename.version == v
                ==> !opt_gt(
                wheel_rank(ts, ws[k].filename.tags),
                rank_of_lookup(ts, lookup_version(m, v)),
            )
        }),
{
    let ws = package_sightings(area_of(c, idx.url, package), idx.kind, h);
    lemma_fold_best(ws, ts, v);
}

/// Hash gating, direct downloads: every sighting from the wheel area passed
/// the policy on its own fingerprints.
pub proof fn lemma_file_sightings_hash_gated(
    files: Seq<PointerFileV>,
    kind: IndexKind,
    h: Seq<HashEntryV>,
)
    ensures
        forall|k: int| 0 <= k < file_sightings(files, kind, h).len() ==> hash_ok(
            h,
            (#[trigger] file_sightings(files, kind, h)[k]).filename.name,
            file_sightings(files, kind, h)[k].filename.version,
            file_sightings(files, kind, h)[k].hashes,
        ),
    decreases files.len(),
{
    if files.len() > 0 {
        lemma_file_sightings_hash_gated(files.skip(1), kind, h);
        let rest = file_sightings(files.skip(1), kind, h);
        assert forall|k: int| 0 <= k < file_sightings(files, kind, h).len() implies hash_ok(
            h,
            (#[trigger] file_sightings(files, kind, h)[k]).filename.name,
            file_sightings(files, kind, h)[k].filename.version,
            file_sightings(files, kind, h)[k].hashes,
        ) by {
            match files[0].record {
                Some(w) => if kind_matches(kind, files[0].kind) && hash_ok(
                    h,
                    w.filename.name,
                    w.filename.version,
                    w.hashes,
                ) {
                    if k > 0 {
                        assert(file_sightings(files, kind, h)[k] == rest[k - 1]);
                    }
                } else {
                    assert(file_sightings(files, kind, h)[k] == rest[k]);
                },
                None => {
                    assert(file_sightings(files, kind, h)[k] == rest[k]);
                },
            }
        }
    }
}

/// Hash gating, built wheels: every sighting among a revision's outputs
/// passed the policy on the revision's fingerprints — the build output
/// inherits the trust of its source.
pub proof fn lemma_rev_sightings_hash_gated(
    outputs: Seq<Option<WheelV>>,
    digests: Seq<u64>,
    h: Seq<HashEntryV>,
)
    ensures
        forall|k: int| 0 <= k < rev_sightings(outputs, digests, h).len() ==> hash_ok(
            h,
            (#[trigger] rev_sightings(outputs, digests, h)[k]).filename.name,
            rev_sightings(outputs, digests, h)[k].filename.version,
            digests,
        ),
    decreases outputs.len(),
{
    if outputs.len() > 0 {
        lemma_rev_sightings_hash_gated(outputs.skip(1), digests, h);
        let rest = rev_sightings(outputs.skip(1), digests, h);
        assert forall|k: int| 0 <= k < rev_sightings(outputs, digests, h).len() implies hash_ok(
            h,
            (#[trigger] rev_sightings(outputs, digests, h)[k]).filename.name,
            rev_sightings(outputs, digests, h)[k].filename.version,
            digests,
        ) by {
            match outputs[0] {
                Some(w) => if hash_ok(h, w.filename.name, w.filename.version, digests) {
                    if k > 0 {
                        assert(rev_sightings(outputs, digests, h)[k] == rest[k - 1]);
                    }
                } else {
                    assert(rev_sightings(outputs, digests, h)[k] == rest[k]);
                },
                None => {
                    assert(rev_sightings(outputs, digests, h)[k] == rest[k]);
                },
            }
        }
    }
}

/// Hash gating, the build-output area as a whole: every sighting from the
/// shards comes from some shard's revision and passed the policy on that
/// revision's fingerprints.
pub proof fn lemma_shard_sightings_hash_gated(
    shards: Seq<BuildShardV>,
    kind: IndexKind,
    h: Seq<HashEntryV>,
)
    ensures
        forall|k: int| 0 <= k < shard_sightings(shards, kind, h).len() ==> exists|s: int|
            0 <= s < shards.len() && ((#[trigger] shard_revision(shards[s], kind)) matches Some(
                rev,
            ) && hash_ok(
                h,
                (#[trigger] shard_sightings(shards, kind, h)[k]).filename.name,
                shard_sightings(shards, kind, h)[k].filename.version,
                rev.digests,
            )),
    decreases shards.len(),
{
    if shards.len() > 0 {
        lemma_shard_sightings_hash_gated(shards.skip(1), kind, h);
        let rest = shard_sightings(shards.skip(1), kind, h);
        let head: Seq<WheelV> = match shard_revision(shards[0], kind) {
            Some(rev) => rev_sightings(rev.outputs, rev.digests, h),
            None => Seq::empty(),
        };
        match shard_revision(shards[0], kind) {
            Some(rev) => {
                lemma_rev_sightings_hash_gated(rev.outputs, rev.digests, h);
            },
            None => {},
        }
        assert forall|k: int| 0 <= k < shard_sightings(shards, kind, h).len() implies exists|
            s: int,
        |
            0 <= s < shards.len() && ((#[trigger] shard_revision(shards[s], kind)) matches Some(
                rev,
            ) && hash_ok(
                h,
                (#[trigger] shard_sightings(shards, kind, h)[k]).filename.name,
                shard_sightings(shards, kind, h)[k].filename.version,
                rev.digests,
            )) by {
            if k < head.len() {
                assert(shard_sightings(shards, kind, h)[k] == head[k]);
                assert(0 <= 0 < shards.len());
            } else {
                assert(shard_sightings(shards, kind, h)[k] == rest[k - head.len()]);
                let s0 = choose|s: int|
                    0 <= s < shards.skip(1).len() && ((#[trigger] shard_revision(
                        shards.skip(1)[s],
                        kind,
                    )) matches Some(rev) && hash_ok(
                        h,
                        rest[k - head.len()].filename.name,
                        rest[k - head.len()].filename.version,
                        rev.digests,
                    ));
                assert(shards.skip(1)[s0] == shards[s0 + 1]);
            }
        }
    }
}

/// Determinism: the sequence of triples that `get` promises is a function
/// of the cache snapshot, the configured indexes, the tag set, the hash
/// policy and the package name alone — and `get` leaves all of those
/// unchanged. Two results obtained against the same fixed configuration are
/// therefore the same sequence, in the same order, however often and in
/// whatever order the lookups happen.
pub proof fn lemma_get_deterministic(
    c: Seq<PackageAreaV>,
    idxs: Seq<IndexUrlV>,
    package: Seq<u8>,
    ts: Seq<(u64, u64)>,
    h: Seq<HashEntryV>,
    r1: Seq<(IndexUrlV, Version, WheelV)>,
    r2: Seq<(IndexUrlV, Version, WheelV)>,
)
    requires
        r1 == triples(index_all_spec(c, idxs, package, ts, h)),
        r2 == triples(index_all_spec(c, idxs, package, ts, h)),
    ensures
        r1 == r2,
{
}

/// Hash gating: whatever one (index, package) population pass retains for
/// a version is one of the pass's sightings, the sighting stream is the
/// wheel-area sightings followed by the build-area ones, and a wheel-area
/// sighting passed the policy on its own fingerprints. That a build-area
/// sighting passed it on the fingerprints of some shard's revision is
/// `lemma_shard_sightings_hash_gated` above. A candidate whose associated
/// fingerprint set fails the policy is in no sighting stream and so never
/// in the index, however compatible.
pub proof fn lemma_hash_gating(
    c: Seq<PackageAreaV>,
    idx: IndexUrlV,
    package: Seq<u8>,
    ts: Seq<(u64, u64)>,
    h: Seq<HashEntryV>,
    v: Version,
)
    ensures
        ({
            let area = area_of(c, idx.url, package);
            let ws = package_sightings(area, idx.kind, h);
            let fs = file_sightings(area.wheel_files, idx.kind, h);
            let ss = shard_sightings(area.build_shards, idx.kind, h);
            &&& ws == fs + ss
            &&& (lookup_version(index_one_spec(c, idx, package, ts, h), v) matches Some(e)
                ==> exists|k: int| 0 <= k < ws.len() && ws[k] == e)
            &&& forall|k: int| 0 <= k < fs.len() ==> hash_ok(
                h,
                (#[trigger] fs[k]).filename.name,
                fs[k].filename.version,
                fs[k].hashes,
            )
        }),
{
    lemma_fold_best(package_sightings(area_of(c, idx.url, package), idx.kind, h), ts, v);
    lemma_file_sightings_hash_gated(area_of(c, idx.url, package).wheel_files, idx.kind, h);
}

/// Each configured source appears exactly once in a populated entry: the
/// rows are the configured identities with later repetitions dropped, in
/// priority order — a row is present even when its version map is empty —
/// and no two rows share a canonical form.
pub proof fn lemma_indexes_exactly_once(
    c: Seq<PackageAreaV>,
    idxs: Seq<IndexUrlV>,
    package: Seq<u8>,
    ts: Seq<(u64, u64)>,
    h: Seq<HashEntryV>,
)
    ensures
        index_all_spec(c, idxs, package, ts, h).len() == dedup_indexes(idxs).len(),
        forall|i: int| 0 <= i < dedup_indexes(idxs).len() ==> (#[trigger] index_all_spec(
            c,
            idxs,
            package,
            ts,
            h,
        )[i]).0 == dedup_indexes(idxs)[i],
        urls_unique(dedup_indexes(idxs)),
        forall|u: Seq<u8>| url_in(dedup_indexes(idxs), u) == url_in(idxs, u),
{
    lemma_dedup_unique(idxs);
    assert forall|u: Seq<u8>| url_in(dedup_indexes(idxs), u) == url_in(idxs, u) by {
        lemma_dedup_urls(idxs, u);
    }
}

/// Every row of a populated entry is a well-formed version map: versions
/// strictly ascending (each at most once), every candidate compatible and
/// stored under its own version.
pub proof fn lemma_entry_rows_ordered(
    c: Seq<PackageAreaV>,
    idxs: Seq<IndexUrlV>,
    package: Seq<u8>,
    ts: Seq<(u64, u64)>,
    h: Seq<HashEntryV>,
)
    ensures
        forall|i: int| 0 <= i < index_all_spec(c, idxs, package, ts, h).len() ==> {
            let row = (#[trigger] index_all_spec(c, idxs, package, ts, h)[i]).1;
            sorted_unique(row) && all_compatible(row, ts) && keyed(row)
        },
{
    let per = index_all_spec(c, idxs, package, ts, h);
    assert forall|i: int| 0 <= i < per.len() implies {
        let row = (#[trigger] per[i]).1;
        sorted_unique(row) && all_compatible(row, ts) && keyed(row)
    } by {
        lemma_compatibility_admission(c, dedup_indexes(idxs)[i], package, ts, h);
        assert(per[i].1 == index_one_spec(c, dedup_indexes(idxs)[i], package, ts, h));
    }
}

/// Every flattened triple carries the identity of one of the rows.
pub proof fn lemma_triples_url_member(per: Seq<(IndexUrlV, Seq<(Version, WheelV)>)>)
    ensures
        forall|k: int| 0 <= k < triples(per).len() ==> exists|i: int|
            0 <= i < per.len() && (#[trigger] triples(per)[k]).0 == (#[trigger] per[i]).0,
    decreases per.len(),
{
    if per.len() > 0 {
        lemma_triples_url_member(per.skip(1));
        let row = row_triples(per[0]);
        let rest = triples(per.skip(1));
        assert forall|k: int| 0 <= k < triples(per).len() implies exists|i: int|
            0 <= i < per.len() && (#[trigger] triples(per)[k]).0 == (#[trigger] per[i]).0 by {
            if k < row.len() {
                assert(triples(per)[k] == row[k]);
                assert(triples(per)[k].0 == per[0].0);
            } else {
                assert(triples(per)[k] == rest[k - row.len()]);
                let i0 = choose|i: int|
                    0 <= i < per.skip(1).len() && rest[k - row.len()].0 == (#[trigger] per.skip(
                        1,
                    )[i]).0;
                assert(per.skip(1)[i0] == per[i0 + 1]);
            }
        }
    }
}

/// With pairwise distinct row identities and duplicate-free rows, no two
/// flattened triples share an (index, version) pair.
pub proof fn lemma_triples_pairs_unique(per: Seq<(IndexUrlV, Seq<(Version, WheelV)>)>)
    requires
        forall|i: int, j: int| 0 <= i < j < per.len() ==> (#[trigger] per[i]).0.url != (
        #[trigger] per[j]).0.url,
        forall|i: int| 0 <= i < per.len() ==> sorted_unique((#[trigger] per[i]).1),
    ensures
        forall|a: int, b: int| 0 <= a < b < triples(per).len() ==> !((#[trigger] triples(
            per,
        )[a]).0.url == (#[trigger] triples(per)[b]).0.url && triples(per)[a].1 == triples(
            per,
        )[b].1),
    decreases per.len(),
{
    if per.len() > 0 {
        let row = row_triples(per[0]);
        let rest = triples(per.skip(1));
        assert forall|i: int, j: int| 0 <= i < j < per.skip(1).len() implies (#[trigger] per.skip(
            1,
        )[i]).0.url != (#[trigger] per.skip(1)[j]).0.url by {
            assert(per.skip(1)[i] == per[i + 1]);
            assert(per.skip(1)[j] == per[j + 1]);
        }
        assert forall|i: int| 0 <= i < per.skip(1).len() implies sorted_unique(
            (#[trigger] per.skip(1)[i]).1,
        ) by {
            assert(per.skip(1)[i] == per[i + 1]);
        }
        lemma_triples_pairs_unique(per.skip(1));
        lemma_triples_url_member(per.skip(1));
        assert forall|a: int, b: int| 0 <= a < b < triples(per).len() implies !((#[trigger] triples(
            per,
        )[a]).0.url == (#[trigger] triples(per)[b]).0.url && triples(per)[a].1 == triples(
            per,
        )[b].1) by {
            if b < row.len() {
                assert(triples(per)[a] == row[a]);
                assert(triples(per)[b] == row[b]);
                assert(row[a].1 == per[0].1[a].0);
                assert(row[b].1 == per[0].1[b].0);
                assert(per[0].1[a].0.0 < per[0].1[b].0.0);
            } else if a >= row.len() {
                assert(triples(per)[a] == rest[a - row.len()]);
                assert(triples(per)[b] == rest[b - row.len()]);
            } else {
                assert(triples(per)[a] == row[a]);
                assert(row[a].0 == per[0].0);
                assert(triples(per)[b] == rest[b - row.len()]);
                let i0 = choose|i: int|
                    0 <= i < per.skip(1).len() && rest[b - row.len()].0 == (#[trigger] per.skip(
                        1,
                    )[i]).0;
                assert(per.skip(1)[i0] == per[i0 + 1]);
                assert(per[0].0.url != per[i0 + 1].0.url);
            }
        }
    }
}

/// At most one candidate per (package, index, version): in the flattened
/// sequence that `get` promises for a package, no two triples share an
/// (index, version) pair.
pub proof fn lemma_entry_pairs_unique(
    c: Seq<PackageAreaV>,
    idxs: Seq<IndexUrlV>,
    package: Seq<u8>,
    ts: Seq<(u64, u64)>,
    h: Seq<HashEntryV>,
)
    ensures
        ({
            let out = triples(index_all_spec(c, idxs, package, ts, h));
            forall|a: int, b: int| 0 <= a < b < out.len() ==> !((#[trigger] out[a]).0.url == (
            #[trigger] out[b]).0.url && out[a].1 == out[b].1)
        }),
{
    let per = index_all_spec(c, idxs, package, ts, h);
    lemma_indexes_exactly_once(c, idxs, package, ts, h);
    lemma_entry_rows_ordered(c, idxs, package, ts, h);
    assert forall|i: int, j: int| 0 <= i < j < per.len() implies (#[trigger] per[i]).0.url != (
    #[trigger] per[j]).0.url by {
        assert(per[i].0 == dedup_indexes(idxs)[i]);
        assert(per[j].0 == dedup_indexes(idxs)[j]);
    }
    lemma_triples_pairs_unique(per);
}

pub proof fn lemma_triples_concat(
    a: Seq<(IndexUrlV, Seq<(Version, WheelV)>)>,
    b: Seq<(IndexUrlV, Seq<(Version, WheelV)>)>,
)
    ensures
        triples(a + b) == triples(a) + triples(b),
    decreases a.len(),
{
    if a.len() == 0 {
        assert(a + b =~= b);
        assert(triples(a) + triples(b) =~= triples(b));
    } else {
        assert((a + b)[0] == a[0]);
        assert((a + b).skip(1) =~= a.skip(1) + b);
        lemma_triples_concat(a.skip(1), b);
        assert(triples(a + b) =~= triples(a) + triples(b));
    }
}

} // verus!
