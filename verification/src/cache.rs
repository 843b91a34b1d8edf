//! A read-only view of the on-disk cache, as handed over by the storage
//! collaborator.
//!
//! The storage engine owns the physical layout; this core consumes it as
//! data. For each (index, package) pair the snapshot holds the two storage
//! areas that index population scans: the pointer records for wheels taken
//! verbatim from the index, and the build-output shards of source
//! distributions, each with its revision pointer and the wheels built from
//! that revision. A record that was malformed or unreadable on disk appears
//! as `None` and yields no candidate.

use vstd::prelude::*;
use crate::dist::{CachedWheel, IndexUrl, IndexUrlV, WheelV};
use crate::name::PackageName;

verus! {

/// The kind of a pointer record found in the wheel area: a remote-fetch
/// record, or the analogous record format of local path-based sources.
#[derive(Clone, Copy, PartialEq, Eq, Structural, Debug)]
pub enum PointerKind {
    Http,
    LocalRev,
}

/// One pointer record in the wheel area; `record` is `None` when the file
/// did not parse as a cached distribution.
#[derive(Debug)]
pub struct PointerFile {
    pub kind: PointerKind,
    pub record: Option<CachedWheel>,
}

/// The mathematical value of a [`PointerFile`].
#[verifier::ext_equal]
pub struct PointerFileV {
    pub kind: PointerKind,
    pub record: Option<WheelV>,
}

/// The view of an optional cached record.
pub open spec fn opt_wheel_view(o: Option<CachedWheel>) -> Option<WheelV> {
    match o {
        None => None,
        Some(w) => Some(w@),
    }
}

impl View for PointerFile {
    type V = PointerFileV;

    open spec fn view(&self) -> PointerFileV {
        PointerFileV { kind: self.kind, record: opt_wheel_view(self.record) }
    }
}

/// One resolved revision of a source distribution: the fingerprints of the
/// source it was fetched or built from, and the wheels built from it (an
/// output that did not parse appears as `None`).
#[derive(Debug)]
pub struct Revision {
    pub digests: Vec<u64>,
    pub outputs: Vec<Option<CachedWheel>>,
}

/// The mathematical value of a [`Revision`].
#[verifier::ext_equal]
pub struct RevisionV {
    pub digests: Seq<u64>,
    pub outputs: Seq<Option<WheelV>>,
}

impl View for Revision {
    type V = RevisionV;

    open spec fn view(&self) -> RevisionV {
        RevisionV {
            digests: self.digests@,
            outputs: Seq::new(self.outputs@.len(), |i: int| opt_wheel_view(self.outputs@[i])),
        }
    }
}

/// One build-output shard of the source-distribution area. Remote indexes
/// read their revision from one pointer record kind, local path-based
/// indexes from another; a shard carries whichever of the two was readable.
#[derive(Debug)]
pub struct BuildShard {
    pub http_revision: Option<Revision>,
    pub local_revision: Option<Revision>,
}

/// The mathematical value of a [`BuildShard`].
#[verifier::ext_equal]
pub struct BuildShardV {
    pub http_revision: Option<RevisionV>,
    pub local_revision: Option<RevisionV>,
}

/// The view of an optional revision.
pub open spec fn opt_revision_view(o: Option<Revision>) -> Option<RevisionV> {
    match o {
        None => None,
        Some(r) => Some(r@),
    }
}

impl View for BuildShard {
    type V = BuildShardV;

    open spec fn view(&self) -> BuildShardV {
        BuildShardV {
            http_revision: opt_revision_view(self.http_revision),
            local_revision: opt_revision_view(self.local_revision),
        }
    }
}

/// The two storage areas of one (index, package) pair.
#[derive(Debug)]
pub struct PackageArea {
    pub index_url: Vec<u8>,
    pub package: PackageName,
    pub wheel_files: Vec<PointerFile>,
    pub build_shards: Vec<BuildShard>,
}

/// The mathematical value of a [`PackageArea`].
#[verifier::ext_equal]
pub struct PackageAreaV {
    pub index_url: Seq<u8>,
    pub package: Seq<u8>,
    pub wheel_files: Seq<PointerFileV>,
    pub build_shards: Seq<BuildShardV>,
}

impl View for PackageArea {
    type V = PackageAreaV;

    open spec fn view(&self) -> PackageAreaV {
        PackageAreaV {
            index_url: self.index_url@,
            package: self.package@,
            wheel_files: Seq::new(self.wheel_files@.len(), |i: int| self.wheel_files@[i]@),
            build_shards: Seq::new(self.build_shards@.len(), |i: int| self.build_shards@[i]@),
        }
    }
}

/// The whole cache snapshot: the areas of every (index, package) pair that
/// has any cached state. A pair with no area has no cached candidates.
#[derive(Debug)]
pub struct Cache {
    pub areas: Vec<PackageArea>,
}

impl View for Cache {
    type V = Seq<PackageAreaV>;

    open spec fn view(&self) -> Seq<PackageAreaV> {
        Seq::new(self.areas@.len(), |i: int| self.areas@[i]@)
    }
}

/// An area with no cached state.
pub open spec fn empty_area(url: Seq<u8>, package: Seq<u8>) -> PackageAreaV {
    PackageAreaV { index_url: url, package, wheel_files: Seq::empty(), build_shards: Seq::empty() }
}

/// The area of `(url, package)` in the snapshot: the first matching entry,
/// or the empty area.
pub open spec fn area_of(c: Seq<PackageAreaV>, url: Seq<u8>, package: Seq<u8>) -> PackageAreaV
    decreases c.len(),
{
    if c.len() == 0 {
        empty_area(url, package)
    } else if c[0].index_url == url && c[0].package == package {
        c[0]
    } else {
        area_of(c.skip(1), url, package)
    }
}

impl Cache {
    /// Looks the `(url, package)` area up in the snapshot.
    pub fn lookup_area(&self, url: &Vec<u8>, package: &PackageName) -> (r: Option<&PackageArea>)
        ensures
            match r {
                Some(a) => a@ == area_of(self@, url@, package@),
                None => area_of(self@, url@, package@) == empty_area(url@, package@),
            },
    {
        let mut i: usize = 0;
        proof {
            assert(self@.skip(0) =~= self@);
        }
        while i < self.areas.len()
            invariant
                i <= self.areas.len(),
                area_of(self@, url@, package@) == area_of(self@.skip(i as int), url@, package@),
            decreases self.areas.len() - i,
        {
            proof {
                assert(self@.skip(i as int)[0] == self@[i as int]);
                assert(self@.skip(i as int).skip(1) =~= self@.skip(i + 1));
            }
            if crate::bytes::bytes_eq(&self.areas[i].index_url, url)
                && self.areas[i].package.eq_name(package) {
                return Some(&self.areas[i]);
            }
            i = i + 1;
        }
        proof {
            assert(self@.skip(self.areas@.len() as int) =~= Seq::<PackageAreaV>::empty());
        }
        None
    }
}

/// The ordered list of configured package sources: the regular indexes in
/// priority order, then any supplementary flat/local sources as synthetic
/// extra indexes of lowest priority.
#[derive(Debug)]
pub struct IndexLocations {
    pub indexes: Vec<IndexUrl>,
    pub flat_indexes: Vec<IndexUrl>,
}

/// The mathematical value of an [`IndexLocations`].
#[verifier::ext_equal]
pub struct IndexLocationsV {
    pub indexes: Seq<IndexUrlV>,
    pub flat_indexes: Seq<IndexUrlV>,
}

impl View for IndexLocations {
    type V = IndexLocationsV;

    open spec fn view(&self) -> IndexLocationsV {
        IndexLocationsV {
            indexes: Seq::new(self.indexes@.len(), |i: int| self.indexes@[i]@),
            flat_indexes: Seq::new(self.flat_indexes@.len(), |i: int| self.flat_indexes@[i]@),
        }
    }
}

/// The flattened priority order that index population walks.
pub open spec fn all_indexes(locs: IndexLocationsV) -> Seq<IndexUrlV> {
    locs.indexes + locs.flat_indexes
}

impl IndexLocations {
    /// The configured indexes in priority order, the flat sources last.
    pub fn allowed_indexes(&self) -> (r: Vec<IndexUrl>)
        ensures
            Seq::new(r@.len(), |i: int| r@[i]@) == all_indexes(self@),
    {
        let mut r: Vec<IndexUrl> = Vec::new();
        let mut i: usize = 0;
        while i < self.indexes.len()
            invariant
                i <= self.indexes.len(),
                r@.len() == i,
                forall|j: int| 0 <= j < i ==> r@[j]@ == self.indexes@[j]@,
            decreases self.indexes.len() - i,
        {
            r.push(self.indexes[i].clone());
            i = i + 1;
        }
        let mut k: usize = 0;
        while k < self.flat_indexes.len()
            invariant
                k <= self.flat_indexes.len(),
                r@.len() == self.indexes@.len() + k,
                forall|j: int| 0 <= j < self.indexes@.len() ==> r@[j]@ == self.indexes@[j]@,
                forall|j: int| 0 <= j < k
                    ==> r@[self.indexes@.len() + j]@ == self.flat_indexes@[j]@,
            decreases self.flat_indexes.len() - k,
        {
            r.push(self.flat_indexes[k].clone());
            k = k + 1;
        }
        proof {
            assert(Seq::new(r@.len(), |i: int| r@[i]@) =~= all_indexes(self@));
        }
        r
    }
}

} // verus!
