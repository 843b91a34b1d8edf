//! Distribution model types: versions, index identities, wheel filenames and
//! cached candidate records.

use vstd::prelude::*;
use crate::name::PackageName;
use crate::tags::{wheel_rank, Tags};

verus! {

/// A point on the total order of a package's versions. Two candidate records
/// with equal `Version` are two sightings of the same version.
#[derive(Clone, Copy, PartialEq, Eq, Structural, Debug)]
pub struct Version(pub u64);

/// What kind of source an index is: a remote registry reached by URL, or a
/// local path-based source. The kind selects which storage layout is scanned
/// during index population.
#[derive(Clone, Copy, PartialEq, Eq, Structural, Debug)]
pub enum IndexKind {
    Remote,
    Local,
}

/// The identity of one configured package source. The canonical form is the
/// rendered URL (or path); two identities denote the same source exactly
/// when their canonical forms agree. The kind records how that source's
/// storage is scanned; where a configuration repeats one canonical form,
/// index population reads only its first occurrence, so the first
/// occurrence's kind decides the scan.
#[derive(Debug)]
pub struct IndexUrl {
    pub kind: IndexKind,
    pub url: Vec<u8>,
}

/// The mathematical value of an [`IndexUrl`].
#[verifier::ext_equal]
pub struct IndexUrlV {
    pub kind: IndexKind,
    pub url: Seq<u8>,
}

impl View for IndexUrl {
    type V = IndexUrlV;

    open spec fn view(&self) -> IndexUrlV {
        IndexUrlV { kind: self.kind, url: self.url@ }
    }
}

/// Do two index identities denote the same source? Identity is equality of
/// the canonical forms, which is also the form in which a conflict between
/// two sources is reported.
pub open spec fn index_eq(a: IndexUrlV, b: IndexUrlV) -> bool {
    a.url == b.url
}

impl Clone for IndexUrl {
    fn clone(&self) -> (r: Self)
        ensures
            r@ == self@,
    {
        let r = IndexUrl { kind: self.kind, url: self.url.clone() };
        proof {
            assert(r.url@ =~= self.url@);
            assert(r@ =~= self@);
        }
        r
    }
}

impl IndexUrl {
    /// Identity of sources: equality of the canonical forms.
    pub fn same_source(&self, other: &IndexUrl) -> (r: bool)
        ensures
            r == index_eq(self@, other@),
    {
        crate::bytes::bytes_eq(&self.url, &other.url)
    }
}

/// The compatibility-relevant part of a wheel's filename: the package it
/// belongs to, its version, and its expanded tag signature.
#[derive(Debug)]
pub struct WheelFilename {
    pub name: PackageName,
    pub version: Version,
    pub tags: Vec<u64>,
}

/// The mathematical value of a [`WheelFilename`].
#[verifier::ext_equal]
pub struct FilenameV {
    pub name: Seq<u8>,
    pub version: Version,
    pub tags: Seq<u64>,
}

impl View for WheelFilename {
    type V = FilenameV;

    open spec fn view(&self) -> FilenameV {
        FilenameV { name: self.name@, version: self.version, tags: self.tags@ }
    }
}

impl Clone for WheelFilename {
    fn clone(&self) -> (r: Self)
        ensures
            r@ == self@,
    {
        let r = WheelFilename {
            name: self.name.clone(),
            version: self.version,
            tags: self.tags.clone(),
        };
        proof {
            assert(r.tags@ =~= self.tags@);
            assert(r@ =~= self@);
        }
        r
    }
}

impl WheelFilename {
    /// The compatibility ranking of this filename against the active tag set.
    pub fn compatibility(&self, tags: &Tags) -> (r: Option<u64>)
        ensures
            r == wheel_rank(tags@, self@.tags),
    {
        tags.rank_of_signature(&self.tags)
    }
}

/// One cached distribution as read from storage: a normalized candidate
/// descriptor with the hash fingerprints that its integrity check is
/// measured against.
#[derive(Debug)]
pub struct CachedWheel {
    pub filename: WheelFilename,
    pub hashes: Vec<u64>,
}

/// The mathematical value of a cached candidate record.
#[verifier::ext_equal]
pub struct WheelV {
    pub filename: FilenameV,
    pub hashes: Seq<u64>,
}

impl View for CachedWheel {
    type V = WheelV;

    open spec fn view(&self) -> WheelV {
        WheelV { filename: self.filename@, hashes: self.hashes@ }
    }
}

impl Clone for CachedWheel {
    fn clone(&self) -> (r: Self)
        ensures
            r@ == self@,
    {
        let r = CachedWheel { filename: self.filename.clone(), hashes: self.hashes.clone() };
        proof {
            assert(r.hashes@ =~= self.hashes@);
            assert(r@ =~= self@);
        }
        r
    }
}

/// A candidate retained in the registry index: same descriptor shape,
/// normalized to be provenance-agnostic.
#[derive(Debug)]
pub struct CachedRegistryDist {
    pub filename: WheelFilename,
    pub hashes: Vec<u64>,
}

impl CachedWheel {
    /// Normalizes the cached record into the candidate representation that
    /// the registry index retains. The value is unchanged.
    pub fn into_registry_dist(self) -> (r: CachedRegistryDist)
        ensures
            r@ == self@,
    {
        CachedRegistryDist { filename: self.filename, hashes: self.hashes }
    }
}

impl View for CachedRegistryDist {
    type V = WheelV;

    open spec fn view(&self) -> WheelV {
        WheelV { filename: self.filename@, hashes: self.hashes@ }
    }
}

impl Clone for CachedRegistryDist {
    fn clone(&self) -> (r: Self)
        ensures
            r@ == self@,
    {
        let r = CachedRegistryDist {
            filename: self.filename.clone(),
            hashes: self.hashes.clone(),
        };
        proof {
            assert(r.hashes@ =~= self.hashes@);
            assert(r@ =~= self@);
        }
        r
    }
}

} // verus!
