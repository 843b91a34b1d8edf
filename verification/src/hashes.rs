//! The hash-verification policy.
//!
//! The active policy maps a (package name, version) pair to the set of
//! acceptable content-hash fingerprints; an empty set means no verification
//! is required. A candidate passes when no verification is required or when
//! one of its associated fingerprints is acceptable.

use vstd::prelude::*;
use crate::dist::Version;
use crate::name::PackageName;

verus! {

/// One policy entry: the acceptable fingerprints for a (name, version) pair.
#[derive(Debug)]
pub struct HashEntry {
    pub name: PackageName,
    pub version: Version,
    pub digests: Vec<u64>,
}

/// The mathematical value of a [`HashEntry`].
#[verifier::ext_equal]
pub struct HashEntryV {
    pub name: Seq<u8>,
    pub version: Version,
    pub digests: Seq<u64>,
}

impl View for HashEntry {
    type V = HashEntryV;

    open spec fn view(&self) -> HashEntryV {
        HashEntryV { name: self.name@, version: self.version, digests: self.digests@ }
    }
}

/// The active per-package hash-verification policy.
#[derive(Debug)]
pub struct HashStrategy {
    pub entries: Vec<HashEntry>,
}

impl View for HashStrategy {
    type V = Seq<HashEntryV>;

    open spec fn view(&self) -> Seq<HashEntryV> {
        Seq::new(self.entries@.len(), |i: int| self.entries@[i]@)
    }
}

/// The fingerprints the policy requires of `(name, version)`: those of the
/// first matching entry, or none.
pub open spec fn required_digests(h: Seq<HashEntryV>, name: Seq<u8>, version: Version) -> Seq<u64>
    decreases h.len(),
{
    if h.len() == 0 {
        Seq::empty()
    } else if h[0].name == name && h[0].version == version {
        h[0].digests
    } else {
        required_digests(h.skip(1), name, version)
    }
}

/// Does a fingerprint set `have` satisfy the requirement `required`?
pub open spec fn digests_satisfy(required: Seq<u64>, have: Seq<u64>) -> bool {
    required.len() == 0 || exists|i: int, j: int|
        0 <= i < required.len() && 0 <= j < have.len() && required[i] == have[j]
}

/// The whole check at once: what the policy requires of `(name, version)`,
/// measured against the fingerprints `have` associated with a candidate.
pub open spec fn hash_ok(
    h: Seq<HashEntryV>,
    name: Seq<u8>,
    version: Version,
    have: Seq<u64>,
) -> bool {
    digests_satisfy(required_digests(h, name, version), have)
}

impl HashStrategy {
    /// The fingerprints required of `(name, version)` under this policy; an
    /// empty result means no verification is required.
    pub fn get_package(&self, name: &PackageName, version: Version) -> (r: Vec<u64>)
        ensures
            r@ == required_digests(self@, name@, version),
    {
        let mut i: usize = 0;
        proof {
            assert(self@.skip(0) =~= self@);
        }
        while i < self.entries.len()
            invariant
                i <= self.entries.len(),
                required_digests(self@, name@, version) == required_digests(
                    self@.skip(i as int),
                    name@,
                    version,
                ),
            decreases self.entries.len() - i,
        {
            proof {
                assert(self@.skip(i as int)[0] == self@[i as int]);
                assert(self@.skip(i as int).skip(1) =~= self@.skip(i + 1));
            }
            if self.entries[i].matches_key(name, version) {
                let r = self.entries[i].digests.clone();
                proof {
                    assert(r@ =~= self.entries@[i as int].digests@);
                }
                return r;
            }
            i = i + 1;
        }
        proof {
            assert(self@.skip(self.entries@.len() as int) =~= Seq::<HashEntryV>::empty());
        }
        Vec::new()
    }
}

impl HashEntry {
    /// Is this entry the one for `(name, version)`?
    pub fn matches_key(&self, name: &PackageName, version: Version) -> (r: bool)
        ensures
            r == (self@.name == name@ && self@.version == version),
    {
        self.name.eq_name(name) && self.version == version
    }
}

/// Decides `digests_satisfy`.
pub fn satisfies(required: &Vec<u64>, have: &Vec<u64>) -> (r: bool)
    ensures
        r == digests_satisfy(required@, have@),
{
    if required.len() == 0 {
        return true;
    }
    let mut i: usize = 0;
    while i < required.len()
        invariant
            i <= required.len(),
            forall|i0: int, j0: int|
                0 <= i0 < i && 0 <= j0 < have@.len() ==> required@[i0] != have@[j0],
        decreases required.len() - i,
    {
        let mut j: usize = 0;
        while j < have.len()
            invariant
                i < required.len(),
                j <= have.len(),
                forall|j0: int| 0 <= j0 < j ==> required@[i as int] != have@[j0],
            decreases have.len() - j,
        {
            if required[i] == have[j] {
                return true;
            }
            j = j + 1;
        }
        i = i + 1;
    }
    false
}

} // verus!
