//! The fork-local index tracker.
//!
//! Dependency resolution explores hypothetical environments in parallel
//! branches ("forks"). Within one branch a package name must resolve to
//! exactly one index: the tracker records the first assignment and raises a
//! structured conflict error on any later assignment of a different index,
//! while repeating the same assignment is accepted and changes nothing.

use vstd::prelude::*;
use crate::bytes::{bytes_lt, bytes_lt_exec, lemma_bytes_lt_connex};
use crate::dist::{index_eq, IndexUrl, IndexUrlV};
use crate::name::PackageName;

verus! {

/// The rendered environment markers of one resolution branch; opaque to this
/// core, carried into the conflict error for diagnostics.
#[derive(Debug)]
pub struct MarkerTree {
    pub repr: Vec<u8>,
}

impl View for MarkerTree {
    type V = Seq<u8>;

    open spec fn view(&self) -> Seq<u8> {
        self.repr@
    }
}

impl Clone for MarkerTree {
    fn clone(&self) -> (r: Self)
        ensures
            r@ == self@,
    {
        let r = MarkerTree { repr: self.repr.clone() };
        proof {
            assert(r.repr@ =~= self.repr@);
        }
        r
    }
}

/// The shape of the exploration context in which an assignment is made: a
/// universal resolution, one pinned concrete environment, or a branch
/// constrained by environment markers.
#[derive(Debug)]
pub enum ResolverMarkers {
    Universal,
    SpecificEnvironment,
    Fork(MarkerTree),
}

/// The hard error of this core: the same package was assigned two different
/// indexes within one branch. The two identities are reported in
/// lexicographic order of their canonical forms, for deterministic messages.
#[derive(Debug)]
pub enum ResolveError {
    ConflictingIndexesUniversal {
        package_name: PackageName,
        index_lo: IndexUrl,
        index_hi: IndexUrl,
    },
    ConflictingIndexesFork {
        package_name: PackageName,
        index_lo: IndexUrl,
        index_hi: IndexUrl,
        fork_markers: MarkerTree,
    },
}

/// The first index recorded for `k`, scanning assignments oldest first.
pub open spec fn find_index(m: Seq<(Seq<u8>, IndexUrlV)>, k: Seq<u8>) -> Option<IndexUrlV>
    decreases m.len(),
{
    if m.len() == 0 {
        None
    } else if m[0].0 == k {
        Some(m[0].1)
    } else {
        find_index(m.skip(1), k)
    }
}

/// The tracker state after `insert(p, i)`: unchanged on a repeated
/// assignment, extended on a first assignment, `None` on a conflict.
pub open spec fn tracker_after_insert(
    m: Seq<(Seq<u8>, IndexUrlV)>,
    p: Seq<u8>,
    i: IndexUrlV,
) -> Option<Seq<(Seq<u8>, IndexUrlV)>> {
    match find_index(m, p) {
        None => Some(m.push((p, i))),
        Some(prev) => if index_eq(prev, i) {
            Some(m)
        } else {
            None
        },
    }
}

/// The two conflicting identities, ordered lexicographically by their
/// canonical forms.
pub open spec fn conflict_pair(a: IndexUrlV, b: IndexUrlV) -> (IndexUrlV, IndexUrlV) {
    if bytes_lt(a.url, b.url) {
        (a, b)
    } else {
        (b, a)
    }
}

/// Does `e` report exactly the conflict of `prev` and `new` on package `p`,
/// in the variant that the context `markers` selects?
pub open spec fn conflict_error_matches(
    e: ResolveError,
    p: Seq<u8>,
    prev: IndexUrlV,
    new: IndexUrlV,
    markers: ResolverMarkers,
) -> bool {
    match markers {
        ResolverMarkers::Universal | ResolverMarkers::SpecificEnvironment => {
            &&& e matches ResolveError::ConflictingIndexesUniversal {
                package_name,
                index_lo,
                index_hi,
            }
            &&& package_name@ == p
            &&& index_lo@ == conflict_pair(prev, new).0
            &&& index_hi@ == conflict_pair(prev, new).1
        },
        ResolverMarkers::Fork(mt) => {
            &&& e matches ResolveError::ConflictingIndexesFork {
                package_name,
                index_lo,
                index_hi,
                fork_markers,
            }
            &&& package_name@ == p
            &&& index_lo@ == conflict_pair(prev, new).0
            &&& index_hi@ == conflict_pair(prev, new).1
            &&& fork_markers@ == mt@
        },
    }
}

/// The per-branch map from package name to the index pinned for it.
#[derive(Debug)]
pub struct ForkIndexes {
    pub entries: Vec<(PackageName, IndexUrl)>,
}

impl View for ForkIndexes {
    type V = Seq<(Seq<u8>, IndexUrlV)>;

    open spec fn view(&self) -> Seq<(Seq<u8>, IndexUrlV)> {
        Seq::new(self.entries@.len(), |i: int| (self.entries@[i].0@, self.entries@[i].1@))
    }
}

impl Clone for ForkIndexes {
    /// Forking the solver's branch duplicates the tracker; the copy holds
    /// exactly the assignments made on the path leading to the fork point.
    fn clone(&self) -> (r: Self)
        ensures
            r@ == self@,
    {
        let mut entries: Vec<(PackageName, IndexUrl)> = Vec::new();
        let mut i: usize = 0;
        while i < self.entries.len()
            invariant
                i <= self.entries.len(),
                entries@.len() == i,
                forall|j: int| 0 <= j < i ==> entries@[j].0@ == self.entries@[j].0@
                    && entries@[j].1@ == self.entries@[j].1@,
            decreases self.entries.len() - i,
        {
            let pn = self.entries[i].0.clone();
            let iu = self.entries[i].1.clone();
            entries.push((pn, iu));
            i = i + 1;
        }
        let r = ForkIndexes { entries };
        proof {
            assert(r@ =~= self@);
        }
        r
    }
}

impl Default for ForkIndexes {
    /// A fresh branch starts with no assignment.
    fn default() -> (r: Self)
        ensures
            r@ == Seq::<(Seq<u8>, IndexUrlV)>::empty(),
    {
        let r = ForkIndexes { entries: Vec::new() };
        proof {
            assert(r@ =~= Seq::<(Seq<u8>, IndexUrlV)>::empty());
        }
        r
    }
}

impl ForkIndexes {
    /// The index previously pinned for `package_name` in this branch, if any.
    pub fn get(&self, package_name: &PackageName) -> (r: Option<IndexUrl>)
        ensures
            r is Some <==> find_index(self@, package_name@) is Some,
            r matches Some(u) ==> Some(u@) == find_index(self@, package_name@),
    {
        let mut i: usize = 0;
        proof {
            assert(self@.skip(0) =~= self@);
        }
        while i < self.entries.len()
            invariant
                i <= self.entries.len(),
                find_index(self@, package_name@) == find_index(
                    self@.skip(i as int),
                    package_name@,
                ),
        decreases self.entries.len() - i,
        {
            proof {
                assert(self@.skip(i as int)[0] == self@[i as int]);
                assert(self@.skip(i as int).skip(1) =~= self@.skip(i + 1));
            }
            if self.entries[i].0.eq_name(package_name) {
                let u = self.entries[i].1.clone();
                return Some(u);
            }
            i = i + 1;
        }
        proof {
            assert(self@.skip(self.entries@.len() as int)
                =~= Seq::<(Seq<u8>, IndexUrlV)>::empty());
        }
        None
    }

    /// Pins `index` for `package_name` in this branch. A first assignment is
    /// recorded; repeating the same assignment succeeds and changes nothing;
    /// a different assignment fails with a conflict error selected by the
    /// shape of `fork_markers`, reporting the two identities in lexicographic
    /// order, and leaves the tracker unchanged.
    pub fn insert(
        &mut self,
        package_name: &PackageName,
        index: &IndexUrl,
        fork_markers: &ResolverMarkers,
    ) -> (r: Result<(), ResolveError>)
        ensures
            match find_index(old(self)@, package_name@) {
                None => {
                    &&& r is Ok
                    &&& final(self)@ == old(self)@.push((package_name@, index@))
                },
                Some(prev) => if index_eq(prev, index@) {
                    r is Ok && final(self)@ == old(self)@
                } else {
                    &&& final(self)@ == old(self)@
                    &&& r matches Err(e) && conflict_error_matches(
                        e,
                        package_name@,
                        prev,
                        index@,
                        *fork_markers,
                    )
                },
            },
    {
        let mut i: usize = 0;
        proof {
            assert(self@.skip(0) =~= self@);
        }
        while i < self.entries.len()
            invariant
                i <= self.entries.len(),
                find_index(self@, package_name@) == find_index(
                    self@.skip(i as int),
                    package_name@,
                ),
            decreases self.entries.len() - i,
        {
            proof {
                assert(self@.skip(i as int)[0] == self@[i as int]);
                assert(self@.skip(i as int).skip(1) =~= self@.skip(i + 1));
            }
            if self.entries[i].0.eq_name(package_name) {
                if self.entries[i].1.same_source(index) {
                    return Ok(());
                }
                let prev = self.entries[i].1.clone();
                let new = index.clone();
                let (index_lo, index_hi) = if bytes_lt_exec(&prev.url, &new.url) {
                    (prev, new)
                } else {
                    (new, prev)
                };
                let e = match fork_markers {
                    ResolverMarkers::Universal | ResolverMarkers::SpecificEnvironment => {
                        ResolveError::ConflictingIndexesUniversal {
                            package_name: package_name.clone(),
                            index_lo,
                            index_hi,
                        }
                    },
                    ResolverMarkers::Fork(mt) => ResolveError::ConflictingIndexesFork {
                        package_name: package_name.clone(),
                        index_lo,
                        index_hi,
                        fork_markers: mt.clone(),
                    },
                };
                return Err(e);
            }
            i = i + 1;
        }
        proof {
            assert(self@.skip(self.entries@.len() as int)
                =~= Seq::<(Seq<u8>, IndexUrlV)>::empty());
        }
        self.entries.push((package_name.clone(), index.clone()));
        proof {
            assert(self@ =~= old(self)@.push((package_name@, index@)));
        }
        Ok(())
    }
}

/// Looking a key up after recording another key reads through to the
/// original assignments.
pub proof fn lemma_find_index_push(
    m: Seq<(Seq<u8>, IndexUrlV)>,
    k: Seq<u8>,
    v: IndexUrlV,
    q: Seq<u8>,
)
    ensures
        find_index(m.push((k, v)), q) == (if find_index(m, q) is Some {
            find_index(m, q)
        } else if q == k {
            Some(v)
        } else {
            None
        }),
    decreases m.len(),
{
    if m.len() == 0 {
        assert(m.push((k, v))[0] == (k, v));
        assert(m.push((k, v)).skip(1) =~= Seq::<(Seq<u8>, IndexUrlV)>::empty());
        assert(find_index(Seq::<(Seq<u8>, IndexUrlV)>::empty(), q) is None);
        assert(find_index(m, q) is None);
    } else {
        assert(m.push((k, v))[0] == m[0]);
        assert(m.push((k, v)).skip(1) =~= m.skip(1).push((k, v)));
        lemma_find_index_push(m.skip(1), k, v, q);
    }
}

/// Fork idempotence: when `insert(p, i)` succeeds on a tracker, repeating
/// the same `insert(p, i)` on the result succeeds too, changes nothing, and
/// the branch sees `p` pinned to an index identical to `i`.
pub proof fn lemma_fork_insert_idempotent(m: Seq<(Seq<u8>, IndexUrlV)>, p: Seq<u8>, i: IndexUrlV)
    requires
        tracker_after_insert(m, p, i) is Some,
    ensures
        tracker_after_insert(m, p, i) matches Some(m1) ==> {
            &&& tracker_after_insert(m1, p, i) == Some(m1)
            &&& find_index(m1, p) matches Some(v) && index_eq(v, i)
        },
{
    match find_index(m, p) {
        None => {
            lemma_find_index_push(m, p, i, p);
        },
        Some(prev) => {},
    }
}

/// Fork conflict detection: after a first assignment of `i1` to `p`, an
/// assignment of a different `i2` is a conflict, whose reported pair is the
/// same however the two identities are ordered.
pub proof fn lemma_fork_conflict_detected(
    m: Seq<(Seq<u8>, IndexUrlV)>,
    p: Seq<u8>,
    i1: IndexUrlV,
    i2: IndexUrlV,
)
    requires
        find_index(m, p) is None,
        !index_eq(i1, i2),
    ensures
        tracker_after_insert(m.push((p, i1)), p, i2) is None,
        conflict_pair(i1, i2) == conflict_pair(i2, i1),
{
    lemma_find_index_push(m, p, i1, p);
    lemma_bytes_lt_connex(i1.url, i2.url);
}

/// Fork isolation: recording an assignment for `p` leaves every other
/// package's lookup unchanged; and a cloned tracker, being a separate value,
/// never observes assignments made to the original afterwards.
pub proof fn lemma_fork_isolation(
    m: Seq<(Seq<u8>, IndexUrlV)>,
    p: Seq<u8>,
    i: IndexUrlV,
    q: Seq<u8>,
)
    requires
        q != p,
    ensures
        find_index(m.push((p, i)), q) == find_index(m, q),
{
    lemma_find_index_push(m, p, i, q);
}

} // verus!

