//! The distribution compatibility model.
//!
//! The active platform/interpreter tag set assigns a priority to each
//! supported compatibility tag. A candidate's tag signature is the set of
//! tags its filename expands to; its compatibility ranking is the highest
//! priority of any of its tags in the active set, or incompatible (`None`)
//! when none is supported.

use vstd::prelude::*;

verus! {

/// The greater of two optional rankings, where incompatible (`None`) is
/// below every ranking.
pub open spec fn opt_max(a: Option<u64>, b: Option<u64>) -> Option<u64> {
    match b {
        None => a,
        Some(y) => match a {
            None => Some(y),
            Some(x) => if x >= y {
                Some(x)
            } else {
                Some(y)
            },
        },
    }
}

/// Is ranking `a` strictly above ranking `b`? Incompatible (`None`) is below
/// every ranking; equal rankings are not above one another.
pub open spec fn opt_gt(a: Option<u64>, b: Option<u64>) -> bool {
    match a {
        None => false,
        Some(x) => match b {
            None => true,
            Some(y) => x > y,
        },
    }
}

/// The priority of one tag in the active set: that of its first entry, or
/// `None` when the tag is unsupported.
pub open spec fn tag_rank(ts: Seq<(u64, u64)>, t: u64) -> Option<u64>
    decreases ts.len(),
{
    if ts.len() == 0 {
        None
    } else if ts[0].0 == t {
        Some(ts[0].1)
    } else {
        tag_rank(ts.skip(1), t)
    }
}

/// The compatibility ranking of a whole tag signature: the highest priority
/// among its tags, or `None` when no tag is supported.
pub open spec fn wheel_rank(ts: Seq<(u64, u64)>, signature: Seq<u64>) -> Option<u64>
    decreases signature.len(),
{
    if signature.len() == 0 {
        None
    } else {
        opt_max(tag_rank(ts, signature[0]), wheel_rank(ts, signature.skip(1)))
    }
}

/// The active platform/interpreter tag set: each supported tag with its
/// priority. Earlier entries win when a tag is listed twice.
#[derive(Debug)]
pub struct Tags {
    pub priorities: Vec<(u64, u64)>,
}

impl View for Tags {
    type V = Seq<(u64, u64)>;

    open spec fn view(&self) -> Seq<(u64, u64)> {
        self.priorities@
    }
}

impl Tags {
    /// The priority of one tag in this set.
    pub fn rank_of_tag(&self, t: u64) -> (r: Option<u64>)
        ensures
            r == tag_rank(self@, t),
    {
        let mut i: usize = 0;
        proof {
            assert(self@.skip(0) =~= self@);
        }
        while i < self.priorities.len()
            invariant
                i <= self.priorities.len(),
                tag_rank(self@, t) == tag_rank(self@.skip(i as int), t),
            decreases self.priorities.len() - i,
        {
            proof {
                assert(self@.skip(i as int)[0] == self@[i as int]);
                assert(self@.skip(i as int).skip(1) =~= self@.skip(i + 1));
            }
            if self.priorities[i].0 == t {
                return Some(self.priorities[i].1);
            }
            i = i + 1;
        }
        None
    }

    /// The compatibility ranking of a tag signature against this set.
    pub fn rank_of_signature(&self, signature: &Vec<u64>) -> (r: Option<u64>)
        ensures
            r == wheel_rank(self@, signature@),
    {
        let mut i: usize = signature.len();
        let mut acc: Option<u64> = None;
        proof {
            assert(signature@.skip(signature@.len() as int) =~= Seq::<u64>::empty());
        }
        while i > 0
            invariant
                i <= signature.len(),
                acc == wheel_rank(self@, signature@.skip(i as int)),
            decreases i,
        {
            i = i - 1;
            proof {
                assert(signature@.skip(i as int)[0] == signature@[i as int]);
                assert(signature@.skip(i as int).skip(1) =~= signature@.skip(i + 1));
            }
            let tr = self.rank_of_tag(signature[i]);
            acc = match (tr, acc) {
                (None, b) => b,
                (Some(x), None) => Some(x),
                (Some(x), Some(y)) => if x >= y {
                    Some(x)
                } else {
                    Some(y)
                },
            };
        }
        proof {
            assert(signature@.skip(0) =~= signature@);
        }
        acc
    }
}

/// Decides `opt_gt` on two rankings.
pub fn opt_gt_exec(a: &Option<u64>, b: &Option<u64>) -> (r: bool)
    ensures
        r == opt_gt(*a, *b),
{
    match a {
        None => false,
        Some(x) => match b {
            None => true,
            Some(y) => *x > *y,
        },
    }
}

} // verus!
