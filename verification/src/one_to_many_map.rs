//! A one-to-many relation between 64-bit keys.
//!
//! Each `b` on the many side maps to at most one `a` on the one side, while
//! an `a` may be the target of arbitrarily many `b`s. Re-asserting an
//! existing mapping is a no-op; asserting that an existing `b` now maps to a
//! different `a` is reported as an explicit [`EquivalenceConflict`], never
//! silently overwritten.

use std::collections::HashMap;
use std::collections::HashSet;
use vstd::prelude::*;

verus! {

/// Reported when a `b` already bound to one `a` is asserted to map to a
/// different `a`.
#[derive(Clone, Copy, PartialEq, Eq, Structural, Debug)]
pub struct EquivalenceConflict {
    /// The many-side key whose binding was contested.
    pub key: u64,
    /// The one-side value the key was already bound to.
    pub existing: u64,
    /// The one-side value the rejected assertion proposed.
    pub proposed: u64,
}

/// A one-to-many relation between 64-bit keys, indexed in both directions.
pub struct OneToManyMap {
    to_bs: HashMap<u64, HashSet<u64>>,
    to_a: HashMap<u64, u64>,
}

impl OneToManyMap {
    /// The binding of each many-side key to its unique one-side value.
    pub closed spec fn one(self) -> Map<u64, u64> {
        self.to_a@
    }

    /// The set of many-side keys bound to each one-side value.
    pub closed spec fn many(self) -> Map<u64, Set<u64>> {
        self.to_bs@.map_values(|s: HashSet<u64>| s@)
    }

    /// The two directions index the same relation.
    pub closed spec fn wf(self) -> bool {
        &&& forall|b: u64|
            #[trigger] self.one().dom().contains(b) ==> self.many().dom().contains(self.one()[b])
                && self.many()[self.one()[b]].contains(b)
        &&& forall|a: u64, b: u64|
            self.many().dom().contains(a) && #[trigger] self.many()[a].contains(b)
                ==> self.one().dom().contains(b) && self.one()[b] == a
    }

    /// An empty relation.
    pub fn new() -> (r: Self)
        ensures
            r.wf(),
            r.one() == Map::<u64, u64>::empty(),
            r.many() == Map::<u64, Set<u64>>::empty(),
    {
        let r = OneToManyMap { to_bs: HashMap::new(), to_a: HashMap::new() };
        proof {
            assert(r.many() =~= Map::<u64, Set<u64>>::empty());
        }
        r
    }

    /// Records that `b` maps to `a`. Returns `Ok(true)` when this added new
    /// information, `Ok(false)` when the exact mapping already existed, and
    /// an [`EquivalenceConflict`] when `b` was already bound to a different
    /// `a`; on `Ok(false)` and on conflict the relation is unchanged.
    pub fn insert(&mut self, a: u64, b: u64) -> (r: Result<bool, EquivalenceConflict>)
        requires
            old(self).wf(),
        ensures
            final(self).wf(),
            match r {
                Ok(true) => {
                    &&& !old(self).one().dom().contains(b)
                    &&& final(self).one() == old(self).one().insert(b, a)
                    &&& final(self).many() == old(self).many().insert(
                        a,
                        (if old(self).many().dom().contains(a) {
                            old(self).many()[a]
                        } else {
                            Set::<u64>::empty()
                        }).insert(b),
                    )
                },
                Ok(false) => {
                    &&& old(self).one().dom().contains(b)
                    &&& old(self).one()[b] == a
                    &&& *final(self) == *old(self)
                },
                Err(c) => {
                    &&& old(self).one().dom().contains(b)
                    &&& old(self).one()[b] != a
                    &&& *final(self) == *old(self)
                    &&& c == (EquivalenceConflict {
                        key: b,
                        existing: old(self).one()[b],
                        proposed: a,
                    })
                },
            },
    {
        let existing: Option<u64> = match self.to_a.get(&b) {
            Some(prior) => Some(*prior),
            None => None,
        };
        match existing {
            Some(prior) => {
                if prior == a {
                    Ok(false)
                } else {
                    Err(EquivalenceConflict { key: b, existing: prior, proposed: a })
                }
            },
            None => {
                let ghost old_bs = self.to_bs@;
                let mut set: HashSet<u64> = match self.to_bs.remove(&a) {
                    Some(s) => s,
                    None => HashSet::new(),
                };
                proof {
                    assert(self.to_bs@ =~= old_bs.remove(a));
                }
                set.insert(b);
                self.to_bs.insert(a, set);
                self.to_a.insert(b, a);
                proof {
                    assert(self.to_bs@ =~= old_bs.insert(a, set));
                    assert(self.one() =~= old(self).one().insert(b, a));
                    assert(self.many() =~= old(self).many().insert(
                        a,
                        (if old(self).many().dom().contains(a) {
                            old(self).many()[a]
                        } else {
                            Set::<u64>::empty()
                        }).insert(b),
                    ));
                }
                Ok(true)
            },
        }
    }

    /// The one-side value that `b` maps to, if any.
    pub fn get_one(&self, b: &u64) -> (r: Option<u64>)
        ensures
            match r {
                Some(a) => self.one().dom().contains(*b) && self.one()[*b] == a,
                None => !self.one().dom().contains(*b),
            },
    {
        match self.to_a.get(b) {
            Some(a) => Some(*a),
            None => None,
        }
    }

    /// The set of many-side keys bound to `a`, if any have been recorded.
    pub fn get_many(&self, a: &u64) -> (r: Option<&HashSet<u64>>)
        ensures
            match r {
                Some(s) => self.many().dom().contains(*a) && self.many()[*a] == s@,
                None => !self.many().dom().contains(*a),
            },
    {
        self.to_bs.get(a)
    }
}

/// In a well-formed relation the two directions agree: `b` maps to `a`
/// exactly when `b` is a member of `a`'s recorded set.
pub proof fn lemma_directions_agree(m: OneToManyMap, a: u64, b: u64)
    requires
        m.wf(),
    ensures
        (m.one().dom().contains(b) && m.one()[b] == a) <==> (m.many().dom().contains(a)
            && m.many()[a].contains(b)),
{
}

impl Default for OneToManyMap {
    fn default() -> (r: Self)
        ensures
            r.wf(),
            r.one() == Map::<u64, u64>::empty(),
            r.many() == Map::<u64, Set<u64>>::empty(),
    {
        OneToManyMap::new()
    }
}

} // verus!
