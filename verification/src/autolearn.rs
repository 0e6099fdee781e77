//! Predicate shapes that the learner can take over.
use vstd::prelude::*;
use crate::learn::Kind;
use crate::strs::{str_eq, str_to_string};

verus! {

/// A matched predicate shape: the learner class, and the user's parameter
/// name for each of the class's canonical coordinate names.
pub struct Shape {
    pub kind: Kind,
    pub roles: Vec<(String, String)>,
}

/// The user name given to `canonical` by the first matching role, if any.
pub open spec fn role_of(roles: Seq<(String, String)>, canonical: Seq<char>) -> Option<Seq<char>>
    decreases roles.len(),
{
    if roles.len() == 0 {
        None
    } else {
        match role_of(roles.drop_last(), canonical) {
            Some(u) => Some(u),
            None => if roles.last().0@ == canonical { Some(roles.last().1@) } else { None },
        }
    }
}

impl Shape {
    /// The user's parameter name for a canonical coordinate (the canonical
    /// name itself when no role names it).
    pub fn user_name(&self, canonical: &str) -> (r: String)
        ensures
            r@ == match role_of(self.roles@, canonical@) {
                Some(u) => u,
                None => canonical@,
            },
    {
        let mut i: usize = 0;
        while i < self.roles.len()
            invariant
                i <= self.roles.len(),
                role_of(self.roles@.take(i as int), canonical@) is None,
            decreases self.roles.len() - i,
        {
            proof {
                assert(self.roles@.take(i + 1).drop_last() =~= self.roles@.take(i as int));
            }
            if str_eq(self.roles[i].0.as_str(), canonical) {
                proof {
                    lemma_role_prefix(self.roles@, canonical@, (i + 1) as nat);
                }
                return str_to_string(self.roles[i].1.as_str());
            }
            i = i + 1;
        }
        proof {
            assert(self.roles@.take(i as int) =~= self.roles@);
        }
        str_to_string(canonical)
    }
}

/// The first match at the end of a prefix with no earlier match.
proof fn lemma_role_prefix(roles: Seq<(String, String)>, c: Seq<char>, n: nat)
    requires
        1 <= n <= roles.len(),
        role_of(roles.take(n - 1), c) is None,
        roles[n - 1].0@ == c,
    ensures
        role_of(roles, c) == Some(roles[n - 1].1@),
    decreases roles.len(),
{
    assert(roles.take(n as int).drop_last() =~= roles.take(n - 1));
    if n < roles.len() {
        assert(roles.drop_last().take(n - 1) =~= roles.take(n - 1));
        assert(roles.drop_last()[n - 1] == roles[n - 1]);
        lemma_role_prefix(roles.drop_last(), c, n);
    } else {
        assert(roles.take(n - 1) =~= roles.drop_last());
    }
}
} // verus!
