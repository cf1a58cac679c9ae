//! An explicit finite search space: states are indices into an adjacency
//! table, goals are listed outright.  This is the direct way to hand the
//! best-first engine a concrete graph, zero-cost edges included.

use vstd::prelude::*;
use crate::dijkstra::{distinct_idents, Space, Value};

verus! {

impl Value for usize {
    type Id = usize;

    /// An index is its own identity.
    open spec fn ident(&self) -> usize {
        *self
    }

    fn same_ident(&self, other: &Self) -> (r: bool) {
        *self == *other
    }
}

/// The identity projection on indices is injective.
pub proof fn lemma_index_identity()
    ensures
        distinct_idents::<usize>(),
{
}

/// `s` occurs in `goals`.
pub open spec fn goal_listed(goals: Seq<usize>, s: usize) -> bool {
    exists|i: int| 0 <= i < goals.len() && #[trigger] goals[i] == s
}

/// An explicit graph: `adj[s]` lists the weighted edges out of state `s`,
/// and `goals` lists the accepted states.  States outside the table have no
/// edges.
pub struct TableSpace {
    pub adj: Vec<Vec<(usize, u64)>>,
    pub goals: Vec<usize>,
}

impl Space for TableSpace {
    type St = usize;

    /// A state is a goal when it is listed.
    open spec fn goal(&self, s: usize) -> bool {
        goal_listed(self.goals@, s)
    }

    /// The table row of `s`, or nothing outside the table.
    open spec fn edges(&self, s: usize) -> Seq<(usize, u64)> {
        if s < self.adj@.len() {
            self.adj@[s as int]@
        } else {
            Seq::empty()
        }
    }

    fn is_goal(&self, s: &usize) -> (r: bool) {
        let mut i: usize = 0;
        while i < self.goals.len()
            invariant
                0 <= i <= self.goals@.len(),
                forall|k: int| 0 <= k < i ==> #[trigger] self.goals@[k] != *s,
            decreases self.goals@.len() - i,
        {
            if self.goals[i] == *s {
                proof {
                    assert(self.goals@[i as int] == *s);
                }
                return true;
            }
            i = i + 1;
        }
        false
    }

    fn neighbors(&self, s: &usize) -> (v: Vec<(usize, u64)>) {
        let mut v: Vec<(usize, u64)> = Vec::new();
        if *s >= self.adj.len() {
            return v;
        }
        let row = &self.adj[*s];
        let mut j: usize = 0;
        while j < row.len()
            invariant
                0 <= j <= row@.len(),
                row@ == self.adj@[*s as int]@,
                *s < self.adj@.len(),
                v@ =~= row@.take(j as int),
            decreases row@.len() - j,
        {
            let e = row[j];
            v.push(e);
            proof {
                assert(row@.take(j + 1) =~= row@.take(j as int).push(row@[j as int]));
            }
            j = j + 1;
        }
        proof {
            assert(row@.take(row@.len() as int) =~= row@);
        }
        v
    }
}

} // verus!
