//! The nonloss certificate format: a decision DAG over the relational
//! features of `cert`.

use vstd::prelude::*;

verus! {

/// A certificate for one board size. Node ids 0 and 1 are the false and
/// true terminals; id `k >= 2` is `nodes[k - 2] = [feature, threshold,
/// left, right]`: go left when the feature is at most the threshold.
#[derive(Clone, Debug)]
pub struct Cert {
    pub board: u8,
    pub root: u32,
    pub nodes: Vec<[i32; 4]>,
}

/// A node with id `id`: a feature of the vocabulary, children with smaller
/// ids (so every walk ends at a terminal).
pub open spec fn node_ok(nd: [i32; 4], id: int) -> bool {
    &&& 0 <= nd@[0] < 36
    &&& 0 <= nd@[2] < id
    &&& 0 <= nd@[3] < id
}

impl Cert {
    /// The root is a node or a terminal, and every node is well placed.
    pub open spec fn wf(&self) -> bool {
        &&& self.root < self.nodes.len() + 2
        &&& self.nodes.len() + 2 <= u32::MAX
        &&& forall|j: int| 0 <= j < self.nodes.len() ==> node_ok(#[trigger] self.nodes@[j], j + 2)
    }

    /// Check the shape the walk relies on.
    pub fn is_wf(&self) -> (r: bool)
        ensures
            r == self.wf(),
    {
        if self.nodes.len() > (u32::MAX - 2) as usize {
            return false;
        }
        if self.root as usize >= self.nodes.len() + 2 {
            return false;
        }
        let mut j: usize = 0;
        while j < self.nodes.len()
            invariant
                0 <= j <= self.nodes.len(),
                self.nodes.len() + 2 <= u32::MAX,
                forall|i: int| 0 <= i < j ==> node_ok(#[trigger] self.nodes@[i], i + 2),
            decreases self.nodes.len() - j,
        {
            let nd = self.nodes[j];
            let id = (j + 2) as i64;
            if !(0 <= nd[0] && nd[0] < 36 && 0 <= nd[2] && (nd[2] as i64) < id && 0 <= nd[3] && (nd[3] as i64) < id) {
                return false;
            }
            j += 1;
        }
        true
    }
}

} // verus!
