//! The frontier: the nodes that wait to be examined, lowest cost first.

use vstd::prelude::*;
use crate::puzzle::{nodes, Elem};
use crate::search::{front_index, precedes};

verus! {

impl Elem {
    /// Whether this node leaves the frontier before `other`: lower total
    /// cost first, and at equal total cost the lower heuristic.
    pub fn precedes(&self, other: &Elem) -> (first: bool)
        ensures
            first == precedes(self@, other@),
    {
        self.total_cost < other.total_cost || (self.total_cost == other.total_cost
            && self.glob_heuristic < other.glob_heuristic)
    }
}

/// Removing an element from a list removes its node from the list's nodes.
pub proof fn lemma_nodes_remove(elems: Seq<Elem>, i: int)
    requires
        0 <= i < elems.len(),
    ensures
        nodes(elems.remove(i)) == nodes(elems).remove(i),
{
    assert(nodes(elems.remove(i)) =~= nodes(elems).remove(i));
}

/// Pushing an element onto a list pushes its node onto the list's nodes.
pub proof fn lemma_nodes_push(elems: Seq<Elem>, elem: Elem)
    ensures
        nodes(elems.push(elem)) == nodes(elems).push(elem@),
{
    assert(nodes(elems.push(elem)) =~= nodes(elems).push(elem@));
}

/// Takes the front node off a frontier: the first of the nodes that no
/// other precedes. `None` on an empty frontier.
pub fn take_front(open: &mut Vec<Elem>) -> (front: Option<Elem>)
    ensures
        old(open)@.len() == 0 ==> front.is_none() && final(open)@ == old(open)@,
        old(open)@.len() > 0 ==> front == Some(old(open)@[front_index(nodes(old(open)@))])
            && final(open)@ == old(open)@.remove(front_index(nodes(old(open)@))),
{
    if open.len() == 0 {
        return None;
    }
    let mut best: usize = 0;
    let mut i: usize = 1;
    while i < open.len()
        invariant
            1 <= i <= open@.len(),
            *open == *old(open),
            0 <= best < i,
            best == front_index(nodes(open@).subrange(0, i as int)),
        decreases open@.len() - i,
    {
        proof {
            let upto = nodes(open@).subrange(0, i + 1);
            assert(upto.drop_last() =~= nodes(open@).subrange(0, i as int));
            assert(upto.last() == open@[i as int]@);
            assert(upto[best as int] == open@[best as int]@);
        }
        if open[i].precedes(&open[best]) {
            best = i;
        }
        i += 1;
    }
    assert(nodes(open@).subrange(0, i as int) =~= nodes(open@));
    Some(open.remove(best))
}

} // verus!
