//! The path from the start board to a closed node.

use vstd::prelude::*;
use crate::frontier::lemma_nodes_push;
use crate::puzzle::{nodes, Elem, Node, Puzzle};
use crate::search::{closed_ok, path_to, sound, Search, Setting};
use crate::tile::Number;

verus! {

/// Every closed node stands at the place of its id, and the parent of
/// every node but the first stands before it.
pub open spec fn chained(closed: Seq<Node>) -> bool {
    forall|i: int|
        0 <= i < closed.len() ==> (#[trigger] closed[i]).id == i && (i > 0 ==> 0 <= closed[i].p_id
            < i)
}

/// The closed list of a sound search is chained.
pub proof fn lemma_sound_is_chained(st: Setting, start: Seq<Number>, s: Search)
    requires
        sound(st, start, s),
    ensures
        chained(s.closed),
{
    assert forall|i: int| 0 <= i < s.closed.len() implies (#[trigger] s.closed[i]).id == i && (i > 0
        ==> 0 <= s.closed[i].p_id < i) by {
        assert(closed_ok(st, start, s.closed, i));
    }
}

/// Turns a list of nodes round.
fn reverse_elems(elems: Vec<Elem>) -> (turned: Vec<Elem>)
    ensures
        nodes(turned@) == nodes(elems@).reverse(),
{
    let mut elems = elems;
    let mut turned: Vec<Elem> = Vec::new();
    let ghost whole = nodes(elems@);
    while elems.len() > 0
        invariant
            elems@.len() <= whole.len(),
            nodes(elems@) == whole.subrange(0, elems@.len() as int),
            turned@.len() == whole.len() - elems@.len(),
            forall|k: int|
                0 <= k < turned@.len() ==> (#[trigger] turned@[k])@ == whole[whole.len() - 1 - k],
        decreases elems@.len(),
    {
        let ghost before = elems@;
        let last = elems.pop();
        match last {
            Some(elem) => {
                proof {
                    assert(nodes(before)[before.len() - 1] == elem@);
                    assert(nodes(elems@) =~= whole.subrange(0, elems@.len() as int));
                }
                turned.push(elem);
            },
            None => {},
        }
    }
    assert(nodes(turned@) =~= whole.reverse());
    turned
}

impl Puzzle {
    /// Takes `elem` into the path if it is the node that is looked for.
    ///
    /// `elem_id` is the id that is looked for. If `elem` has it, a copy of
    /// `elem` is pushed onto `tmp_vec`, `id` becomes its id and `elem_id`
    /// the id of its parent, which is looked for next.
    pub fn insert_in_final(
        &self,
        elem: &Elem,
        tmp_vec: &mut Vec<Elem>,
        id: &mut i32,
        elem_id: &mut i32,
    ) -> (found: bool)
        ensures
            found == (elem.id == *old(elem_id)),
            found ==> nodes(final(tmp_vec)@) == nodes(old(tmp_vec)@).push(elem@) && *final(id)
                == elem.id && *final(elem_id) == elem.p_id,
            !found ==> *final(tmp_vec) == *old(tmp_vec) && *final(id) == *old(id),
            !found ==> *final(elem_id) == *old(elem_id),
    {
        if elem.id == *elem_id {
            let board: Elem = elem.clone();
            *id = elem.id;
            *elem_id = elem.p_id;
            proof {
                lemma_nodes_push(tmp_vec@, board);
            }
            tmp_vec.push(board);
            true
        } else {
            false
        }
    }

    /// Writes into `final_list` the path from the root to the closed node
    /// `last_id`: the node is looked up by its id, then its parent, and so
    /// on to the root, and the nodes found are put in order from the root.
    pub fn get_final_path(&mut self, last_id: &i32)
        requires
            chained(nodes(old(self).close_l@)),
            0 <= *last_id < old(self).close_l@.len(),
        ensures
            final(self).same_puzzle(old(self)),
            final(self).open_l == old(self).open_l,
            final(self).close_l == old(self).close_l,
            nodes(final(self).final_list@) == path_to(nodes(old(self).close_l@), *last_id as int),
    {
        let mut id: i32 = *last_id;
        let mut pa_id: i32 = id;
        let mut tmp_vec: Vec<Elem> = Vec::new();
        let ghost closed = nodes(self.close_l@);
        assert(nodes(tmp_vec@).reverse() =~= Seq::<Node>::empty());
        assert(path_to(closed, id as int) + Seq::<Node>::empty() =~= path_to(closed, id as int));
        loop
            invariant_except_break
                0 <= pa_id < closed.len(),
                path_to(closed, *last_id as int) == path_to(closed, pa_id as int) + nodes(
                    tmp_vec@,
                ).reverse(),
            invariant
                *self == *old(self),
                closed == nodes(self.close_l@),
                chained(closed),
            ensures
                path_to(closed, *last_id as int) == nodes(tmp_vec@).reverse(),
            decreases pa_id,
        {
            let ghost target = pa_id as int;
            let ghost before = nodes(tmp_vec@);
            assert(closed[target].id == target);
            assert(closed[target] == self.close_l@[target]@);
            let found = self.insert_in_final(
                self.close_l.get(pa_id as usize),
                &mut tmp_vec,
                &mut id,
                &mut pa_id,
            );
            proof {
                let after = nodes(tmp_vec@);
                assert(after == before.push(closed[target]));
                assert(after.reverse() =~= seq![closed[target]] + before.reverse());
                if target > 0 {
                    assert(path_to(closed, target) == path_to(closed, pa_id as int).push(
                        closed[target],
                    ));
                    assert(path_to(closed, target) + before.reverse() =~= path_to(
                        closed,
                        pa_id as int,
                    ) + after.reverse());
                } else {
                    assert(path_to(closed, target) + before.reverse() =~= after.reverse());
                }
            }
            if id == 0 {
                break ;
            }
        }
        let turned = reverse_elems(tmp_vec);
        assert(nodes(tmp_vec@).reverse().reverse() =~= nodes(tmp_vec@));
        self.final_list = turned;
    }
}

} // verus!
