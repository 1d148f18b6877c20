//! The closed list: the boards that a search is done with.

use std::collections::HashMap;
use vstd::prelude::*;
use crate::board::{same_values, values};
use crate::puzzle::{nodes, Elem};
use crate::search::{is_closed, key_at};
use crate::tile::Number;

verus! {

/// The closed list of a search: the nodes in the order in which they were
/// closed, found again by the values of their boards.
///
/// Beside the nodes the list keeps, for every hash of a key, the places of
/// the nodes whose key has that hash, so that a board is compared only
/// with the few nodes that share its hash.
pub struct ClosedList {
    entries: Vec<Elem>,
    index: HashMap<u64, Vec<usize>>,
}

/// The hash of the first `upto` values of a key.
spec fn key_hash(vals: Seq<int>, upto: int) -> int
    decreases upto,
{
    if upto <= 0 {
        0
    } else {
        (key_hash(vals, upto - 1) * 31 + vals[upto - 1] + 0x8000_0000) % 1_000_000_007
    }
}

/// The hash of a key.
spec fn hash_of(vals: Seq<int>) -> u64 {
    key_hash(vals, vals.len() as int) as u64
}

/// The node at place `i` of `entries` is filed in `index` under the hash of
/// its key.
spec fn filed(entries: Seq<Elem>, index: Map<u64, Vec<usize>>, i: int) -> bool {
    index.contains_key(hash_of(values(entries[i].list@))) && index[hash_of(
        values(entries[i].list@),
    )]@.contains(i as usize)
}

/// Every node is filed, and every place on file is the place of a node.
spec fn indexed(entries: Seq<Elem>, index: Map<u64, Vec<usize>>) -> bool {
    &&& forall|i: int| 0 <= i < entries.len() ==> #[trigger] filed(entries, index, i)
    &&& forall|h: u64, j: int|
        index.contains_key(h) && 0 <= j < index[h]@.len() ==> (#[trigger] index[h]@[j])
            < entries.len()
}

/// Hashes the values of a board.
fn hash_board(board: &Vec<Number>) -> (h: u64)
    ensures
        h == hash_of(values(board@)),
{
    let mut h: u64 = 0;
    let mut i: usize = 0;
    while i < board.len()
        invariant
            i <= board@.len(),
            h == key_hash(values(board@), i as int),
            h < 1_000_000_007,
        decreases board@.len() - i,
    {
        let shifted: u64 = (board[i].value as i64 + 0x8000_0000) as u64;
        assert(values(board@)[i as int] == board@[i as int].value);
        h = (h * 31 + shifted) % 1_000_000_007;
        i += 1;
    }
    h
}

impl View for ClosedList {
    type V = Seq<Elem>;

    /// The closed nodes in the order in which they were closed.
    closed spec fn view(&self) -> Seq<Elem> {
        self.entries@
    }
}

impl ClosedList {
    /// The index agrees with the nodes.
    #[verifier::type_invariant]
    spec fn well_indexed(&self) -> bool {
        indexed(self.entries@, self.index@)
    }

    /// An empty closed list.
    pub fn new() -> (list: ClosedList)
        ensures
            list@ == Seq::<Elem>::empty(),
    {
        ClosedList { entries: Vec::new(), index: HashMap::new() }
    }

    /// The number of closed nodes.
    pub fn len(&self) -> (len: usize)
        ensures
            len == self@.len(),
    {
        self.entries.len()
    }

    /// The node that was closed as the `i`-th, counted from 0.
    pub fn get(&self, i: usize) -> (elem: &Elem)
        requires
            i < self@.len(),
        ensures
            *elem == self@[i as int],
    {
        &self.entries[i]
    }

    /// The closed nodes in the order in which they were closed.
    pub fn entries(&self) -> (all: &Vec<Elem>)
        ensures
            all@ == self@,
    {
        &self.entries
    }

    /// Closes a node: it becomes the last of the list.
    pub fn push(&mut self, elem: Elem)
        ensures
            final(self)@ == old(self)@.push(elem),
    {
        broadcast use vstd::std_specs::hash::group_hash_axioms;

        let mut taken = ClosedList::new();
        std::mem::swap(self, &mut taken);
        proof {
            use_type_invariant(&taken);
        }
        let ClosedList { mut entries, mut index } = taken;
        let ghost old_entries = entries@;
        let ghost old_index = index@;
        let h = hash_board(&elem.list);
        let id = entries.len();
        let mut bucket: Vec<usize> = match index.remove(&h) {
            Some(found) => found,
            None => Vec::new(),
        };
        bucket.push(id);
        let ghost filled = bucket@;
        index.insert(h, bucket);
        entries.push(elem);
        proof {
            assert forall|i: int| 0 <= i < entries@.len() implies #[trigger] filed(
                entries@,
                index@,
                i,
            ) by {
                if i < id {
                    assert(filed(old_entries, old_index, i));
                    let g = hash_of(values(entries@[i].list@));
                    if g == h {
                        let k = choose|k: int|
                            0 <= k < old_index[h]@.len() && old_index[h]@[k] == i as usize;
                        assert(filled[k] == i as usize);
                    }
                } else {
                    assert(filled[filled.len() - 1] == id);
                }
            }
            assert forall|g: u64, j: int|
                index@.contains_key(g) && 0 <= j < index@[g]@.len() implies (
            #[trigger] index@[g]@[j]) < entries@.len() by {
                if g == h {
                    if j < filled.len() - 1 {
                        assert(old_index[h]@[j] < id);
                    }
                } else {
                    assert(old_index[g]@[j] < id);
                }
            }
        }
        let list = ClosedList { entries: entries, index: index };
        *self = list;
    }

    /// Whether a node with the values of `board` has been closed.
    pub fn contains(&self, board: &Vec<Number>) -> (found: bool)
        ensures
            found == is_closed(nodes(self@), values(board@)),
    {
        broadcast use vstd::std_specs::hash::group_hash_axioms;

        proof {
            use_type_invariant(self);
        }
        let h = hash_board(board);
        proof {
            assert(self.entries@.len() == self.entries.len());
            lemma_bucket_decides(self.entries@, self.index@, values(board@));
        }
        match self.index.get(&h) {
            None => false,
            Some(bucket) => scan_bucket(&self.entries, bucket, board),
        }
    }
}

/// Some place in `bucket` is the place of a node with the key `key`.
spec fn in_bucket(entries: Seq<Elem>, bucket: Seq<usize>, key: Seq<int>) -> bool {
    exists|k: int|
        0 <= k < bucket.len() && (#[trigger] bucket[k]) < entries.len() && values(
            entries[bucket[k] as int].list@,
        ) == key
}

/// A key is closed exactly when a node with that key is on file under the
/// hash of the key.
proof fn lemma_bucket_decides(entries: Seq<Elem>, index: Map<u64, Vec<usize>>, key: Seq<int>)
    requires
        indexed(entries, index),
        entries.len() <= usize::MAX,
    ensures
        is_closed(nodes(entries), key) <==> index.contains_key(hash_of(key)) && in_bucket(
            entries,
            index[hash_of(key)]@,
            key,
        ),
{
    let closed = nodes(entries);
    let h = hash_of(key);
    if is_closed(closed, key) {
        let i = choose|i: int| 0 <= i < closed.len() && #[trigger] key_at(closed, i) == key;
        assert(filed(entries, index, i));
        let bucket = index[h]@;
        let k = choose|k: int| 0 <= k < bucket.len() && bucket[k] == i as usize;
        assert(bucket[k] < entries.len());
    }
    if index.contains_key(h) && in_bucket(entries, index[h]@, key) {
        let bucket = index[h]@;
        let k = choose|k: int|
            0 <= k < bucket.len() && (#[trigger] bucket[k]) < entries.len() && values(
                entries[bucket[k] as int].list@,
            ) == key;
        assert(key_at(closed, bucket[k] as int) == key);
    }
}

/// Looks among the nodes whose places `bucket` holds for one with the
/// values of `board`.
fn scan_bucket(entries: &Vec<Elem>, bucket: &Vec<usize>, board: &Vec<Number>) -> (found: bool)
    requires
        forall|k: int| 0 <= k < bucket@.len() ==> (#[trigger] bucket@[k]) < entries@.len(),
    ensures
        found == in_bucket(entries@, bucket@, values(board@)),
{
    let mut j: usize = 0;
    while j < bucket.len()
        invariant
            j <= bucket@.len(),
            forall|k: int| 0 <= k < bucket@.len() ==> (#[trigger] bucket@[k]) < entries@.len(),
            forall|k: int|
                0 <= k < j ==> values(entries@[(#[trigger] bucket@[k]) as int].list@) != values(
                    board@,
                ),
        decreases bucket@.len() - j,
    {
        if same_values(&entries[bucket[j]].list, board) {
            return true;
        }
        j += 1;
    }
    false
}

} // verus!
