//! One proximity graph of the hierarchy.
//!
//! A level maps node ids to neighbour lists.  Ids are dense (the store
//! assigns them consecutively), but a level holds only a subset of them, so
//! the mapping is kept as an association list whose keys are unique.

use vstd::prelude::*;

verus! {

/// One node's entry in a level: its id and its out-neighbour ids.
pub struct LevelEntry {
    pub id: usize,
    pub neighbors: Vec<usize>,
}

/// One proximity graph of the hierarchy, keyed by node id.
pub struct Level {
    pub entries: Vec<LevelEntry>,
}

impl Level {
    /// How many nodes live in this level.
    pub open spec fn num_nodes(self) -> nat {
        self.entries@.len()
    }

    /// Whether a node id is present in this level.
    pub open spec fn contains_id(self, id: usize) -> bool {
        exists|i: int| 0 <= i < self.entries@.len() && (#[trigger] self.entries@[i]).id == id
    }

    /// The position of a node id in the association list.
    pub open spec fn index_of(self, id: usize) -> int {
        choose|i: int| 0 <= i < self.entries@.len() && (#[trigger] self.entries@[i]).id == id
    }

    /// The neighbour ids of a node in this level.
    pub open spec fn neighbors_of(self, id: usize) -> Seq<usize> {
        self.entries@[self.index_of(id)].neighbors@
    }

    /// The node ids of this level, in storage order.
    pub open spec fn key_seq(self) -> Seq<usize> {
        self.entries@.map_values(|e: LevelEntry| e.id)
    }

    /// Whether an id occurs in some neighbour list of this level.
    pub open spec fn appears_as_neighbor(self, id: usize) -> bool {
        exists|i: int, a: int|
            #![trigger self.entries@[i].neighbors@[a]]
            0 <= i < self.entries@.len() && 0 <= a < self.entries@[i].neighbors@.len()
                && self.entries@[i].neighbors@[a] == id
    }

    /// Keys are unique: each node id appears at most once.
    pub open spec fn wf(self) -> bool {
        forall|i: int, j: int|
            0 <= i < j < self.entries@.len() ==> (#[trigger] self.entries@[i]).id != (
            #[trigger] self.entries@[j]).id
    }

    /// With unique keys, an entry holding `id` is the entry `index_of` picks.
    pub proof fn lemma_index_of_unique(self, i: int)
        requires
            self.wf(),
            0 <= i < self.entries@.len(),
        ensures
            self.index_of(self.entries@[i].id) == i,
            self.contains_id(self.entries@[i].id),
            self.neighbors_of(self.entries@[i].id) == self.entries@[i].neighbors@,
    {
        let id = self.entries@[i].id;
        assert(self.contains_id(id));
        let j = self.index_of(id);
        if i != j {
            assert(self.entries@[i].id != self.entries@[j].id);
        }
    }

    /// A level whose keys are those of `base` plus one fresh id contains
    /// exactly the ids `base` contains, and the fresh one.
    pub proof fn lemma_keys_extension(self, base: Level, node_id: usize)
        requires
            self.entries@.len() == base.entries@.len() + 1,
            forall|i: int|
                0 <= i < base.entries@.len() ==> (#[trigger] self.entries@[i]).id
                    == base.entries@[i].id,
            self.entries@[base.entries@.len() as int].id == node_id,
        ensures
            forall|x: usize|
                #[trigger] self.contains_id(x) <==> (base.contains_id(x) || x == node_id),
    {
        let nb = base.entries@.len() as int;
        assert forall|x: usize|
            #[trigger] self.contains_id(x) <==> (base.contains_id(x) || x == node_id) by {
            if self.contains_id(x) {
                let i = choose|i: int|
                    0 <= i < self.entries@.len() && (#[trigger] self.entries@[i]).id == x;
                if i < nb {
                    assert(base.entries@[i].id == x);
                    assert(base.contains_id(x));
                }
            }
            if base.contains_id(x) {
                let i = choose|i: int|
                    0 <= i < base.entries@.len() && (#[trigger] base.entries@[i]).id == x;
                assert(self.entries@[i].id == x);
                assert(self.contains_id(x));
            }
            if x == node_id {
                assert(self.entries@[nb].id == x);
                assert(self.contains_id(x));
            }
        }
    }

    /// Two levels with the same keys, position by position, contain the
    /// same ids.
    pub proof fn lemma_same_keys(self, other: Level)
        requires
            self.entries@.len() == other.entries@.len(),
            forall|i: int|
                0 <= i < other.entries@.len() ==> (#[trigger] self.entries@[i]).id
                    == other.entries@[i].id,
        ensures
            forall|x: usize| #[trigger] self.contains_id(x) <==> other.contains_id(x),
    {
        assert forall|x: usize| #[trigger] self.contains_id(x) <==> other.contains_id(x) by {
            if self.contains_id(x) {
                let i = choose|i: int|
                    0 <= i < self.entries@.len() && (#[trigger] self.entries@[i]).id == x;
                assert(other.entries@[i].id == x);
                assert(other.contains_id(x));
            }
            if other.contains_id(x) {
                let i = choose|i: int|
                    0 <= i < other.entries@.len() && (#[trigger] other.entries@[i]).id == x;
                assert(self.entries@[i].id == x);
                assert(self.contains_id(x));
            }
        }
    }

    /// An empty level.
    pub fn new() -> (l: Level)
        ensures
            l.entries@.len() == 0,
            l.wf(),
    {
        Level { entries: Vec::new() }
    }

    /// A level holding a single node with no neighbours yet; the list is
    /// sized ahead of time for the level's degree cap.
    pub fn singleton(id: usize, capacity: usize) -> (l: Level)
        ensures
            l.entries@.len() == 1,
            l.entries@[0].id == id,
            l.entries@[0].neighbors@.len() == 0,
            l.wf(),
            l.contains_id(id),
    {
        let mut entries: Vec<LevelEntry> = Vec::new();
        entries.push(LevelEntry { id, neighbors: Vec::with_capacity(capacity) });
        let l = Level { entries };
        proof {
            l.lemma_index_of_unique(0);
        }
        l
    }

    /// How many nodes live in this level.
    pub fn len(&self) -> (n: usize)
        ensures
            n == self.num_nodes(),
    {
        self.entries.len()
    }

    /// The node id stored at a position of the association list.
    pub fn key_at(&self, j: usize) -> (id: usize)
        requires
            j < self.entries@.len(),
        ensures
            id == self.entries@[j as int].id,
            self.wf() ==> self.contains_id(id) && self.index_of(id) == j,
    {
        proof {
            if self.wf() {
                self.lemma_index_of_unique(j as int);
            }
        }
        self.entries[j].id
    }

    /// Find the position of a node id, if it is present.
    pub fn find(&self, id: usize) -> (r: Option<usize>)
        ensures
            match r {
                Some(j) => j < self.entries@.len() && self.entries@[j as int].id == id
                    && self.contains_id(id),
                None => !self.contains_id(id),
            },
    {
        let n = self.entries.len();
        let mut j: usize = 0;
        while j < n
            invariant
                0 <= j <= n,
                n == self.entries@.len(),
                forall|i: int| 0 <= i < j ==> (#[trigger] self.entries@[i]).id != id,
            decreases n - j,
        {
            if self.entries[j].id == id {
                return Some(j);
            }
            j = j + 1;
        }
        None
    }

    /// Whether a node id is present in this level.
    pub fn contains(&self, id: usize) -> (r: bool)
        ensures
            r == self.contains_id(id),
    {
        self.find(id).is_some()
    }

    /// The neighbour ids of a node, if the node is in this level.
    pub fn get(&self, id: usize) -> (r: Option<&Vec<usize>>)
        requires
            self.wf(),
        ensures
            match r {
                Some(v) => self.contains_id(id) && v@ == self.neighbors_of(id),
                None => !self.contains_id(id),
            },
    {
        match self.find(id) {
            Some(j) => {
                proof {
                    self.lemma_index_of_unique(j as int);
                }
                Some(&self.entries[j].neighbors)
            },
            None => None,
        }
    }

    /// Add a node with an empty neighbour list, sized for the level's cap.
    pub fn insert_empty(&mut self, id: usize, capacity: usize)
        requires
            !old(self).contains_id(id),
        ensures
            final(self).entries@.len() == old(self).entries@.len() + 1,
            forall|i: int|
                0 <= i < old(self).entries@.len() ==> final(self).entries@[i] == old(
                    self,
                ).entries@[i],
            final(self).entries@[old(self).entries@.len() as int].id == id,
            final(self).entries@[old(self).entries@.len() as int].neighbors@.len() == 0,
            old(self).wf() ==> final(self).wf(),
            final(self).contains_id(id),
            forall|other: usize|
                #[trigger] final(self).contains_id(other) == (old(self).contains_id(other) || other
                    == id),
    {
        let ghost old_level = *self;
        self.entries.push(LevelEntry { id, neighbors: Vec::with_capacity(capacity) });
        proof {
            let n = old_level.entries@.len() as int;
            let new_level = *self;
            assert forall|other: usize|
                #[trigger] new_level.contains_id(other) == (old_level.contains_id(other) || other
                    == id) by {
                if new_level.contains_id(other) {
                    let i = choose|i: int|
                        0 <= i < new_level.entries@.len() && (#[trigger] new_level.entries@[i]).id
                            == other;
                    if i < n {
                        assert(old_level.contains_id(other));
                    }
                } else {
                    if old_level.contains_id(other) {
                        let i = choose|i: int|
                            0 <= i < old_level.entries@.len() && (
                            #[trigger] old_level.entries@[i]).id == other;
                        assert(new_level.entries@[i].id == other);
                    }
                    if other == id {
                        assert(new_level.entries@[n].id == id);
                    }
                }
            }
            assert(new_level.contains_id(id));
        }
    }

    /// Append a neighbour to the entry at a position.
    pub fn push_neighbor(&mut self, j: usize, nb: usize)
        requires
            j < old(self).entries@.len(),
        ensures
            final(self).entries@.len() == old(self).entries@.len(),
            forall|i: int|
                0 <= i < old(self).entries@.len() && i != j ==> final(self).entries@[i] == old(
                    self,
                ).entries@[i],
            final(self).entries@[j as int].id == old(self).entries@[j as int].id,
            final(self).entries@[j as int].neighbors@ == old(self).entries@[j as int].neighbors@.push(
                nb,
            ),
            old(self).wf() ==> final(self).wf(),
    {
        self.entries[j].neighbors.push(nb);
    }

    /// Replace the neighbour list of the entry at a position.
    pub fn set_neighbors(&mut self, j: usize, nbs: Vec<usize>)
        requires
            j < old(self).entries@.len(),
        ensures
            final(self).entries@.len() == old(self).entries@.len(),
            forall|i: int|
                0 <= i < old(self).entries@.len() && i != j ==> final(self).entries@[i] == old(
                    self,
                ).entries@[i],
            final(self).entries@[j as int].id == old(self).entries@[j as int].id,
            final(self).entries@[j as int].neighbors@ == nbs@,
            old(self).wf() ==> final(self).wf(),
    {
        let id = self.entries[j].id;
        self.entries[j] = LevelEntry { id, neighbors: nbs };
    }
}

} // verus!
