//! The hierarchical navigable small world graph engine.
//!
//! The index keeps every inserted vector in a store that assigns dense ids,
//! and stacks proximity graphs (levels) above it: level 0 holds every node,
//! and each higher level holds a geometrically thinning subset.  Insertion
//! samples a level for the new node, descends the hierarchy greedily, links
//! the node to nearby nodes on each level it joins, and prunes neighbours
//! whose degree overflows the level's cap.  A query descends the same way
//! and finishes with a beam search on the base level.

use crate::candidates::{
    distinct_ids, farthest_distance, ids_of, pop_closest, sort_by_distance, sorted_by_distance,
    take_farthest, Candidate,
};
use crate::level::{Level, LevelEntry};
use crate::metric::Metric;
use crate::rng::rand_below;
use crate::{spec_max_connections, spec_max_connections_0};
use vstd::prelude::*;

verus! {

/// A nearest-neighbour answer: a copy of the stored vector and its distance
/// to the query.
#[derive(Debug)]
pub struct SearchResult {
    pub vector: Vec<i64>,
    pub distance: u64,
}

impl SearchResult {
    pub fn new(vector: Vec<i64>, distance: u64) -> (r: SearchResult)
        ensures
            r.vector == vector,
            r.distance == distance,
    {
        SearchResult { vector, distance }
    }
}

/// Copy a stored vector, element by element.
fn clone_vector(v: &Vec<i64>) -> (r: Vec<i64>)
    ensures
        r@ == v@,
{
    let mut r: Vec<i64> = Vec::new();
    let mut i: usize = 0;
    while i < v.len()
        invariant
            0 <= i <= v@.len(),
            r@ == v@.subrange(0, i as int),
        decreases v@.len() - i,
    {
        r.push(v[i]);
        proof {
            assert(r@ =~= v@.subrange(0, i + 1));
        }
        i = i + 1;
    }
    proof {
        assert(r@ =~= v@);
    }
    r
}

/// How many entries of a boolean sequence are set.
spec fn count_true(s: Seq<bool>) -> int
    decreases s.len(),
{
    if s.len() == 0 {
        0
    } else {
        count_true(s.drop_last()) + if s.last() {
            1int
        } else {
            0int
        }
    }
}

proof fn lemma_count_true_bounds(s: Seq<bool>)
    ensures
        0 <= count_true(s) <= s.len(),
    decreases s.len(),
{
    if s.len() > 0 {
        lemma_count_true_bounds(s.drop_last());
    }
}

proof fn lemma_count_true_set(s: Seq<bool>, i: int)
    requires
        0 <= i < s.len(),
        !s[i],
    ensures
        count_true(s.update(i, true)) == count_true(s) + 1,
    decreases s.len(),
{
    let t = s.update(i, true);
    if i == s.len() - 1 {
        assert(t.drop_last() =~= s.drop_last());
    } else {
        assert(t.drop_last() =~= s.drop_last().update(i, true));
        lemma_count_true_set(s.drop_last(), i);
    }
}

/// The in-memory approximate nearest-neighbour index.
pub struct HNSW<M: Metric> {
    connections: usize,
    ef_construction: usize,
    distance_metric: M,
    rng: rand::rngs::SmallRng,
    max_connections: usize,
    max_connections_0: usize,
    nodes: Vec<Vec<i64>>,
    levels: Vec<Level>,
}

impl<M: Metric> HNSW<M> {
    /// The stored vectors, by id.
    pub closed spec fn spec_nodes(self) -> Seq<Seq<i64>> {
        self.nodes@.map_values(|v: Vec<i64>| v@)
    }

    /// How many vectors the store holds.
    pub closed spec fn spec_len(self) -> nat {
        self.nodes@.len()
    }

    /// The stacked proximity graphs, base level first.
    pub closed spec fn spec_levels(self) -> Seq<Level> {
        self.levels@
    }

    /// How many levels are populated.
    pub closed spec fn spec_num_levels(self) -> nat {
        self.levels@.len()
    }

    /// The `M` parameter: target out-degree of a new node.
    pub closed spec fn spec_connections(self) -> usize {
        self.connections
    }

    /// The beam width used while inserting.
    pub closed spec fn spec_ef_construction(self) -> usize {
        self.ef_construction
    }

    /// The distance collaborator.
    pub closed spec fn spec_metric(self) -> M {
        self.distance_metric
    }

    /// The distance between two vectors under this index's metric.
    pub open spec fn dist(self, x: Seq<i64>, y: Seq<i64>) -> u64 {
        self.spec_metric().spec_distance(x, y)
    }

    /// The degree cap of a level: `max_connections_0` on the base level,
    /// `max_connections` above it.
    pub closed spec fn spec_cap(self, l: int) -> int {
        if l > 0 {
            self.max_connections as int
        } else {
            self.max_connections_0 as int
        }
    }

    /// The configuration is intact: the caps are derived from `connections`
    /// as fixed at construction.
    pub closed spec fn config_wf(self) -> bool {
        &&& 1 <= self.connections
        &&& self.max_connections == spec_max_connections(self.connections as nat)
        &&& self.max_connections_0 == spec_max_connections_0(self.connections as nat)
    }

    /// The adjacency list at position `i` of level `l` is within the
    /// level's degree cap, duplicate-free, and points only at nodes of the
    /// same level.
    pub closed spec fn adj_ok(self, l: int, i: int) -> bool {
        let e = self.levels@[l].entries@[i];
        &&& e.neighbors@.len() <= self.spec_cap(l)
        &&& e.neighbors@.no_duplicates()
        &&& forall|a: int|
            0 <= a < e.neighbors@.len() ==> self.levels@[l].contains_id(
                #[trigger] e.neighbors@[a],
            )
    }

    /// Level `l` is internally consistent: unique keys, at least one node,
    /// every key names a stored vector, every adjacency list is in shape.
    pub closed spec fn level_ok(self, l: int) -> bool {
        let lv = self.levels@[l];
        &&& lv.wf()
        &&& lv.entries@.len() >= 1
        &&& forall|i: int|
            0 <= i < lv.entries@.len() ==> (#[trigger] lv.entries@[i]).id < self.nodes@.len()
        &&& forall|i: int| 0 <= i < lv.entries@.len() ==> self.adj_ok(l, i)
    }

    /// Every level is internally consistent.
    pub closed spec fn levels_ok(self) -> bool {
        forall|l: int| 0 <= l < self.levels@.len() ==> self.level_ok(l)
    }

    /// A node of a level also lives in every lower level.
    pub closed spec fn downward_wf(self) -> bool {
        forall|l: int, id: usize|
            1 <= l < self.levels@.len() && #[trigger] self.levels@[l].contains_id(id)
                ==> self.levels@[l - 1].contains_id(id)
    }

    /// The base level carries exactly the store: levels exist iff nodes do,
    /// every stored id is on level 0, and level 0 is as large as the store.
    pub closed spec fn base_wf(self) -> bool {
        &&& (self.levels@.len() == 0 <==> self.nodes@.len() == 0)
        &&& forall|id: usize|
            id < self.nodes@.len() ==> #[trigger] self.levels@[0].contains_id(id)
        &&& (self.levels@.len() > 0 ==> self.levels@[0].entries@.len() == self.nodes@.len())
    }

    /// The index invariant: every completed public operation preserves it.
    pub closed spec fn wf(self) -> bool {
        &&& self.config_wf()
        &&& self.levels_ok()
        &&& self.downward_wf()
        &&& self.base_wf()
    }

    /// Everything but the random generator's state agrees.
    pub closed spec fn eq_but_rng(self, other: Self) -> bool {
        &&& other.connections == self.connections
        &&& other.ef_construction == self.ef_construction
        &&& other.distance_metric == self.distance_metric
        &&& other.max_connections == self.max_connections
        &&& other.max_connections_0 == self.max_connections_0
        &&& other.nodes == self.nodes
        &&& other.levels == self.levels
    }

    /// The configuration fields agree.
    pub closed spec fn same_config(self, other: Self) -> bool {
        &&& other.connections == self.connections
        &&& other.ef_construction == self.ef_construction
        &&& other.distance_metric == self.distance_metric
        &&& other.max_connections == self.max_connections
        &&& other.max_connections_0 == self.max_connections_0
    }

    /// What `same_config` means through the public accessors: the
    /// parameters, the metric and every level's degree cap are shared.
    pub proof fn lemma_same_config(self, other: Self)
        requires
            self.same_config(other),
        ensures
            other.spec_connections() == self.spec_connections(),
            other.spec_ef_construction() == self.spec_ef_construction(),
            other.spec_metric() == self.spec_metric(),
            forall|l: int| #![trigger other.spec_cap(l)] other.spec_cap(l) == self.spec_cap(l),
    {
    }

    /// The sizes reported by `spec_len` and `spec_num_levels` are the
    /// lengths of the store and level views.
    pub proof fn lemma_views_consistent(self)
        ensures
            self.spec_len() == self.spec_nodes().len(),
            self.spec_num_levels() == self.spec_levels().len(),
    {
    }

    /// Levels exist exactly while the store is non-empty.
    pub proof fn lemma_levels_iff_store(self)
        requires
            self.wf(),
        ensures
            (self.spec_num_levels() == 0) <==> (self.spec_len() == 0),
    {
    }

    /// The degree caps fixed at construction, spelled out.
    pub proof fn lemma_caps(self)
        requires
            self.wf(),
        ensures
            self.spec_cap(0) == 2 * self.spec_connections(),
            forall|l: int| l > 0 ==> self.spec_cap(l) == (3 * self.spec_connections() + 1) / 2,
            self.spec_connections() >= 1,
    {
    }

    /// Build an empty index.
    ///
    /// `connections` is the target out-degree `M`; the per-level degree caps
    /// are fixed here as `round(1.5 * M)` (computed exactly in integers) for
    /// the upper levels and `2 * M` for the base level.
    pub fn new(
        connections: usize,
        ef_construction: usize,
        distance_metric: M,
        rng: rand::rngs::SmallRng,
    ) -> (r: HNSW<M>)
        requires
            1 <= connections,
            3 * connections + 1 <= usize::MAX,
        ensures
            r.wf(),
            r.spec_len() == 0,
            r.spec_num_levels() == 0,
            r.spec_nodes() == Seq::<Seq<i64>>::empty(),
            r.spec_levels() == Seq::<Level>::empty(),
            r.spec_connections() == connections,
            r.spec_ef_construction() == ef_construction,
            r.spec_metric() == distance_metric,
            r.spec_cap(0) == 2 * connections,
            forall|l: int| l > 0 ==> #[trigger] r.spec_cap(l) == (3 * connections + 1) / 2,
    {
        // round(1.5 * connections) with ties away from zero, exactly
        let max_connections = (3 * connections + 1) / 2;
        let max_connections_0 = 2 * connections;
        HNSW {
            connections,
            ef_construction,
            distance_metric,
            rng,
            max_connections,
            max_connections_0,
            nodes: Vec::new(),
            levels: Vec::new(),
        }
    }

    /// Whether the store holds no vectors.
    pub fn is_empty(&self) -> (r: bool)
        ensures
            r == (self.spec_len() == 0),
    {
        self.nodes.is_empty()
    }

    /// Return the number of vectors stored in the index.
    pub fn len(&self) -> (n: usize)
        ensures
            n == self.spec_len(),
    {
        self.nodes.len()
    }

    /// Return the number of levels in the index.
    pub fn num_levels(&self) -> (n: usize)
        ensures
            n == self.spec_num_levels(),
    {
        self.levels.len()
    }

    /// Reset the index by deleting all the vectors and layers.
    ///
    /// The configuration survives; the random generator's state is kept as
    /// it stands, not reseeded.
    pub fn clear(&mut self)
        requires
            old(self).wf(),
        ensures
            final(self).wf(),
            final(self).spec_len() == 0,
            final(self).spec_num_levels() == 0,
            final(self).spec_nodes() == Seq::<Seq<i64>>::empty(),
            final(self).spec_levels() == Seq::<Level>::empty(),
            old(self).same_config(*final(self)),
    {
        self.levels = Vec::new();
        self.nodes = Vec::new();
        proof {
            assert(final(self).spec_nodes() =~= Seq::<Seq<i64>>::empty());
        }
    }

    /// Store a vector and return its id: ids are assigned densely, in
    /// insertion order.
    fn insert_vector(&mut self, vector: &Vec<i64>) -> (id: usize)
        ensures
            id == old(self).nodes@.len(),
            final(self).nodes@.len() == old(self).nodes@.len() + 1,
            final(self).spec_nodes() == old(self).spec_nodes().push(vector@),
            final(self).levels == old(self).levels,
            old(self).same_config(*final(self)),
            final(self).rng == old(self).rng,
    {
        let id = self.nodes.len();
        self.nodes.push(clone_vector(vector));
        proof {
            assert(final(self).spec_nodes() =~= old(self).spec_nodes().push(vector@));
        }
        id
    }

    /// Append a fresh level holding only the given node.
    fn insert_level_then_node(&mut self, id: usize, capacity: usize)
        ensures
            final(self).levels@.len() == old(self).levels@.len() + 1,
            forall|l: int|
                0 <= l < old(self).levels@.len() ==> final(self).levels@[l] == old(self).levels@[l],
            final(self).levels@.last().entries@.len() == 1,
            final(self).levels@.last().entries@[0].id == id,
            final(self).levels@.last().entries@[0].neighbors@.len() == 0,
            final(self).levels@.last().wf(),
            final(self).levels@.last().contains_id(id),
            final(self).nodes == old(self).nodes,
            old(self).same_config(*final(self)),
            final(self).rng == old(self).rng,
    {
        let level = Level::singleton(id, capacity);
        self.levels.push(level);
    }

    /// The degree cap for a level: the base level takes the larger cap, as
    /// the HNSW paper recommends.
    fn get_max_connections(&self, level_index: usize) -> (c: usize)
        ensures
            c == self.spec_cap(level_index as int),
    {
        if level_index > 0 {
            self.max_connections
        } else {
            self.max_connections_0
        }
    }

    /// Sample the highest level index a new node will join.
    ///
    /// Each further level is kept with probability `1 / connections`, so the
    /// result is geometric with ratio `1 / connections`, the distribution
    /// `floor(-ln(p) / ln(connections))` has for `p` uniform in (0, 1].  The
    /// walk stops at `cap`: the caller treats that as sampling past the top.
    fn sample_max_level_index(&mut self, cap: usize) -> (level: usize)
        requires
            old(self).config_wf(),
        ensures
            level <= cap,
            old(self).eq_but_rng(*final(self)),
    {
        let mut level: usize = 0;
        while level < cap
            invariant
                level <= cap,
                self.connections >= 1,
                old(self).eq_but_rng(*self),
            ensures
                level <= cap,
                old(self).eq_but_rng(*self),
            decreases cap - level,
        {
            let draw = rand_below(&mut self.rng, self.connections);
            if draw != 0 {
                break ;
            }
            level = level + 1;
        }
        level
    }

    /// Pick an entry id uniformly from the nodes of a level.
    fn sample_entry_id(&mut self, level_index: usize) -> (id: usize)
        requires
            level_index < old(self).levels@.len(),
            old(self).level_ok(level_index as int),
        ensures
            old(self).levels@[level_index as int].contains_id(id),
            id < old(self).nodes@.len(),
            old(self).eq_but_rng(*final(self)),
    {
        let n = self.levels[level_index].len();
        let j = rand_below(&mut self.rng, n);
        let lv = &self.levels[level_index];
        let id = lv.key_at(j);
        proof {
            lv.lemma_index_of_unique(j as int);
        }
        id
    }

    /// What a search within one level may report: a node of that level, at
    /// its true distance from the query, reached from the entry set or
    /// through some adjacency list.
    spec fn cand_ok(self, l: int, q: Seq<i64>, entries: Seq<usize>, c: Candidate) -> bool {
        &&& c.id < self.nodes@.len()
        &&& self.levels@[l].contains_id(c.id)
        &&& c.distance == self.distance_metric.spec_distance(q, self.nodes@[c.id as int]@)
        &&& (entries.contains(c.id) || self.levels@[l].appears_as_neighbor(c.id))
    }

    /// An id present in a consistent level names a stored vector.
    proof fn lemma_contained_id_bound(self, l: int, id: usize)
        requires
            self.level_ok(l),
            self.levels@[l].contains_id(id),
        ensures
            id < self.nodes@.len(),
    {
        let lv = self.levels@[l];
        let i = choose|i: int| 0 <= i < lv.entries@.len() && (#[trigger] lv.entries@[i]).id == id;
        assert(lv.entries@[i].id < self.nodes@.len());
    }

    /// Best-first search within one level: explore the graph greedily from
    /// the entry nodes and return up to `ef` of the closest nodes seen,
    /// sorted by ascending distance, each at its true distance and reported
    /// once.
    #[verifier::loop_isolation(false)]
    fn search_level(
        &self,
        level_index: usize,
        query: &Vec<i64>,
        entry_ids: &Vec<usize>,
        ef: usize,
    ) -> (result: Vec<Candidate>)
        requires
            level_index < self.levels@.len(),
            self.level_ok(level_index as int),
            entry_ids@.no_duplicates(),
            forall|a: int|
                0 <= a < entry_ids@.len() ==> self.levels@[level_index as int].contains_id(
                    #[trigger] entry_ids@[a],
                ),
        ensures
            result@.len() <= ef || result@.len() <= entry_ids@.len(),
            entry_ids@.len() == 0 ==> result@.len() == 0,
            entry_ids@.len() >= 1 ==> result@.len() >= 1,
            sorted_by_distance(result@),
            distinct_ids(result@),
            forall|k: int|
                0 <= k < result@.len() ==> self.cand_ok(
                    level_index as int,
                    query@,
                    entry_ids@,
                    #[trigger] result@[k],
                ),
    {
        let ghost li = level_index as int;
        let n = self.nodes.len();
        let mut cands: Vec<Candidate> = Vec::new();
        let mut nearest: Vec<Candidate> = Vec::new();
        let mut visited: Vec<bool> = Vec::new();
        let mut vi: usize = 0;
        while vi < n
            invariant
                vi <= n,
                visited@.len() == vi,
            decreases n - vi,
        {
            visited.push(false);
            vi = vi + 1;
        }
        let mut t: usize = 0;
        while t < entry_ids.len()
            invariant
                t <= entry_ids@.len(),
                visited@.len() == n,
                cands@ == nearest@,
                nearest@.len() == t,
                forall|k: int| 0 <= k < t ==> (#[trigger] nearest@[k]).id == entry_ids@[k],
                forall|k: int|
                    0 <= k < t ==> self.cand_ok(li, query@, entry_ids@, #[trigger] nearest@[k]),
                forall|k: int|
                    0 <= k < nearest@.len() ==> visited@[(#[trigger] nearest@[k]).id as int],
            decreases entry_ids@.len() - t,
        {
            let eid = entry_ids[t];
            proof {
                self.lemma_contained_id_bound(li, eid);
            }
            let d = self.distance_metric.distance(query, &self.nodes[eid]);
            visited.set(eid, true);
            cands.push(Candidate { id: eid, distance: d });
            nearest.push(Candidate { id: eid, distance: d });
            proof {
                assert(entry_ids@.contains(entry_ids@[t as int]));
            }
            t = t + 1;
        }
        proof {
            lemma_count_true_bounds(visited@);
        }
        #[verifier::loop_isolation(true)]
        while cands.len() > 0
            invariant
                li == level_index as int,
                level_index < self.levels@.len(),
                self.level_ok(li),
                entry_ids@.no_duplicates(),
                forall|a: int|
                    0 <= a < entry_ids@.len() ==> self.levels@[li].contains_id(
                        #[trigger] entry_ids@[a],
                    ),
                n == self.nodes@.len(),
                visited@.len() == n,
                0 <= count_true(visited@) <= n,
                nearest@.len() <= ef || nearest@.len() <= entry_ids@.len(),
                entry_ids@.len() == 0 ==> nearest@.len() == 0,
                cands@.len() > 0 ==> nearest@.len() >= 1,
                entry_ids@.len() >= 1 ==> nearest@.len() >= 1,
                distinct_ids(nearest@),
                forall|k: int|
                    0 <= k < nearest@.len() ==> self.cand_ok(
                        li,
                        query@,
                        entry_ids@,
                        #[trigger] nearest@[k],
                    ),
                forall|k: int|
                    0 <= k < nearest@.len() ==> visited@[(#[trigger] nearest@[k]).id as int],
                forall|k: int|
                    0 <= k < cands@.len() ==> self.cand_ok(
                        li,
                        query@,
                        entry_ids@,
                        #[trigger] cands@[k],
                    ),
            ensures
                nearest@.len() <= ef || nearest@.len() <= entry_ids@.len(),
                entry_ids@.len() == 0 ==> nearest@.len() == 0,
                entry_ids@.len() >= 1 ==> nearest@.len() >= 1,
                distinct_ids(nearest@),
                forall|k: int|
                    0 <= k < nearest@.len() ==> self.cand_ok(
                        li,
                        query@,
                        entry_ids@,
                        #[trigger] nearest@[k],
                    ),
            decreases cands@.len() + n - count_true(visited@),
        {
            let ghost cands_before = cands@;
            let closest = pop_closest(&mut cands);
            proof {
                let j = choose|j: int|
                    0 <= j < cands_before.len() && closest == cands_before[j] && cands@
                        == #[trigger] cands_before.remove(j);
                crate::candidates::lemma_remove_effect(cands_before, j);
                assert forall|k: int|
                    0 <= k < cands@.len() implies self.cand_ok(
                    li,
                    query@,
                    entry_ids@,
                    #[trigger] cands@[k],
                ) by {
                    assert(cands@.contains(cands@[k]));
                    let k0 = choose|k0: int|
                        0 <= k0 < cands_before.len() && cands_before[k0] == cands@[k];
                }
                assert(cands_before.contains(closest));
            }
            let furthest = farthest_distance(&nearest);
            if closest.distance > furthest {
                break ;
            }
            let ghost m0 = cands@.len() + n - count_true(visited@);
            let lv = &self.levels[level_index];
            match lv.get(closest.id) {
                Some(nbrs) => {
                    proof {
                        let idx = lv.index_of(closest.id);
                        let i0 = choose|i0: int|
                            0 <= i0 < lv.entries@.len() && (#[trigger] lv.entries@[i0]).id
                                == closest.id;
                        lv.lemma_index_of_unique(i0);
                        assert(self.adj_ok(li, idx));
                    }
                    let mut t2: usize = 0;
                    while t2 < nbrs.len()
                        invariant
                            t2 <= nbrs@.len(),
                            visited@.len() == n,
                            0 <= count_true(visited@) <= n,
                            cands@.len() + n - count_true(visited@) <= m0,
                            nearest@.len() <= ef || nearest@.len() <= entry_ids@.len(),
                            entry_ids@.len() == 0 ==> nearest@.len() == 0,
                            nearest@.len() >= 1,
                            distinct_ids(nearest@),
                            forall|k: int|
                                0 <= k < nearest@.len() ==> self.cand_ok(
                                    li,
                                    query@,
                                    entry_ids@,
                                    #[trigger] nearest@[k],
                                ),
                            forall|k: int|
                                0 <= k < nearest@.len() ==> visited@[(
                                #[trigger] nearest@[k]).id as int],
                            forall|k: int|
                                0 <= k < cands@.len() ==> self.cand_ok(
                                    li,
                                    query@,
                                    entry_ids@,
                                    #[trigger] cands@[k],
                                ),
                        decreases nbrs@.len() - t2,
                    {
                        let nb = nbrs[t2];
                        proof {
                            assert(lv.contains_id(nb));
                            self.lemma_contained_id_bound(li, nb);
                            assert(lv.appears_as_neighbor(nb)) by {
                                let idx = lv.index_of(closest.id);
                                assert(lv.entries@[idx].neighbors@[t2 as int] == nb);
                            }
                        }
                        if !visited[nb] {
                            let ghost visited_before = visited@;
                            visited.set(nb, true);
                            proof {
                                lemma_count_true_set(visited_before, nb as int);
                                lemma_count_true_bounds(visited@);
                            }
                            let d = self.distance_metric.distance(query, &self.nodes[nb]);
                            if nearest.len() < ef || d < furthest {
                                let ghost nearest_before = nearest@;
                                cands.push(Candidate { id: nb, distance: d });
                                nearest.push(Candidate { id: nb, distance: d });
                                proof {
                                    assert forall|i: int, j: int|
                                        0 <= i < j < nearest@.len() implies (
                                    #[trigger] nearest@[i]).id != (#[trigger] nearest@[j]).id by {
                                        if j == nearest@.len() - 1 {
                                            assert(!visited_before[(nearest_before[i]).id as int]
                                                == false || nearest_before[i].id != nb);
                                        }
                                    }
                                }
                                if nearest.len() > ef {
                                    let ghost nearest_full = nearest@;
                                    let _evicted = take_farthest(&mut nearest);
                                    proof {
                                        let j = choose|j: int|
                                            0 <= j < nearest_full.len() && _evicted
                                                == nearest_full[j] && nearest@
                                                == #[trigger] nearest_full.remove(j);
                                        crate::candidates::lemma_remove_effect(nearest_full, j);
                                        assert forall|k: int|
                                            0 <= k < nearest@.len() implies self.cand_ok(
                                            li,
                                            query@,
                                            entry_ids@,
                                            #[trigger] nearest@[k],
                                        ) && visited@[nearest@[k].id as int] by {
                                            assert(nearest@.contains(nearest@[k]));
                                            let k0 = choose|k0: int|
                                                0 <= k0 < nearest_full.len() && nearest_full[k0]
                                                    == nearest@[k];
                                        }
                                    }
                                }
                            }
                        }
                        t2 = t2 + 1;
                    }
                },
                None => {
                },
            }
        }
        let ghost nearest_seq = nearest@;
        let result = sort_by_distance(nearest);
        proof {
            assert forall|k: int|
                0 <= k < result@.len() implies self.cand_ok(
                li,
                query@,
                entry_ids@,
                #[trigger] result@[k],
            ) by {
                assert(result@.contains(result@[k]));
                assert(nearest_seq.contains(result@[k]));
                let k0 = choose|k0: int|
                    0 <= k0 < nearest_seq.len() && nearest_seq[k0] == result@[k];
            }
        }
        result
    }

    /// Keep the closest candidates: the first `min(k, len - 1) + 1` of an
    /// ascending candidate list, that is up to `k + 1` of them — one more
    /// than `k`, deliberately.  The HNSW paper's selection heuristic is
    /// not applied.
    #[verifier::loop_isolation(false)]
    fn select_neighbors(&self, candidates: &Vec<Candidate>, k: usize) -> (r: Vec<Candidate>)
        requires
            candidates@.len() >= 1,
            k < usize::MAX,
        ensures
            r@ == candidates@.subrange(
                0,
                if k + 1 <= candidates@.len() {
                    k + 1
                } else {
                    candidates@.len() as int
                },
            ),
    {
        let upto = if k <= candidates.len() - 1 {
            k
        } else {
            candidates.len() - 1
        };
        let mut r: Vec<Candidate> = Vec::new();
        let mut i: usize = 0;
        while i <= upto
            invariant
                i <= upto + 1,
                upto < candidates@.len(),
                r@ == candidates@.subrange(0, i as int),
            decreases upto + 1 - i,
        {
            r.push(candidates[i]);
            proof {
                assert(r@ =~= candidates@.subrange(0, i + 1));
            }
            i = i + 1;
        }
        r
    }

    /// Create a bidirectional edge between a node and each chosen
    /// candidate, in a given level: each edge is stored as two independent
    /// adjacency entries.
    #[verifier::loop_isolation(false)]
    fn connect_neighbors(&mut self, level_index: usize, node_id: usize, neighbors: &Vec<Candidate>)
        requires
            level_index < old(self).levels@.len(),
            old(self).levels@[level_index as int].wf(),
            old(self).levels@[level_index as int].contains_id(node_id),
            distinct_ids(neighbors@),
            forall|t: int|
                0 <= t < neighbors@.len() ==> old(self).levels@[level_index as int].contains_id(
                    (#[trigger] neighbors@[t]).id,
                ) && neighbors@[t].id != node_id,
            forall|i: int, a: int|
                #![trigger old(self).levels@[level_index as int].entries@[i].neighbors@[a]]
                0 <= i < old(self).levels@[level_index as int].entries@.len() && 0 <= a < old(self).levels@[level_index as int].entries@[i].neighbors@.len() ==> old(self).levels@[level_index as int].entries@[i].neighbors@[a] != node_id,
        ensures
            final(self).nodes == old(self).nodes,
            old(self).same_config(*final(self)),
            final(self).rng == old(self).rng,
            final(self).levels@.len() == old(self).levels@.len(),
            forall|l: int|
                0 <= l < old(self).levels@.len() && l != level_index as int ==> final(self).levels@[l] == old(self).levels@[l],
            final(self).levels@[level_index as int].entries@.len() == old(self).levels@[level_index as int].entries@.len(),
            final(self).levels@[level_index as int].wf(),
            forall|i: int|
                0 <= i < old(self).levels@[level_index as int].entries@.len() ==> (
                #[trigger] final(self).levels@[level_index as int].entries@[i]).id == old(self).levels@[level_index as int].entries@[i].id,
            forall|i: int|
                0 <= i < old(self).levels@[level_index as int].entries@.len() && old(self).levels@[level_index as int].entries@[i].id == node_id ==> (#[trigger] final(self).levels@[level_index as int].entries@[i]).neighbors@ == old(self).levels@[level_index as int].entries@[i].neighbors@ + ids_of(neighbors@),
            forall|i: int|
                0 <= i < old(self).levels@[level_index as int].entries@.len() && old(self).levels@[level_index as int].entries@[i].id != node_id && ids_of(
                    neighbors@,
                ).contains(old(self).levels@[level_index as int].entries@[i].id) ==> (
                #[trigger] final(self).levels@[level_index as int].entries@[i]).neighbors@ == old(self).levels@[level_index as int].entries@[i].neighbors@.push(node_id),
            forall|i: int|
                0 <= i < old(self).levels@[level_index as int].entries@.len() && old(self).levels@[level_index as int].entries@[i].id != node_id && !ids_of(
                    neighbors@,
                ).contains(old(self).levels@[level_index as int].entries@[i].id) ==> (
                #[trigger] final(self).levels@[level_index as int].entries@[i]) == old(self).levels@[level_index as int].entries@[i],
    {
        let ghost li = level_index as int;
        let ghost lv0 = old(self).levels@[li];
        let mut t: usize = 0;
        while t < neighbors.len()
            invariant
                t <= neighbors@.len(),
                self.nodes == old(self).nodes,
                old(self).same_config(*self),
                self.rng == old(self).rng,
                self.levels@.len() == old(self).levels@.len(),
                forall|l: int|
                    0 <= l < old(self).levels@.len() && l != li ==> self.levels@[l] == old(self).levels@[l],
                self.levels@[li].entries@.len() == lv0.entries@.len(),
                self.levels@[li].wf(),
                forall|i: int|
                    0 <= i < lv0.entries@.len() ==> (#[trigger] self.levels@[li].entries@[i]).id
                        == lv0.entries@[i].id,
                forall|i: int|
                    0 <= i < lv0.entries@.len() && lv0.entries@[i].id == node_id ==> (
                    #[trigger] self.levels@[li].entries@[i]).neighbors@ == lv0.entries@[i].neighbors@
                        + ids_of(neighbors@.subrange(0, t as int)),
                forall|i: int|
                    0 <= i < lv0.entries@.len() && lv0.entries@[i].id != node_id && ids_of(
                        neighbors@.subrange(0, t as int),
                    ).contains(lv0.entries@[i].id) ==> (
                    #[trigger] self.levels@[li].entries@[i]).neighbors@ == lv0.entries@[i].neighbors@.push(
                        node_id,
                    ),
                forall|i: int|
                    0 <= i < lv0.entries@.len() && lv0.entries@[i].id != node_id && !ids_of(
                        neighbors@.subrange(0, t as int),
                    ).contains(lv0.entries@[i].id) ==> (
                    #[trigger] self.levels@[li].entries@[i]) == lv0.entries@[i],
            decreases neighbors@.len() - t,
        {
            let ghost prefix_before = ids_of(neighbors@.subrange(0, t as int));
            let ghost lv_before = self.levels@[li];
            let c_id = neighbors[t].id;
            let jn = match self.levels[level_index].find(node_id) {
                Some(jn) => jn,
                None => {
                    proof {
                        let i0 = choose|i0: int|
                            0 <= i0 < lv0.entries@.len() && (#[trigger] lv0.entries@[i0]).id
                                == node_id;
                        assert(self.levels@[li].entries@[i0].id == node_id);
                        assert(false);
                    }
                    0
                },
            };
            self.levels[level_index].push_neighbor(jn, c_id);
            let jc = match self.levels[level_index].find(c_id) {
                Some(jc) => jc,
                None => {
                    proof {
                        let i0 = choose|i0: int|
                            0 <= i0 < lv0.entries@.len() && (#[trigger] lv0.entries@[i0]).id
                                == c_id;
                        assert(self.levels@[li].entries@[i0].id == c_id);
                        assert(false);
                    }
                    0
                },
            };
            self.levels[level_index].push_neighbor(jc, node_id);
            proof {
                let pre = prefix_before;
                let post = ids_of(neighbors@.subrange(0, t + 1));
                assert(post =~= pre.push(c_id));
                assert(post[t as int] == c_id);
                let lv_now = self.levels@[li];
                assert(jn != jc);
                assert forall|i: int|
                    0 <= i < lv0.entries@.len() && lv0.entries@[i].id == node_id implies (
                #[trigger] lv_now.entries@[i]).neighbors@ == lv0.entries@[i].neighbors@
                    + post by {
                    assert(lv_before.entries@[i].id == node_id);
                    if i != jn {
                        assert(lv_now.entries@[jn as int].id == node_id);
                        assert(false);
                    }
                    assert(lv_now.entries@[i].neighbors@ =~= lv0.entries@[i].neighbors@ + post);
                }
                assert forall|i: int|
                    0 <= i < lv0.entries@.len() && lv0.entries@[i].id != node_id && post.contains(
                        lv0.entries@[i].id,
                    ) implies (#[trigger] lv_now.entries@[i]).neighbors@
                    == lv0.entries@[i].neighbors@.push(node_id) by {
                    let eid = lv0.entries@[i].id;
                    let w = choose|w: int| 0 <= w < post.len() && post[w] == eid;
                    if w < t {
                        assert(pre[w] == eid);
                        assert(pre.contains(eid));
                        assert(eid != c_id) by {
                            assert(neighbors@[w].id == eid);
                            assert(neighbors@[t as int].id == c_id);
                        }
                        assert(i != jn && i != jc);
                        assert(lv_now.entries@[i] == lv_before.entries@[i]);
                    } else {
                        assert(eid == c_id);
                        if i != jc {
                            assert(lv_now.entries@[jc as int].id == c_id);
                            assert(false);
                        }
                        assert(!pre.contains(eid)) by {
                            if pre.contains(eid) {
                                let w2 = choose|w2: int| 0 <= w2 < pre.len() && pre[w2] == eid;
                                assert(neighbors@[w2].id == eid);
                                assert(neighbors@[t as int].id == c_id);
                            }
                        }
                        assert(lv_before.entries@[i] == lv0.entries@[i]);
                    }
                }
                assert forall|i: int|
                    0 <= i < lv0.entries@.len() && lv0.entries@[i].id != node_id && !post.contains(
                        lv0.entries@[i].id,
                    ) implies (#[trigger] lv_now.entries@[i]) == lv0.entries@[i] by {
                    let eid = lv0.entries@[i].id;
                    assert(!pre.contains(eid)) by {
                        if pre.contains(eid) {
                            let w2 = choose|w2: int| 0 <= w2 < pre.len() && pre[w2] == eid;
                            assert(post[w2] == eid);
                        }
                    }
                    assert(eid != c_id) by {
                        assert(post[t as int] == c_id);
                    }
                    assert(i != jn && i != jc);
                    assert(lv_now.entries@[i] == lv_before.entries@[i]);
                }
            }
            t = t + 1;
        }
        proof {
            assert(neighbors@.subrange(0, neighbors@.len() as int) =~= neighbors@);
        }
    }

    /// The distance from a stored node to a stored neighbour.
    spec fn prune_dist(self, center: usize, nb: usize) -> u64 {
        self.distance_metric.spec_distance(self.nodes@[center as int]@, self.nodes@[nb as int]@)
    }

    /// How pruning rewrites one neighbour list: a list over the level's
    /// cap is cut down to exactly `cap` of its own former ids, kept
    /// duplicate-free, and every neighbour kept is at most as far from the
    /// `center` node as every neighbour dropped; a list within the cap is
    /// untouched.
    pub closed spec fn pruned_list_ok(
        self,
        l: int,
        center: usize,
        grown: Seq<usize>,
        kept: Seq<usize>,
    ) -> bool {
        let cap = self.spec_cap(l);
        if grown.len() > cap {
            &&& kept.len() == cap
            &&& kept.no_duplicates()
            &&& (forall|a: int| 0 <= a < kept.len() ==> grown.contains(#[trigger] kept[a]))
            &&& (forall|a: int, b: int|
                #![trigger kept[a], grown[b]]
                0 <= a < kept.len() && 0 <= b < grown.len() && !kept.contains(grown[b])
                    ==> self.prune_dist(center, kept[a]) <= self.prune_dist(center, grown[b]))
        } else {
            kept == grown
        }
    }

    /// What `pruned_list_ok` grants, spelled out for callers over the
    /// public distance function; the id bounds let the distances be read
    /// off the store.
    pub proof fn lemma_pruned_list_ok(self, l: int, center: usize, grown: Seq<usize>, kept: Seq<
        usize,
    >)
        requires
            self.pruned_list_ok(l, center, grown, kept),
            center < self.spec_len(),
            forall|a: int| 0 <= a < grown.len() ==> #[trigger] grown[a] < self.spec_len(),
        ensures
            grown.len() <= self.spec_cap(l) ==> kept == grown,
            grown.len() > self.spec_cap(l) ==> kept.len() == self.spec_cap(l)
                && kept.no_duplicates() && (forall|a: int|
                0 <= a < kept.len() ==> grown.contains(#[trigger] kept[a])) && (forall|
                a: int,
                b: int,
            |
                #![trigger kept[a], grown[b]]
                0 <= a < kept.len() && 0 <= b < grown.len() && !kept.contains(grown[b])
                    ==> self.dist(
                    self.spec_nodes()[center as int],
                    self.spec_nodes()[kept[a] as int],
                ) <= self.dist(
                    self.spec_nodes()[center as int],
                    self.spec_nodes()[grown[b] as int],
                )),
    {
        if grown.len() > self.spec_cap(l) {
            assert forall|a: int, b: int|
                #![trigger kept[a], grown[b]]
                0 <= a < kept.len() && 0 <= b < grown.len() && !kept.contains(
                    grown[b],
                ) implies self.dist(
                self.spec_nodes()[center as int],
                self.spec_nodes()[kept[a] as int],
            ) <= self.dist(
                self.spec_nodes()[center as int],
                self.spec_nodes()[grown[b] as int],
            ) by {
                assert(self.prune_dist(center, kept[a]) <= self.prune_dist(center, grown[b]));
                assert(grown.contains(kept[a]));
                let w = choose|w: int| 0 <= w < grown.len() && grown[w] == kept[a];
                assert(grown[w] < self.spec_len());
                assert(self.spec_nodes()[kept[a] as int] == self.nodes@[kept[a] as int]@);
                assert(self.spec_nodes()[grown[b] as int] == self.nodes@[grown[b] as int]@);
                assert(self.spec_nodes()[center as int] == self.nodes@[center as int]@);
            }
        }
    }

    /// How pruning rewrites one adjacency entry.
    spec fn pruned_entry(self, l: int, olde: LevelEntry, newe: LevelEntry) -> bool {
        &&& newe.id == olde.id
        &&& self.pruned_list_ok(l, olde.id, olde.neighbors@, newe.neighbors@)
    }

    /// Prune the adjacency of each affected neighbour back to the level's
    /// degree cap, keeping the closest neighbours and dropping the rest.
    /// Pruning is one-sided: a dropped neighbour keeps its own edge back.
    #[verifier::loop_isolation(false)]
    fn prune_connections(&mut self, level_index: usize, neighbors: &Vec<Candidate>)
        requires
            level_index < old(self).levels@.len(),
            old(self).levels@[level_index as int].wf(),
            forall|i: int|
                0 <= i < old(self).levels@[level_index as int].entries@.len() ==> (#[trigger] old(self).levels@[level_index as int].entries@[i]).id < old(self).nodes@.len(),
            forall|i: int|
                0 <= i < old(self).levels@[level_index as int].entries@.len() ==> (#[trigger] old(self).levels@[level_index as int].entries@[i]).neighbors@.no_duplicates(),
            forall|i: int, a: int|
                #![trigger old(self).levels@[level_index as int].entries@[i].neighbors@[a]]
                0 <= i < old(self).levels@[level_index as int].entries@.len() && 0 <= a < old(self).levels@[level_index as int].entries@[i].neighbors@.len() ==> old(self).levels@[level_index as int].entries@[i].neighbors@[a] < old(self).nodes@.len(),
        ensures
            final(self).nodes == old(self).nodes,
            old(self).same_config(*final(self)),
            final(self).rng == old(self).rng,
            final(self).levels@.len() == old(self).levels@.len(),
            forall|l: int|
                0 <= l < old(self).levels@.len() && l != level_index as int ==> final(self).levels@[l] == old(self).levels@[l],
            final(self).levels@[level_index as int].entries@.len() == old(self).levels@[level_index as int].entries@.len(),
            final(self).levels@[level_index as int].wf(),
            forall|i: int|
                0 <= i < old(self).levels@[level_index as int].entries@.len() ==> (#[trigger] final(self).levels@[level_index as int].entries@[i]).id == old(self).levels@[level_index as int].entries@[i].id,
            forall|i: int|
                0 <= i < old(self).levels@[level_index as int].entries@.len() && ids_of(
                    neighbors@,
                ).contains((#[trigger] old(self).levels@[level_index as int].entries@[i]).id)
                    ==> final(self).pruned_entry(
                    level_index as int,
                    old(self).levels@[level_index as int].entries@[i],
                    final(self).levels@[level_index as int].entries@[i],
                ),
            forall|i: int|
                0 <= i < old(self).levels@[level_index as int].entries@.len() && !ids_of(
                    neighbors@,
                ).contains((#[trigger] old(self).levels@[level_index as int].entries@[i]).id)
                    ==> final(self).levels@[level_index as int].entries@[i] == old(self).levels@[level_index as int].entries@[i],
    {
        let ghost li = level_index as int;
        let ghost lv0 = old(self).levels@[li];
        // special case for the base level: its cap is the larger one
        let max_connections = self.get_max_connections(level_index);
        let mut t: usize = 0;
        while t < neighbors.len()
            invariant
                t <= neighbors@.len(),
                self.nodes == old(self).nodes,
                old(self).same_config(*self),
                self.rng == old(self).rng,
                self.levels@.len() == old(self).levels@.len(),
                forall|l: int|
                    0 <= l < old(self).levels@.len() && l != li ==> self.levels@[l] == old(self).levels@[l],
                self.levels@[li].entries@.len() == lv0.entries@.len(),
                self.levels@[li].wf(),
                forall|i: int|
                    0 <= i < lv0.entries@.len() ==> (#[trigger] self.levels@[li].entries@[i]).id
                        == lv0.entries@[i].id,
                forall|i: int|
                    0 <= i < lv0.entries@.len() && ids_of(neighbors@.subrange(0, t as int)).contains(
                        (#[trigger] lv0.entries@[i]).id,
                    ) ==> self.pruned_entry(li, lv0.entries@[i], self.levels@[li].entries@[i]),
                forall|i: int|
                    0 <= i < lv0.entries@.len() && !ids_of(neighbors@.subrange(0, t as int)).contains(
                        (#[trigger] lv0.entries@[i]).id,
                    ) ==> self.levels@[li].entries@[i] == lv0.entries@[i],
            decreases neighbors@.len() - t,
        {
            let ghost pre = ids_of(neighbors@.subrange(0, t as int));
            let ghost lv_before = self.levels@[li];
            let c_id = neighbors[t].id;
            match self.levels[level_index].find(c_id) {
                Some(j) => {
                    if self.levels[level_index].entries[j].neighbors.len() > max_connections {
                        let ghost old_list = self.levels@[li].entries@[j as int].neighbors@;
                        proof {
                            assert(lv_before.entries@[j as int] == lv0.entries@[j as int]) by {
                                assert(!pre.contains(lv0.entries@[j as int].id)) by {
                                    if pre.contains(c_id) {
                                        let w = choose|w: int|
                                            0 <= w < pre.len() && pre[w] == c_id;
                                        assert(self.pruned_entry(
                                            li,
                                            lv0.entries@[j as int],
                                            lv_before.entries@[j as int],
                                        ));
                                        assert(false);
                                    }
                                }
                            }
                        }
                        let mut cl: Vec<Candidate> = Vec::new();
                        let mut a: usize = 0;
                        while a < self.levels[level_index].entries[j].neighbors.len()
                            invariant
                                a <= old_list.len(),
                                j < self.levels@[li].entries@.len(),
                                self.levels@[li].entries@[j as int].neighbors@ == old_list,
                                self.levels@[li].entries@[j as int].id == c_id,
                                cl@.len() == a,
                                forall|u: int|
                                    0 <= u < a ==> (#[trigger] cl@[u]).id == old_list[u]
                                        && cl@[u].distance == self.prune_dist(c_id, old_list[u]),
                                distinct_ids(cl@),
                            decreases old_list.len() - a,
                        {
                            let nb = self.levels[level_index].entries[j].neighbors[a];
                            let d = self.distance_metric.distance(
                                &self.nodes[c_id],
                                &self.nodes[nb],
                            );
                            cl.push(Candidate { id: nb, distance: d });
                            a = a + 1;
                        }
                        let ghost cl_input = cl@;
                        let sorted_cl = sort_by_distance(cl);
                        let ghost cl_seq = sorted_cl@;
                        let mut newl: Vec<usize> = Vec::new();
                        let mut b: usize = 0;
                        while b < max_connections
                            invariant
                                b <= max_connections,
                                max_connections < cl_seq.len(),
                                cl_seq == sorted_cl@,
                                newl@.len() == b,
                                forall|u: int|
                                    0 <= u < b ==> #[trigger] newl@[u] == cl_seq[u].id,
                            decreases max_connections - b,
                        {
                            newl.push(sorted_cl[b].id);
                            b = b + 1;
                        }
                        self.levels[level_index].set_neighbors(j, newl);
                        proof {
                            let olde = lv0.entries@[j as int];
                            let newe = self.levels@[li].entries@[j as int];
                            let cap = self.spec_cap(li);
                            assert(newe.neighbors@.len() == cap);
                            assert(newe.neighbors@.no_duplicates()) by {
                                assert forall|u: int, v: int|
                                    0 <= u < v < newe.neighbors@.len() implies newe.neighbors@[u]
                                    != newe.neighbors@[v] by {
                                    assert(cl_seq[u].id != cl_seq[v].id);
                                }
                            }
                            assert forall|u: int|
                                0 <= u < newe.neighbors@.len() implies olde.neighbors@.contains(
                                #[trigger] newe.neighbors@[u],
                            ) by {
                                assert(cl_seq.contains(cl_seq[u]));
                                assert(cl_input.contains(cl_seq[u]));
                                let w = choose|w: int|
                                    0 <= w < cl_input.len() && cl_input[w] == cl_seq[u];
                                assert(old_list[w] == newe.neighbors@[u]);
                            }
                            assert forall|u: int|
                                0 <= u < cl_seq.len() implies (#[trigger] cl_seq[u]).distance
                                == self.prune_dist(c_id, cl_seq[u].id) by {
                                assert(cl_seq.contains(cl_seq[u]));
                                assert(cl_input.contains(cl_seq[u]));
                                let w = choose|w: int|
                                    0 <= w < cl_input.len() && cl_input[w] == cl_seq[u];
                            }
                            assert forall|u: int, b2: int|
                                #![trigger newe.neighbors@[u], olde.neighbors@[b2]]
                                0 <= u < newe.neighbors@.len() && 0 <= b2 < olde.neighbors@.len()
                                    && !newe.neighbors@.contains(olde.neighbors@[b2]) implies self.prune_dist(
                                olde.id,
                                newe.neighbors@[u],
                            ) <= self.prune_dist(olde.id, olde.neighbors@[b2]) by {
                                let dropped = olde.neighbors@[b2];
                                let pair = Candidate {
                                    id: dropped,
                                    distance: self.prune_dist(c_id, dropped),
                                };
                                assert(cl_seq.contains(pair)) by {
                                    assert(olde == lv_before.entries@[j as int]);
                                    assert(cl_input[b2] == pair);
                                    assert(cl_input.contains(pair));
                                }
                                let k = choose|k: int| 0 <= k < cl_seq.len() && cl_seq[k] == pair;
                                if k < cap {
                                    assert(newe.neighbors@[k] == dropped);
                                    assert(false);
                                }
                                assert(cl_seq[u].distance <= cl_seq[k].distance);
                            }
                            assert(self.pruned_entry(li, olde, newe));
                        }
                    }
                },
                None => {
                },
            }
            proof {
                let post = ids_of(neighbors@.subrange(0, t + 1));
                assert(post =~= pre.push(c_id));
                assert(post[t as int] == c_id);
                let lv_now = self.levels@[li];
                assert forall|i: int|
                    0 <= i < lv0.entries@.len() && post.contains(
                        (#[trigger] lv0.entries@[i]).id,
                    ) implies self.pruned_entry(li, lv0.entries@[i], lv_now.entries@[i]) by {
                    let eid = lv0.entries@[i].id;
                    if pre.contains(eid) {
                        if lv_now.entries@[i] != lv_before.entries@[i] {
                            assert(lv_before.entries@[i].id == c_id);
                            assert(eid == c_id);
                            let w = choose|w: int| 0 <= w < pre.len() && pre[w] == eid;
                            assert(self.pruned_entry(li, lv0.entries@[i], lv_before.entries@[i]));
                            assert(lv0.entries@[i].neighbors@.len() <= self.spec_cap(li)
                                || lv_before.entries@[i].neighbors@.len() == self.spec_cap(li));
                            assert(false);
                        }
                    } else {
                        assert(eid == c_id) by {
                            let w = choose|w: int| 0 <= w < post.len() && post[w] == eid;
                            if w < t {
                                assert(pre[w] == eid);
                            }
                        }
                    }
                }
                assert forall|i: int|
                    0 <= i < lv0.entries@.len() && !post.contains(
                        (#[trigger] lv0.entries@[i]).id,
                    ) implies lv_now.entries@[i] == lv0.entries@[i] by {
                    let eid = lv0.entries@[i].id;
                    assert(!pre.contains(eid)) by {
                        if pre.contains(eid) {
                            let w = choose|w: int| 0 <= w < pre.len() && pre[w] == eid;
                            assert(post[w] == eid);
                        }
                    }
                    assert(eid != c_id) by {
                        assert(post[t as int] == c_id);
                    }
                    assert(lv_now.entries@[i] == lv_before.entries@[i]);
                }
            }
            t = t + 1;
        }
        proof {
            assert(neighbors@.subrange(0, neighbors@.len() as int) =~= neighbors@);
        }
    }

    /// A node of a level lives in every level below it, transitively.
    proof fn lemma_downward_chain(self, l_hi: int, l_lo: int, id: usize)
        requires
            self.downward_wf(),
            0 <= l_lo <= l_hi < self.levels@.len(),
            self.levels@[l_hi].contains_id(id),
        ensures
            self.levels@[l_lo].contains_id(id),
        decreases l_hi - l_lo,
    {
        if l_lo < l_hi {
            assert(self.levels@[l_hi - 1].contains_id(id));
            self.lemma_downward_chain(l_hi - 1, l_lo, id);
        }
    }

    /// A consistent level stays consistent when the store only grows and
    /// the configuration is kept.
    proof fn lemma_level_ok_carryover(self, post: Self, l: int)
        requires
            self.level_ok(l),
            0 <= l < self.levels@.len(),
            l < post.levels@.len(),
            post.levels@[l] == self.levels@[l],
            post.nodes@.len() >= self.nodes@.len(),
            self.same_config(post),
        ensures
            post.level_ok(l),
    {
        let lv = self.levels@[l];
        assert forall|i: int| 0 <= i < lv.entries@.len() implies post.adj_ok(l, i) by {
            assert(self.adj_ok(l, i));
        }
    }

    /// A level into which a new node has been spliced and linked: the old
    /// keys stand unchanged in front of the new node's key, the keys are
    /// unique, name stored vectors, and every adjacency list is in shape.
    spec fn processed_level(self, l: int, base: Level, node_id: usize) -> bool {
        let lv = self.levels@[l];
        &&& lv.entries@.len() == base.entries@.len() + 1
        &&& (forall|i: int|
            0 <= i < base.entries@.len() ==> (#[trigger] lv.entries@[i]).id == base.entries@[i].id)
        &&& lv.entries@[base.entries@.len() as int].id == node_id
        &&& lv.wf()
        &&& (forall|i: int|
            0 <= i < lv.entries@.len() ==> (#[trigger] lv.entries@[i]).id < self.nodes@.len())
        &&& (forall|i: int| 0 <= i < lv.entries@.len() ==> self.adj_ok(l, i))
    }

    /// The invariant does not depend on the random generator's state: it
    /// carries over to any state with the same store, levels and
    /// configuration.
    proof fn lemma_wf_carryover(self, post: Self)
        requires
            self.wf(),
            post.nodes@ == self.nodes@,
            post.levels@ == self.levels@,
            self.same_config(post),
        ensures
            post.wf(),
    {
        assert forall|l: int| 0 <= l < post.levels@.len() implies post.level_ok(l) by {
            assert(self.level_ok(l));
            self.lemma_level_ok_carryover(post, l);
        }
    }

    /// A processed level carries over as long as its value, the store size
    /// and the configuration are kept.
    proof fn lemma_processed_carryover(self, post: Self, l: int, base: Level, node_id: usize)
        requires
            self.processed_level(l, base, node_id),
            0 <= l < self.levels@.len(),
            l < post.levels@.len(),
            post.levels@[l] == self.levels@[l],
            post.nodes@.len() >= self.nodes@.len(),
            self.same_config(post),
        ensures
            post.processed_level(l, base, node_id),
    {
        let lv = self.levels@[l];
        assert forall|i: int| 0 <= i < lv.entries@.len() implies post.adj_ok(l, i) by {
            assert(self.adj_ok(l, i));
        }
    }

    /// How one level changes when the new node `nid` joins it: the node is
    /// appended, with the chosen candidates as its neighbour list — they
    /// are nonempty, at most `connections + 1`, pairwise distinct nodes of
    /// the level other than the new one, each at its true distance to the
    /// inserted vector `v`; each chosen neighbour's own list gains the
    /// node's id and is then pruned to the level's cap; every other entry
    /// of the level is untouched.
    pub closed spec fn level_delta_ok(
        self,
        pre_level: Level,
        l: int,
        nid: usize,
        v: Seq<i64>,
        chosen: Seq<Candidate>,
    ) -> bool {
        let post = self.spec_levels()[l];
        let nb = pre_level.entries@.len() as int;
        &&& 1 <= chosen.len() <= self.spec_connections() + 1
        &&& distinct_ids(chosen)
        &&& (forall|t: int|
            0 <= t < chosen.len() ==> pre_level.contains_id((#[trigger] chosen[t]).id)
                && chosen[t].id != nid && chosen[t].id < self.spec_len() && chosen[t].distance
                == self.dist(v, self.spec_nodes()[chosen[t].id as int]))
        &&& post.entries@.len() == nb + 1
        &&& post.entries@[nb].id == nid
        &&& post.entries@[nb].neighbors@ == ids_of(chosen)
        &&& (forall|i: int|
            0 <= i < nb ==> (#[trigger] post.entries@[i]).id == pre_level.entries@[i].id)
        &&& (forall|i: int|
            0 <= i < nb && ids_of(chosen).contains(pre_level.entries@[i].id)
                ==> self.pruned_list_ok(
                l,
                pre_level.entries@[i].id,
                pre_level.entries@[i].neighbors@.push(nid),
                (#[trigger] post.entries@[i]).neighbors@,
            ))
        &&& (forall|i: int|
            0 <= i < nb && !ids_of(chosen).contains(pre_level.entries@[i].id) ==> (
            #[trigger] post.entries@[i]) == pre_level.entries@[i])
    }

    /// The whole change one insertion makes to a non-empty index's graph:
    /// a highest level `max_l` within the old hierarchy is chosen, the new
    /// node joins every level from `max_l` down to the base as
    /// `level_delta_ok` says — `chosen[l]` being the candidates it linked
    /// on level `l` — and the levels above `max_l` stand as they were.
    /// (One fresh top level holding only the new node may be appended
    /// besides; `insert`'s ensures pins its content.)
    pub closed spec fn insert_delta(
        self,
        pre: Self,
        v: Seq<i64>,
        max_l: int,
        chosen: Seq<Seq<Candidate>>,
    ) -> bool {
        let nid = pre.spec_len() as usize;
        &&& 0 <= max_l < pre.spec_num_levels()
        &&& chosen.len() == max_l + 1
        &&& (forall|l: int|
            0 <= l <= max_l ==> self.level_delta_ok(
                pre.spec_levels()[l],
                l,
                nid,
                v,
                #[trigger] chosen[l],
            ))
        &&& (forall|l: int|
            max_l < l < pre.spec_num_levels() ==> #[trigger] self.spec_levels()[l]
                == pre.spec_levels()[l])
    }

    /// What `level_delta_ok` grants, spelled out for callers.
    pub proof fn lemma_level_delta_ok(
        self,
        pre_level: Level,
        l: int,
        nid: usize,
        v: Seq<i64>,
        chosen: Seq<Candidate>,
    )
        requires
            self.level_delta_ok(pre_level, l, nid, v, chosen),
        ensures
            1 <= chosen.len() <= self.spec_connections() + 1,
            distinct_ids(chosen),
            forall|t: int|
                0 <= t < chosen.len() ==> pre_level.contains_id((#[trigger] chosen[t]).id)
                    && chosen[t].id != nid && chosen[t].id < self.spec_len() && chosen[t].distance
                    == self.dist(v, self.spec_nodes()[chosen[t].id as int]),
            self.spec_levels()[l].entries@.len() == pre_level.entries@.len() + 1,
            self.spec_levels()[l].entries@[pre_level.entries@.len() as int].id == nid,
            self.spec_levels()[l].entries@[pre_level.entries@.len() as int].neighbors@ == ids_of(
                chosen,
            ),
            forall|i: int|
                0 <= i < pre_level.entries@.len() ==> (
                #[trigger] self.spec_levels()[l].entries@[i]).id == pre_level.entries@[i].id,
            forall|i: int|
                0 <= i < pre_level.entries@.len() && ids_of(chosen).contains(
                    pre_level.entries@[i].id,
                ) ==> self.pruned_list_ok(
                    l,
                    pre_level.entries@[i].id,
                    pre_level.entries@[i].neighbors@.push(nid),
                    (#[trigger] self.spec_levels()[l].entries@[i]).neighbors@,
                ),
            forall|i: int|
                0 <= i < pre_level.entries@.len() && !ids_of(chosen).contains(
                    pre_level.entries@[i].id,
                ) ==> (#[trigger] self.spec_levels()[l].entries@[i]) == pre_level.entries@[i],
    {
    }

    /// What `insert_delta` grants, spelled out for callers.
    pub proof fn lemma_insert_delta(
        self,
        pre: Self,
        v: Seq<i64>,
        max_l: int,
        chosen: Seq<Seq<Candidate>>,
    )
        requires
            self.insert_delta(pre, v, max_l, chosen),
        ensures
            0 <= max_l < pre.spec_num_levels(),
            chosen.len() == max_l + 1,
            forall|l: int|
                0 <= l <= max_l ==> self.level_delta_ok(
                    pre.spec_levels()[l],
                    l,
                    (pre.spec_len() as usize),
                    v,
                    #[trigger] chosen[l],
                ),
            forall|l: int|
                max_l < l < pre.spec_num_levels() ==> #[trigger] self.spec_levels()[l]
                    == pre.spec_levels()[l],
    {
    }

    /// A level's insertion delta carries over as long as the level's
    /// value, the store and the configuration are kept.
    proof fn lemma_delta_carryover(
        self,
        post: Self,
        pre_level: Level,
        l: int,
        nid: usize,
        v: Seq<i64>,
        chosen: Seq<Candidate>,
    )
        requires
            self.level_delta_ok(pre_level, l, nid, v, chosen),
            0 <= l < self.levels@.len(),
            l < post.levels@.len(),
            post.levels@[l] == self.levels@[l],
            post.nodes@ == self.nodes@,
            self.same_config(post),
        ensures
            post.level_delta_ok(pre_level, l, nid, v, chosen),
    {
        let nb = pre_level.entries@.len() as int;
        assert(post.spec_nodes() =~= self.spec_nodes());
        assert forall|i: int|
            0 <= i < nb && ids_of(chosen).contains(pre_level.entries@[i].id)
                implies post.pruned_list_ok(
            l,
            pre_level.entries@[i].id,
            pre_level.entries@[i].neighbors@.push(nid),
            (#[trigger] post.spec_levels()[l].entries@[i]).neighbors@,
        ) by {
            assert(self.pruned_list_ok(
                l,
                pre_level.entries@[i].id,
                pre_level.entries@[i].neighbors@.push(nid),
                self.spec_levels()[l].entries@[i].neighbors@,
            ));
        }
    }

    /// After the insertion phase has worked every level from the sampled
    /// one down to the base, the whole index invariant stands again.
    proof fn assemble_wf_after_insert(
        &self,
        orig: Self,
        lvs1: Seq<Level>,
        node_id: usize,
        max_li: int,
    )
        requires
            orig.wf(),
            orig.levels@.len() >= 1,
            0 <= max_li <= orig.levels@.len() - 1,
            node_id == orig.nodes@.len(),
            self.nodes@.len() == orig.nodes@.len() + 1,
            orig.same_config(*self),
            self.levels@.len() == lvs1.len(),
            forall|l: int| 0 <= l < orig.levels@.len() ==> #[trigger] lvs1[l] == orig.levels@[l],
            lvs1.len() == orig.levels@.len() || (lvs1.len() == orig.levels@.len() + 1 && max_li
                == orig.levels@.len() - 1 && lvs1.last().entries@.len() == 1
                && lvs1.last().entries@[0].id == node_id
                && lvs1.last().entries@[0].neighbors@.len() == 0),
            forall|l: int|
                0 <= l < lvs1.len() && l > max_li ==> #[trigger] self.levels@[l] == lvs1[l],
            forall|l: int|
                0 <= l <= max_li ==> self.processed_level(l, #[trigger] lvs1[l], node_id),
        ensures
            self.wf(),
    {
        let n0 = orig.nodes@.len() as int;
        let orig_len = orig.levels@.len() as int;
        let new_len = lvs1.len() as int;
        assert forall|l: int| 0 <= l < new_len implies self.level_ok(l) by {
            if l <= max_li {
                assert(self.processed_level(l, lvs1[l], node_id));
            } else if l < orig_len {
                orig.lemma_level_ok_carryover(*self, l);
            } else {
                let lv = self.levels@[l];
                assert(lv.entries@.len() == 1);
                assert forall|i: int, j: int|
                    0 <= i < j < lv.entries@.len() implies (#[trigger] lv.entries@[i]).id != (
                #[trigger] lv.entries@[j]).id by {}
                assert(lv.wf());
                assert forall|i: int| 0 <= i < lv.entries@.len() implies self.adj_ok(l, i) by {
                    assert(lv.entries@[0].neighbors@.len() == 0);
                }
            }
        }
        assert forall|l: int, id: usize|
            1 <= l < new_len && #[trigger] self.levels@[l].contains_id(id) implies self.levels@[l
            - 1].contains_id(id) by {
            if l - 1 <= max_li {
                self.levels@[l - 1].lemma_keys_extension(lvs1[l - 1], node_id);
            }
            if l <= max_li {
                self.levels@[l].lemma_keys_extension(lvs1[l], node_id);
                if lvs1[l].contains_id(id) {
                    assert(orig.levels@[l - 1].contains_id(id));
                }
            } else if l < orig_len {
                assert(lvs1[l].contains_id(id));
                assert(orig.levels@[l - 1].contains_id(id));
                if l - 1 > max_li {
                    assert(self.levels@[l - 1] == lvs1[l - 1]);
                }
            } else {
                // the fresh top level holds only the new node
                let lv = self.levels@[l];
                let i = choose|i: int|
                    0 <= i < lv.entries@.len() && (#[trigger] lv.entries@[i]).id == id;
                assert(id == node_id);
                assert(l - 1 == max_li);
            }
        }
        assert(self.downward_wf());
        assert forall|id: usize| id < self.nodes@.len() implies #[trigger] self.levels@[0].contains_id(
            id,
        ) by {
            self.levels@[0].lemma_keys_extension(lvs1[0], node_id);
            if id < n0 {
                assert(orig.levels@[0].contains_id(id));
            }
        }
        assert(self.processed_level(0, lvs1[0], node_id));
        assert(self.levels@[0].entries@.len() == lvs1[0].entries@.len() + 1);
        assert(orig.levels@[0].entries@.len() == orig.nodes@.len());
        assert(self.levels@[0].entries@.len() == self.nodes@.len());
    }

    /// Insert a new vector in the index.
    ///
    /// The vector gets the next id.  On the first insertion a base level is
    /// created around it; afterwards a highest level is sampled for the
    /// node (overshooting past the current top adds exactly one new top
    /// level), a greedy descent finds an entry point, and on each level
    /// from the sampled one down to the base the node is linked to up to
    /// `connections + 1` of the closest candidates found by a beam search,
    /// after which overfull neighbours are pruned back to the level's cap.
    #[verifier::loop_isolation(false)]
    #[verifier::rlimit(100)]
    pub fn insert(&mut self, vector: &Vec<i64>)
        requires
            old(self).wf(),
        ensures
            final(self).wf(),
            final(self).spec_len() == old(self).spec_len() + 1,
            final(self).spec_nodes() == old(self).spec_nodes().push(vector@),
            old(self).same_config(*final(self)),
            old(self).spec_len() == 0 ==> final(self).spec_num_levels() == 1,
            old(self).spec_len() > 0 ==> final(self).spec_num_levels() == old(self).spec_num_levels() || final(self).spec_num_levels() == old(self).spec_num_levels()
                + 1,
            final(self).spec_num_levels() == old(self).spec_num_levels() + 1 ==> final(self).spec_levels().last().entries@.len() == 1 && final(self).spec_levels().last().entries@[0].id == old(self).spec_len() && final(self).spec_levels().last().entries@[0].neighbors@.len() == 0,
            old(self).spec_len() > 0 ==> (exists|max_l: int, chosen: Seq<Seq<Candidate>>|
                final(self).insert_delta(*old(self), vector@, max_l, chosen)),
    {
        let ghost orig = *old(self);
        let ghost n0 = old(self).nodes@.len() as int;
        let node_id = self.insert_vector(vector);
        if self.levels.len() == 0 {
            let cap0 = self.max_connections_0;
            self.insert_level_then_node(node_id, cap0);
            proof {
                let lv = self.levels@[0];
                assert(lv.contains_id(node_id));
                assert forall|id: usize| id < self.nodes@.len() implies #[trigger] self.levels@[0].contains_id(
                    id,
                ) by {
                    assert(id == node_id);
                }
                assert forall|l: int| 0 <= l < self.levels@.len() implies self.level_ok(l) by {
                    assert forall|i: int| 0 <= i < lv.entries@.len() implies self.adj_ok(l, i) by {
                        assert(lv.entries@[0].neighbors@.len() == 0);
                    }
                }
            }
        } else {
            let ghost orig_top = orig.levels@.len() - 1;
            let top_level_index = self.num_levels() - 1;
            let mut max_level_index = self.sample_max_level_index(top_level_index + 1);
            if max_level_index > top_level_index {
                let capu = self.max_connections;
                self.insert_level_then_node(node_id, capu);
                max_level_index = top_level_index;
            }
            let ghost lvs1 = self.levels@;
            let ghost state1 = *self;
            proof {
                assert forall|l: int| 0 <= l < orig.levels@.len() implies lvs1[l]
                    == orig.levels@[l] by {}
                assert(lvs1.len() == orig.levels@.len() || (lvs1.len() == orig.levels@.len() + 1
                    && max_level_index == orig_top && lvs1.last().entries@.len() == 1
                    && lvs1.last().entries@[0].id == node_id
                    && lvs1.last().entries@[0].neighbors@.len() == 0));
                assert(max_level_index <= orig_top);
            }
            let mut entry_vec: Vec<usize> = Vec::new();
            proof {
                orig.lemma_level_ok_carryover(*self, orig_top);
            }
            let eid0 = self.sample_entry_id(top_level_index);
            proof {
                orig.lemma_contained_id_bound(orig_top, eid0);
            }
            entry_vec.push(eid0);
            let mut li = top_level_index;
            while li > max_level_index
                invariant
                    max_level_index <= li <= top_level_index,
                    top_level_index == orig_top,
                    self.levels@ == lvs1,
                    self.nodes@ == state1.nodes@,
                    state1.same_config(*self),
                    entry_vec@.len() == 1,
                    entry_vec@[0] < n0,
                    self.levels@[li as int].contains_id(entry_vec@[0]),
                decreases li - max_level_index,
            {
                proof {
                    orig.lemma_level_ok_carryover(*self, li as int);
                    assert(entry_vec@.no_duplicates());
                }
                let res = self.search_level(li, vector, &entry_vec, 1);
                proof {
                    assert(res@.len() == 1);
                    assert(self.cand_ok(li as int, vector@, entry_vec@, res@[0]));
                    orig.lemma_contained_id_bound(li as int, res@[0].id);
                    assert(orig.levels@[li as int].contains_id(res@[0].id));
                    assert(orig.levels@[li as int - 1].contains_id(res@[0].id));
                }
                let mut ev2: Vec<usize> = Vec::new();
                ev2.push(res[0].id);
                entry_vec = ev2;
                li = li - 1;
            }
            proof {
                assert forall|l: int| 0 <= l <= max_level_index implies lvs1[l].contains_id(
                    entry_vec@[0],
                ) by {
                    orig.lemma_downward_chain(max_level_index as int, l, entry_vec@[0]);
                }
            }
            let ghost e0 = entry_vec@[0];
            let ghost mut chosen_all: Seq<Seq<Candidate>> = Seq::new(
                (max_level_index + 1) as nat,
                |l: int| Seq::<Candidate>::empty(),
            );
            let mut lj = max_level_index + 1;
            #[verifier::loop_isolation(true)]
            while lj > 0
                invariant
                    lj <= max_level_index + 1,
                    orig.wf(),
                    n0 == orig.nodes@.len(),
                    lvs1.len() >= orig.levels@.len(),
                    forall|l: int|
                        0 <= l < orig.levels@.len() ==> #[trigger] lvs1[l] == orig.levels@[l],
                    chosen_all.len() == max_level_index + 1,
                    forall|l: int|
                        lj <= l <= max_level_index ==> self.level_delta_ok(
                            lvs1[l],
                            l,
                            node_id,
                            vector@,
                            #[trigger] chosen_all[l],
                        ),
                    max_level_index <= orig_top,
                    orig_top == orig.levels@.len() - 1,
                    node_id == n0,
                    self.nodes@.len() == n0 + 1,
                    self.nodes@ == state1.nodes@,
                    state1.same_config(*self),
                    orig.same_config(*self),
                    self.config_wf(),
                    self.levels@.len() == lvs1.len(),
                    forall|l: int|
                        0 <= l < lvs1.len() && (l < lj || l > max_level_index)
                            ==> #[trigger] self.levels@[l] == lvs1[l],
                    forall|l: int|
                        lj <= l <= max_level_index ==> self.processed_level(
                            l,
                            lvs1[l],
                            node_id,
                        ),
                    entry_vec@.len() == 1,
                    entry_vec@[0] == e0,
                    e0 < n0,
                    forall|l: int| 0 <= l <= max_level_index ==> (#[trigger] lvs1[l]).contains_id(e0),
                decreases lj,
            {
                let cur = lj - 1;
                let ghost cur_i = cur as int;
                let ghost base = lvs1[cur_i];
                let ghost pre_insert = *self;
                let ghost old_chosen_all = chosen_all;
                proof {
                    assert(0 <= cur_i < orig.levels@.len());
                    assert(self.levels@[cur_i] == lvs1[cur_i]);
                    assert(base == orig.levels@[cur_i]);
                    assert(orig.level_ok(cur_i));
                    orig.lemma_level_ok_carryover(*self, cur_i);
                    assert(!self.levels@[cur_i].contains_id(node_id)) by {
                        if self.levels@[cur_i].contains_id(node_id) {
                            let i = choose|i: int|
                                0 <= i < base.entries@.len() && (#[trigger] base.entries@[i]).id
                                    == node_id;
                            assert(orig.levels@[cur_i].entries@[i].id == node_id);
                            assert(orig.levels@[cur_i].entries@[i].id < n0);
                        }
                    }
                }
                let cap = self.get_max_connections(cur);
                self.levels[cur].insert_empty(node_id, cap);
                let ghost lv_ins = self.levels@[cur_i];
                proof {
                    // the level with the fresh empty entry is consistent
                    assert(self.level_ok(cur_i)) by {
                        assert forall|i: int|
                            0 <= i < lv_ins.entries@.len() implies self.adj_ok(cur_i, i) by {
                            if i < base.entries@.len() {
                                assert(0 <= i < orig.levels@[cur_i].entries@.len());
                                assert(orig.adj_ok(cur_i, i));
                                assert(lv_ins.entries@[i] == base.entries@[i]);
                                assert forall|a: int|
                                    0 <= a < lv_ins.entries@[i].neighbors@.len() implies lv_ins.contains_id(
                                    #[trigger] lv_ins.entries@[i].neighbors@[a],
                                ) by {
                                    assert(base.contains_id(lv_ins.entries@[i].neighbors@[a]));
                                }
                            } else {
                                assert(lv_ins.entries@[i].neighbors@.len() == 0);
                            }
                        }
                    }
                    assert(lv_ins.contains_id(e0)) by {
                        assert(base.contains_id(e0));
                    }
                    assert(entry_vec@.no_duplicates());
                }
                let candidates = self.search_level(cur, vector, &entry_vec, self.ef_construction);
                proof {
                    assert(candidates@.len() >= 1);
                    assert(self.connections < usize::MAX) by {
                        assert(self.max_connections_0 == 2 * self.connections);
                    }
                }
                let neighbors = self.select_neighbors(&candidates, self.connections);
                proof {
                    // the chosen candidates: a prefix of the search result
                    assert forall|t: int|
                        0 <= t < neighbors@.len() implies self.cand_ok(
                        cur_i,
                        vector@,
                        entry_vec@,
                        #[trigger] neighbors@[t],
                    ) && neighbors@[t].id < n0 && base.contains_id(neighbors@[t].id) by {
                        assert(neighbors@[t] == candidates@[t]);
                        assert(self.cand_ok(cur_i, vector@, entry_vec@, candidates@[t]));
                        let cid = candidates@[t].id;
                        if entry_vec@.contains(cid) {
                            assert(cid == e0);
                            assert(base.contains_id(cid));
                        } else {
                            assert(lv_ins.appears_as_neighbor(cid));
                            let (i, a): (int, int) = choose|i: int, a: int|
                                #![trigger lv_ins.entries@[i].neighbors@[a]]
                                0 <= i < lv_ins.entries@.len() && 0 <= a
                                    < lv_ins.entries@[i].neighbors@.len()
                                    && lv_ins.entries@[i].neighbors@[a] == cid;
                            if i < base.entries@.len() {
                                assert(lv_ins.entries@[i] == base.entries@[i]);
                                assert(orig.adj_ok(cur_i, i));
                                assert(base.contains_id(cid));
                                let i2 = choose|i2: int|
                                    0 <= i2 < base.entries@.len() && (
                                    #[trigger] base.entries@[i2]).id == cid;
                                assert(base.entries@[i2].id < n0);
                            } else {
                                assert(lv_ins.entries@[i].neighbors@.len() == 0);
                            }
                        }
                    }
                    assert(distinct_ids(neighbors@)) by {
                        assert forall|a: int, b: int|
                            0 <= a < b < neighbors@.len() implies (#[trigger] neighbors@[a]).id
                            != (#[trigger] neighbors@[b]).id by {
                            assert(neighbors@[a] == candidates@[a]);
                            assert(neighbors@[b] == candidates@[b]);
                        }
                    }
                    assert forall|i: int, a: int|
                        #![trigger lv_ins.entries@[i].neighbors@[a]]
                        0 <= i < lv_ins.entries@.len() && 0 <= a
                            < lv_ins.entries@[i].neighbors@.len() implies lv_ins.entries@[i].neighbors@[a]
                        != node_id by {
                        if i < base.entries@.len() {
                            assert(lv_ins.entries@[i] == base.entries@[i]);
                            assert(orig.adj_ok(cur_i, i));
                            assert(base.contains_id(lv_ins.entries@[i].neighbors@[a]));
                            let v = lv_ins.entries@[i].neighbors@[a];
                            let i2 = choose|i2: int|
                                0 <= i2 < base.entries@.len() && (#[trigger] base.entries@[i2]).id
                                    == v;
                            assert(base.entries@[i2].id < n0);
                        }
                    }
                    assert(lv_ins.contains_id(node_id));
                }
                let ghost pre_connect = *self;
                self.connect_neighbors(cur, node_id, &neighbors);
                let ghost lv_con = self.levels@[cur_i];
                proof {
                    assert(lv_con.entries@.len() == lv_ins.entries@.len());
                    lv_con.lemma_same_keys(lv_ins);
                    // before pruning: every list is duplicate-free, points
                    // into the store and at nodes of the level, and the
                    // new node's own list holds the chosen candidate ids
                    assert forall|i: int|
                        0 <= i < lv_con.entries@.len() implies (
                    #[trigger] lv_con.entries@[i]).neighbors@.no_duplicates()
                        && lv_con.entries@[i].id < self.nodes@.len() && (forall|a: int|
                        0 <= a < lv_con.entries@[i].neighbors@.len()
                            ==> #[trigger] lv_con.entries@[i].neighbors@[a] < self.nodes@.len())
                        && (forall|a: int|
                        0 <= a < lv_con.entries@[i].neighbors@.len() ==> lv_con.contains_id(
                            #[trigger] lv_con.entries@[i].neighbors@[a],
                        )) by {
                        let e_ins = lv_ins.entries@[i];
                        let e_con = lv_con.entries@[i];
                        if e_ins.id == node_id {
                            assert(i == base.entries@.len()) by {
                                if i < base.entries@.len() {
                                    assert(base.entries@[i].id < n0);
                                }
                            }
                            assert(e_con.neighbors@ == e_ins.neighbors@ + ids_of(neighbors@));
                            assert(e_ins.neighbors@.len() == 0);
                            assert forall|a: int|
                                0 <= a < e_con.neighbors@.len() implies #[trigger] e_con.neighbors@[a]
                                == neighbors@[a].id by {}
                            assert(e_con.neighbors@.no_duplicates());
                            assert forall|a: int|
                                0 <= a < e_con.neighbors@.len() implies lv_con.contains_id(
                                #[trigger] e_con.neighbors@[a],
                            ) by {
                                assert(lv_ins.contains_id(neighbors@[a].id));
                            }
                        } else if ids_of(neighbors@).contains(e_ins.id) {
                            assert(i < base.entries@.len()) by {
                                if i == base.entries@.len() {
                                    let w = choose|w: int|
                                        0 <= w < ids_of(neighbors@).len() && ids_of(neighbors@)[w]
                                            == e_ins.id;
                                    assert(neighbors@[w].id < n0);
                                }
                            }
                            assert(e_ins == base.entries@[i]);
                            assert(orig.adj_ok(cur_i, i));
                            assert(e_con.neighbors@ == e_ins.neighbors@.push(node_id));
                            assert forall|a: int|
                                0 <= a < e_ins.neighbors@.len() implies #[trigger] e_ins.neighbors@[a]
                                < n0 by {
                                assert(base.contains_id(e_ins.neighbors@[a]));
                                let i2 = choose|i2: int|
                                    0 <= i2 < base.entries@.len() && (
                                    #[trigger] base.entries@[i2]).id == e_ins.neighbors@[a];
                                assert(base.entries@[i2].id < n0);
                            }
                            assert(e_con.neighbors@.no_duplicates()) by {
                                assert forall|a: int, b: int|
                                    0 <= a < b < e_con.neighbors@.len() implies e_con.neighbors@[a]
                                    != e_con.neighbors@[b] by {
                                    if b == e_con.neighbors@.len() - 1 {
                                        assert(e_con.neighbors@[a] == e_ins.neighbors@[a]);
                                        assert(e_con.neighbors@[b] == node_id);
                                    }
                                }
                            }
                            assert forall|a: int|
                                0 <= a < e_con.neighbors@.len() implies lv_con.contains_id(
                                #[trigger] e_con.neighbors@[a],
                            ) by {
                                if a < e_ins.neighbors@.len() {
                                    assert(base.contains_id(e_ins.neighbors@[a]));
                                    assert(lv_ins.contains_id(e_ins.neighbors@[a]));
                                } else {
                                    assert(e_con.neighbors@[a] == node_id);
                                    assert(lv_ins.contains_id(node_id));
                                }
                            }
                        } else {
                            assert(e_con == e_ins);
                            if i < base.entries@.len() {
                                assert(e_ins == base.entries@[i]);
                                assert(orig.adj_ok(cur_i, i));
                                assert forall|a: int|
                                    0 <= a < e_con.neighbors@.len() implies lv_con.contains_id(
                                    #[trigger] e_con.neighbors@[a],
                                ) && e_con.neighbors@[a] < self.nodes@.len() by {
                                    assert(base.contains_id(e_ins.neighbors@[a]));
                                    assert(lv_ins.contains_id(e_ins.neighbors@[a]));
                                    let i2 = choose|i2: int|
                                        0 <= i2 < base.entries@.len() && (
                                        #[trigger] base.entries@[i2]).id == e_ins.neighbors@[a];
                                    assert(base.entries@[i2].id < n0);
                                }
                            } else {
                                assert(e_ins.neighbors@.len() == 0);
                            }
                        }
                    }
                }
                self.prune_connections(cur, &neighbors);
                proof {
                    let lv_fin = self.levels@[cur_i];
                    let cap = self.spec_cap(cur_i);
                    assert(lv_fin.entries@.len() == base.entries@.len() + 1);
                    lv_fin.lemma_same_keys(lv_con);
                    assert(self.connections + 1 <= cap) by {
                        assert(self.max_connections == (3 * self.connections + 1) / 2);
                        assert(self.max_connections_0 == 2 * self.connections);
                    }
                    // the processed level is in shape
                    assert forall|i: int|
                        0 <= i < lv_fin.entries@.len() implies self.adj_ok(cur_i, i) by {
                        let e_ins = lv_ins.entries@[i];
                        let e_con = lv_con.entries@[i];
                        let e_fin = lv_fin.entries@[i];
                        assert(e_fin.id == e_con.id && e_con.id == e_ins.id);
                        if ids_of(neighbors@).contains(e_con.id) {
                            assert(self.pruned_entry(cur_i, e_con, e_fin));
                            if e_con.neighbors@.len() > cap {
                                assert(e_fin.neighbors@.len() == cap);
                                assert forall|a: int|
                                    0 <= a < e_fin.neighbors@.len() implies lv_fin.contains_id(
                                    #[trigger] e_fin.neighbors@[a],
                                ) by {
                                    assert(e_con.neighbors@.contains(e_fin.neighbors@[a]));
                                    let w = choose|w: int|
                                        0 <= w < e_con.neighbors@.len() && e_con.neighbors@[w]
                                            == e_fin.neighbors@[a];
                                    assert(lv_con.contains_id(e_con.neighbors@[w]));
                                }
                            } else {
                                assert(e_fin.neighbors@ == e_con.neighbors@);
                                assert forall|a: int|
                                    0 <= a < e_fin.neighbors@.len() implies lv_fin.contains_id(
                                    #[trigger] e_fin.neighbors@[a],
                                ) by {
                                    assert(lv_con.contains_id(e_con.neighbors@[a]));
                                }
                            }
                        } else {
                            assert(e_fin == e_con);
                            if e_con.id == node_id {
                                // the new node's own list: one id per chosen
                                // candidate, which is at most connections + 1
                                assert(i == base.entries@.len()) by {
                                    if i < base.entries@.len() {
                                        assert(base.entries@[i].id < n0);
                                    }
                                }
                                assert(lv_ins.entries@[i].neighbors@.len() == 0);
                                assert(e_con.neighbors@ == lv_ins.entries@[i].neighbors@ + ids_of(
                                    neighbors@,
                                ));
                                assert(e_con.neighbors@.len() == neighbors@.len());
                                assert(neighbors@.len() <= self.connections + 1);
                            } else {
                                // untouched: within the cap since before
                                assert(i < base.entries@.len()) by {
                                    if i == base.entries@.len() {
                                        assert(lv_ins.entries@[i].id == node_id);
                                    }
                                }
                                assert(e_ins == base.entries@[i]);
                                assert(orig.adj_ok(cur_i, i));
                                assert(e_con == e_ins);
                            }
                            assert forall|a: int|
                                0 <= a < e_fin.neighbors@.len() implies lv_fin.contains_id(
                                #[trigger] e_fin.neighbors@[a],
                            ) by {
                                assert(lv_con.contains_id(e_con.neighbors@[a]));
                            }
                        }
                    }
                    assert(self.processed_level(cur_i, base, node_id));
                    // record the candidates linked on this level and show
                    // the level's insertion delta
                    chosen_all = chosen_all.update(cur_i, neighbors@);
                    let nb = base.entries@.len() as int;
                    assert(1 <= neighbors@.len() <= self.connections + 1);
                    assert(!ids_of(neighbors@).contains(node_id)) by {
                        if ids_of(neighbors@).contains(node_id) {
                            let w = choose|w: int|
                                0 <= w < ids_of(neighbors@).len() && ids_of(neighbors@)[w]
                                    == node_id;
                            assert(neighbors@[w].id < n0);
                        }
                    }
                    assert(lv_fin.entries@[nb].id == node_id);
                    assert(lv_fin.entries@[nb].neighbors@ =~= ids_of(neighbors@)) by {
                        assert(lv_con.entries@[nb].id == node_id);
                        assert(lv_ins.entries@[nb].neighbors@.len() == 0);
                        assert(lv_con.entries@[nb].neighbors@ == lv_ins.entries@[nb].neighbors@
                            + ids_of(neighbors@));
                        assert(lv_fin.entries@[nb] == lv_con.entries@[nb]);
                    }
                    assert forall|t: int|
                        0 <= t < neighbors@.len() implies base.contains_id(
                        (#[trigger] neighbors@[t]).id,
                    ) && neighbors@[t].id != node_id && neighbors@[t].id < self.spec_len()
                        && neighbors@[t].distance == self.dist(
                        vector@,
                        self.spec_nodes()[neighbors@[t].id as int],
                    ) by {
                        assert(self.spec_nodes()[neighbors@[t].id as int]
                            == self.nodes@[neighbors@[t].id as int]@);
                    }
                    assert forall|i: int|
                        0 <= i < nb && ids_of(neighbors@).contains(
                            base.entries@[i].id,
                        ) implies self.pruned_list_ok(
                        cur_i,
                        base.entries@[i].id,
                        base.entries@[i].neighbors@.push(node_id),
                        (#[trigger] lv_fin.entries@[i]).neighbors@,
                    ) by {
                        let e_ins = lv_ins.entries@[i];
                        let e_con = lv_con.entries@[i];
                        assert(e_ins == base.entries@[i]);
                        assert(e_con.neighbors@ == e_ins.neighbors@.push(node_id));
                        assert(self.pruned_entry(cur_i, e_con, lv_fin.entries@[i]));
                    }
                    assert forall|i: int|
                        0 <= i < nb && !ids_of(neighbors@).contains(base.entries@[i].id) implies (
                    #[trigger] lv_fin.entries@[i]) == base.entries@[i] by {
                        let e_ins = lv_ins.entries@[i];
                        let e_con = lv_con.entries@[i];
                        assert(e_ins == base.entries@[i]);
                        assert(base.entries@[i].id != node_id) by {
                            assert(orig.level_ok(cur_i));
                            assert(orig.levels@[cur_i].entries@[i].id < n0);
                        }
                        assert(e_con == e_ins);
                        assert(lv_fin.entries@[i] == e_con);
                    }
                    assert(self.level_delta_ok(base, cur_i, node_id, vector@, neighbors@));
                    // levels processed earlier are untouched by this pass
                    assert forall|l: int|
                        lj <= l <= max_level_index implies self.processed_level(
                        l,
                        #[trigger] lvs1[l],
                        node_id,
                    ) && self.level_delta_ok(lvs1[l], l, node_id, vector@, chosen_all[l]) by {
                        pre_insert.lemma_processed_carryover(*self, l, lvs1[l], node_id);
                        assert(chosen_all[l] == old_chosen_all[l]);
                        pre_insert.lemma_delta_carryover(
                            *self,
                            lvs1[l],
                            l,
                            node_id,
                            vector@,
                            chosen_all[l],
                        );
                    }
                }
                lj = lj - 1;
            }
            proof {
                self.assemble_wf_after_insert(orig, lvs1, node_id, max_level_index as int);
                let max_i = max_level_index as int;
                assert(self.insert_delta(orig, vector@, max_i, chosen_all)) by {
                    assert(orig.spec_len() as usize == node_id);
                    assert forall|l: int|
                        0 <= l <= max_i implies self.level_delta_ok(
                        orig.spec_levels()[l],
                        l,
                        node_id,
                        vector@,
                        #[trigger] chosen_all[l],
                    ) by {
                        assert(orig.spec_levels()[l] == lvs1[l]);
                        assert(self.level_delta_ok(lvs1[l], l, node_id, vector@, chosen_all[l]));
                    }
                    assert forall|l: int|
                        max_i < l < orig.spec_num_levels() implies #[trigger] self.spec_levels()[l]
                        == orig.spec_levels()[l] by {
                        assert(self.levels@[l] == lvs1[l]);
                    }
                }
                assert(exists|max_l: int, chosen: Seq<Seq<Candidate>>|
                    self.insert_delta(orig, vector@, max_l, chosen));
                if self.levels@.len() == orig.levels@.len() + 1 {
                    assert(self.levels@[self.levels@.len() - 1] == lvs1[lvs1.len() - 1]);
                }
            }
        }
        proof {
            assert(final(self).spec_nodes() =~= old(self).spec_nodes().push(vector@));
        }
    }

    /// Everything `insert` promises of one insertion, as a relation
    /// between the index states before and after it.
    pub closed spec fn insert_step_ok(pre: Self, post: Self, v: Seq<i64>) -> bool {
        &&& post.wf()
        &&& post.spec_len() == pre.spec_len() + 1
        &&& post.spec_nodes() == pre.spec_nodes().push(v)
        &&& pre.same_config(post)
        &&& (pre.spec_len() == 0 ==> post.spec_num_levels() == 1)
        &&& (pre.spec_len() > 0 ==> post.spec_num_levels() == pre.spec_num_levels()
            || post.spec_num_levels() == pre.spec_num_levels() + 1)
        &&& (post.spec_num_levels() == pre.spec_num_levels() + 1
            ==> post.spec_levels().last().entries@.len() == 1
            && post.spec_levels().last().entries@[0].id == pre.spec_len()
            && post.spec_levels().last().entries@[0].neighbors@.len() == 0)
        &&& (pre.spec_len() > 0 ==> exists|max_l: int, chosen: Seq<Seq<Candidate>>|
            post.insert_delta(pre, v, max_l, chosen))
    }

    /// What `insert_step_ok` grants, spelled out for callers: one
    /// insertion's whole contract between two adjacent states.
    pub proof fn lemma_insert_step_ok(pre: Self, post: Self, v: Seq<i64>)
        requires
            Self::insert_step_ok(pre, post, v),
        ensures
            post.wf(),
            post.spec_len() == pre.spec_len() + 1,
            post.spec_nodes() == pre.spec_nodes().push(v),
            pre.same_config(post),
            pre.spec_len() == 0 ==> post.spec_num_levels() == 1,
            pre.spec_len() > 0 ==> post.spec_num_levels() == pre.spec_num_levels()
                || post.spec_num_levels() == pre.spec_num_levels() + 1,
            post.spec_num_levels() == pre.spec_num_levels() + 1
                ==> post.spec_levels().last().entries@.len() == 1
                && post.spec_levels().last().entries@[0].id == pre.spec_len()
                && post.spec_levels().last().entries@[0].neighbors@.len() == 0,
            pre.spec_len() > 0 ==> exists|max_l: int, chosen: Seq<Seq<Candidate>>|
                post.insert_delta(pre, v, max_l, chosen),
    {
    }

    /// A batch insertion runs through a chain of states, one `insert` step
    /// per vector: `steps` holds the state before each step and the final
    /// state after the last.
    pub closed spec fn batch_chain_ok(
        self,
        pre: Self,
        vs: Seq<Seq<i64>>,
        steps: Seq<HNSW<M>>,
    ) -> bool {
        &&& steps.len() == vs.len() + 1
        &&& steps[0] == pre
        &&& steps[vs.len() as int] == self
        &&& forall|i: int|
            0 <= i < vs.len() ==> Self::insert_step_ok(#[trigger] steps[i], steps[i + 1], vs[i])
    }

    /// What `batch_chain_ok` grants, spelled out for callers.
    pub proof fn lemma_batch_chain_ok(self, pre: Self, vs: Seq<Seq<i64>>, steps: Seq<HNSW<M>>)
        requires
            self.batch_chain_ok(pre, vs, steps),
        ensures
            steps.len() == vs.len() + 1,
            steps[0] == pre,
            steps[vs.len() as int] == self,
            forall|i: int|
                0 <= i < vs.len() ==> Self::insert_step_ok(#[trigger] steps[i], steps[i + 1], vs[i]),
    {
    }

    /// Insert each element of a batch in the index, in order: the index
    /// runs through the chain of states the per-step contract describes.
    #[verifier::loop_isolation(false)]
    pub fn insert_batch(&mut self, batch: &Vec<Vec<i64>>)
        requires
            old(self).wf(),
        ensures
            final(self).wf(),
            final(self).spec_len() == old(self).spec_len() + batch@.len(),
            final(self).spec_nodes() == old(self).spec_nodes() + batch@.map_values(
                |v: Vec<i64>| v@,
            ),
            old(self).same_config(*final(self)),
            exists|steps: Seq<HNSW<M>>|
                final(self).batch_chain_ok(
                    *old(self),
                    final(self).spec_nodes().subrange(
                        old(self).spec_len() as int,
                        final(self).spec_nodes().len() as int,
                    ),
                    steps,
                ),
    {
        let ghost whole = batch@.map_values(|v: Vec<i64>| v@);
        let ghost mut steps: Seq<HNSW<M>> = seq![*self];
        let mut i: usize = 0;
        while i < batch.len()
            invariant
                i <= batch@.len(),
                self.wf(),
                old(self).same_config(*self),
                self.spec_nodes() == old(self).spec_nodes() + whole.subrange(0, i as int),
                steps.len() == i + 1,
                steps[0] == *old(self),
                steps[i as int] == *self,
                forall|u: int|
                    0 <= u < i ==> Self::insert_step_ok(
                        #[trigger] steps[u],
                        steps[u + 1],
                        whole[u],
                    ),
            decreases batch@.len() - i,
        {
            let ghost pre_step = *self;
            self.insert(&batch[i]);
            proof {
                assert(self.spec_nodes() =~= old(self).spec_nodes() + whole.subrange(0, i + 1));
                assert(Self::insert_step_ok(pre_step, *self, whole[i as int])) by {
                    assert(whole[i as int] == batch@[i as int]@);
                }
                steps = steps.push(*self);
            }
            i = i + 1;
        }
        proof {
            assert(whole.subrange(0, batch@.len() as int) =~= whole);
            assert(final(self).spec_nodes().len() == old(self).spec_nodes().len()
                + batch@.len());
            assert(final(self).spec_nodes().subrange(
                old(self).spec_len() as int,
                final(self).spec_nodes().len() as int,
            ) =~= whole);
            assert(final(self).batch_chain_ok(
                *old(self),
                final(self).spec_nodes().subrange(
                    old(self).spec_len() as int,
                    final(self).spec_nodes().len() as int,
                ),
                steps,
            ));
        }
    }

    /// A search answer is genuine: it copies some stored vector and
    /// reports that vector's true distance to the query.
    pub closed spec fn result_entry_ok(self, q: Seq<i64>, sr: SearchResult) -> bool {
        exists|id: int|
            0 <= id < self.spec_len() && sr.vector@ == #[trigger] self.spec_nodes()[id]
                && sr.distance == self.dist(q, self.spec_nodes()[id])
    }

    /// The answers of one search name pairwise distinct stored nodes:
    /// `ids` lists, answer by answer, which node each one copies, at its
    /// true distance to the query, and no node is listed twice.
    /// `lemma_results_from_distinct_nodes` spells the content out.
    pub closed spec fn results_from_distinct_nodes(
        self,
        q: Seq<i64>,
        rs: Seq<SearchResult>,
        ids: Seq<int>,
    ) -> bool {
        &&& ids.no_duplicates()
        &&& ids.len() == rs.len()
        &&& forall|i: int|
            0 <= i < rs.len() ==> 0 <= #[trigger] ids[i] < self.spec_len()
                && rs[i].vector@ == self.spec_nodes()[ids[i]] && rs[i].distance == self.dist(
                q,
                self.spec_nodes()[ids[i]],
            )
    }

    /// What `results_from_distinct_nodes` grants: the listed node ids are
    /// pairwise distinct, one per answer, each naming the stored vector
    /// the answer copies and its true distance to the query.
    pub proof fn lemma_results_from_distinct_nodes(
        self,
        q: Seq<i64>,
        rs: Seq<SearchResult>,
        ids: Seq<int>,
    )
        requires
            self.results_from_distinct_nodes(q, rs, ids),
        ensures
            ids.no_duplicates(),
            ids.len() == rs.len(),
            forall|i: int|
                0 <= i < rs.len() ==> 0 <= #[trigger] ids[i] < self.spec_len()
                    && rs[i].vector@ == self.spec_nodes()[ids[i]] && rs[i].distance == self.dist(
                    q,
                    self.spec_nodes()[ids[i]],
                ),
    {
    }

    /// Search for the `k` nearest neighbours of the query by travelling the
    /// hierarchy from the top level down and running a beam search of width
    /// `k` on the base level.
    ///
    /// Fails exactly on an empty index.  On success the answers come sorted
    /// by ascending distance, each carrying a copy of a stored vector and
    /// its true distance to the query, and there are at most `k` of them
    /// (at least one when `k >= 1`).
    #[verifier::loop_isolation(false)]
    #[verifier::rlimit(50)]
    pub fn search(&mut self, query: &Vec<i64>, k: usize) -> (r: Result<
        Vec<SearchResult>,
        &'static str,
    >)
        requires
            old(self).wf(),
        ensures
            final(self).wf(),
            final(self).spec_nodes() == old(self).spec_nodes(),
            final(self).spec_len() == old(self).spec_len(),
            final(self).spec_levels() == old(self).spec_levels(),
            final(self).spec_num_levels() == old(self).spec_num_levels(),
            old(self).same_config(*final(self)),
            (old(self).spec_len() == 0) <==> (r is Err),
            r is Err ==> r->Err_0@ == "index is empty"@,
            r is Ok ==> r->Ok_0@.len() <= k,
            r is Ok ==> r->Ok_0@.len() <= old(self).spec_len(),
            r is Ok && k >= 1 ==> r->Ok_0@.len() >= 1,
            r is Ok ==> (forall|i: int, j: int|
                0 <= i <= j < r->Ok_0@.len() ==> (#[trigger] r->Ok_0@[i]).distance <= (
                #[trigger] r->Ok_0@[j]).distance),
            r is Ok ==> (forall|i: int|
                0 <= i < r->Ok_0@.len() ==> old(self).result_entry_ok(
                    query@,
                    #[trigger] r->Ok_0@[i],
                )),
            r is Ok ==> (exists|ids: Seq<int>|
                old(self).results_from_distinct_nodes(query@, r->Ok_0@, ids)),
            old(self).spec_len() == 1 && k >= 1 && r is Ok ==> r->Ok_0@.len() == 1
                && r->Ok_0@[0].vector@ == old(self).spec_nodes()[0] && r->Ok_0@[0].distance == old(self).dist(query@, old(self).spec_nodes()[0]),
    {
        let ghost orig = *old(self);
        let ghost n = self.nodes@.len() as int;
        if self.is_empty() {
            proof {
                reveal_strlit("index is empty");
            }
            return Err("index is empty");
        }
        let top_level_index = self.num_levels() - 1;
        proof {
            orig.lemma_level_ok_carryover(*self, top_level_index as int);
        }
        let mut entry_vec: Vec<usize> = Vec::new();
        let eid0 = self.sample_entry_id(top_level_index);
        entry_vec.push(eid0);
        let mut li = top_level_index;
        while li > 0
            invariant
                li <= top_level_index,
                self.nodes@ == orig.nodes@,
                self.levels@ == orig.levels@,
                orig.same_config(*self),
                entry_vec@.len() == 1,
                entry_vec@[0] < n,
                self.levels@[li as int].contains_id(entry_vec@[0]),
            decreases li,
        {
            proof {
                orig.lemma_level_ok_carryover(*self, li as int);
                assert(entry_vec@.no_duplicates());
            }
            let res = self.search_level(li, query, &entry_vec, 1);
            proof {
                assert(res@.len() == 1);
                assert(self.cand_ok(li as int, query@, entry_vec@, res@[0]));
                assert(self.levels@[li as int - 1].contains_id(res@[0].id));
            }
            let mut ev2: Vec<usize> = Vec::new();
            ev2.push(res[0].id);
            entry_vec = ev2;
            li = li - 1;
        }
        proof {
            orig.lemma_level_ok_carryover(*self, 0);
            assert(entry_vec@.no_duplicates());
        }
        let nearest = self.search_level(0, query, &entry_vec, k);
        let ghost nearest_seq = nearest@;
        let mut out: Vec<SearchResult> = Vec::new();
        let mut i: usize = 0;
        while i < nearest.len()
            invariant
                i <= nearest@.len(),
                nearest@ == nearest_seq,
                self.nodes@ == orig.nodes@,
                out@.len() == i,
                forall|u: int|
                    0 <= u < i ==> (#[trigger] out@[u]).distance == nearest_seq[u].distance
                        && out@[u].vector@ == self.nodes@[nearest_seq[u].id as int]@,
            decreases nearest@.len() - i,
        {
            let c = nearest[i];
            proof {
                assert(self.cand_ok(0, query@, entry_vec@, nearest_seq[i as int]));
            }
            let v = clone_vector(&self.nodes[c.id]);
            out.push(SearchResult::new(v, c.distance));
            i = i + 1;
        }
        let ghost out_full = out@;
        if out.len() > k {
            out.truncate(k);
        }
        proof {
            orig.lemma_wf_carryover(*self);
            crate::candidates::lemma_distinct_ids_bound(nearest_seq, n);
            assert forall|u: int|
                0 <= u < out@.len() implies old(self).result_entry_ok(
                query@,
                #[trigger] out@[u],
            ) by {
                assert(out@[u] == out_full[u]);
                assert(self.cand_ok(0, query@, entry_vec@, nearest_seq[u]));
                let id = nearest_seq[u].id as int;
                assert(0 <= id < old(self).spec_len());
                assert(old(self).spec_nodes()[id] == self.nodes@[id]@);
                assert(0 <= id < old(self).spec_len() && out@[u].vector@ == old(self).spec_nodes()[id] && out@[u].distance == old(self).dist(
                    query@,
                    old(self).spec_nodes()[id],
                ));
            }
            if orig.spec_len() == 1 && k >= 1 {
                assert(nearest_seq.len() >= 1);
                if nearest_seq.len() >= 2 {
                    assert(self.cand_ok(0, query@, entry_vec@, nearest_seq[0]));
                    assert(self.cand_ok(0, query@, entry_vec@, nearest_seq[1]));
                    assert(nearest_seq[0].id == 0 && nearest_seq[1].id == 0);
                    assert(false);
                }
                assert(self.cand_ok(0, query@, entry_vec@, nearest_seq[0]));
                assert(nearest_seq[0].id == 0);
                assert(out@[0].vector@ == orig.spec_nodes()[0]);
            }
        }
        let r: Result<Vec<SearchResult>, &'static str> = Ok(out);
        proof {
            let ids_w = Seq::new(r->Ok_0@.len(), |i: int| nearest_seq[i].id as int);
            assert(old(self).results_from_distinct_nodes(query@, r->Ok_0@, ids_w)) by {
                assert(ids_w.no_duplicates()) by {
                    assert forall|i: int, j: int|
                        0 <= i < j < ids_w.len() implies ids_w[i] != ids_w[j] by {
                        assert(nearest_seq[i].id != nearest_seq[j].id);
                    }
                }
                assert forall|i: int|
                    0 <= i < r->Ok_0@.len() implies 0 <= #[trigger] ids_w[i] < old(self).spec_len() && r->Ok_0@[i].vector@ == old(self).spec_nodes()[ids_w[i]]
                    && r->Ok_0@[i].distance == old(self).dist(
                    query@,
                    old(self).spec_nodes()[ids_w[i]],
                ) by {
                    assert(r->Ok_0@[i] == out_full[i]);
                    assert(self.cand_ok(0, query@, entry_vec@, nearest_seq[i]));
                    assert(old(self).spec_nodes()[ids_w[i]] == self.nodes@[ids_w[i]]@);
                }
            }
        }
        r
    }

    /// The neighbour ids of a node in a level, if the node is there.
    pub fn get_neighbors(&self, level_index: usize, node_id: usize) -> (r: Option<&Vec<usize>>)
        requires
            self.wf(),
            level_index < self.spec_num_levels(),
        ensures
            match r {
                Some(v) => self.spec_levels()[level_index as int].contains_id(node_id) && v@
                    == self.spec_levels()[level_index as int].neighbors_of(node_id),
                None => !self.spec_levels()[level_index as int].contains_id(node_id),
            },
    {
        proof {
            assert(self.level_ok(level_index as int));
        }
        self.levels[level_index].get(node_id)
    }

    /// The stored vector with the given id, if one exists.
    pub fn get_vector(&self, id: usize) -> (r: Option<&Vec<i64>>)
        ensures
            (id < self.spec_len()) <==> (r is Some),
            r is Some ==> r->0@ == self.spec_nodes()[id as int],
    {
        if id < self.nodes.len() {
            Some(&self.nodes[id])
        } else {
            None
        }
    }

    /// How many nodes live in a level.
    pub fn level_len(&self, level_index: usize) -> (n: usize)
        requires
            level_index < self.spec_num_levels(),
        ensures
            n == self.spec_levels()[level_index as int].num_nodes(),
    {
        self.levels[level_index].len()
    }

    /// The node ids of a level.
    pub fn level_ids(&self, level_index: usize) -> (r: Vec<usize>)
        requires
            level_index < self.spec_num_levels(),
        ensures
            r@ == self.spec_levels()[level_index as int].key_seq(),
    {
        let lv = &self.levels[level_index];
        let mut r: Vec<usize> = Vec::new();
        let mut i: usize = 0;
        while i < lv.len()
            invariant
                i <= lv.entries@.len(),
                r@.len() == i,
                forall|u: int| 0 <= u < i ==> #[trigger] r@[u] == lv.entries@[u].id,
            decreases lv.entries@.len() - i,
        {
            let id = lv.key_at(i);
            r.push(id);
            i = i + 1;
        }
        proof {
            assert(r@ =~= self.spec_levels()[level_index as int].key_seq());
        }
        r
    }

    /// Every id in any adjacency list names a stored vector.
    pub proof fn lemma_adjacency_ids_stored(self)
        requires
            self.wf(),
        ensures
            forall|l: int, i: int, a: int|
                #![trigger self.spec_levels()[l].entries@[i].neighbors@[a]]
                0 <= l < self.spec_num_levels() && 0 <= i < self.spec_levels()[l].entries@.len()
                    && 0 <= a < self.spec_levels()[l].entries@[i].neighbors@.len()
                    ==> self.spec_levels()[l].entries@[i].neighbors@[a] < self.spec_len(),
    {
        assert forall|l: int, i: int, a: int|
            #![trigger self.spec_levels()[l].entries@[i].neighbors@[a]]
            0 <= l < self.spec_num_levels() && 0 <= i < self.spec_levels()[l].entries@.len() && 0
                <= a < self.spec_levels()[l].entries@[i].neighbors@.len() implies self.spec_levels()[l].entries@[i].neighbors@[a]
            < self.spec_len() by {
            assert(self.level_ok(l));
            assert(self.adj_ok(l, i));
            let id = self.levels@[l].entries@[i].neighbors@[a];
            assert(self.levels@[l].contains_id(id));
            self.lemma_contained_id_bound(l, id);
        }
    }

    /// A node of a level appears in every level below it.
    pub proof fn lemma_downward_inclusion(self, l_hi: int, l_lo: int, id: usize)
        requires
            self.wf(),
            0 <= l_lo <= l_hi < self.spec_num_levels(),
            self.spec_levels()[l_hi].contains_id(id),
        ensures
            self.spec_levels()[l_lo].contains_id(id),
    {
        self.lemma_downward_chain(l_hi, l_lo, id);
    }

    /// Levels thin out as they rise: each level holds at most as many nodes
    /// as the one below it.
    pub proof fn lemma_level_density_decay(self, l: int)
        requires
            self.wf(),
            0 <= l,
            l + 1 < self.spec_num_levels(),
        ensures
            self.spec_levels()[l + 1].num_nodes() <= self.spec_levels()[l].num_nodes(),
    {
        let upper = self.levels@[l + 1];
        let lower = self.levels@[l];
        assert(self.level_ok(l));
        assert(self.level_ok(l + 1));
        assert(upper.key_seq().no_duplicates()) by {
            assert forall|i: int, j: int|
                0 <= i < j < upper.key_seq().len() implies upper.key_seq()[i]
                != upper.key_seq()[j] by {
                assert(upper.entries@[i].id != upper.entries@[j].id);
            }
        }
        assert(lower.key_seq().no_duplicates()) by {
            assert forall|i: int, j: int|
                0 <= i < j < lower.key_seq().len() implies lower.key_seq()[i]
                != lower.key_seq()[j] by {
                assert(lower.entries@[i].id != lower.entries@[j].id);
            }
        }
        upper.key_seq().unique_seq_to_set();
        lower.key_seq().unique_seq_to_set();
        vstd::seq_lib::seq_to_set_is_finite(upper.key_seq());
        vstd::seq_lib::seq_to_set_is_finite(lower.key_seq());
        assert(upper.key_seq().to_set().subset_of(lower.key_seq().to_set())) by {
            assert forall|x: usize|
                upper.key_seq().to_set().contains(x) implies lower.key_seq().to_set().contains(
                x,
            ) by {
                assert(upper.key_seq().contains(x));
                let i = choose|i: int|
                    0 <= i < upper.key_seq().len() && upper.key_seq()[i] == x;
                assert(upper.entries@[i].id == x);
                assert(upper.contains_id(x));
                assert(lower.contains_id(x));
                let j = choose|j: int|
                    0 <= j < lower.entries@.len() && (#[trigger] lower.entries@[j]).id == x;
                assert(lower.key_seq()[j] == x);
                assert(lower.key_seq().contains(x));
            }
        }
        vstd::set_lib::lemma_len_subset(
            upper.key_seq().to_set(),
            lower.key_seq().to_set(),
        );
    }

    /// Every adjacency list respects its level's degree cap.
    pub proof fn lemma_degree_bound(self)
        requires
            self.wf(),
        ensures
            forall|l: int, i: int|
                #![trigger self.spec_levels()[l].entries@[i].neighbors]
                0 <= l < self.spec_num_levels() && 0 <= i < self.spec_levels()[l].entries@.len()
                    ==> self.spec_levels()[l].entries@[i].neighbors@.len() <= self.spec_cap(l),
    {
        assert forall|l: int, i: int|
            #![trigger self.spec_levels()[l].entries@[i].neighbors]
            0 <= l < self.spec_num_levels() && 0 <= i < self.spec_levels()[l].entries@.len()
            implies self.spec_levels()[l].entries@[i].neighbors@.len() <= self.spec_cap(l) by {
            assert(self.level_ok(l));
            assert(self.adj_ok(l, i));
        }
    }

    /// The base level holds every stored node, and only those.
    pub proof fn lemma_base_level_universality(self)
        requires
            self.wf(),
            self.spec_len() > 0,
        ensures
            self.spec_num_levels() >= 1,
            self.spec_levels()[0].num_nodes() == self.spec_len(),
            forall|id: usize|
                id < self.spec_len() ==> #[trigger] self.spec_levels()[0].contains_id(id),
    {
    }
}

} // verus!
