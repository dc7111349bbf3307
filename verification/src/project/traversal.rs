//! Breadth-first distances over a graph of numbered nodes, with an optional bound on how
//! far the search spreads.

use std::collections::VecDeque;
use vstd::prelude::*;

verus! {

/// The graph has an edge from `u` to `w`: `w` is listed under `u`.
pub open spec fn has_edge(adj: Seq<Vec<usize>>, u: int, w: int) -> bool {
    0 <= u < adj.len() && exists|j: int| 0 <= j < adj[u]@.len() && #[trigger] adj[u]@[j] == w
}

/// `v` is one of the seeds.
pub open spec fn is_seed(seeds: Seq<usize>, v: int) -> bool {
    exists|i: int| 0 <= i < seeds.len() && #[trigger] seeds[i] == v
}

/// Every node that the graph or the seeds name is a node of the graph.
pub open spec fn graph_ok(adj: Seq<Vec<usize>>, seeds: Seq<usize>) -> bool {
    &&& forall|u: int, j: int|
        0 <= u < adj.len() && 0 <= j < adj[u]@.len() ==> #[trigger] adj[u]@[j] < adj.len()
    &&& forall|i: int| 0 <= i < seeds.len() ==> #[trigger] seeds[i] < adj.len()
}

/// A distance that the limit admits.
pub open spec fn within(limit: Option<usize>, d: nat) -> bool {
    match limit {
        Some(l) => d <= l,
        None => true,
    }
}

/// A node at distance `d` passes the search on to its neighbours.
pub open spec fn expands(limit: Option<usize>, d: nat) -> bool {
    match limit {
        Some(l) => d < l,
        None => true,
    }
}

/// There is a walk of exactly `k` edges from some source to `v`.
pub open spec fn walk(edges: spec_fn(int, int) -> bool, sources: Set<int>, v: int, k: nat) -> bool
    decreases k,
{
    if k == 0 {
        sources.contains(v)
    } else {
        exists|u: int| walk(edges, sources, u, (k - 1) as nat) && #[trigger] edges(u, v)
    }
}

/// `d` is the length of a shortest walk from a source to `v`.
pub open spec fn is_distance(
    edges: spec_fn(int, int) -> bool,
    sources: Set<int>,
    v: int,
    d: nat,
) -> bool {
    walk(edges, sources, v, d) && forall|k: nat| k < d ==> !walk(edges, sources, v, k)
}

/// The distance of `v` from the sources, where a walk within the limit leads to it.
pub open spec fn distance_of(
    edges: spec_fn(int, int) -> bool,
    sources: Set<int>,
    limit: Option<usize>,
    v: int,
) -> Option<nat> {
    if exists|d: nat| is_distance(edges, sources, v, d) && within(limit, d) {
        Some(choose|d: nat| is_distance(edges, sources, v, d) && within(limit, d))
    } else {
        None
    }
}

/// The edges of a graph given by lists of neighbours.
pub open spec fn adj_edges(adj: Seq<Vec<usize>>) -> spec_fn(int, int) -> bool {
    |u: int, w: int| has_edge(adj, u, w)
}

/// The nodes that a list of seeds names.
pub open spec fn seed_set(seeds: Seq<usize>) -> Set<int> {
    Set::new(|v: int| is_seed(seeds, v))
}

/// There is a walk of exactly `k` edges of the graph from some seed to `v`.
pub open spec fn reach(adj: Seq<Vec<usize>>, seeds: Seq<usize>, v: int, k: nat) -> bool {
    walk(adj_edges(adj), seed_set(seeds), v, k)
}

/// A walk goes on along any edge.
pub proof fn lemma_walk_on(
    edges: spec_fn(int, int) -> bool,
    sources: Set<int>,
    u: int,
    v: int,
    k: nat,
)
    requires
        walk(edges, sources, u, k),
        edges(u, v),
    ensures
        walk(edges, sources, v, k + 1),
{
    assert(((k + 1) as nat - 1) as nat == k);
}

/// The distance that a table of distances records for `v`.
pub open spec fn recorded(table: Seq<Option<usize>>, v: int) -> Option<nat> {
    if 0 <= v < table.len() {
        match table[v] {
            Some(d) => Some(d as nat),
            None => None,
        }
    } else {
        None
    }
}

/// The table holds, for every node, its distance from the seeds within the limit.
pub open spec fn is_distance_table(
    adj: Seq<Vec<usize>>,
    seeds: Seq<usize>,
    limit: Option<usize>,
    table: Seq<Option<usize>>,
) -> bool {
    &&& table.len() == adj.len()
    &&& forall|v: int|
        0 <= v < adj.len() ==> #[trigger] recorded(table, v) == distance_of(
            adj_edges(adj),
            seed_set(seeds),
            limit,
            v,
        )
}

/// A shortest walk has one length only.
pub proof fn lemma_distance_unique(
    edges: spec_fn(int, int) -> bool,
    sources: Set<int>,
    v: int,
    a: nat,
    b: nat,
)
    requires
        is_distance(edges, sources, v, a),
        is_distance(edges, sources, v, b),
    ensures
        a == b,
{
}

/// A node that any walk reaches has a distance, no longer than the walk.
pub proof fn lemma_walk_has_distance(
    edges: spec_fn(int, int) -> bool,
    sources: Set<int>,
    v: int,
    k: nat,
)
    requires
        walk(edges, sources, v, k),
    ensures
        exists|d: nat| d <= k && is_distance(edges, sources, v, d),
    decreases k,
{
    if forall|j: nat| j < k ==> !walk(edges, sources, v, j) {
        assert(is_distance(edges, sources, v, k));
    } else {
        let j = choose|j: nat| j < k && walk(edges, sources, v, j);
        lemma_walk_has_distance(edges, sources, v, j);
    }
}

/// What `distance_of` gives is the length of a shortest walk, and the limit admits it.
pub proof fn lemma_distance_is_shortest(
    edges: spec_fn(int, int) -> bool,
    sources: Set<int>,
    limit: Option<usize>,
    v: int,
)
    ensures
        distance_of(edges, sources, limit, v) matches Some(d) ==> is_distance(edges, sources, v, d)
            && within(limit, d),
{
}

/// A node whose shortest walk the limit admits has that walk's length as its distance:
/// a node exactly at the limit is still counted.
pub proof fn lemma_distance_found(
    edges: spec_fn(int, int) -> bool,
    sources: Set<int>,
    limit: Option<usize>,
    v: int,
    d: nat,
)
    requires
        is_distance(edges, sources, v, d),
        within(limit, d),
    ensures
        distance_of(edges, sources, limit, v) == Some(d),
{
    let c = choose|c: nat| is_distance(edges, sources, v, c) && within(limit, c);
    lemma_distance_unique(edges, sources, v, c, d);
}

/// A node that no walk within the limit reaches has no distance.
pub proof fn lemma_distance_beyond(
    edges: spec_fn(int, int) -> bool,
    sources: Set<int>,
    limit: Option<usize>,
    v: int,
)
    requires
        forall|k: nat| within(limit, k) ==> !walk(edges, sources, v, k),
    ensures
        distance_of(edges, sources, limit, v) is None,
{
}

/// Every source is at distance 0.
pub proof fn lemma_source_distance(
    edges: spec_fn(int, int) -> bool,
    sources: Set<int>,
    limit: Option<usize>,
    v: int,
)
    requires
        sources.contains(v),
    ensures
        distance_of(edges, sources, limit, v) == Some(0nat),
{
    assert(walk(edges, sources, v, 0));
    lemma_distance_found(edges, sources, limit, v, 0);
}

/// A node next to a source, not a source itself, is at distance exactly 1, unless the
/// limit is 0.
pub proof fn lemma_next_to_source(
    edges: spec_fn(int, int) -> bool,
    sources: Set<int>,
    limit: Option<usize>,
    s: int,
    w: int,
)
    requires
        sources.contains(s),
        edges(s, w),
        !sources.contains(w),
        expands(limit, 0),
    ensures
        distance_of(edges, sources, limit, w) == Some(1nat),
{
    assert(walk(edges, sources, s, 0));
    lemma_walk_on(edges, sources, s, w, 0);
    assert forall|k: nat| k < 1 implies !walk(edges, sources, w, k) by {
        assert(k == 0);
    }
    lemma_distance_found(edges, sources, limit, w, 1);
}

/// Along an edge the distance grows by one at most: a neighbour of a node that passes the
/// search on has a distance, no more than one step longer.
pub proof fn lemma_one_step_further(
    edges: spec_fn(int, int) -> bool,
    sources: Set<int>,
    limit: Option<usize>,
    u: int,
    w: int,
)
    requires
        edges(u, w),
        distance_of(edges, sources, limit, u) is Some,
        expands(limit, distance_of(edges, sources, limit, u)->0),
    ensures
        distance_of(edges, sources, limit, w) matches Some(e) && e <= distance_of(
            edges,
            sources,
            limit,
            u,
        )->0 + 1,
{
    let d = distance_of(edges, sources, limit, u)->0;
    lemma_distance_is_shortest(edges, sources, limit, u);
    lemma_walk_on(edges, sources, u, w, d);
    lemma_walk_has_distance(edges, sources, w, d + 1);
    let e = choose|e: nat| e <= d + 1 && is_distance(edges, sources, w, e);
    lemma_distance_found(edges, sources, limit, w, e);
}

/// Number of nodes that a table records a distance for.
pub open spec fn count_some(table: Seq<Option<usize>>) -> nat
    decreases table.len(),
{
    if table.len() == 0 {
        0
    } else {
        count_some(table.drop_last()) + if table.last() is Some {
            1nat
        } else {
            0nat
        }
    }
}

/// A table records distances for no more nodes than it has.
pub proof fn lemma_count_bound(table: Seq<Option<usize>>)
    ensures
        count_some(table) <= table.len(),
    decreases table.len(),
{
    if table.len() > 0 {
        lemma_count_bound(table.drop_last());
    }
}

/// Recording a distance for a node that had none makes one more.
pub proof fn lemma_count_update(table: Seq<Option<usize>>, i: int, d: usize)
    requires
        0 <= i < table.len(),
        table[i] is None,
    ensures
        count_some(table.update(i, Some(d))) == count_some(table) + 1,
    decreases table.len(),
{
    let next = table.update(i, Some(d));
    if i == table.len() - 1 {
        assert(next.drop_last() =~= table.drop_last());
    } else {
        lemma_count_update(table.drop_last(), i, d);
        assert(next.drop_last() =~= table.drop_last().update(i, Some(d)));
    }
}

/// The table records a distance for `v`.
pub open spec fn met(table: Seq<Option<usize>>, v: int) -> bool {
    0 <= v < table.len() && table[v] is Some
}

/// The distance that the table records for `v`.
pub open spec fn dist_in(table: Seq<Option<usize>>, v: int) -> nat {
    (table[v]->0) as nat
}

/// `v` waits in the queue.
pub open spec fn waits(queue: Seq<usize>, v: int) -> bool {
    exists|i: int| 0 <= i < queue.len() && #[trigger] queue[i] == v
}

/// The search has met `v` and is done with it, `busy` being the node in hand, if any.
pub open spec fn settled(table: Seq<Option<usize>>, queue: Seq<usize>, v: int, busy: int) -> bool {
    met(table, v) && !waits(queue, v) && v != busy
}

/// What holds of a search while the node `busy` is in hand and its first `upto`
/// neighbours have been looked at; `busy` is negative between two steps.
///
/// Every recorded distance is the length of a walk from a seed; the queue holds nodes in
/// the order of their distances, which differ by one at most; and each node that the
/// search is done with has passed the search on to all its neighbours, unless it stands
/// at the limit.
pub open spec fn search_inv(
    adj: Seq<Vec<usize>>,
    seeds: Seq<usize>,
    limit: Option<usize>,
    table: Seq<Option<usize>>,
    queue: Seq<usize>,
    busy: int,
    upto: int,
) -> bool {
    &&& graph_ok(adj, seeds)
    &&& table.len() == adj.len()
    &&& forall|i: int| 0 <= i < queue.len() ==> met(table, #[trigger] queue[i] as int)
    &&& forall|i: int, j: int|
        #![trigger queue[i], queue[j]]
        0 <= i < j < queue.len() ==> queue[i] != queue[j]
    &&& forall|v: int| #[trigger]
        met(table, v) ==> reach(adj, seeds, v, dist_in(table, v)) && within(
            limit,
            dist_in(table, v),
        ) && dist_in(table, v) < count_some(table)
    &&& forall|i: int, j: int|
        #![trigger queue[i], queue[j]]
        0 <= i <= j < queue.len() ==> dist_in(table, queue[i] as int) <= dist_in(
            table,
            queue[j] as int,
        ) <= dist_in(table, queue[0] as int) + 1
    &&& forall|v: int| #[trigger]
        settled(table, queue, v, busy) && queue.len() > 0 ==> dist_in(table, v) <= dist_in(
            table,
            queue[0] as int,
        )
    &&& forall|v: int, j: int|
        #![trigger settled(table, queue, v, busy), adj[v]@[j]]
        settled(table, queue, v, busy) && expands(limit, dist_in(table, v)) && 0 <= j
            < adj[v]@.len() ==> met(table, adj[v]@[j] as int) && dist_in(
            table,
            adj[v]@[j] as int,
        ) <= dist_in(table, v) + 1
    &&& forall|i: int|
        0 <= i < seeds.len() ==> met(table, #[trigger] seeds[i] as int) && dist_in(
            table,
            seeds[i] as int,
        ) == 0
    &&& busy >= 0 ==> {
        &&& met(table, busy)
        &&& !waits(queue, busy)
        &&& expands(limit, dist_in(table, busy))
        &&& 0 <= upto <= adj[busy]@.len()
        &&& forall|v: int| #[trigger]
            settled(table, queue, v, busy) ==> dist_in(table, v) <= dist_in(table, busy)
        &&& forall|i: int|
            0 <= i < queue.len() ==> dist_in(table, busy) <= dist_in(
                table,
                #[trigger] queue[i] as int,
            ) <= dist_in(table, busy) + 1
        &&& forall|j: int|
            0 <= j < upto ==> met(table, #[trigger] adj[busy]@[j] as int) && dist_in(
                table,
                adj[busy]@[j] as int,
            ) <= dist_in(table, busy) + 1
    }
}

/// Taking the first node off the queue: it is in hand if it passes the search on, and
/// done with if it stands at the limit.
pub proof fn lemma_take(
    adj: Seq<Vec<usize>>,
    seeds: Seq<usize>,
    limit: Option<usize>,
    table: Seq<Option<usize>>,
    queue: Seq<usize>,
)
    requires
        search_inv(adj, seeds, limit, table, queue, -1, 0),
        queue.len() > 0,
    ensures
        met(table, queue[0] as int),
        expands(limit, dist_in(table, queue[0] as int)) ==> search_inv(
            adj,
            seeds,
            limit,
            table,
            queue.drop_first(),
            queue[0] as int,
            0,
        ),
        !expands(limit, dist_in(table, queue[0] as int)) ==> search_inv(
            adj,
            seeds,
            limit,
            table,
            queue.drop_first(),
            -1,
            0,
        ),
{
    let node = queue[0] as int;
    let rest = queue.drop_first();
    assert(met(table, queue[0] as int));
    assert forall|i: int| 0 <= i < rest.len() implies rest[i] == queue[i + 1] by {}
    assert(!waits(rest, node)) by {
        if waits(rest, node) {
            let i = choose|i: int| 0 <= i < rest.len() && rest[i] == node;
            assert(queue[i + 1] == node);
        }
    }
    assert forall|v: int| waits(rest, v) implies waits(queue, v) by {
        let i = choose|i: int| 0 <= i < rest.len() && rest[i] == v;
        assert(queue[i + 1] == v);
    }
    assert forall|v: int| waits(queue, v) && v != node implies waits(rest, v) by {
        let i = choose|i: int| 0 <= i < queue.len() && queue[i] == v;
        assert(rest[i - 1] == v);
    }
    assert forall|i: int| 0 <= i < rest.len() implies met(table, #[trigger] rest[i] as int) by {
        assert(met(table, queue[i + 1] as int));
    }
    assert forall|i: int, j: int|
        #![trigger rest[i], rest[j]]
        0 <= i < j < rest.len() implies rest[i] != rest[j] by {
        assert(queue[i + 1] != queue[j + 1]);
    }
    assert forall|i: int| 0 <= i < rest.len() implies dist_in(table, node) <= dist_in(
        table,
        #[trigger] rest[i] as int,
    ) <= dist_in(table, node) + 1 by {
        assert(dist_in(table, queue[0] as int) <= dist_in(table, queue[i + 1] as int)
            <= dist_in(table, queue[0] as int) + 1);
    }
    assert forall|i: int, j: int|
        #![trigger rest[i], rest[j]]
        0 <= i <= j < rest.len() implies dist_in(table, rest[i] as int) <= dist_in(
        table,
        rest[j] as int,
    ) <= dist_in(table, rest[0] as int) + 1 by {
        assert(dist_in(table, queue[i + 1] as int) <= dist_in(table, queue[j + 1] as int)
            <= dist_in(table, queue[0] as int) + 1);
        assert(dist_in(table, queue[0] as int) <= dist_in(table, queue[1] as int));
    }
    assert forall|v: int| #[trigger] settled(table, rest, v, node) implies settled(
        table,
        queue,
        v,
        -1,
    ) by {}
    assert forall|v: int| #[trigger] settled(table, rest, v, node) implies dist_in(table, v)
        <= dist_in(table, node) by {
        assert(settled(table, queue, v, -1));
    }
    if expands(limit, dist_in(table, node)) {
        assert forall|v: int| #[trigger]
            settled(table, rest, v, node) && rest.len() > 0 implies dist_in(table, v) <= dist_in(
            table,
            rest[0] as int,
        ) by {
            assert(settled(table, queue, v, -1));
            assert(dist_in(table, queue[0] as int) <= dist_in(table, queue[1] as int));
        }
        assert forall|v: int, j: int|
            #![trigger settled(table, rest, v, node), adj[v]@[j]]
            settled(table, rest, v, node) && expands(limit, dist_in(table, v)) && 0 <= j
                < adj[v]@.len() implies met(table, adj[v]@[j] as int) && dist_in(
            table,
            adj[v]@[j] as int,
        ) <= dist_in(table, v) + 1 by {
            assert(settled(table, queue, v, -1));
        }
        assert(search_inv(adj, seeds, limit, table, rest, node, 0));
    } else {
        assert forall|v: int| #[trigger]
            settled(table, rest, v, -1) && rest.len() > 0 implies dist_in(table, v) <= dist_in(
            table,
            rest[0] as int,
        ) by {
            assert(dist_in(table, queue[0] as int) <= dist_in(table, queue[1] as int));
            if v != node {
                assert(settled(table, queue, v, -1));
            }
        }
        assert forall|v: int, j: int|
            #![trigger settled(table, rest, v, -1), adj[v]@[j]]
            settled(table, rest, v, -1) && expands(limit, dist_in(table, v)) && 0 <= j
                < adj[v]@.len() implies met(table, adj[v]@[j] as int) && dist_in(
            table,
            adj[v]@[j] as int,
        ) <= dist_in(table, v) + 1 by {
            assert(v != node);
            assert(settled(table, queue, v, -1));
        }
        assert(search_inv(adj, seeds, limit, table, rest, -1, 0));
    }
}

/// Looking at a neighbour that the search has met before changes nothing.
pub proof fn lemma_look_met(
    adj: Seq<Vec<usize>>,
    seeds: Seq<usize>,
    limit: Option<usize>,
    table: Seq<Option<usize>>,
    queue: Seq<usize>,
    busy: int,
    upto: int,
)
    requires
        busy >= 0,
        search_inv(adj, seeds, limit, table, queue, busy, upto),
        upto < adj[busy]@.len(),
        met(table, adj[busy]@[upto] as int),
    ensures
        search_inv(adj, seeds, limit, table, queue, busy, upto + 1),
{
    let w = adj[busy]@[upto] as int;
    if waits(queue, w) {
        let i = choose|i: int| 0 <= i < queue.len() && queue[i] == w;
        assert(dist_in(table, queue[i] as int) <= dist_in(table, busy) + 1);
    } else if w != busy {
        assert(settled(table, queue, w, busy));
    }
    assert forall|j: int| 0 <= j < upto + 1 implies met(table, #[trigger] adj[busy]@[j] as int)
        && dist_in(table, adj[busy]@[j] as int) <= dist_in(table, busy) + 1 by {}
}

/// Looking at a neighbour that the search has not met: it is recorded one step further
/// out than the node in hand, and waits at the end of the queue.
pub proof fn lemma_look_new(
    adj: Seq<Vec<usize>>,
    seeds: Seq<usize>,
    limit: Option<usize>,
    table: Seq<Option<usize>>,
    queue: Seq<usize>,
    busy: int,
    upto: int,
)
    requires
        busy >= 0,
        search_inv(adj, seeds, limit, table, queue, busy, upto),
        upto < adj[busy]@.len(),
        !met(table, adj[busy]@[upto] as int),
    ensures
        dist_in(table, busy) + 1 <= table.len(),
        dist_in(table, busy) + 1 <= usize::MAX ==> search_inv(
            adj,
            seeds,
            limit,
            table.update(
                adj[busy]@[upto] as int,
                Some((dist_in(table, busy) + 1) as usize),
            ),
            queue.push(adj[busy]@[upto]),
            busy,
            upto + 1,
        ),
{
    let w = adj[busy]@[upto] as int;
    let d = dist_in(table, busy);
    lemma_count_bound(table);
    if d + 1 <= usize::MAX {
        let far = (d + 1) as usize;
        let next = table.update(w, Some(far));
        let line = queue.push(adj[busy]@[upto]);
        lemma_count_update(table, w, far);
        assert(0 <= w < adj.len());
        assert(line[queue.len() as int] == w);
        assert forall|i: int| 0 <= i < queue.len() implies line[i] == queue[i] by {}
        assert forall|v: int| met(table, v) implies met(next, v) && dist_in(next, v) == dist_in(
            table,
            v,
        ) by {}
        assert forall|v: int| met(next, v) implies v == w || met(table, v) by {}
        assert forall|v: int| waits(queue, v) implies waits(line, v) by {
            let i = choose|i: int| 0 <= i < queue.len() && queue[i] == v;
            assert(line[i] == v);
        }
        assert forall|v: int| waits(line, v) implies v == w || waits(queue, v) by {
            let i = choose|i: int| 0 <= i < line.len() && line[i] == v;
            if i < queue.len() {
                assert(queue[i] == v);
            }
        }
        assert(waits(line, w));
        assert(!waits(line, busy));
        assert forall|v: int| settled(next, line, v, busy) implies settled(table, queue, v, busy) by {}
        assert(reach(adj, seeds, w, (d + 1) as nat)) by {
            assert(reach(adj, seeds, busy, d));
            assert(has_edge(adj, busy, w));
            lemma_walk_on(adj_edges(adj), seed_set(seeds), busy, w, d);
        }
        assert(dist_in(next, w) == d + 1);
        assert forall|i: int| 0 <= i < line.len() implies met(next, #[trigger] line[i] as int) by {
            if i < queue.len() {
                assert(met(table, queue[i] as int));
            }
        }
        assert forall|i: int, k: int|
            #![trigger line[i], line[k]]
            0 <= i < k < line.len() implies line[i] != line[k] by {
            if k < queue.len() {
                assert(queue[i] != queue[k]);
            } else {
                assert(met(table, queue[i] as int));
            }
        }
        assert forall|i: int| 0 <= i < line.len() implies dist_in(next, busy) <= dist_in(
            next,
            #[trigger] line[i] as int,
        ) <= dist_in(next, busy) + 1 by {
            if i < queue.len() {
                assert(met(table, queue[i] as int));
                assert(dist_in(table, busy) <= dist_in(table, queue[i] as int) <= dist_in(
                    table,
                    busy,
                ) + 1);
            }
        }
        assert forall|i: int, k: int|
            #![trigger line[i], line[k]]
            0 <= i <= k < line.len() implies dist_in(next, line[i] as int) <= dist_in(
            next,
            line[k] as int,
        ) <= dist_in(next, line[0] as int) + 1 by {
            assert(dist_in(next, busy) <= dist_in(next, line[0] as int));
            assert(dist_in(next, line[k] as int) <= dist_in(next, busy) + 1);
            if k < queue.len() {
                assert(met(table, queue[i] as int));
                assert(met(table, queue[k] as int));
                assert(dist_in(table, queue[i] as int) <= dist_in(table, queue[k] as int));
            } else {
                assert(dist_in(next, line[i] as int) <= dist_in(next, busy) + 1);
            }
        }
        assert forall|v: int| #[trigger]
            settled(next, line, v, busy) && line.len() > 0 implies dist_in(next, v) <= dist_in(
            next,
            line[0] as int,
        ) by {
            assert(settled(table, queue, v, busy));
            assert(dist_in(next, busy) <= dist_in(next, line[0] as int));
        }
        assert forall|v: int, k: int|
            #![trigger settled(next, line, v, busy), adj[v]@[k]]
            settled(next, line, v, busy) && expands(limit, dist_in(next, v)) && 0 <= k
                < adj[v]@.len() implies met(next, adj[v]@[k] as int) && dist_in(
            next,
            adj[v]@[k] as int,
        ) <= dist_in(next, v) + 1 by {
            assert(settled(table, queue, v, busy));
            assert(met(table, adj[v]@[k] as int));
        }
        assert forall|i: int| 0 <= i < seeds.len() implies met(next, #[trigger] seeds[i] as int)
            && dist_in(next, seeds[i] as int) == 0 by {
            assert(met(table, seeds[i] as int));
        }
        assert forall|k: int| 0 <= k < upto + 1 implies met(next, #[trigger] adj[busy]@[k] as int)
            && dist_in(next, adj[busy]@[k] as int) <= dist_in(next, busy) + 1 by {
            if k < upto {
                assert(met(table, adj[busy]@[k] as int));
            }
        }
        assert forall|v: int| #[trigger] met(next, v) implies reach(
            adj,
            seeds,
            v,
            dist_in(next, v),
        ) && within(limit, dist_in(next, v)) && dist_in(next, v) < count_some(next) by {
            if v != w {
                assert(met(table, v));
            }
        }
        assert forall|v: int| #[trigger] settled(next, line, v, busy) implies dist_in(next, v)
            <= dist_in(next, busy) by {
            assert(settled(table, queue, v, busy));
        }
    }
}

/// When all neighbours of the node in hand have been looked at, the search is done with
/// it.
pub proof fn lemma_release(
    adj: Seq<Vec<usize>>,
    seeds: Seq<usize>,
    limit: Option<usize>,
    table: Seq<Option<usize>>,
    queue: Seq<usize>,
    busy: int,
)
    requires
        busy >= 0,
        search_inv(adj, seeds, limit, table, queue, busy, adj[busy]@.len() as int),
    ensures
        search_inv(adj, seeds, limit, table, queue, -1, 0),
{
    assert forall|v: int| #[trigger]
        settled(table, queue, v, -1) && queue.len() > 0 implies dist_in(table, v) <= dist_in(
        table,
        queue[0] as int,
    ) by {
        if v != busy {
            assert(settled(table, queue, v, busy));
        }
    }
    assert forall|v: int, k: int|
        #![trigger settled(table, queue, v, -1), adj[v]@[k]]
        settled(table, queue, v, -1) && expands(limit, dist_in(table, v)) && 0 <= k
            < adj[v]@.len() implies met(table, adj[v]@[k] as int) && dist_in(
        table,
        adj[v]@[k] as int,
    ) <= dist_in(table, v) + 1 by {
        if v != busy {
            assert(settled(table, queue, v, busy));
        }
    }
}

/// When nothing waits any more, every node that a walk within the limit reaches has been
/// met, at a distance no longer than the walk.
pub proof fn lemma_all_met(
    adj: Seq<Vec<usize>>,
    seeds: Seq<usize>,
    limit: Option<usize>,
    table: Seq<Option<usize>>,
    v: int,
    k: nat,
)
    requires
        search_inv(adj, seeds, limit, table, Seq::<usize>::empty(), -1, 0),
        reach(adj, seeds, v, k),
        within(limit, k),
    ensures
        met(table, v),
        dist_in(table, v) <= k,
    decreases k,
{
    let none = Seq::<usize>::empty();
    if k == 0 {
        let i = choose|i: int| 0 <= i < seeds.len() && seeds[i] == v;
        assert(met(table, seeds[i] as int));
    } else {
        let edges = adj_edges(adj);
        let u = choose|u: int|
            walk(edges, seed_set(seeds), u, (k - 1) as nat) && #[trigger] edges(u, v);
        lemma_all_met(adj, seeds, limit, table, u, (k - 1) as nat);
        let j = choose|j: int| 0 <= j < adj[u]@.len() && #[trigger] adj[u]@[j] == v;
        assert(settled(table, none, u, -1));
        assert(met(table, adj[u]@[j] as int));
    }
}

/// When nothing waits any more, the table holds the distance of every node.
pub proof fn lemma_finished(
    adj: Seq<Vec<usize>>,
    seeds: Seq<usize>,
    limit: Option<usize>,
    table: Seq<Option<usize>>,
)
    requires
        search_inv(adj, seeds, limit, table, Seq::<usize>::empty(), -1, 0),
    ensures
        is_distance_table(adj, seeds, limit, table),
{
    assert forall|v: int| 0 <= v < adj.len() implies #[trigger] recorded(table, v) == distance_of(
        adj_edges(adj),
        seed_set(seeds),
        limit,
        v,
    ) by {
        if met(table, v) {
            let d = dist_in(table, v);
            let edges = adj_edges(adj);
            let sources = seed_set(seeds);
            assert forall|k: nat| k < d implies !walk(edges, sources, v, k) by {
                if walk(edges, sources, v, k) {
                    lemma_all_met(adj, seeds, limit, table, v, k);
                }
            }
            assert(walk(edges, sources, v, d));
            assert(is_distance(edges, sources, v, d) && within(limit, d));
            let c = choose|c: nat| is_distance(edges, sources, v, c) && within(limit, c);
            lemma_distance_unique(edges, sources, v, c, d);
        } else {
            let edges = adj_edges(adj);
            let sources = seed_set(seeds);
            if exists|d: nat| is_distance(edges, sources, v, d) && within(limit, d) {
                let d = choose|d: nat| is_distance(edges, sources, v, d) && within(limit, d);
                lemma_all_met(adj, seeds, limit, table, v, d);
            }
        }
    }
}

/// A search in progress: the distance recorded for each node met so far, and the nodes
/// that still wait to pass the search on, first come first served.
pub struct Traversal {
    pub distances: Vec<Option<usize>>,
    pub queue: VecDeque<usize>,
}

impl Traversal {
    /// What holds of a search between two steps.
    pub open spec fn inv(&self, adj: Seq<Vec<usize>>, seeds: Seq<usize>, limit: Option<usize>) -> bool {
        search_inv(adj, seeds, limit, self.distances@, self.queue@, -1, 0)
    }

    /// Nodes met and done with: the measure by which a search nears its end.
    pub open spec fn done(&self) -> int {
        count_some(self.distances@) - self.queue@.len()
    }

    /// A search that has met the seeds and nothing else.
    pub fn start(adj: &Vec<Vec<usize>>, seeds: &Vec<usize>, limit: Option<usize>) -> (t: Traversal)
        requires
            graph_ok(adj@, seeds@),
        ensures
            t.inv(adj@, seeds@, limit),
            t.done() == 0,
            forall|v: int| met(t.distances@, v) <==> 0 <= v < adj@.len() && is_seed(seeds@, v),
    {
        let mut distances: Vec<Option<usize>> = Vec::new();
        let mut n: usize = 0;
        while n < adj.len()
            invariant
                n <= adj.len(),
                distances@.len() == n,
                forall|v: int| 0 <= v < n ==> distances@[v] is None,
                count_some(distances@) == 0,
            decreases adj.len() - n,
        {
            let ghost before = distances@;
            distances.push(None);
            assert(distances@.drop_last() =~= before);
            n += 1;
        }
        let mut queue: VecDeque<usize> = VecDeque::new();
        let mut i: usize = 0;
        while i < seeds.len()
            invariant
                i <= seeds.len(),
                graph_ok(adj@, seeds@),
                distances@.len() == adj@.len(),
                queue@.len() == count_some(distances@),
                forall|k: int| 0 <= k < queue@.len() ==> met(distances@, #[trigger] queue@[k] as int),
                forall|k: int, j: int|
                    #![trigger queue@[k], queue@[j]]
                    0 <= k < j < queue@.len() ==> queue@[k] != queue@[j],
                forall|v: int| #[trigger]
                    met(distances@, v) ==> dist_in(distances@, v) == 0 && waits(queue@, v)
                        && is_seed(seeds@, v),
                forall|k: int| 0 <= k < i ==> met(distances@, #[trigger] seeds@[k] as int),
            decreases seeds.len() - i,
        {
            let s = seeds[i];
            if distances[s].is_none() {
                let ghost table = distances@;
                let ghost line = queue@;
                proof {
                    lemma_count_update(table, s as int, 0);
                }
                distances.set(s, Some(0));
                queue.push_back(s);
                proof {
                    assert(queue@[line.len() as int] == s);
                    assert forall|v: int| #[trigger] met(distances@, v) implies waits(queue@, v) by {
                        if v != s {
                            assert(met(table, v));
                            let k = choose|k: int| 0 <= k < line.len() && line[k] == v;
                            assert(queue@[k] == v);
                        }
                    }
                    assert forall|k: int, j: int|
                        #![trigger queue@[k], queue@[j]]
                        0 <= k < j < queue@.len() implies queue@[k] != queue@[j] by {
                        if j < line.len() {
                            assert(line[k] != line[j]);
                        } else {
                            assert(met(table, line[k] as int));
                        }
                    }
                    assert forall|k: int| 0 <= k < queue@.len() implies met(
                        distances@,
                        #[trigger] queue@[k] as int,
                    ) by {
                        if k < line.len() {
                            assert(met(table, line[k] as int));
                        }
                    }
                    assert forall|k: int| 0 <= k < i + 1 implies met(
                        distances@,
                        #[trigger] seeds@[k] as int,
                    ) by {
                        if k < i {
                            assert(met(table, seeds@[k] as int));
                        }
                    }
                }
            }
            i += 1;
        }
        proof {
            assert forall|v: int| #[trigger] met(distances@, v) implies reach(
                adj@,
                seeds@,
                v,
                dist_in(distances@, v),
            ) && within(limit, dist_in(distances@, v)) && dist_in(distances@, v) < count_some(
                distances@,
            ) by {
                let k = choose|k: int| 0 <= k < queue@.len() && queue@[k] == v;
            }
            assert forall|v: int| 0 <= v < adj@.len() && is_seed(seeds@, v) implies met(
                distances@,
                v,
            ) by {
                let k = choose|k: int| 0 <= k < seeds@.len() && seeds@[k] == v;
                assert(met(distances@, seeds@[k] as int));
            }
            assert forall|i: int, j: int|
                #![trigger queue@[i], queue@[j]]
                0 <= i <= j < queue@.len() implies dist_in(distances@, queue@[i] as int) <= dist_in(
                distances@,
                queue@[j] as int,
            ) <= dist_in(distances@, queue@[0] as int) + 1 by {
                assert(met(distances@, queue@[i] as int));
                assert(met(distances@, queue@[j] as int));
                assert(met(distances@, queue@[0] as int));
            }
        }
        Traversal { distances, queue }
    }

    /// One step of the search: takes the node that has waited longest and, unless it
    /// stands at the limit, records each neighbour not met before one step further out
    /// and lets it wait in turn. Says whether there was a node to take. A distance, once
    /// recorded, stays as it is.
    pub fn step(&mut self, adj: &Vec<Vec<usize>>, seeds: &Vec<usize>, limit: Option<usize>) -> (progressed: bool)
        requires
            old(self).inv(adj@, seeds@, limit),
        ensures
            final(self).inv(adj@, seeds@, limit),
            progressed == (old(self).queue@.len() > 0),
            forall|v: int| #[trigger]
                met(old(self).distances@, v) ==> met(final(self).distances@, v) && dist_in(
                    final(self).distances@,
                    v,
                ) == dist_in(old(self).distances@, v),
            progressed ==> final(self).done() == old(self).done() + 1,
            !progressed ==> final(self).distances@ == old(self).distances@ && final(self).queue@
                == old(self).queue@,
            progressed && !expands(limit, dist_in(old(self).distances@, old(self).queue@[0] as int))
                ==> final(self).distances@ == old(self).distances@,
            progressed && expands(limit, dist_in(old(self).distances@, old(self).queue@[0] as int))
                ==> forall|v: int|
                met(final(self).distances@, v) <==> met(old(self).distances@, v) || has_edge(
                    adj@,
                    old(self).queue@[0] as int,
                    v,
                ),
            forall|v: int|
                met(final(self).distances@, v) && !met(old(self).distances@, v) ==> dist_in(
                    final(self).distances@,
                    v,
                ) == dist_in(old(self).distances@, old(self).queue@[0] as int) + 1,
    {
        let ghost table0 = self.distances@;
        let ghost queue0 = self.queue@;
        let node = match self.queue.pop_front() {
            Some(v) => v,
            None => {
                assert(self.queue@ =~= queue0);
                return false;
            },
        };
        proof {
            lemma_take(adj@, seeds@, limit, table0, queue0);
            assert(self.queue@ =~= queue0.drop_first());
        }
        let d: usize = match self.distances[node] {
            Some(d) => d,
            None => 0,
        };
        let at_limit = match limit {
            Some(l) => d >= l,
            None => false,
        };
        if at_limit {
            return true;
        }
        let nodes: usize = adj.len();
        let mut j: usize = 0;
        while j < adj[node].len()
            invariant
                nodes == adj@.len(),
                search_inv(adj@, seeds@, limit, self.distances@, self.queue@, node as int, j as int),
                node < adj@.len(),
                self.distances@[node as int] == Some(d),
                forall|v: int| #[trigger]
                    met(table0, v) ==> met(self.distances@, v) && dist_in(self.distances@, v)
                        == dist_in(table0, v),
                forall|v: int| #[trigger]
                    met(self.distances@, v) && !met(table0, v) ==> has_edge(adj@, node as int, v)
                        && dist_in(self.distances@, v) == d + 1,
                self.done() == count_some(table0) - queue0.len() + 1,
            decreases adj@[node as int]@.len() - j,
        {
            let w = adj[node][j];
            assert(w == adj@[node as int]@[j as int]);
            assert(has_edge(adj@, node as int, w as int));
            if self.distances[w].is_none() {
                proof {
                    lemma_look_new(
                        adj@,
                        seeds@,
                        limit,
                        self.distances@,
                        self.queue@,
                        node as int,
                        j as int,
                    );
                    lemma_count_update(self.distances@, w as int, (d + 1) as usize);
                }
                let ghost mid = self.distances@;
                self.distances.set(w, Some(d + 1));
                self.queue.push_back(w);
                assert forall|v: int| #[trigger]
                    met(self.distances@, v) && !met(table0, v) implies has_edge(
                    adj@,
                    node as int,
                    v,
                ) && dist_in(self.distances@, v) == d + 1 by {
                    if v != w {
                        assert(met(mid, v));
                    }
                }
            } else {
                proof {
                    lemma_look_met(
                        adj@,
                        seeds@,
                        limit,
                        self.distances@,
                        self.queue@,
                        node as int,
                        j as int,
                    );
                }
            }
            j += 1;
        }
        proof {
            lemma_release(adj@, seeds@, limit, self.distances@, self.queue@, node as int);
            assert forall|v: int| has_edge(adj@, node as int, v) implies met(self.distances@, v) by {
                let k = choose|k: int|
                    0 <= k < adj@[node as int]@.len() && #[trigger] adj@[node as int]@[k] == v;
                assert(met(self.distances@, adj@[node as int]@[k] as int));
            }
        }
        true
    }

    /// Whether nothing waits any more.
    pub fn is_finished(&self) -> (finished: bool)
        ensures
            finished == (self.queue@.len() == 0),
    {
        self.queue.len() == 0
    }
}

/// The distance of every node from the seeds, as far as walks within the limit lead.
pub fn distances_from(adj: &Vec<Vec<usize>>, seeds: &Vec<usize>, limit: Option<usize>) -> (table:
    Vec<Option<usize>>)
    requires
        graph_ok(adj@, seeds@),
    ensures
        is_distance_table(adj@, seeds@, limit, table@),
{
    let mut search = Traversal::start(adj, seeds, limit);
    proof {
        lemma_count_bound(search.distances@);
    }
    loop
        invariant
            search.inv(adj@, seeds@, limit),
            count_some(search.distances@) <= adj@.len(),
        ensures
            search.queue@.len() == 0,
        decreases adj@.len() - search.done(),
    {
        let ghost before = search.done();
        let progressed = search.step(adj, seeds, limit);
        proof {
            lemma_count_bound(search.distances@);
        }
        if !progressed {
            break ;
        }
    }
    proof {
        assert(search.queue@ =~= Seq::<usize>::empty());
        lemma_finished(adj@, seeds@, limit, search.distances@);
    }
    search.distances
}

} // verus!
