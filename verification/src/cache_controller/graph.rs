use vstd::prelude::*;
use crate::keyed::{AssocList, ViewEq};
use crate::cache_controller::cache_key::{
    CacheKey, KeyView, keys_view, strings_view, contains_cache_key, contains_string,
};
use std::collections::VecDeque;

verus! {

/// The edge lists after adding the edge from `a` to `b`: a new list for a
/// source without one, `b` appended where it is not listed yet, else no change.
pub open spec fn add_edge_spec(edges: Map<KeyView, Seq<KeyView>>, a: KeyView, b: KeyView) -> Map<
    KeyView,
    Seq<KeyView>,
> {
    if edges.contains_key(a) {
        if edges[a].contains(b) {
            edges
        } else {
            edges.insert(a, edges[a].push(b))
        }
    } else {
        edges.insert(a, seq![b])
    }
}

/// Whether the edge from `x` to `y` is in the edge lists.
pub open spec fn has_edge(edges: Map<KeyView, Seq<KeyView>>, x: KeyView, y: KeyView) -> bool {
    edges.contains_key(x) && edges[x].contains(y)
}

/// Adding the edge from `a` to `b` touches nothing but `a`'s edge list: every
/// other key keeps its list, or its lack of one. Afterwards the edges are the
/// old ones and the new one, no more; `a`'s old targets keep their order at the
/// front of its list, followed by at most the one new target.
pub proof fn lemma_add_edge_edges(edges: Map<KeyView, Seq<KeyView>>, a: KeyView, b: KeyView)
    ensures
        forall|x: KeyView| x != a ==> (#[trigger] add_edge_spec(edges, a, b).contains_key(x) <==> edges.contains_key(
            x,
        )),
        forall|x: KeyView| x != a && edges.contains_key(x) ==> #[trigger] add_edge_spec(edges, a, b)[x] == edges[x],
        forall|x: KeyView, y: KeyView|
            #[trigger] has_edge(add_edge_spec(edges, a, b), x, y) <==> has_edge(edges, x, y) || (x == a && y == b),
        add_edge_spec(edges, a, b).contains_key(a),
        add_edge_spec(edges, a, b)[a].len() <= neighbours(edges, a).len() + 1,
        add_edge_spec(edges, a, b)[a].subrange(0, neighbours(edges, a).len() as int) == neighbours(edges, a),
{
    let e1 = add_edge_spec(edges, a, b);
    let old_list = neighbours(edges, a);
    lemma_add_edge_present(edges, a, b);
    assert(e1[a].subrange(0, old_list.len() as int) =~= old_list);
    assert forall|x: KeyView, y: KeyView| #[trigger] has_edge(e1, x, y) implies has_edge(edges, x, y) || (x == a
        && y == b) by {
        if x == a && y != b {
            let i = choose|i: int| 0 <= i < e1[a].len() && e1[a][i] == y;
            if edges.contains_key(a) {
                if i < old_list.len() {
                    assert(edges[a][i] == y);
                } else {
                    assert(!edges[a].contains(b));
                    assert(e1[a] == edges[a].push(b));
                }
            }
        }
    }
    assert forall|x: KeyView, y: KeyView| has_edge(edges, x, y) || (x == a && y == b) implies #[trigger] has_edge(
        e1,
        x,
        y,
    ) by {
        if has_edge(edges, x, y) {
            assert(edges[x].contains(y));
        }
    }
}

/// No edge list names a target twice.
pub open spec fn edge_lists_distinct(edges: Map<KeyView, Seq<KeyView>>) -> bool {
    forall|k: KeyView| #[trigger] edges.contains_key(k) ==> edges[k].no_duplicates()
}

/// The state of a breadth-first traversal: the keys waiting to be visited,
/// the keys seen so far, and the keys found, in order.
pub struct BfsState {
    pub queue: Seq<KeyView>,
    pub visited: Set<KeyView>,
    pub found: Seq<KeyView>,
}

/// The targets of `k`, or none where `k` has no edge list.
pub open spec fn neighbours(edges: Map<KeyView, Seq<KeyView>>, k: KeyView) -> Seq<KeyView> {
    if edges.contains_key(k) {
        edges[k]
    } else {
        seq![]
    }
}

/// Goes through `near` in order, and puts at the end of the queue each key
/// whose kind is listed in `filter` and that has not been seen, marking it seen.
pub open spec fn enqueue_neighbours(
    near: Seq<KeyView>,
    filter: Seq<Seq<char>>,
    queue: Seq<KeyView>,
    visited: Set<KeyView>,
) -> (Seq<KeyView>, Set<KeyView>)
    decreases near.len(),
{
    if near.len() == 0 {
        (queue, visited)
    } else {
        let prev = enqueue_neighbours(near.drop_last(), filter, queue, visited);
        let j = near.last();
        if filter.contains(j.0) && !prev.1.contains(j) {
            (prev.0.push(j), prev.1.insert(j))
        } else {
            prev
        }
    }
}

/// One step of the traversal: takes the first key of the queue and marks it
/// seen; a key of the kind `to_kind` is found, any other has its neighbours queued.
pub open spec fn bfs_step(
    edges: Map<KeyView, Seq<KeyView>>,
    to_kind: Seq<char>,
    filter: Seq<Seq<char>>,
    s: BfsState,
) -> BfsState {
    if s.queue.len() == 0 {
        s
    } else {
        let key = s.queue[0];
        let rest = s.queue.drop_first();
        let seen = s.visited.insert(key);
        if key.0 != to_kind {
            let next = enqueue_neighbours(neighbours(edges, key), filter, rest, seen);
            BfsState { queue: next.0, visited: next.1, found: s.found }
        } else {
            BfsState { queue: rest, visited: seen, found: s.found.push(key) }
        }
    }
}

/// The state after `n` steps.
pub open spec fn bfs_run(
    edges: Map<KeyView, Seq<KeyView>>,
    to_kind: Seq<char>,
    filter: Seq<Seq<char>>,
    s: BfsState,
    n: nat,
) -> BfsState
    decreases n,
{
    if n == 0 {
        s
    } else {
        bfs_step(edges, to_kind, filter, bfs_run(edges, to_kind, filter, s, (n - 1) as nat))
    }
}

/// The traversal starts with `from` alone in the queue.
pub open spec fn bfs_init(from: KeyView) -> BfsState {
    BfsState { queue: seq![from], visited: Set::empty(), found: seq![] }
}

/// The queue is empty after `n` steps from `from`.
pub open spec fn bfs_done(
    edges: Map<KeyView, Seq<KeyView>>,
    to_kind: Seq<char>,
    filter: Seq<Seq<char>>,
    from: KeyView,
    n: nat,
) -> bool {
    bfs_run(edges, to_kind, filter, bfs_init(from), n).queue.len() == 0
}

/// What a traversal from `from` finds: nothing where `from` is not a node;
/// else the keys of the kind of `to`, in the order in which the breadth-first
/// traversal reaches them, once its queue has run empty.
pub open spec fn traverse_spec(
    nodes: Map<KeyView, KeyView>,
    edges: Map<KeyView, Seq<KeyView>>,
    from: KeyView,
    to: KeyView,
    filter: Seq<Seq<char>>,
) -> Seq<KeyView> {
    if !nodes.contains_key(from) {
        seq![]
    } else {
        let n = choose|n: nat| bfs_done(edges, to.0, filter, from, n);
        bfs_run(edges, to.0, filter, bfs_init(from), n).found
    }
}

/// Once the queue is empty, further steps change nothing.
pub proof fn lemma_bfs_stable(
    edges: Map<KeyView, Seq<KeyView>>,
    to_kind: Seq<char>,
    filter: Seq<Seq<char>>,
    s: BfsState,
    n: nat,
    m: nat,
)
    requires
        bfs_run(edges, to_kind, filter, s, n).queue.len() == 0,
        n <= m,
    ensures
        bfs_run(edges, to_kind, filter, s, m) == bfs_run(edges, to_kind, filter, s, n),
    decreases m - n,
{
    if n < m {
        lemma_bfs_stable(edges, to_kind, filter, s, n, (m - 1) as nat);
    }
}

/// Where the traversal's queue runs empty after `n` steps, it finds what `traverse_spec` says.
pub proof fn lemma_traverse_spec_at(
    nodes: Map<KeyView, KeyView>,
    edges: Map<KeyView, Seq<KeyView>>,
    from: KeyView,
    to: KeyView,
    filter: Seq<Seq<char>>,
    n: nat,
)
    requires
        nodes.contains_key(from),
        bfs_done(edges, to.0, filter, from, n),
    ensures
        traverse_spec(nodes, edges, from, to, filter) == bfs_run(
            edges,
            to.0,
            filter,
            bfs_init(from),
            n,
        ).found,
{
    let m = choose|m: nat| bfs_done(edges, to.0, filter, from, m);
    if m <= n {
        lemma_bfs_stable(edges, to.0, filter, bfs_init(from), m, n);
    } else {
        lemma_bfs_stable(edges, to.0, filter, bfs_init(from), n, m);
    }
}

/// All the targets named in a list of edge entries, in order.
pub open spec fn all_targets(s: Seq<(CacheKey, Vec<CacheKey>)>) -> Seq<KeyView>
    decreases s.len(),
{
    if s.len() == 0 {
        seq![]
    } else {
        all_targets(s.drop_last()) + keys_view(s.last().1@)
    }
}

pub proof fn lemma_all_targets(s: Seq<(CacheKey, Vec<CacheKey>)>, i: int, k: KeyView)
    requires
        0 <= i < s.len(),
        keys_view(s[i].1@).contains(k),
    ensures
        all_targets(s).contains(k),
    decreases s.len(),
{
    let last = keys_view(s.last().1@);
    let prev = all_targets(s.drop_last());
    if i == s.len() - 1 {
        let j = choose|j: int| 0 <= j < last.len() && last[j] == k;
        assert((prev + last)[prev.len() + j] == k);
    } else {
        assert(s.drop_last()[i] == s[i]);
        lemma_all_targets(s.drop_last(), i, k);
        let j = choose|j: int| 0 <= j < prev.len() && prev[j] == k;
        assert((prev + last)[j] == k);
    }
}

/// Adding a key of `u` to `v` leaves one key fewer of `u` unseen; adding any key leaves no more.
pub proof fn lemma_unseen_shrinks(u: Set<KeyView>, v: Set<KeyView>, x: KeyView)
    requires
        u.finite(),
    ensures
        u.difference(v.insert(x)).len() <= u.difference(v).len(),
        u.contains(x) && !v.contains(x) ==> u.difference(v.insert(x)).len() + 1 == u.difference(v).len(),
{
    assert(u.difference(v.insert(x)) =~= u.difference(v).remove(x));
    if u.difference(v).contains(x) {
    } else {
        assert(u.difference(v).remove(x) =~= u.difference(v));
    }
}

/// A directed graph of cache keys: the nodes, each stored under its key, and
/// for each source the list of targets in the order in which they were added.
#[derive(Clone, Debug)]
pub struct Graph {
    nodes: AssocList<CacheKey, CacheKey>,
    edges: AssocList<CacheKey, Vec<CacheKey>>,
}

impl Graph {
    pub closed spec fn wf(&self) -> bool {
        &&& self.nodes.wf()
        &&& self.edges.wf()
        &&& edge_lists_distinct(self.edge_map())
    }

    /// The nodes, by key.
    pub closed spec fn node_map(&self) -> Map<KeyView, KeyView> {
        self.nodes.map().map_values(|c: CacheKey| c@)
    }

    /// The targets of each source, in order.
    pub closed spec fn edge_map(&self) -> Map<KeyView, Seq<KeyView>> {
        self.edges.map().map_values(|v: Vec<CacheKey>| keys_view(v@))
    }

    pub fn new() -> (g: Graph)
        ensures
            g.wf(),
            g.node_map() == Map::<KeyView, KeyView>::empty(),
            g.edge_map() == Map::<KeyView, Seq<KeyView>>::empty(),
    {
        let g = Graph { nodes: AssocList::new(), edges: AssocList::new() };
        assert(g.node_map() =~= Map::<KeyView, KeyView>::empty());
        assert(g.edge_map() =~= Map::<KeyView, Seq<KeyView>>::empty());
        g
    }

    /// Stores `node` under `key`, and gives back the node that was stored under it.
    pub fn add_node(&mut self, key: CacheKey, node: CacheKey) -> (r: Option<CacheKey>)
        requires
            old(self).wf(),
        ensures
            final(self).wf(),
            final(self).node_map() == old(self).node_map().insert(key@, node@),
            final(self).edge_map() == old(self).edge_map(),
            match r {
                Some(o) => old(self).node_map().contains_key(key@) && o@ == old(self).node_map()[key@],
                None => !old(self).node_map().contains_key(key@),
            },
    {
        let ghost k = key@;
        let ghost nv = node@;
        let r = self.nodes.insert(key, node);
        assert(self.node_map() =~= old(self).node_map().insert(k, nv));
        r
    }

    pub fn contains_node(&mut self, key: CacheKey) -> (b: bool)
        requires
            old(self).wf(),
        ensures
            *final(self) == *old(self),
            b == old(self).node_map().contains_key(key@),
    {
        self.nodes.contains_key(&key)
    }

    /// Adds the edge from `n1` to `n2`, unless it is there already.
    pub fn add_edge(&mut self, n1: CacheKey, n2: CacheKey)
        requires
            old(self).wf(),
        ensures
            final(self).wf(),
            final(self).node_map() == old(self).node_map(),
            final(self).edge_map() == add_edge_spec(old(self).edge_map(), n1@, n2@),
            forall|x: KeyView|
                x != n1@ ==> (#[trigger] final(self).edge_map().contains_key(x) <==> old(self).edge_map().contains_key(x)),
            forall|x: KeyView|
                x != n1@ && old(self).edge_map().contains_key(x) ==> #[trigger] final(self).edge_map()[x] == old(
                    self,
                ).edge_map()[x],
            forall|x: KeyView, y: KeyView|
                #[trigger] has_edge(final(self).edge_map(), x, y) <==> has_edge(old(self).edge_map(), x, y) || (x
                    == n1@ && y == n2@),
    {
        let ghost a = n1@;
        let ghost b = n2@;
        let ghost old_edges = old(self).edge_map();
        let removed = self.edges.remove(&n1);
        match removed {
            None => {
                let mut edge_refs: Vec<CacheKey> = Vec::new();
                edge_refs.push(n2);
                self.edges.insert(n1, edge_refs);
                proof {
                    assert(keys_view(edge_refs@) =~= seq![b]);
                    assert(self.edge_map() =~= add_edge_spec(old_edges, a, b));
                }
            },
            Some(mut edge_refs) => {
                let ghost before = keys_view(edge_refs@);
                assert(before == old_edges[a]);
                if !contains_cache_key(&edge_refs, &n2) {
                    edge_refs.push(n2);
                    assert(keys_view(edge_refs@) =~= before.push(b));
                }
                self.edges.insert(n1, edge_refs);
                proof {
                    assert(self.edge_map() =~= add_edge_spec(old_edges, a, b));
                }
            },
        }
        proof {
            let em = self.edge_map();
            assert forall|k: KeyView| #[trigger] em.contains_key(k) implies em[k].no_duplicates() by {
                if k != a {
                    assert(old_edges.contains_key(k));
                }
            }
            lemma_add_edge_edges(old_edges, a, b);
        }
    }
    /// The keys of the kind of `to` that a breadth-first traversal from `from`
    /// reaches through keys whose kinds `filter` lists; nothing where `from` is
    /// not a node.
    pub fn traverse(&mut self, from: CacheKey, to: CacheKey, filter: Vec<String>) -> (result: Vec<
        CacheKey,
    >)
        requires
            old(self).wf(),
        ensures
            *final(self) == *old(self),
            keys_view(result@) == traverse_spec(
                old(self).node_map(),
                old(self).edge_map(),
                from@,
                to@,
                strings_view(filter@),
            ),
    {
        let mut result: Vec<CacheKey> = Vec::new();
        if !self.nodes.contains_key(&from) {
            proof {
                assert(!self.node_map().contains_key(from@));
                assert(keys_view(result@) =~= seq![]);
            }
            return result;
        }
        let ghost edges = self.edge_map();
        let ghost fv = strings_view(filter@);
        let ghost tk = to@.0;
        let ghost fromv = from@;
        let ghost universe = all_targets(self.edges.entry_seq()).to_set().insert(fromv);
        proof {
            vstd::seq_lib::seq_to_set_is_finite(all_targets(self.edges.entry_seq()));
        }
        let mut queue: VecDeque<CacheKey> = VecDeque::new();
        queue.push_back(from);
        let mut visited: Vec<CacheKey> = Vec::new();
        let ghost mut n: nat = 0;
        let ghost mut st = bfs_init(fromv);
        proof {
            assert(keys_view(queue@) =~= st.queue);
            assert(keys_view(result@) =~= st.found);
        }
        while queue.len() > 0
            invariant
                self.wf(),
                edges == self.edge_map(),
                fv == strings_view(filter@),
                tk == to@.0,
                universe == all_targets(self.edges.entry_seq()).to_set().insert(fromv),
                universe.finite(),
                st == bfs_run(edges, tk, fv, bfs_init(fromv), n),
                keys_view(queue@) == st.queue,
                forall|k: KeyView| st.visited.contains(k) <==> keys_view(visited@).contains(k),
                keys_view(result@) == st.found,
                forall|i: int| 0 <= i < st.queue.len() ==> universe.contains(#[trigger] st.queue[i]),
            decreases 2 * universe.difference(st.visited).len() + st.queue.len(),
        {
            proof {
                broadcast use vstd::std_specs::vecdeque::axiom_spec_len;
            }
            let ghost old_measure = 2 * universe.difference(st.visited).len() + st.queue.len();
            let key = queue.pop_front().unwrap();
            let ghost kv = key@;
            let ghost rest = st.queue.drop_first();
            let ghost seen = st.visited.insert(kv);
            proof {
                assert(kv == st.queue[0]);
                assert(keys_view(queue@) =~= rest);
                lemma_unseen_shrinks(universe, st.visited, kv);
            }
            let ghost old_visited = keys_view(visited@);
            if !contains_cache_key(&visited, &key) {
                visited.push(key.duplicate());
                proof {
                    assert(keys_view(visited@) =~= old_visited.push(kv));
                }
            }
            proof {
                assert forall|k: KeyView| seen.contains(k) <==> keys_view(visited@).contains(k) by {
                    if keys_view(visited@) != old_visited {
                        assert(keys_view(visited@) == old_visited.push(kv));
                        if old_visited.contains(k) {
                            let i = choose|i: int| 0 <= i < old_visited.len() && old_visited[i] == k;
                            assert(keys_view(visited@)[i] == k);
                        }
                        if k == kv {
                            assert(keys_view(visited@)[old_visited.len() as int] == k);
                        }
                        if keys_view(visited@).contains(k) {
                            let i = choose|i: int|
                                0 <= i < keys_view(visited@).len() && keys_view(visited@)[i] == k;
                            if i < old_visited.len() {
                                assert(old_visited[i] == k);
                            }
                        }
                    }
                }
            }
            if !(key.kind == to.kind) {
                let ghost nearv = neighbours(edges, kv);
                let ghost mut cur: (Seq<KeyView>, Set<KeyView>) = (rest, seen);
                proof {
                    assert(enqueue_neighbours(nearv.take(0), fv, rest, seen) == cur);
                }
                match self.edges.get(&key) {
                    Some(near) => {
                        proof {
                            assert(keys_view(near@) == nearv);
                            self.edges.lemma_map_entry(kv);
                            let idx = crate::keyed::key_index(self.edges.entry_seq(), kv);
                            assert forall|i: int| 0 <= i < nearv.len() implies universe.contains(
                                #[trigger] nearv[i],
                            ) by {
                                assert(keys_view(self.edges.entry_seq()[idx].1@).contains(nearv[i]));
                                lemma_all_targets(self.edges.entry_seq(), idx, nearv[i]);
                            }
                        }
                        for jj in 0..near.len()
                            invariant
                                keys_view(near@) == nearv,
                                forall|i: int| 0 <= i < nearv.len() ==> universe.contains(#[trigger] nearv[i]),
                                universe.finite(),
                                fv == strings_view(filter@),
                                cur == enqueue_neighbours(nearv.take(jj as int), fv, rest, seen),
                                keys_view(queue@) == cur.0,
                                forall|k: KeyView| cur.1.contains(k) <==> keys_view(visited@).contains(k),
                                forall|i: int| 0 <= i < cur.0.len() ==> universe.contains(#[trigger] cur.0[i]),
                                2 * universe.difference(cur.1).len() + cur.0.len() <= 2 * universe.difference(
                                    seen,
                                ).len() + rest.len(),
                        {
                            let j = &near[jj];
                            let ghost jv = j@;
                            proof {
                                assert(nearv.take(jj + 1).drop_last() =~= nearv.take(jj as int));
                                assert(nearv.take(jj + 1).last() == jv);
                                assert(nearv[jj as int] == jv);
                            }
                            let ignore = !contains_string(&filter, &j.kind);
                            if !contains_cache_key(&visited, j) && !ignore {
                                let ghost oq = keys_view(queue@);
                                let ghost ov = keys_view(visited@);
                                queue.push_back(j.duplicate());
                                visited.push(j.duplicate());
                                proof {
                                    lemma_unseen_shrinks(universe, cur.1, jv);
                                    assert(keys_view(queue@) =~= oq.push(jv));
                                    assert(keys_view(visited@) =~= ov.push(jv));
                                    let ncur = (cur.0.push(jv), cur.1.insert(jv));
                                    assert forall|k: KeyView| ncur.1.contains(k) <==> keys_view(visited@).contains(k) by {
                                        if ov.contains(k) {
                                            let i = choose|i: int| 0 <= i < ov.len() && ov[i] == k;
                                            assert(keys_view(visited@)[i] == k);
                                        }
                                        if k == jv {
                                            assert(keys_view(visited@)[ov.len() as int] == k);
                                        }
                                        if keys_view(visited@).contains(k) {
                                            let i = choose|i: int|
                                                0 <= i < keys_view(visited@).len() && keys_view(visited@)[i] == k;
                                            if i < ov.len() {
                                                assert(ov[i] == k);
                                            }
                                        }
                                    }
                                    assert forall|i: int| 0 <= i < ncur.0.len() implies universe.contains(
                                        #[trigger] ncur.0[i],
                                    ) by {
                                        if i < cur.0.len() {
                                            assert(ncur.0[i] == cur.0[i]);
                                        }
                                    }
                                    cur = ncur;
                                }
                            }
                        }
                        proof {
                            assert(nearv.take(near@.len() as int) =~= nearv);
                        }
                    },
                    None => {
                        proof {
                            assert(nearv =~= seq![]);
                            assert(nearv.take(0) =~= nearv);
                        }
                    },
                }
                proof {
                    st = BfsState { queue: cur.0, visited: cur.1, found: st.found };
                }
            } else {
                result.push(key);
                proof {
                    assert(keys_view(result@) =~= st.found.push(kv));
                    assert forall|i: int| 0 <= i < rest.len() implies universe.contains(#[trigger] rest[i]) by {
                        assert(rest[i] == st.queue[i + 1]);
                    }
                    st = BfsState { queue: rest, visited: seen, found: st.found.push(kv) };
                }
            }
            proof {
                n = n + 1;
                assert(2 * universe.difference(st.visited).len() + st.queue.len() < old_measure);
            }
        }
        proof {
            broadcast use vstd::std_specs::vecdeque::axiom_spec_len;
            assert(st.queue.len() == 0);
            assert(bfs_done(edges, tk, fv, fromv, n));
            lemma_traverse_spec_at(self.node_map(), edges, fromv, to@, fv, n);
        }
        result
    }
}

} // verus!
verus! {

/// What the traversal keeps true of its state: nothing waits twice, nothing is
/// found twice, nothing both waits and is found, what is found was seen, and all
/// that waits behind the first key was seen.
pub open spec fn bfs_state_ok(s: BfsState, to_kind: Seq<char>) -> bool {
    &&& s.queue.no_duplicates()
    &&& s.found.no_duplicates()
    &&& forall|i: int, j: int|
        0 <= i < s.queue.len() && 0 <= j < s.found.len() ==> s.queue[i] != s.found[j]
    &&& forall|j: int| 0 <= j < s.found.len() ==> s.visited.contains(#[trigger] s.found[j])
    &&& forall|i: int| 1 <= i < s.queue.len() ==> s.visited.contains(#[trigger] s.queue[i])
    &&& forall|j: int| 0 <= j < s.found.len() ==> (#[trigger] s.found[j]).0 == to_kind
}

proof fn lemma_enqueue(
    near: Seq<KeyView>,
    filter: Seq<Seq<char>>,
    q: Seq<KeyView>,
    v: Set<KeyView>,
)
    ensures
        ({
            let r = enqueue_neighbours(near, filter, q, v);
            &&& r.0.len() >= q.len()
            &&& r.0.subrange(0, q.len() as int) == q
            &&& forall|i: int|
                q.len() <= i < r.0.len() ==> !v.contains(#[trigger] r.0[i]) && r.1.contains(r.0[i])
                    && filter.contains(r.0[i].0) && near.contains(r.0[i])
            &&& forall|i: int, j: int| q.len() <= i < j < r.0.len() ==> r.0[i] != r.0[j]
            &&& forall|x: KeyView| #[trigger] r.1.contains(x) ==> v.contains(x) || exists|i: int|
                q.len() <= i < r.0.len() && r.0[i] == x
            &&& forall|x: KeyView| v.contains(x) ==> #[trigger] r.1.contains(x)
            &&& forall|x: KeyView| near.contains(x) && filter.contains(x.0) ==> #[trigger] r.1.contains(x)
        }),
    decreases near.len(),
{
    if near.len() > 0 {
        lemma_enqueue(near.drop_last(), filter, q, v);
        let prev = enqueue_neighbours(near.drop_last(), filter, q, v);
        let r = enqueue_neighbours(near, filter, q, v);
        let j = near.last();
        assert forall|x: KeyView| near.contains(x) && filter.contains(x.0) implies #[trigger] r.1.contains(x) by {
            let w = choose|w: int| 0 <= w < near.len() && near[w] == x;
            if w < near.len() - 1 {
                assert(near.drop_last()[w] == x);
                assert(prev.1.contains(x));
            }
        }
        assert forall|i: int| q.len() <= i < prev.0.len() implies near.contains(#[trigger] prev.0[i]) by {
            let w = choose|w: int| 0 <= w < near.drop_last().len() && near.drop_last()[w] == prev.0[i];
            assert(near[w] == prev.0[i]);
        }
        if filter.contains(j.0) && !prev.1.contains(j) {
            assert(r.0 == prev.0.push(j));
            assert(near[near.len() - 1] == j);
            assert(r.0.subrange(0, q.len() as int) =~= prev.0.subrange(0, q.len() as int));
            assert forall|x: KeyView| #[trigger] r.1.contains(x) implies v.contains(x) || exists|i: int|
                q.len() <= i < r.0.len() && r.0[i] == x by {
                if x == j {
                    assert(r.0[prev.0.len() as int] == x);
                } else if !v.contains(x) {
                    assert(prev.1.contains(x));
                    let i = choose|i: int| q.len() <= i < prev.0.len() && prev.0[i] == x;
                    assert(r.0[i] == x);
                }
            }
        } else {
            assert(r == prev);
        }
    } else {
        assert(q.subrange(0, q.len() as int) =~= q);
    }
}

proof fn lemma_bfs_step_ok(
    edges: Map<KeyView, Seq<KeyView>>,
    to_kind: Seq<char>,
    filter: Seq<Seq<char>>,
    s: BfsState,
)
    requires
        bfs_state_ok(s, to_kind),
    ensures
        bfs_state_ok(bfs_step(edges, to_kind, filter, s), to_kind),
{
    if s.queue.len() > 0 {
        let key = s.queue[0];
        let rest = s.queue.drop_first();
        let seen = s.visited.insert(key);
        let t = bfs_step(edges, to_kind, filter, s);
        assert forall|i: int| 0 <= i < rest.len() implies #[trigger] rest[i] == s.queue[i + 1]
            && seen.contains(rest[i]) by {}
        if key.0 != to_kind {
            let near = neighbours(edges, key);
            lemma_enqueue(near, filter, rest, seen);
            let r = enqueue_neighbours(near, filter, rest, seen);
            assert forall|i: int| 0 <= i < rest.len() implies r.0[i] == rest[i] by {
                assert(r.0.subrange(0, rest.len() as int)[i] == r.0[i]);
            }
            assert(r.0.no_duplicates()) by {
                assert forall|a: int, b: int| 0 <= a < r.0.len() && 0 <= b < r.0.len() && a != b
                    implies r.0[a] != r.0[b] by {
                    if a < rest.len() && b < rest.len() {
                        assert(r.0[a] == rest[a] && r.0[b] == rest[b]);
                        assert(s.queue[a + 1] != s.queue[b + 1]);
                    } else if a >= rest.len() && b >= rest.len() {
                        if a < b {
                            assert(r.0[a] != r.0[b]);
                        } else {
                            assert(r.0[b] != r.0[a]);
                        }
                    } else if a < rest.len() {
                        assert(r.0[a] == rest[a]);
                        assert(seen.contains(rest[a]));
                        assert(!seen.contains(r.0[b]));
                    } else if b < rest.len() {
                        assert(r.0[b] == rest[b]);
                        assert(seen.contains(rest[b]));
                        assert(!seen.contains(r.0[a]));
                    }
                }
            }
            assert forall|i: int, j: int| 0 <= i < r.0.len() && 0 <= j < t.found.len()
                implies r.0[i] != t.found[j] by {
                if i < rest.len() {
                    assert(r.0[i] == rest[i]);
                    assert(s.queue[i + 1] != s.found[j]);
                } else {
                    assert(s.visited.contains(s.found[j]));
                    assert(seen.contains(s.found[j]));
                    assert(!seen.contains(r.0[i]));
                }
            }
            assert forall|i: int| 1 <= i < r.0.len() implies r.1.contains(#[trigger] r.0[i]) by {
                if i < rest.len() {
                    assert(r.0[i] == rest[i]);
                    assert(seen.contains(rest[i]));
                }
            }
        } else {
            assert forall|a: int, b: int| 0 <= a < rest.len() && 0 <= b < rest.len() && a != b
                implies rest[a] != rest[b] by {
                assert(s.queue[a + 1] != s.queue[b + 1]);
            }
            assert forall|i: int, j: int| 0 <= i < rest.len() && 0 <= j < t.found.len()
                implies rest[i] != t.found[j] by {
                if j < s.found.len() {
                    assert(s.queue[i + 1] != s.found[j]);
                } else {
                    assert(s.queue[i + 1] != s.queue[0]);
                }
            }
            assert forall|a: int, b: int| 0 <= a < t.found.len() && 0 <= b < t.found.len() && a != b
                implies t.found[a] != t.found[b] by {
                if a < s.found.len() && b < s.found.len() {
                } else if a < s.found.len() {
                    assert(s.queue[0] != s.found[a]);
                } else if b < s.found.len() {
                    assert(s.queue[0] != s.found[b]);
                }
            }
            assert forall|i: int| 1 <= i < rest.len() implies seen.contains(#[trigger] rest[i]) by {
                assert(rest[i] == s.queue[i + 1]);
            }
        }
    }
}

proof fn lemma_bfs_run_ok(
    edges: Map<KeyView, Seq<KeyView>>,
    to_kind: Seq<char>,
    filter: Seq<Seq<char>>,
    from: KeyView,
    n: nat,
)
    ensures
        bfs_state_ok(bfs_run(edges, to_kind, filter, bfs_init(from), n), to_kind),
    decreases n,
{
    if n == 0 {
        let s = bfs_init(from);
        assert(s.queue.no_duplicates());
    } else {
        lemma_bfs_run_ok(edges, to_kind, filter, from, (n - 1) as nat);
        lemma_bfs_step_ok(
            edges,
            to_kind,
            filter,
            bfs_run(edges, to_kind, filter, bfs_init(from), (n - 1) as nat),
        );
    }
}

/// A traversal finds only keys of the kind of `to`, and finds no key twice.
pub proof fn lemma_traverse_kinds_distinct(
    nodes: Map<KeyView, KeyView>,
    edges: Map<KeyView, Seq<KeyView>>,
    from: KeyView,
    to: KeyView,
    filter: Seq<Seq<char>>,
)
    ensures
        traverse_spec(nodes, edges, from, to, filter).no_duplicates(),
        forall|i: int|
            0 <= i < traverse_spec(nodes, edges, from, to, filter).len() ==> (#[trigger] traverse_spec(
                nodes,
                edges,
                from,
                to,
                filter,
            )[i]).0 == to.0,
{
    if nodes.contains_key(from) {
        let n = choose|n: nat| bfs_done(edges, to.0, filter, from, n);
        lemma_bfs_run_ok(edges, to.0, filter, from, n);
    }
}

/// Every key that waits or is found is the start, or the target of some edge
/// with a kind that the filter lists.
pub open spec fn bfs_members_ok(
    s: BfsState,
    edges: Map<KeyView, Seq<KeyView>>,
    filter: Seq<Seq<char>>,
    from: KeyView,
) -> bool {
    &&& forall|i: int| 0 <= i < s.queue.len() ==> edge_target_or_start(#[trigger] s.queue[i], edges, filter, from)
    &&& forall|i: int| 0 <= i < s.found.len() ==> edge_target_or_start(#[trigger] s.found[i], edges, filter, from)
}

pub open spec fn edge_target_or_start(
    x: KeyView,
    edges: Map<KeyView, Seq<KeyView>>,
    filter: Seq<Seq<char>>,
    from: KeyView,
) -> bool {
    x == from || (filter.contains(x.0) && exists|src: KeyView| #[trigger] edges.contains_key(src) && edges[src].contains(x))
}

proof fn lemma_bfs_members(
    edges: Map<KeyView, Seq<KeyView>>,
    to_kind: Seq<char>,
    filter: Seq<Seq<char>>,
    from: KeyView,
    n: nat,
)
    ensures
        bfs_members_ok(bfs_run(edges, to_kind, filter, bfs_init(from), n), edges, filter, from),
    decreases n,
{
    if n > 0 {
        lemma_bfs_members(edges, to_kind, filter, from, (n - 1) as nat);
        let s = bfs_run(edges, to_kind, filter, bfs_init(from), (n - 1) as nat);
        let t = bfs_step(edges, to_kind, filter, s);
        if s.queue.len() > 0 {
            let key = s.queue[0];
            let rest = s.queue.drop_first();
            let seen = s.visited.insert(key);
            assert forall|i: int| 0 <= i < rest.len() implies edge_target_or_start(
                #[trigger] rest[i],
                edges,
                filter,
                from,
            ) by {
                assert(rest[i] == s.queue[i + 1]);
            }
            if key.0 != to_kind {
                let near = neighbours(edges, key);
                lemma_enqueue(near, filter, rest, seen);
                let r = enqueue_neighbours(near, filter, rest, seen);
                assert forall|i: int| 0 <= i < r.0.len() implies edge_target_or_start(
                    #[trigger] r.0[i],
                    edges,
                    filter,
                    from,
                ) by {
                    if i < rest.len() {
                        assert(r.0.subrange(0, rest.len() as int)[i] == r.0[i]);
                        assert(r.0[i] == rest[i]);
                    } else {
                        assert(near.contains(r.0[i]));
                        assert(edges.contains_key(key));
                        assert(edges[key].contains(r.0[i]));
                    }
                }
            } else {
                assert(edge_target_or_start(s.queue[0], edges, filter, from));
                assert forall|i: int| 0 <= i < t.found.len() implies edge_target_or_start(
                    #[trigger] t.found[i],
                    edges,
                    filter,
                    from,
                ) by {
                    if i < s.found.len() {
                        assert(t.found[i] == s.found[i]);
                    }
                }
            }
        }
    }
}

/// A traversal finds nothing but the start and targets of edges whose kinds
/// the filter lists: it never leaves the graph or passes an excluded kind.
pub proof fn lemma_traverse_stays_in_filter(
    nodes: Map<KeyView, KeyView>,
    edges: Map<KeyView, Seq<KeyView>>,
    from: KeyView,
    to: KeyView,
    filter: Seq<Seq<char>>,
)
    ensures
        forall|i: int|
            0 <= i < traverse_spec(nodes, edges, from, to, filter).len() ==> edge_target_or_start(
                #[trigger] traverse_spec(nodes, edges, from, to, filter)[i],
                edges,
                filter,
                from,
            ),
{
    if nodes.contains_key(from) {
        let n = choose|n: nat| bfs_done(edges, to.0, filter, from, n);
        lemma_bfs_members(edges, to.0, filter, from, n);
    }
}

/// A traversal from a node of the kind sought finds that node alone.
pub proof fn lemma_traverse_from_target_kind(
    nodes: Map<KeyView, KeyView>,
    edges: Map<KeyView, Seq<KeyView>>,
    from: KeyView,
    to: KeyView,
    filter: Seq<Seq<char>>,
)
    requires
        nodes.contains_key(from),
        from.0 == to.0,
    ensures
        traverse_spec(nodes, edges, from, to, filter) == seq![from],
{
    let s1 = bfs_run(edges, to.0, filter, bfs_init(from), 1);
    assert(bfs_run(edges, to.0, filter, bfs_init(from), 0) == bfs_init(from));
    assert(s1.queue =~= Seq::<KeyView>::empty());
    assert(bfs_done(edges, to.0, filter, from, 1));
    lemma_traverse_spec_at(nodes, edges, from, to, filter, 1);
    assert(s1.found =~= seq![from]);
}

/// A traversal from a key that is not a node finds nothing.
pub proof fn lemma_traverse_from_unknown(
    nodes: Map<KeyView, KeyView>,
    edges: Map<KeyView, Seq<KeyView>>,
    from: KeyView,
    to: KeyView,
    filter: Seq<Seq<char>>,
)
    requires
        !nodes.contains_key(from),
    ensures
        traverse_spec(nodes, edges, from, to, filter) == Seq::<KeyView>::empty(),
{
}

} // verus!

verus! {

/// Adding an edge that is there already changes nothing: adding the same edge
/// twice gives the edge lists of adding it once.
pub proof fn lemma_add_edge_idempotent(edges: Map<KeyView, Seq<KeyView>>, a: KeyView, b: KeyView)
    ensures
        add_edge_spec(add_edge_spec(edges, a, b), a, b) == add_edge_spec(edges, a, b),
{
    let e1 = add_edge_spec(edges, a, b);
    assert(e1.contains_key(a));
    if edges.contains_key(a) && !edges[a].contains(b) {
        assert(e1[a][edges[a].len() as int] == b);
    } else if !edges.contains_key(a) {
        assert(e1[a][0] == b);
    }
}

/// After adding the edge from `a` to `b`, it is there, and every edge that was
/// there still is.
pub proof fn lemma_add_edge_present(edges: Map<KeyView, Seq<KeyView>>, a: KeyView, b: KeyView)
    ensures
        add_edge_spec(edges, a, b).contains_key(a),
        add_edge_spec(edges, a, b)[a].contains(b),
        forall|x: KeyView, y: KeyView|
            edges.contains_key(x) && #[trigger] edges[x].contains(y) ==> add_edge_spec(edges, a, b).contains_key(x)
                && #[trigger] add_edge_spec(edges, a, b)[x].contains(y),
{
    let e1 = add_edge_spec(edges, a, b);
    if edges.contains_key(a) && !edges[a].contains(b) {
        assert(e1[a][edges[a].len() as int] == b);
        assert forall|x: KeyView, y: KeyView|
            edges.contains_key(x) && #[trigger] edges[x].contains(y) implies e1.contains_key(x)
                && #[trigger] e1[x].contains(y) by {
            if x == a {
                let i = choose|i: int| 0 <= i < edges[x].len() && edges[x][i] == y;
                assert(e1[x][i] == y);
            }
        }
    } else if !edges.contains_key(a) {
        assert(e1[a][0] == b);
    }
}

} // verus!

verus! {

/// One change made to a graph: a node stored under a key, or an edge added.
pub enum GraphOp {
    AddNode(KeyView, KeyView),
    AddEdge(KeyView, KeyView),
}

/// The nodes and edges after `op`, as `add_node` and `add_edge` state them.
pub open spec fn apply_op(
    nodes: Map<KeyView, KeyView>,
    edges: Map<KeyView, Seq<KeyView>>,
    op: GraphOp,
) -> (Map<KeyView, KeyView>, Map<KeyView, Seq<KeyView>>) {
    match op {
        GraphOp::AddNode(k, n) => (nodes.insert(k, n), edges),
        GraphOp::AddEdge(a, b) => (nodes, add_edge_spec(edges, a, b)),
    }
}

/// The nodes and edges after the changes `ops`, in order.
pub open spec fn apply_ops(
    nodes: Map<KeyView, KeyView>,
    edges: Map<KeyView, Seq<KeyView>>,
    ops: Seq<GraphOp>,
) -> (Map<KeyView, KeyView>, Map<KeyView, Seq<KeyView>>)
    decreases ops.len(),
{
    if ops.len() == 0 {
        (nodes, edges)
    } else {
        let prev = apply_ops(nodes, edges, ops.drop_last());
        apply_op(prev.0, prev.1, ops.last())
    }
}

/// Whether `op` stores a node under `k`.
pub open spec fn adds_node(op: GraphOp, k: KeyView) -> bool {
    op matches GraphOp::AddNode(k2, _) && k2 == k
}

/// Starting from an empty graph, after any sequence of `add_node` and
/// `add_edge` calls, a key is a node exactly when some `add_node` stored a node
/// under it: adding edges never makes a key a node.
pub proof fn lemma_nodes_are_added_nodes(ops: Seq<GraphOp>, k: KeyView)
    ensures
        apply_ops(Map::empty(), Map::empty(), ops).0.contains_key(k) <==> exists|i: int|
            0 <= i < ops.len() && adds_node(#[trigger] ops[i], k),
    decreases ops.len(),
{
    if ops.len() > 0 {
        let init = ops.drop_last();
        lemma_nodes_are_added_nodes(init, k);
        if exists|i: int| 0 <= i < init.len() && adds_node(#[trigger] init[i], k) {
            let i = choose|i: int| 0 <= i < init.len() && adds_node(#[trigger] init[i], k);
            assert(ops[i] == init[i]);
        }
        if exists|i: int| 0 <= i < ops.len() && adds_node(#[trigger] ops[i], k) {
            let i = choose|i: int| 0 <= i < ops.len() && adds_node(#[trigger] ops[i], k);
            if i < ops.len() - 1 {
                assert(init[i] == ops[i]);
            }
        }
    }
}

} // verus!

verus! {

/// A seen key is settled: found where it has the kind sought, else with every
/// neighbour whose kind the filter lists seen too.
pub open spec fn settled(
    v: KeyView,
    s: BfsState,
    edges: Map<KeyView, Seq<KeyView>>,
    to_kind: Seq<char>,
    filter: Seq<Seq<char>>,
) -> bool {
    &&& v.0 == to_kind ==> s.found.contains(v)
    &&& v.0 != to_kind ==> forall|j: KeyView|
        #[trigger] neighbours(edges, v).contains(j) && filter.contains(j.0) ==> s.visited.contains(j)
}

/// The start waits or was seen, and every seen key waits or is settled.
pub open spec fn bfs_closed(
    s: BfsState,
    edges: Map<KeyView, Seq<KeyView>>,
    to_kind: Seq<char>,
    filter: Seq<Seq<char>>,
    from: KeyView,
) -> bool {
    &&& s.visited.contains(from) || s.queue.contains(from)
    &&& forall|v: KeyView| #[trigger] s.visited.contains(v) ==> s.queue.contains(v) || settled(v, s, edges, to_kind, filter)
}

proof fn lemma_bfs_closed_step(
    edges: Map<KeyView, Seq<KeyView>>,
    to_kind: Seq<char>,
    filter: Seq<Seq<char>>,
    from: KeyView,
    s: BfsState,
)
    requires
        bfs_closed(s, edges, to_kind, filter, from),
    ensures
        bfs_closed(bfs_step(edges, to_kind, filter, s), edges, to_kind, filter, from),
{
    if s.queue.len() > 0 {
        let key = s.queue[0];
        let rest = s.queue.drop_first();
        let seen = s.visited.insert(key);
        let t = bfs_step(edges, to_kind, filter, s);
        // What waits behind the first key still waits.
        assert forall|x: KeyView| s.queue.contains(x) && x != key implies t.queue.contains(x) by {
            let w = choose|w: int| 0 <= w < s.queue.len() && s.queue[w] == x;
            assert(w != 0);
            assert(rest[w - 1] == x);
            if key.0 != to_kind {
                let near = neighbours(edges, key);
                lemma_enqueue(near, filter, rest, seen);
                assert(t.queue.subrange(0, rest.len() as int)[w - 1] == x);
            }
        }
        // Seen keys stay seen, and found keys stay found.
        if key.0 != to_kind {
            let near = neighbours(edges, key);
            lemma_enqueue(near, filter, rest, seen);
        }
        assert forall|x: KeyView| s.found.contains(x) implies t.found.contains(x) by {
            let w = choose|w: int| 0 <= w < s.found.len() && s.found[w] == x;
            assert(t.found[w] == x);
        }
        assert forall|x: KeyView| seen.contains(x) implies t.visited.contains(x) by {}
        assert forall|v: KeyView| #[trigger] t.visited.contains(v) implies t.queue.contains(v) || settled(
            v,
            t,
            edges,
            to_kind,
            filter,
        ) by {
            if v == key {
                if key.0 == to_kind {
                    assert(t.found[t.found.len() - 1] == key);
                }
            } else if s.visited.contains(v) {
                if s.queue.contains(v) {
                } else {
                    assert(settled(v, s, edges, to_kind, filter));
                    assert forall|j: KeyView| #[trigger] neighbours(edges, v).contains(j) && filter.contains(j.0)
                        && v.0 != to_kind implies t.visited.contains(j) by {
                        assert(s.visited.contains(j));
                    }
                }
            } else {
                // Newly queued.
                let near = neighbours(edges, key);
                lemma_enqueue(near, filter, rest, seen);
                let r = enqueue_neighbours(near, filter, rest, seen);
                let i = choose|i: int| rest.len() <= i < r.0.len() && r.0[i] == v;
                assert(t.queue[i] == v);
            }
        }
    }
}

proof fn lemma_bfs_closed_run(
    edges: Map<KeyView, Seq<KeyView>>,
    to_kind: Seq<char>,
    filter: Seq<Seq<char>>,
    from: KeyView,
    n: nat,
)
    ensures
        bfs_closed(bfs_run(edges, to_kind, filter, bfs_init(from), n), edges, to_kind, filter, from),
    decreases n,
{
    if n == 0 {
        assert(bfs_init(from).queue[0] == from);
    } else {
        lemma_bfs_closed_run(edges, to_kind, filter, from, (n - 1) as nat);
        lemma_bfs_closed_step(edges, to_kind, filter, from, bfs_run(edges, to_kind, filter, bfs_init(from), (n - 1) as nat));
    }
}

} // verus!

verus! {

/// Everything that waits in `s` was seen by `done`, and everything found in `s`
/// was found by `done`.
pub open spec fn covered_by(s: BfsState, done: BfsState) -> bool {
    &&& forall|i: int| 0 <= i < s.queue.len() ==> done.visited.contains(#[trigger] s.queue[i])
    &&& forall|i: int| 0 <= i < s.found.len() ==> done.found.contains(#[trigger] s.found[i])
}

proof fn lemma_covered_run(
    edges: Map<KeyView, Seq<KeyView>>,
    to_kind: Seq<char>,
    f1: Seq<Seq<char>>,
    f2: Seq<Seq<char>>,
    from: KeyView,
    done: BfsState,
    n: nat,
)
    requires
        bfs_closed(done, edges, to_kind, f2, from),
        done.queue.len() == 0,
        forall|x: Seq<char>| f1.contains(x) ==> f2.contains(x),
    ensures
        covered_by(bfs_run(edges, to_kind, f1, bfs_init(from), n), done),
    decreases n,
{
    if n == 0 {
        assert(done.visited.contains(from));
    } else {
        lemma_covered_run(edges, to_kind, f1, f2, from, done, (n - 1) as nat);
        let s = bfs_run(edges, to_kind, f1, bfs_init(from), (n - 1) as nat);
        let t = bfs_step(edges, to_kind, f1, s);
        if s.queue.len() > 0 {
            let key = s.queue[0];
            let rest = s.queue.drop_first();
            let seen = s.visited.insert(key);
            assert(done.visited.contains(key));
            assert(settled(key, done, edges, to_kind, f2));
            assert forall|i: int| 0 <= i < rest.len() implies done.visited.contains(#[trigger] rest[i]) by {
                assert(rest[i] == s.queue[i + 1]);
            }
            if key.0 != to_kind {
                let near = neighbours(edges, key);
                lemma_enqueue(near, f1, rest, seen);
                let r = enqueue_neighbours(near, f1, rest, seen);
                assert forall|i: int| 0 <= i < r.0.len() implies done.visited.contains(#[trigger] r.0[i]) by {
                    if i < rest.len() {
                        assert(r.0.subrange(0, rest.len() as int)[i] == r.0[i]);
                    } else {
                        assert(near.contains(r.0[i]) && f1.contains(r.0[i].0));
                        assert(f2.contains(r.0[i].0));
                    }
                }
            } else {
                assert forall|i: int| 0 <= i < t.found.len() implies done.found.contains(#[trigger] t.found[i]) by {
                    if i < s.found.len() {
                        assert(t.found[i] == s.found[i]);
                    }
                }
            }
        }
    }
}

/// Once a traversal's queue is empty, it has found every key of the kind sought
/// that a traversal with fewer kinds finds.
proof fn lemma_found_monotone(
    edges: Map<KeyView, Seq<KeyView>>,
    to_kind: Seq<char>,
    f1: Seq<Seq<char>>,
    f2: Seq<Seq<char>>,
    from: KeyView,
    n1: nat,
    n2: nat,
)
    requires
        bfs_done(edges, to_kind, f2, from, n2),
        forall|x: Seq<char>| f1.contains(x) ==> f2.contains(x),
    ensures
        forall|i: int|
            0 <= i < bfs_run(edges, to_kind, f1, bfs_init(from), n1).found.len() ==> bfs_run(
                edges,
                to_kind,
                f2,
                bfs_init(from),
                n2,
            ).found.contains(#[trigger] bfs_run(edges, to_kind, f1, bfs_init(from), n1).found[i]),
{
    lemma_bfs_closed_run(edges, to_kind, f2, from, n2);
    lemma_covered_run(edges, to_kind, f1, f2, from, bfs_run(edges, to_kind, f2, bfs_init(from), n2), n1);
}

} // verus!

verus! {

/// Keys of `u` not seen yet count twice, waiting keys once.
pub open spec fn bfs_measure(u: Set<KeyView>, s: BfsState) -> nat {
    2 * u.difference(s.visited).len() + s.queue.len()
}

/// Every target of an edge lies in `u`.
pub open spec fn targets_within(edges: Map<KeyView, Seq<KeyView>>, u: Set<KeyView>) -> bool {
    forall|k: KeyView, j: KeyView| edges.contains_key(k) && #[trigger] edges[k].contains(j) ==> u.contains(j)
}

proof fn lemma_enqueue_measure(
    near: Seq<KeyView>,
    filter: Seq<Seq<char>>,
    q: Seq<KeyView>,
    v: Set<KeyView>,
    u: Set<KeyView>,
)
    requires
        u.finite(),
        forall|i: int| 0 <= i < near.len() ==> u.contains(#[trigger] near[i]),
    ensures
        ({
            let r = enqueue_neighbours(near, filter, q, v);
            &&& 2 * u.difference(r.1).len() + r.0.len() <= 2 * u.difference(v).len() + q.len()
            &&& forall|i: int| q.len() <= i < r.0.len() ==> u.contains(#[trigger] r.0[i])
        }),
    decreases near.len(),
{
    lemma_enqueue(near, filter, q, v);
    if near.len() > 0 {
        let init = near.drop_last();
        assert forall|i: int| 0 <= i < init.len() implies u.contains(#[trigger] init[i]) by {
            assert(init[i] == near[i]);
        }
        lemma_enqueue_measure(init, filter, q, v, u);
        lemma_enqueue(init, filter, q, v);
        let prev = enqueue_neighbours(init, filter, q, v);
        let j = near.last();
        assert(u.contains(near[near.len() - 1]));
        if filter.contains(j.0) && !prev.1.contains(j) {
            lemma_unseen_shrinks(u, prev.1, j);
            let r = enqueue_neighbours(near, filter, q, v);
            assert forall|i: int| q.len() <= i < r.0.len() implies u.contains(#[trigger] r.0[i]) by {
                if i < prev.0.len() {
                    assert(r.0[i] == prev.0[i]);
                }
            }
        }
    }
}

proof fn lemma_bfs_terminates_from(
    edges: Map<KeyView, Seq<KeyView>>,
    to_kind: Seq<char>,
    filter: Seq<Seq<char>>,
    from: KeyView,
    u: Set<KeyView>,
    n: nat,
)
    requires
        u.finite(),
        targets_within(edges, u),
        forall|i: int|
            0 <= i < bfs_run(edges, to_kind, filter, bfs_init(from), n).queue.len() ==> u.contains(
                #[trigger] bfs_run(edges, to_kind, filter, bfs_init(from), n).queue[i],
            ),
    ensures
        exists|m: nat| bfs_done(edges, to_kind, filter, from, m),
    decreases bfs_measure(u, bfs_run(edges, to_kind, filter, bfs_init(from), n)),
{
    let s = bfs_run(edges, to_kind, filter, bfs_init(from), n);
    if s.queue.len() == 0 {
        assert(bfs_done(edges, to_kind, filter, from, n));
    } else {
        let t = bfs_run(edges, to_kind, filter, bfs_init(from), n + 1);
        assert(t == bfs_step(edges, to_kind, filter, s));
        let key = s.queue[0];
        let rest = s.queue.drop_first();
        let seen = s.visited.insert(key);
        assert(u.contains(s.queue[0]));
        lemma_unseen_shrinks(u, s.visited, key);
        assert forall|i: int| 0 <= i < rest.len() implies u.contains(#[trigger] rest[i]) by {
            assert(rest[i] == s.queue[i + 1]);
        }
        if key.0 != to_kind {
            let near = neighbours(edges, key);
            assert forall|i: int| 0 <= i < near.len() implies u.contains(#[trigger] near[i]) by {
                assert(edges.contains_key(key));
                assert(edges[key].contains(near[i]));
            }
            lemma_enqueue_measure(near, filter, rest, seen, u);
            lemma_enqueue(near, filter, rest, seen);
            let r = enqueue_neighbours(near, filter, rest, seen);
            assert forall|i: int| 0 <= i < t.queue.len() implies u.contains(#[trigger] t.queue[i]) by {
                if i < rest.len() {
                    assert(r.0.subrange(0, rest.len() as int)[i] == r.0[i]);
                }
            }
        } else {
            assert forall|i: int| 0 <= i < t.queue.len() implies u.contains(#[trigger] t.queue[i]) by {
                assert(t.queue[i] == rest[i]);
            }
        }
        assert(bfs_measure(u, t) < bfs_measure(u, s));
        lemma_bfs_terminates_from(edges, to_kind, filter, from, u, n + 1);
    }
}

impl Graph {
    /// The edges of a well-formed graph all lead into one finite set of keys.
    proof fn lemma_targets_finite(&self, from: KeyView) -> (u: Set<KeyView>)
        requires
            self.wf(),
        ensures
            u.finite(),
            u.contains(from),
            targets_within(self.edge_map(), u),
    {
        let u = all_targets(self.edges.entry_seq()).to_set().insert(from);
        vstd::seq_lib::seq_to_set_is_finite(all_targets(self.edges.entry_seq()));
        assert forall|k: KeyView, j: KeyView| self.edge_map().contains_key(k) && #[trigger] self.edge_map()[k].contains(
            j,
        ) implies u.contains(j) by {
            self.edges.lemma_map_entry(k);
            let idx = crate::keyed::key_index(self.edges.entry_seq(), k);
            lemma_all_targets(self.edges.entry_seq(), idx, j);
        }
        u
    }

    /// A breadth-first traversal of a well-formed graph runs its queue empty.
    pub proof fn lemma_traversal_ends(&self, from: KeyView, to_kind: Seq<char>, filter: Seq<Seq<char>>)
        requires
            self.wf(),
        ensures
            exists|m: nat| bfs_done(self.edge_map(), to_kind, filter, from, m),
    {
        let u = self.lemma_targets_finite(from);
        let s0 = bfs_run(self.edge_map(), to_kind, filter, bfs_init(from), 0);
        assert(s0.queue[0] == from);
        lemma_bfs_terminates_from(self.edge_map(), to_kind, filter, from, u, 0);
    }

    /// Letting more kinds through never loses a result: a traversal whose filter
    /// lists every kind that another's lists finds every key the other finds.
    pub proof fn lemma_traverse_filter_monotone(
        &self,
        from: KeyView,
        to: KeyView,
        f1: Seq<Seq<char>>,
        f2: Seq<Seq<char>>,
    )
        requires
            self.wf(),
            forall|x: Seq<char>| f1.contains(x) ==> f2.contains(x),
        ensures
            forall|i: int|
                0 <= i < traverse_spec(self.node_map(), self.edge_map(), from, to, f1).len() ==> traverse_spec(
                    self.node_map(),
                    self.edge_map(),
                    from,
                    to,
                    f2,
                ).contains(#[trigger] traverse_spec(self.node_map(), self.edge_map(), from, to, f1)[i]),
    {
        if self.node_map().contains_key(from) {
            self.lemma_traversal_ends(from, to.0, f1);
            self.lemma_traversal_ends(from, to.0, f2);
            let n1 = choose|n: nat| bfs_done(self.edge_map(), to.0, f1, from, n);
            let n2 = choose|n: nat| bfs_done(self.edge_map(), to.0, f2, from, n);
            lemma_found_monotone(self.edge_map(), to.0, f1, f2, from, n1, n2);
        }
    }
}

} // verus!
