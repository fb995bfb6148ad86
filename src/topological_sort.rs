//! Ordering nodes so that every connection runs forward (Kahn's algorithm,
//! ties broken by declaration order).
use vstd::prelude::*;
use vstd::set_lib::{lemma_int_range, lemma_subset_equality, set_int_range};
use crate::ir::{
    ids_unique, index_of, index_of_exec, lemma_index_of_from, node_ids, Connection, Failure, Flow,
    GenerationError, Node,
};

verus! {

/// Whether position `j` can come next after `done`: it is not placed yet and
/// the source of every edge into it is.
pub open spec fn ready(edges: Seq<(int, int)>, done: Seq<int>, j: int) -> bool {
    !done.contains(j) && forall|k: int|
        0 <= k < edges.len() && (#[trigger] edges[k]).1 == j ==> done.contains(edges[k].0)
}

/// The first ready position at or after `j` among `0..n`.
pub open spec fn first_ready(n: int, edges: Seq<(int, int)>, done: Seq<int>, j: int) -> Option<int>
    decreases n - j,
{
    if j < 0 || j >= n {
        None
    } else if ready(edges, done, j) {
        Some(j)
    } else {
        first_ready(n, edges, done, j + 1)
    }
}

/// `done` extended, one ready position at a time (the first in declaration
/// order), until all `n` are placed or none is ready.
pub open spec fn kahn(n: int, edges: Seq<(int, int)>, done: Seq<int>) -> Seq<int>
    decreases n - done.len(),
{
    if done.len() >= n {
        done
    } else {
        match first_ready(n, edges, done, 0) {
            Some(j) => kahn(n, edges, done.push(j)),
            None => done,
        }
    }
}

pub open spec fn edges_view(e: Seq<(usize, usize)>) -> Seq<(int, int)> {
    e.map_values(|p: (usize, usize)| (p.0 as int, p.1 as int))
}

pub open spec fn as_ints(v: Seq<usize>) -> Seq<int> {
    v.map_values(|x: usize| x as int)
}

/// The order of the positions `0..n` that `kahn` gives; shorter than `n` where
/// the edges hold a cycle.
pub fn kahn_order(n: usize, edges: &Vec<(usize, usize)>) -> (r: Vec<usize>)
    requires
        forall|k: int| 0 <= k < edges@.len() ==> (#[trigger] edges@[k]).0 < n && edges@[k].1 < n,
    ensures
        as_ints(r@) == kahn(n as int, edges_view(edges@), Seq::empty()),
{
    let ghost ev = edges_view(edges@);
    let m = edges.len();
    let mut order: Vec<usize> = Vec::new();
    let mut emitted: Vec<bool> = Vec::new();
    let mut x: usize = 0;
    while x < n
        invariant
            x <= n,
            emitted@.len() == x,
            forall|y: int| 0 <= y < x ==> !emitted@[y],
        decreases n - x,
    {
        emitted.push(false);
        x = x + 1;
    }
    assert(as_ints(order@) =~= Seq::<int>::empty());
    loop
        invariant
            m == edges@.len(),
            ev == edges_view(edges@),
            forall|k: int| 0 <= k < edges@.len() ==> (#[trigger] edges@[k]).0 < n && edges@[k].1 < n,
            emitted@.len() == n,
            order@.len() <= n,
            forall|y: int| 0 <= y < n ==> (emitted@[y] <==> as_ints(order@).contains(y)),
            kahn(n as int, ev, as_ints(order@)) == kahn(n as int, ev, Seq::empty()),
        decreases n - order@.len(),
    {
        let ghost done = as_ints(order@);
        if order.len() >= n {
            assert(done.len() == order@.len());
            return order;
        }
        let mut found: Option<usize> = None;
        let mut j: usize = 0;
        while found.is_none() && j < n
            invariant
                m == edges@.len(),
                ev == edges_view(edges@),
                forall|k: int| 0 <= k < edges@.len() ==> (#[trigger] edges@[k]).0 < n && edges@[k].1 < n,
                emitted@.len() == n,
                done == as_ints(order@),
                forall|y: int| 0 <= y < n ==> (emitted@[y] <==> done.contains(y)),
                j <= n,
                found is None ==> first_ready(n as int, ev, done, 0) == first_ready(
                    n as int,
                    ev,
                    done,
                    j as int,
                ),
                found is Some ==> found.unwrap() < n && first_ready(n as int, ev, done, 0) == Some(
                    found.unwrap() as int,
                ),
            decreases n - j,
        {
            if !emitted[j] {
                let mut ok = true;
                let mut k: usize = 0;
                while k < m
                    invariant
                        m == edges@.len(),
                        ev == edges_view(edges@),
                        forall|k: int|
                            0 <= k < edges@.len() ==> (#[trigger] edges@[k]).0 < n && edges@[k].1 < n,
                        emitted@.len() == n,
                        forall|y: int| 0 <= y < n ==> (emitted@[y] <==> done.contains(y)),
                        j < n,
                        k <= m,
                        ok == (forall|t: int|
                            0 <= t < k && (#[trigger] ev[t]).1 == j ==> done.contains(ev[t].0)),
                    decreases m - k,
                {
                    let (f, t) = edges[k];
                    assert(ev[k as int] == (f as int, t as int));
                    if t == j && !emitted[f] {
                        ok = false;
                    }
                    k = k + 1;
                }
                if ok {
                    assert(ready(ev, done, j as int));
                    found = Some(j);
                } else {
                    assert(!ready(ev, done, j as int));
                }
            } else {
                assert(done.contains(j as int));
            }
            j = j + 1;
        }
        match found {
            None => {
                assert(first_ready(n as int, ev, done, n as int) is None);
                assert(done.len() == order@.len());
                return order;
            },
            Some(j) => {
                order.push(j);
                emitted.set(j, true);
                assert(as_ints(order@) =~= done.push(j as int));
                assert forall|y: int| 0 <= y < n implies (emitted@[y] <==> as_ints(order@).contains(y)) by {
                    vstd::seq_lib::lemma_seq_contains_after_push(done, j as int, y);
                }
            },
        }
    }
}

/// The first endpoint, from connection `k` on, that names no node (the target
/// of a connection before its source).
pub open spec fn first_unresolved(ids: Seq<Seq<char>>, conns: Seq<Connection>, k: int) -> Option<Seq<char>>
    decreases conns.len() - k,
{
    if k < 0 || k >= conns.len() {
        None
    } else if index_of(ids, conns[k].to@) < 0 {
        Some(conns[k].to@)
    } else if index_of(ids, conns[k].from@) < 0 {
        Some(conns[k].from@)
    } else {
        first_unresolved(ids, conns, k + 1)
    }
}

/// Each connection as the pair of positions of its endpoints among `ids`.
pub open spec fn connection_edges(ids: Seq<Seq<char>>, conns: Seq<Connection>) -> Seq<(int, int)> {
    conns.map_values(|c: Connection| (index_of(ids, c.from@), index_of(ids, c.to@)))
}

/// The order of the flow's node ids that the sorter computes: `Ok` with every
/// id where the connections allow it, `Err` otherwise.
pub open spec fn sorted_ids(flow: Flow) -> Result<Seq<Seq<char>>, Failure> {
    let ids = node_ids(flow.nodes@);
    match first_unresolved(ids, flow.connections@, 0) {
        Some(id) => Err(Failure::NodeNotFound(id)),
        None => {
            let order = kahn(ids.len() as int, connection_edges(ids, flow.connections@), Seq::empty());
            if order.len() < ids.len() {
                Err(Failure::CycleDetected)
            } else {
                Ok(order.map_values(|i: int| ids[i]))
            }
        },
    }
}

/// The ids of the nodes, in order.
pub fn node_id_list(nodes: &Vec<Node>) -> (r: Vec<String>)
    ensures
        r@.len() == nodes@.len(),
        forall|t: int| 0 <= t < nodes@.len() ==> (#[trigger] r@[t])@ == node_ids(nodes@)[t],
{
    let ghost ids = node_ids(nodes@);
    let n = nodes.len();
    let mut id_list: Vec<String> = Vec::new();
    let mut i: usize = 0;
    while i < n
        invariant
            n == nodes@.len(),
            ids == node_ids(nodes@),
            i <= n,
            id_list@.len() == i,
            forall|t: int| 0 <= t < i ==> (#[trigger] id_list@[t])@ == ids[t],
        decreases n - i,
    {
        id_list.push(nodes[i].id.clone());
        i = i + 1;
    }
    id_list
}

/// Each connection as the positions of its endpoints among the nodes, or
/// `NodeNotFound` for the first endpoint that names no node.
pub fn resolve_connections(nodes: &Vec<Node>, connections: &Vec<Connection>) -> (r: Result<
    Vec<(usize, usize)>,
    GenerationError,
>)
    ensures
        match r {
            Ok(e) => {
                &&& first_unresolved(node_ids(nodes@), connections@, 0) is None
                &&& edges_view(e@) == connection_edges(node_ids(nodes@), connections@)
                &&& forall|t: int|
                    0 <= t < e@.len() ==> (#[trigger] e@[t]).0 < nodes@.len() && e@[t].1 < nodes@.len()
            },
            Err(err) => match first_unresolved(node_ids(nodes@), connections@, 0) {
                Some(id) => err@ == Failure::NodeNotFound(id),
                None => false,
            },
        },
{
    let ghost ids = node_ids(nodes@);
    let n = nodes.len();
    let id_list = node_id_list(nodes);
    let m = connections.len();
    let mut edges: Vec<(usize, usize)> = Vec::new();
    let mut k: usize = 0;
    while k < m
        invariant
            n == nodes@.len(),
            m == connections@.len(),
            ids == node_ids(nodes@),
            id_list@.len() == n,
            forall|t: int| 0 <= t < n ==> (#[trigger] id_list@[t])@ == ids[t],
            k <= m,
            first_unresolved(ids, connections@, 0) == first_unresolved(ids, connections@, k as int),
            edges@.len() == k,
            forall|t: int|
                0 <= t < k ==> edges_view(edges@)[t] == #[trigger] connection_edges(ids, connections@)[t],
            forall|t: int| 0 <= t < edges@.len() ==> (#[trigger] edges@[t]).0 < n && edges@[t].1 < n,
        decreases m - k,
    {
        let c = &connections[k];
        assert(id_list@.map_values(|t: String| t@) =~= ids);
        let t = match index_of_exec(&id_list, &c.to) {
            Some(t) => t,
            None => {
                return Err(GenerationError::NodeNotFound(c.to.clone()));
            },
        };
        let f = match index_of_exec(&id_list, &c.from) {
            Some(f) => f,
            None => {
                return Err(GenerationError::NodeNotFound(c.from.clone()));
            },
        };
        proof {
            lemma_index_of_from(ids, c.to@, 0);
            lemma_index_of_from(ids, c.from@, 0);
        }
        edges.push((f, t));
        k = k + 1;
    }
    assert(edges_view(edges@) =~= connection_edges(ids, connections@));
    Ok(edges)
}

/// Orders the nodes of a flow by its connections.
pub struct TopologicalSort;

impl TopologicalSort {
    /// The node ids in an order where each connection's source comes before its
    /// target; among nodes that could come next, the one declared first.
    pub fn sort(flow: &Flow) -> (r: Result<Vec<String>, GenerationError>)
        ensures
            match r {
                Ok(order) => sorted_ids(*flow) == Ok::<Seq<Seq<char>>, Failure>(
                    order@.map_values(|s: String| s@),
                ),
                Err(e) => sorted_ids(*flow) == Err::<Seq<Seq<char>>, Failure>(e@),
            },
    {
        let ghost ids = node_ids(flow.nodes@);
        let n = flow.nodes.len();
        let id_list = node_id_list(&flow.nodes);
        let edges = match resolve_connections(&flow.nodes, &flow.connections) {
            Ok(e) => e,
            Err(e) => {
                return Err(e);
            },
        };
        let order = kahn_order(n, &edges);
        if order.len() < n {
            return Err(GenerationError::CycleDetected);
        }
        let mut out: Vec<String> = Vec::new();
        let mut p: usize = 0;
        let ghost korder = kahn(n as int, edges_view(edges@), Seq::empty());
        proof {
            lemma_kahn_valid(n as int, edges_view(edges@), Seq::empty());
        }
        while p < order.len()
            invariant
                n == flow.nodes@.len(),
                ids == node_ids(flow.nodes@),
                id_list@.len() == n,
                forall|t: int| 0 <= t < n ==> (#[trigger] id_list@[t])@ == ids[t],
                as_ints(order@) == korder,
                forall|q: int| 0 <= q < korder.len() ==> 0 <= #[trigger] korder[q] < n,
                p <= order@.len(),
                out@.len() == p,
                forall|t: int| 0 <= t < p ==> (#[trigger] out@[t])@ == ids[korder[t]],
            decreases order@.len() - p,
        {
            assert(korder[p as int] == order@[p as int] as int);
            out.push(id_list[order[p]].clone());
            p = p + 1;
        }
        assert(out@.map_values(|s: String| s@) =~= korder.map_values(|i: int| ids[i]));
        Ok(out)
    }
}

/// Whether `s` lists distinct positions of `0..n` and, for each edge into a
/// listed position, lists the edge's source earlier.
pub open spec fn valid_prefix(n: int, edges: Seq<(int, int)>, s: Seq<int>) -> bool {
    &&& s.no_duplicates()
    &&& forall|p: int| 0 <= p < s.len() ==> 0 <= #[trigger] s[p] < n
    &&& forall|p: int, k: int|
        0 <= p < s.len() && 0 <= k < edges.len() && (#[trigger] edges[k]).1 == #[trigger] s[p]
            ==> exists|q: int| 0 <= q < p && s[q] == edges[k].0
}

proof fn lemma_first_ready(n: int, edges: Seq<(int, int)>, done: Seq<int>, j: int)
    requires
        0 <= j,
    ensures
        match first_ready(n, edges, done, j) {
            Some(x) => j <= x < n && ready(edges, done, x),
            None => true,
        },
    decreases n - j,
{
    if j < n && !ready(edges, done, j) {
        lemma_first_ready(n, edges, done, j + 1);
    }
}

/// A ready position placed after a valid prefix keeps it valid.
proof fn lemma_push_ready(n: int, edges: Seq<(int, int)>, done: Seq<int>, j: int)
    requires
        valid_prefix(n, edges, done),
        0 <= j < n,
        ready(edges, done, j),
    ensures
        valid_prefix(n, edges, done.push(j)),
{
    let s = done.push(j);
    assert forall|p: int, k: int|
        0 <= p < s.len() && 0 <= k < edges.len() && (#[trigger] edges[k]).1
            == #[trigger] s[p] implies exists|q: int| 0 <= q < p && s[q] == edges[k].0 by {
        if p == done.len() {
            assert(done.contains(edges[k].0));
            let q = choose|q: int| 0 <= q < done.len() && done[q] == edges[k].0;
            assert(s[q] == edges[k].0);
        } else {
            assert(s[p] == done[p]);
            let q = choose|q: int| 0 <= q < p && done[q] == edges[k].0;
            assert(s[q] == edges[k].0);
        }
    }
    assert(s.no_duplicates()) by {
        assert forall|a: int, b: int| 0 <= a < s.len() && 0 <= b < s.len() && a != b implies s[a]
            != s[b] by {
            if a == done.len() {
                assert(!done.contains(j));
                assert(s[b] == done[b]);
            } else if b == done.len() {
                assert(!done.contains(j));
                assert(s[a] == done[a]);
            }
        }
    }
}

/// What `kahn` adds to a valid prefix keeps it valid.
pub proof fn lemma_kahn_valid(n: int, edges: Seq<(int, int)>, done: Seq<int>)
    requires
        valid_prefix(n, edges, done),
        done.len() <= n,
    ensures
        valid_prefix(n, edges, kahn(n, edges, done)),
        kahn(n, edges, done).len() <= n,
    decreases n - done.len(),
{
    if done.len() < n {
        lemma_first_ready(n, edges, done, 0);
        match first_ready(n, edges, done, 0) {
            Some(j) => {
                lemma_push_ready(n, edges, done, j);
                lemma_kahn_valid(n, edges, done.push(j));
            },
            None => {},
        }
    }
}

/// Whether `order` lists each of the positions `0..n` once and puts the source
/// of every edge before its target.
pub open spec fn is_topological(n: int, edges: Seq<(int, int)>, order: Seq<int>) -> bool {
    &&& order.len() == n
    &&& order.no_duplicates()
    &&& forall|p: int| 0 <= p < n ==> 0 <= #[trigger] order[p] < n
    &&& forall|k: int|
        0 <= k < edges.len() ==> exists|p: int, q: int|
            0 <= p < q < n && order[p] == (#[trigger] edges[k]).0 && order[q] == edges[k].1
}

proof fn lemma_ready_found(n: int, edges: Seq<(int, int)>, done: Seq<int>, x: int, j: int)
    requires
        0 <= j <= x < n,
        ready(edges, done, x),
    ensures
        first_ready(n, edges, done, j) is Some,
    decreases x - j,
{
    if !ready(edges, done, j) {
        lemma_ready_found(n, edges, done, x, j + 1);
    }
}

/// The first position of `o` from `p` on whose element is not placed yet.
proof fn lemma_min_unplaced(o: Seq<int>, done: Seq<int>, p: int) -> (m: int)
    requires
        0 <= p < o.len(),
        !done.contains(o[p]),
    ensures
        0 <= m <= p,
        !done.contains(o[m]),
        forall|r: int| 0 <= r < m ==> done.contains(#[trigger] o[r]),
    decreases p,
{
    if exists|r: int| 0 <= r < p && !done.contains(#[trigger] o[r]) {
        let r = choose|r: int| 0 <= r < p && !done.contains(#[trigger] o[r]);
        lemma_min_unplaced(o, done, r)
    } else {
        p
    }
}

/// Where some order puts every edge forward, a valid prefix shorter than `n`
/// always has a ready position.
proof fn lemma_some_ready(n: int, edges: Seq<(int, int)>, done: Seq<int>, o: Seq<int>)
    requires
        valid_prefix(n, edges, done),
        done.len() < n,
        is_topological(n, edges, o),
    ensures
        first_ready(n, edges, done, 0) is Some,
{
    done.unique_seq_to_set();
    lemma_int_range(0, n);
    let missing = set_int_range(0, n).difference(done.to_set());
    if !(exists|x: int| missing.contains(x)) {
        assert forall|x: int| set_int_range(0, n).contains(x) implies done.to_set().contains(x) by {
            assert(!missing.contains(x));
        }
        vstd::set_lib::lemma_len_subset(set_int_range(0, n), done.to_set());
        assert(false);
    }
    let x = missing.choose();
    assert(missing.contains(x));
    lemma_full_prefix_covers(n, o);
    assert(o.contains(x));
    let p = choose|p: int| 0 <= p < o.len() && o[p] == x;
    assert(!done.contains(o[p]));
    let m = lemma_min_unplaced(o, done, p);
    let y = o[m];
    assert forall|k: int| 0 <= k < edges.len() && (#[trigger] edges[k]).1 == y implies done.contains(
        edges[k].0,
    ) by {
        let (a, b) = choose|a: int, b: int|
            0 <= a < b < n && o[a] == (#[trigger] edges[k]).0 && o[b] == edges[k].1;
        assert(o[b] == o[m]);
        assert(b == m);
        assert(done.contains(o[a]));
    }
    assert(ready(edges, done, y));
    lemma_ready_found(n, edges, done, y, 0);
}

/// Where some order puts every edge forward, `kahn` places all positions.
pub proof fn lemma_kahn_complete(n: int, edges: Seq<(int, int)>, done: Seq<int>, o: Seq<int>)
    requires
        valid_prefix(n, edges, done),
        done.len() <= n,
        is_topological(n, edges, o),
    ensures
        kahn(n, edges, done).len() == n,
    decreases n - done.len(),
{
    if done.len() < n {
        lemma_some_ready(n, edges, done, o);
        lemma_first_ready(n, edges, done, 0);
        let j = first_ready(n, edges, done, 0)->Some_0;
        lemma_push_ready(n, edges, done, j);
        lemma_kahn_complete(n, edges, done.push(j), o);
    }
}

proof fn lemma_all_resolved(ids: Seq<Seq<char>>, conns: Seq<Connection>, k: int)
    requires
        0 <= k,
        first_unresolved(ids, conns, k) is None,
    ensures
        forall|t: int|
            k <= t < conns.len() ==> index_of(ids, (#[trigger] conns[t]).to@) >= 0 && index_of(
                ids,
                conns[t].from@,
            ) >= 0,
    decreases conns.len() - k,
{
    if k < conns.len() {
        lemma_all_resolved(ids, conns, k + 1);
    }
}

/// Sorting a flow whose node ids are distinct, whose connections name its
/// nodes, and whose connections admit some order running every one of them
/// forward, succeeds; the order lists every node id exactly once and puts the
/// source of each connection before its target.
pub proof fn lemma_sort_orders_acyclic_flow(flow: Flow)
    requires
        ids_unique(node_ids(flow.nodes@)),
        first_unresolved(node_ids(flow.nodes@), flow.connections@, 0) is None,
        exists|o: Seq<int>|
            is_topological(
                flow.nodes@.len() as int,
                connection_edges(node_ids(flow.nodes@), flow.connections@),
                o,
            ),
    ensures
        sorted_ids(flow) is Ok,
        ({
            let ids = node_ids(flow.nodes@);
            let order = sorted_ids(flow)->Ok_0;
            &&& order.len() == ids.len()
            &&& order.no_duplicates()
            &&& forall|i: int| 0 <= i < ids.len() ==> order.contains(#[trigger] ids[i])
            &&& forall|k: int|
                0 <= k < flow.connections@.len() ==> exists|p: int, q: int|
                    0 <= p < q < order.len() && order[p] == (#[trigger] flow.connections@[k]).from@
                        && order[q] == flow.connections@[k].to@
        }),
{
    let ids = node_ids(flow.nodes@);
    let conns = flow.connections@;
    let n = ids.len() as int;
    let edges = connection_edges(ids, conns);
    let o = choose|o: Seq<int>| is_topological(n, edges, o);
    assert(valid_prefix(n, edges, Seq::<int>::empty()));
    lemma_kahn_valid(n, edges, Seq::empty());
    lemma_kahn_complete(n, edges, Seq::empty(), o);
    let korder = kahn(n, edges, Seq::empty());
    lemma_full_prefix_covers(n, korder);
    let order = korder.map_values(|i: int| ids[i]);
    assert(sorted_ids(flow) == Ok::<Seq<Seq<char>>, Failure>(order));
    assert(order.no_duplicates()) by {
        assert forall|a: int, b: int| 0 <= a < order.len() && 0 <= b < order.len() && a != b implies order[a]
            != order[b] by {
            assert(korder[a] != korder[b]);
        }
    }
    assert forall|i: int| 0 <= i < ids.len() implies order.contains(#[trigger] ids[i]) by {
        assert(korder.contains(i));
        let p = choose|p: int| 0 <= p < korder.len() && korder[p] == i;
        assert(order[p] == ids[i]);
    }
    lemma_all_resolved(ids, conns, 0);
    assert forall|k: int| 0 <= k < conns.len() implies exists|p: int, q: int|
        0 <= p < q < order.len() && order[p] == (#[trigger] conns[k]).from@ && order[q]
            == conns[k].to@ by {
        let f = index_of(ids, conns[k].from@);
        let t = index_of(ids, conns[k].to@);
        lemma_index_of_from(ids, conns[k].from@, 0);
        lemma_index_of_from(ids, conns[k].to@, 0);
        assert(edges[k] == (f, t));
        assert(korder.contains(t));
        let q = choose|q: int| 0 <= q < korder.len() && korder[q] == t;
        assert(edges[k].1 == korder[q]);
        let p = choose|p: int| 0 <= p < q && korder[p] == edges[k].0;
        assert(order[p] == ids[f]);
        assert(order[q] == ids[t]);
    }
}

/// Two connections that run both ways between the same two nodes of a flow
/// whose connections name its nodes make sorting fail with `CycleDetected`:
/// no partial order is returned.
pub proof fn lemma_two_cycle_detected(flow: Flow, a: int, b: int)
    requires
        first_unresolved(node_ids(flow.nodes@), flow.connections@, 0) is None,
        0 <= a < flow.connections@.len(),
        0 <= b < flow.connections@.len(),
        flow.connections@[a].from@ == flow.connections@[b].to@,
        flow.connections@[a].to@ == flow.connections@[b].from@,
    ensures
        sorted_ids(flow) == Err::<Seq<Seq<char>>, Failure>(Failure::CycleDetected),
{
    let ids = node_ids(flow.nodes@);
    let conns = flow.connections@;
    let n = ids.len() as int;
    let edges = connection_edges(ids, conns);
    assert(valid_prefix(n, edges, Seq::<int>::empty()));
    lemma_kahn_valid(n, edges, Seq::empty());
    let korder = kahn(n, edges, Seq::empty());
    if korder.len() >= n {
        lemma_full_prefix_covers(n, korder);
        lemma_all_resolved(ids, conns, 0);
        let x = index_of(ids, conns[a].from@);
        let y = index_of(ids, conns[a].to@);
        lemma_index_of_from(ids, conns[a].from@, 0);
        lemma_index_of_from(ids, conns[a].to@, 0);
        assert(edges[a] == (x, y));
        assert(edges[b] == (y, x));
        assert(korder.contains(y));
        let qy = choose|q: int| 0 <= q < korder.len() && korder[q] == y;
        assert(edges[a].1 == korder[qy]);
        let qx = choose|q: int| 0 <= q < qy && korder[q] == edges[a].0;
        assert(edges[b].1 == korder[qx]);
        let qy2 = choose|q: int| 0 <= q < qx && korder[q] == edges[b].0;
        assert(korder[qy2] == korder[qy]);
        assert(false);
    }
}

/// A valid prefix that places all `n` positions lists each of them.
pub proof fn lemma_full_prefix_covers(n: int, s: Seq<int>)
    requires
        s.no_duplicates(),
        forall|p: int| 0 <= p < s.len() ==> 0 <= #[trigger] s[p] < n,
        s.len() == n,
    ensures
        forall|x: int| 0 <= x < n ==> s.contains(x),
{
    s.unique_seq_to_set();
    lemma_int_range(0, n);
    assert(s.to_set().subset_of(set_int_range(0, n)));
    lemma_subset_equality(s.to_set(), set_int_range(0, n));
    assert forall|x: int| 0 <= x < n implies s.contains(x) by {
        assert(set_int_range(0, n).contains(x));
        assert(s.to_set().contains(x));
    }
}

} // verus!
