use vstd::prelude::*;
use crate::graph::PlayerGraph;
use crate::graph::edges_within;
use crate::graph::rev_out_neighbors;
use crate::graph::pg_neighbors;
use vstd::set_lib::set_int_range;
use vstd::set_lib::lemma_int_range;
use vstd::set_lib::lemma_len_subset;

verus! {

// ---------------------------------------------------------------------------
// The bounded breadth-first traversal, specified as a recursion over the
// traversal state: the pending queue of (handle, hop distance) entries and
// the set of handles discovered so far. Two exec routines share it: one
// collects every node dequeued within the hop bound, the other reports the
// distance at which a target is dequeued.
// ---------------------------------------------------------------------------

/// The integer views of a sequence of machine indices.
pub open spec fn usize_ints(s: Seq<usize>) -> Seq<int> {
    s.map_values(|x: usize| x as int)
}

/// The integer views of queue entries: (node handle, hop distance).
pub open spec fn entry_ints(s: Seq<(usize, usize)>) -> Seq<(int, int)> {
    s.map_values(|p: (usize, usize)| (p.0 as int, p.1 as int))
}

/// The set of handles a visited marker holds.
pub open spec fn marked(v: Seq<bool>) -> Set<int> {
    Set::new(|i: int| 0 <= i < v.len() && v[i])
}

pub proof fn lemma_marked_bound(v: Seq<bool>)
    ensures
        marked(v).finite(),
        marked(v).len() <= v.len(),
{
    let r = set_int_range(0, v.len() as int);
    lemma_int_range(0, v.len() as int);
    assert(marked(v).subset_of(r));
    lemma_len_subset(marked(v), r);
}

/// The handles a scan of `ns` discovers against the already-visited set
/// `vis`: first occurrences only, in scan order.
pub open spec fn fresh_push(ns: Seq<int>, vis: Set<int>) -> Seq<int>
    decreases ns.len(),
{
    if ns.len() == 0 {
        Seq::empty()
    } else if vis.contains(ns[0]) {
        fresh_push(ns.drop_first(), vis)
    } else {
        seq![ns[0]] + fresh_push(ns.drop_first(), vis.insert(ns[0]))
    }
}

pub proof fn lemma_fresh_push_props(ns: Seq<int>, vis: Set<int>)
    ensures
        forall|k: int|
            0 <= k < fresh_push(ns, vis).len() ==> ns.contains(#[trigger] fresh_push(ns, vis)[k])
                && !vis.contains(fresh_push(ns, vis)[k]),
        vis.union(fresh_push(ns, vis).to_set()) =~= vis.union(ns.to_set()),
        fresh_push(ns, vis).no_duplicates(),
    decreases ns.len(),
{
    broadcast use vstd::seq_lib::group_seq_properties;

    if ns.len() == 0 {
    } else {
        let rest = ns.drop_first();
        let fr = fresh_push(ns, vis);
        if vis.contains(ns[0]) {
            lemma_fresh_push_props(rest, vis);
            assert forall|k: int| 0 <= k < fr.len() implies ns.contains(#[trigger] fr[k])
                && !vis.contains(fr[k]) by {
                assert(rest.contains(fr[k]));
                let m = choose|m: int| 0 <= m < rest.len() && rest[m] == fr[k];
                assert(ns[m + 1] == fr[k]);
            }
            assert(ns.to_set() =~= rest.to_set().insert(ns[0]));
            assert(vis.union(fr.to_set()) =~= vis.union(ns.to_set()));
        } else {
            lemma_fresh_push_props(rest, vis.insert(ns[0]));
            let fr_rest = fresh_push(rest, vis.insert(ns[0]));
            assert forall|k: int| 0 <= k < fr.len() implies ns.contains(#[trigger] fr[k])
                && !vis.contains(fr[k]) by {
                if k == 0 {
                    assert(ns[0] == fr[0]);
                } else {
                    assert(fr[k] == fr_rest[k - 1]);
                    assert(rest.contains(fr_rest[k - 1]));
                    let m = choose|m: int| 0 <= m < rest.len() && rest[m] == fr_rest[k - 1];
                    assert(ns[m + 1] == fr[k]);
                }
            }
            assert(ns.to_set() =~= rest.to_set().insert(ns[0]));
            assert(fr.to_set() =~= fr_rest.to_set().insert(ns[0]));
            assert(vis.union(fr.to_set()) =~= vis.insert(ns[0]).union(fr_rest.to_set()));
            assert(vis.union(ns.to_set()) =~= vis.insert(ns[0]).union(rest.to_set()));
            assert(vis.union(fr.to_set()) =~= vis.union(ns.to_set()));
            assert forall|i: int, j: int| 0 <= i < j < fr.len() implies fr[i] != fr[j] by {
                if i == 0 {
                    assert(fr[j] == fr_rest[j - 1]);
                    assert(!vis.insert(ns[0]).contains(fr_rest[j - 1]));
                } else {
                    assert(fr[i] == fr_rest[i - 1]);
                    assert(fr[j] == fr_rest[j - 1]);
                }
            }
        }
    }
}

/// Scanning one more handle extends the fresh sequence exactly when the
/// handle is new to both the visited set and the scanned prefix.
pub proof fn lemma_fresh_push_snoc(ns: Seq<int>, x: int, vis: Set<int>)
    ensures
        fresh_push(ns.push(x), vis) == if vis.contains(x) || ns.contains(x) {
            fresh_push(ns, vis)
        } else {
            fresh_push(ns, vis).push(x)
        },
    decreases ns.len(),
{
    broadcast use vstd::seq_lib::group_seq_properties;

    let snoc = ns.push(x);
    if ns.len() == 0 {
        assert(snoc[0] == x);
        assert(snoc.drop_first() =~= Seq::<int>::empty());
        assert(fresh_push(ns, vis) =~= Seq::<int>::empty());
        if vis.contains(x) {
            assert(fresh_push(snoc, vis) =~= Seq::<int>::empty());
        } else {
            assert(fresh_push(snoc.drop_first(), vis.insert(x)) =~= Seq::<int>::empty());
            assert(fresh_push(snoc, vis) =~= Seq::<int>::empty().push(x));
            assert(fresh_push(ns, vis).push(x) =~= Seq::<int>::empty().push(x));
        }
    } else {
        assert(snoc[0] == ns[0]);
        assert(snoc.drop_first() =~= ns.drop_first().push(x));
        let rest = ns.drop_first();
        if vis.contains(ns[0]) {
            lemma_fresh_push_snoc(rest, x, vis);
            assert(ns.contains(x) <==> (ns[0] == x || rest.contains(x))) by {
                if ns.contains(x) {
                    let m = choose|m: int| 0 <= m < ns.len() && ns[m] == x;
                    if m > 0 {
                        assert(rest[m - 1] == x);
                    }
                } else {
                    if rest.contains(x) {
                        let m = choose|m: int| 0 <= m < rest.len() && rest[m] == x;
                        assert(ns[m + 1] == x);
                    }
                }
            }
        } else {
            let vis2 = vis.insert(ns[0]);
            lemma_fresh_push_snoc(rest, x, vis2);
            assert(ns.contains(x) <==> (ns[0] == x || rest.contains(x))) by {
                if ns.contains(x) {
                    let m = choose|m: int| 0 <= m < ns.len() && ns[m] == x;
                    if m > 0 {
                        assert(rest[m - 1] == x);
                    }
                } else {
                    if rest.contains(x) {
                        let m = choose|m: int| 0 <= m < rest.len() && rest[m] == x;
                        assert(ns[m + 1] == x);
                    }
                }
            }
            assert((vis2.contains(x) || rest.contains(x)) <==> (vis.contains(x) || ns.contains(
                x,
            )));
            if vis2.contains(x) || rest.contains(x) {
                assert(fresh_push(snoc, vis) == fresh_push(ns, vis));
            } else {
                assert(fresh_push(snoc, vis) =~= (seq![ns[0]] + fresh_push(rest, vis2)).push(x));
            }
        }
    }
}

/// A traversal state is sound when the visited set is a finite set of valid
/// handles and every queued handle has been visited.
pub open spec fn bfs_state_ok(queue: Seq<(int, int)>, vis: Set<int>, n: int) -> bool {
    &&& vis.finite()
    &&& (forall|x: int| vis.contains(x) ==> 0 <= x < n)
    &&& (forall|k: int| 0 <= k < queue.len() ==> vis.contains((#[trigger] queue[k]).0))
}

/// Expanding the head entry: its unvisited neighbours join the queue at one
/// more hop and are marked visited.
pub open spec fn bfs_expand(edges: Seq<(int, int)>, queue: Seq<(int, int)>, vis: Set<int>) -> (
    Seq<(int, int)>,
    Set<int>,
) {
    let node = queue[0].0;
    let d = queue[0].1;
    let fresh = fresh_push(rev_out_neighbors(edges, node), vis);
    (queue.drop_first() + fresh.map_values(|m: int| (m, d + 1)), vis.union(fresh.to_set()))
}

/// Every outgoing neighbour is a valid handle.
pub proof fn lemma_rev_out_range(edges: Seq<(int, int)>, a: int, n: int)
    requires
        edges_within(edges, n),
    ensures
        forall|k: int|
            0 <= k < rev_out_neighbors(edges, a).len() ==> 0 <= #[trigger] rev_out_neighbors(
                edges,
                a,
            )[k] < n,
    decreases edges.len(),
{
    if edges.len() > 0 {
        let pre = edges.drop_last();
        assert(edges_within(pre, n)) by {
            assert(forall|k: int| 0 <= k < pre.len() ==> pre[k] == edges[k]);
        }
        lemma_rev_out_range(pre, a, n);
        let full = rev_out_neighbors(edges, a);
        let rest = rev_out_neighbors(pre, a);
        assert(edges[edges.len() - 1] == edges.last());
        assert forall|k: int| 0 <= k < full.len() implies 0 <= #[trigger] full[k] < n by {
            if edges.last().0 == a {
                if k == 0 {
                    assert(full[0] == edges.last().1);
                } else {
                    assert(full[k] == rest[k - 1]);
                }
            } else {
                assert(full[k] == rest[k]);
            }
        }
    }
}

/// Expansion keeps the state sound, never shrinks the visited set, bounds it
/// by the handle count, and grows it exactly when a fresh neighbour was
/// found.
pub proof fn lemma_bfs_expand_ok(edges: Seq<(int, int)>, queue: Seq<(int, int)>, vis: Set<int>, n: int)
    requires
        bfs_state_ok(queue, vis, n),
        edges_within(edges, n),
        queue.len() > 0,
    ensures
        bfs_state_ok(bfs_expand(edges, queue, vis).0, bfs_expand(edges, queue, vis).1, n),
        vis.subset_of(bfs_expand(edges, queue, vis).1),
        bfs_expand(edges, queue, vis).1.len() <= n,
        vis.len() <= bfs_expand(edges, queue, vis).1.len(),
        fresh_push(rev_out_neighbors(edges, queue[0].0), vis).len() > 0 ==> vis.len() < bfs_expand(
            edges,
            queue,
            vis,
        ).1.len(),
        fresh_push(rev_out_neighbors(edges, queue[0].0), vis).len() == 0 ==> bfs_expand(
            edges,
            queue,
            vis,
        ).1 == vis,
        bfs_expand(edges, queue, vis).0.len() == queue.len() - 1 + fresh_push(
            rev_out_neighbors(edges, queue[0].0),
            vis,
        ).len(),
{
    broadcast use vstd::seq_lib::group_seq_properties;

    let node = queue[0].0;
    let d = queue[0].1;
    let ns = rev_out_neighbors(edges, node);
    let fresh = fresh_push(ns, vis);
    let nq = bfs_expand(edges, queue, vis).0;
    let nv = bfs_expand(edges, queue, vis).1;
    lemma_fresh_push_props(ns, vis);
    lemma_rev_out_range(edges, node, n);
    // the new visited set is finite and in range
    assert(fresh.to_set().finite());
    assert forall|x: int| nv.contains(x) implies 0 <= x < n by {
        if !vis.contains(x) {
            assert(fresh.to_set().contains(x));
            assert(fresh.contains(x));
            let k = choose|k: int| 0 <= k < fresh.len() && fresh[k] == x;
            assert(ns.contains(fresh[k]));
            let m = choose|m: int| 0 <= m < ns.len() && ns[m] == x;
        }
    }
    // every queued handle is visited
    assert forall|k: int| 0 <= k < nq.len() implies nv.contains((#[trigger] nq[k]).0) by {
        if k < queue.len() - 1 {
            assert(nq[k] == queue.drop_first()[k]);
            assert(queue[k + 1].0 == nq[k].0);
        } else {
            let fm = fresh.map_values(|m: int| (m, d + 1));
            assert(nq[k] == fm[k - (queue.len() - 1)]);
            assert(nq[k].0 == fresh[k - (queue.len() - 1)]);
            assert(fresh.to_set().contains(fresh[k - (queue.len() - 1)]));
        }
    }
    // size bounds
    let r = set_int_range(0, n);
    lemma_int_range(0, n);
    assert(nv.subset_of(r));
    lemma_len_subset(nv, r);
    lemma_len_subset(vis, nv);
    if fresh.len() > 0 {
        let x = fresh[0];
        assert(!vis.contains(x));
        assert(nv.contains(x));
        assert(vis.subset_of(nv.remove(x)));
        lemma_len_subset(vis, nv.remove(x));
    }
    if fresh.len() == 0 {
        assert(fresh.to_set() =~= Set::<int>::empty()) by {
            assert forall|x: int| !fresh.to_set().contains(x) by {
                if fresh.contains(x) {
                    let k = choose|k: int| 0 <= k < fresh.len() && fresh[k] == x;
                }
            }
        }
        assert(nv =~= vis);
    }
}

/// The sequence of handles a bounded breadth-first traversal dequeues, from
/// the given state on: the head entry is emitted while its distance is
/// within the bound; the first dequeued entry beyond the bound stops the
/// whole traversal.
pub open spec fn bfs_collect(
    edges: Seq<(int, int)>,
    queue: Seq<(int, int)>,
    vis: Set<int>,
    max: int,
    n: int,
) -> Seq<int>
    decreases n - vis.len(), queue.len()
        when bfs_state_ok(queue, vis, n) && edges_within(edges, n) && vis.len() <= n
        via bfs_collect_dec
{
    if queue.len() == 0 {
        Seq::empty()
    } else if queue[0].1 > max {
        Seq::empty()
    } else {
        let next = bfs_expand(edges, queue, vis);
        seq![queue[0].0] + bfs_collect(edges, next.0, next.1, max, n)
    }
}

#[via_fn]
proof fn bfs_collect_dec(
    edges: Seq<(int, int)>,
    queue: Seq<(int, int)>,
    vis: Set<int>,
    max: int,
    n: int,
) {
    if queue.len() > 0 && queue[0].1 <= max {
        lemma_bfs_expand_ok(edges, queue, vis, n);
    }
}

/// The distance at which `end` is dequeued, from the given state on; 0 when
/// the queue empties first or a dequeued entry has already reached the hop
/// bound.
pub open spec fn bfs_distance(
    edges: Seq<(int, int)>,
    queue: Seq<(int, int)>,
    vis: Set<int>,
    end: int,
    max: int,
    n: int,
) -> int
    decreases n - vis.len(), queue.len()
        when bfs_state_ok(queue, vis, n) && edges_within(edges, n) && vis.len() <= n
        via bfs_distance_dec
{
    if queue.len() == 0 {
        0
    } else if queue[0].0 == end {
        queue[0].1
    } else if queue[0].1 >= max {
        0
    } else {
        let next = bfs_expand(edges, queue, vis);
        bfs_distance(edges, next.0, next.1, end, max, n)
    }
}

#[via_fn]
proof fn bfs_distance_dec(
    edges: Seq<(int, int)>,
    queue: Seq<(int, int)>,
    vis: Set<int>,
    end: int,
    max: int,
    n: int,
) {
    if queue.len() > 0 && queue[0].0 != end && queue[0].1 < max {
        lemma_bfs_expand_ok(edges, queue, vis, n);
    }
}

/// The starting state of a traversal from `start`.
pub open spec fn start_queue(start: int) -> Seq<(int, int)> {
    seq![(start, 0)]
}

/// All handles a bounded breadth-first traversal from `start` reports, in
/// dequeue order.
pub open spec fn spec_reachable(edges: Seq<(int, int)>, start: int, max: int, n: int) -> Seq<int> {
    bfs_collect(edges, start_queue(start), set![start], max, n)
}

/// The distance the bounded search from `start` reports for `end`.
pub open spec fn spec_distance(edges: Seq<(int, int)>, start: int, end: int, max: int, n: int) -> int {
    bfs_distance(edges, start_queue(start), set![start], end, max, n)
}

pub proof fn lemma_start_state_ok(start: int, n: int)
    requires
        0 <= start < n,
    ensures
        bfs_state_ok(start_queue(start), set![start], n),
        set![start].len() == 1,
    {
    assert(set![start].contains(start));
    assert(start_queue(start)[0].0 == start);
}

/// With no hops allowed, a traversal reports exactly its start node: the
/// start is dequeued at distance 0, and every later entry is beyond the
/// bound.
pub proof fn lemma_reachable_zero(edges: Seq<(int, int)>, start: int, n: int)
    requires
        0 <= start < n,
        edges_within(edges, n),
    ensures
        spec_reachable(edges, start, 0, n) == seq![start],
{
    lemma_start_state_ok(start, n);
    let q = start_queue(start);
    let vis = set![start];
    lemma_bfs_expand_ok(edges, q, vis, n);
    let next = bfs_expand(edges, q, vis);
    let fr = fresh_push(rev_out_neighbors(edges, start), vis);
    assert(spec_reachable(edges, start, 0, n) == seq![start] + bfs_collect(
        edges,
        next.0,
        next.1,
        0,
        n,
    ));
    if next.0.len() == 0 {
        assert(bfs_collect(edges, next.0, next.1, 0, n) == Seq::<int>::empty());
    } else {
        assert(next.0[0] == fr.map_values(|m: int| (m, 0int + 1))[0]);
        assert(next.0[0].1 == 1);
        assert(bfs_collect(edges, next.0, next.1, 0, n) == Seq::<int>::empty());
    }
    assert(seq![start] + Seq::<int>::empty() =~= seq![start]);
}

/// A traversal's report always begins with its start node, whatever the
/// bound.
pub proof fn lemma_reachable_starts_at_start(edges: Seq<(int, int)>, start: int, max: int, n: int)
    requires
        0 <= start < n,
        edges_within(edges, n),
        max >= 0,
    ensures
        spec_reachable(edges, start, max, n).len() >= 1,
        spec_reachable(edges, start, max, n)[0] == start,
{
    lemma_start_state_ok(start, n);
    let q = start_queue(start);
    let vis = set![start];
    let next = bfs_expand(edges, q, vis);
    assert(q.len() == 1 && q[0].0 == start && q[0].1 == 0);
    assert(bfs_state_ok(q, vis, n));
    assert(vis.len() <= n);
    lemma_bfs_expand_ok(edges, q, vis, n);
    assert(spec_reachable(edges, start, max, n) == seq![start] + bfs_collect(
        edges,
        next.0,
        next.1,
        max,
        n,
    ));
}

/// Raising the hop bound only extends the traversal's report: the two
/// traversals walk the same states, and the lower bound merely stops first.
pub proof fn lemma_collect_prefix(
    edges: Seq<(int, int)>,
    queue: Seq<(int, int)>,
    vis: Set<int>,
    m1: int,
    m2: int,
    n: int,
)
    requires
        bfs_state_ok(queue, vis, n),
        edges_within(edges, n),
        vis.len() <= n,
        m1 <= m2,
    ensures
        bfs_collect(edges, queue, vis, m1, n).is_prefix_of(bfs_collect(edges, queue, vis, m2, n)),
    decreases n - vis.len(), queue.len(),
{
    let c1 = bfs_collect(edges, queue, vis, m1, n);
    let c2 = bfs_collect(edges, queue, vis, m2, n);
    if queue.len() == 0 || queue[0].1 > m2 {
        assert(c1 == Seq::<int>::empty());
        assert(c1 =~= c2.subrange(0, 0));
    } else if queue[0].1 > m1 {
        assert(c1 == Seq::<int>::empty());
        assert(c1 =~= c2.subrange(0, 0));
    } else {
        lemma_bfs_expand_ok(edges, queue, vis, n);
        let next = bfs_expand(edges, queue, vis);
        lemma_collect_prefix(edges, next.0, next.1, m1, m2, n);
        let r1 = bfs_collect(edges, next.0, next.1, m1, n);
        let r2 = bfs_collect(edges, next.0, next.1, m2, n);
        assert(c1 == seq![queue[0].0] + r1);
        assert(c2 == seq![queue[0].0] + r2);
        assert(r1 == r2.subrange(0, r1.len() as int));
        assert(c2.subrange(0, c1.len() as int) =~= seq![queue[0].0] + r2.subrange(
            0,
            r1.len() as int,
        ));
        assert(c1 =~= c2.subrange(0, c1.len() as int));
    }
}

/// The traversal's report never shrinks as the hop bound grows: the report
/// under the lower bound is a prefix of the report under the higher one.
pub proof fn lemma_reachable_monotone(edges: Seq<(int, int)>, start: int, m1: int, m2: int, n: int)
    requires
        0 <= start < n,
        edges_within(edges, n),
        m1 <= m2,
    ensures
        spec_reachable(edges, start, m1, n).is_prefix_of(spec_reachable(edges, start, m2, n)),
        spec_reachable(edges, start, m1, n).len() <= spec_reachable(edges, start, m2, n).len(),
{
    lemma_start_state_ok(start, n);
    lemma_collect_prefix(edges, start_queue(start), set![start], m1, m2, n);
}

proof fn lemma_rev_out_empty(edges: Seq<(int, int)>, a: int)
    requires
        forall|k: int| 0 <= k < edges.len() ==> (#[trigger] edges[k]).0 != a,
    ensures
        rev_out_neighbors(edges, a) == Seq::<int>::empty(),
    decreases edges.len(),
{
    if edges.len() > 0 {
        let pre = edges.drop_last();
        assert(forall|k: int| 0 <= k < pre.len() ==> (#[trigger] pre[k]).0 != a);
        lemma_rev_out_empty(pre, a);
        assert(edges[edges.len() - 1] == edges.last());
    }
}

/// A start node with no outgoing edges is reported alone, for every hop
/// bound.
pub proof fn lemma_reachable_no_out_edges(edges: Seq<(int, int)>, start: int, max: int, n: int)
    requires
        0 <= start < n,
        edges_within(edges, n),
        max >= 0,
        forall|k: int| 0 <= k < edges.len() ==> (#[trigger] edges[k]).0 != start,
    ensures
        spec_reachable(edges, start, max, n) == seq![start],
{
    lemma_start_state_ok(start, n);
    lemma_rev_out_empty(edges, start);
    let q = start_queue(start);
    let vis = set![start];
    lemma_bfs_expand_ok(edges, q, vis, n);
    let next = bfs_expand(edges, q, vis);
    assert(fresh_push(rev_out_neighbors(edges, start), vis) == Seq::<int>::empty());
    assert(next.0.len() == 0);
    assert(spec_reachable(edges, start, max, n) == seq![start] + bfs_collect(
        edges,
        next.0,
        next.1,
        max,
        n,
    ));
    assert(bfs_collect(edges, next.0, next.1, max, n) == Seq::<int>::empty());
    assert(seq![start] + Seq::<int>::empty() =~= seq![start]);
}

/// Searching for the start itself reports distance 0 under any positive
/// bound: the start is dequeued first and compared against the target
/// before the bound test. The 0 is therefore the same value the search
/// reports for an unreachable target.
pub proof fn lemma_distance_to_self(edges: Seq<(int, int)>, a: int, max: int, n: int)
    requires
        0 <= a < n,
        edges_within(edges, n),
        max >= 1,
    ensures
        spec_distance(edges, a, a, max, n) == 0,
{
    lemma_start_state_ok(a, n);
    assert(start_queue(a)[0] == (a, 0int));
}

proof fn lemma_collect_in_range(
    edges: Seq<(int, int)>,
    queue: Seq<(int, int)>,
    vis: Set<int>,
    max: int,
    n: int,
)
    requires
        bfs_state_ok(queue, vis, n),
        edges_within(edges, n),
        vis.len() <= n,
    ensures
        forall|k: int|
            0 <= k < bfs_collect(edges, queue, vis, max, n).len() ==> 0 <= #[trigger] bfs_collect(
                edges,
                queue,
                vis,
                max,
                n,
            )[k] < n,
    decreases n - vis.len(), queue.len(),
{
    let c = bfs_collect(edges, queue, vis, max, n);
    if queue.len() == 0 || queue[0].1 > max {
    } else {
        lemma_bfs_expand_ok(edges, queue, vis, n);
        let next = bfs_expand(edges, queue, vis);
        lemma_collect_in_range(edges, next.0, next.1, max, n);
        let r = bfs_collect(edges, next.0, next.1, max, n);
        assert(c == seq![queue[0].0] + r);
        assert(vis.contains(queue[0].0));
        assert forall|k: int| 0 <= k < c.len() implies 0 <= #[trigger] c[k] < n by {
            if k > 0 {
                assert(c[k] == r[k - 1]);
            }
        }
    }
}

/// Every handle a traversal reports is a valid node index.
pub proof fn lemma_reachable_in_range(edges: Seq<(int, int)>, start: int, max: int, n: int)
    requires
        0 <= start < n,
        edges_within(edges, n),
    ensures
        forall|k: int|
            0 <= k < spec_reachable(edges, start, max, n).len() ==> 0
                <= #[trigger] spec_reachable(edges, start, max, n)[k] < n,
{
    lemma_start_state_ok(start, n);
    lemma_collect_in_range(edges, start_queue(start), set![start], max, n);
}

/// A visited marker of `n` slots, all clear.
pub(crate) fn clear_marks(n: usize) -> (v: Vec<bool>)
    ensures
        v@.len() == n,
        forall|i: int| 0 <= i < n ==> !(#[trigger] v@[i]),
        marked(v@) =~= Set::<int>::empty(),
{
    let mut v: Vec<bool> = Vec::new();
    let mut i: usize = 0;
    while i < n
        invariant
            i <= n,
            v@.len() == i,
            forall|k: int| 0 <= k < i ==> !(#[trigger] v@[k]),
        decreases n - i,
    {
        v.push(false);
        i += 1;
    }
    v
}

impl PlayerGraph {
    /// Marks the unvisited outgoing neighbours of `node` and appends them to
    /// the queue at distance `d + 1`, in the order petgraph reports them.
    fn expand_node(
        &self,
        node: usize,
        d: usize,
        queue: &mut Vec<(usize, usize)>,
        visited: &mut Vec<bool>,
    )
        requires
            self.wf(),
            old(visited)@.len() == self.n(),
            (node as int) < self.n(),
            marked(old(visited)@).len() <= self.n(),
            (d as int) < marked(old(visited)@).len(),
            d < usize::MAX,
        ensures
            final(visited)@.len() == old(visited)@.len(),
            marked(final(visited)@) == marked(old(visited)@).union(
                fresh_push(
                    rev_out_neighbors(self.edges(), node as int),
                    marked(old(visited)@),
                ).to_set(),
            ),
            entry_ints(final(queue)@) == entry_ints(old(queue)@) + fresh_push(
                rev_out_neighbors(self.edges(), node as int),
                marked(old(visited)@),
            ).map_values(|m: int| (m, d as int + 1)),
            old(queue)@.is_prefix_of(final(queue)@),
            forall|k: int|
                old(queue)@.len() <= k < final(queue)@.len()
                    ==> (#[trigger] final(queue)@[k]).1 == d + 1,
            marked(old(visited)@).subset_of(marked(final(visited)@)),
    {
        broadcast use vstd::seq_lib::group_seq_properties;

        let ghost v0 = marked(old(visited)@);
        let ghost ns = rev_out_neighbors(self.edges(), node as int);
        let ghost q0 = old(queue)@;
        let nbrs = pg_neighbors(&self.g, node);
        proof {
            assert(usize_ints(nbrs@) =~= ns);
            lemma_rev_out_range(self.edges(), node as int, self.n());
            lemma_marked_bound(old(visited)@);
        }
        let mut j: usize = 0;
        while j < nbrs.len()
            invariant
                self.wf(),
                j <= nbrs@.len(),
                usize_ints(nbrs@) == ns,
                forall|k: int| 0 <= k < ns.len() ==> 0 <= #[trigger] ns[k] < self.n(),
                visited@.len() == self.n(),
                (d as int) < v0.len(),
                d < usize::MAX,
                v0.len() <= self.n(),
                v0.finite(),
                marked(visited@) == v0.union(fresh_push(ns.take(j as int), v0).to_set()),
                entry_ints(queue@) == entry_ints(q0) + fresh_push(
                    ns.take(j as int),
                    v0,
                ).map_values(|m: int| (m, d as int + 1)),
                q0.is_prefix_of(queue@),
                forall|k: int|
                    q0.len() <= k < queue@.len() ==> (#[trigger] queue@[k]).1 == d + 1,
                v0.subset_of(marked(visited@)),
            decreases nbrs@.len() - j,
        {
            let ghost vpre = visited@;
            let ghost qpre = queue@;
            let ghost taken = ns.take(j as int);
            let ghost fr = fresh_push(taken, v0);
            let m = nbrs[j];
            proof {
                assert(usize_ints(nbrs@)[j as int] == m as int);
                assert(ns[j as int] == m as int);
                assert(ns.take(j as int + 1) =~= taken.push(ns[j as int]));
                lemma_fresh_push_snoc(taken, ns[j as int], v0);
                lemma_fresh_push_props(taken, v0);
                assert(v0.union(fr.to_set()) =~= v0.union(taken.to_set()));
                // the runtime test reads exactly membership in the current set
                assert(marked(vpre).contains(m as int) <==> (v0.contains(m as int)
                    || taken.contains(m as int))) by {
                    assert(marked(vpre).contains(m as int) <==> v0.union(taken.to_set()).contains(
                        m as int,
                    ));
                }
            }
            if !visited[m] {
                proof {
                    assert(!(v0.contains(m as int) || taken.contains(m as int)));
                    assert(fresh_push(ns.take(j as int + 1), v0) == fr.push(m as int));
                }
                queue.push((m, d + 1));
                let slot = &mut visited[m];
                *slot = true;
                proof {
                    assert(marked(visited@) =~= marked(vpre).insert(m as int));
                    fr.lemma_push_to_set_commute(m as int);
                    assert(fr.push(m as int).to_set() =~= fr.to_set().insert(m as int));
                    assert(marked(visited@) =~= v0.union(
                        fresh_push(ns.take(j as int + 1), v0).to_set(),
                    ));
                    assert(entry_ints(queue@) =~= entry_ints(qpre).push(
                        (m as int, d as int + 1),
                    ));
                    assert(fr.push(m as int).map_values(|x: int| (x, d as int + 1)) =~= fr
                        .map_values(|x: int| (x, d as int + 1)).push((m as int, d as int + 1)));
                    assert(entry_ints(queue@) =~= entry_ints(q0) + fresh_push(
                        ns.take(j as int + 1),
                        v0,
                    ).map_values(|x: int| (x, d as int + 1)));
                }
            } else {
                proof {
                    assert(v0.contains(m as int) || taken.contains(m as int));
                    assert(fresh_push(ns.take(j as int + 1), v0) == fr);
                }
            }
            j += 1;
        }
        proof {
            assert(ns.take(ns.len() as int) =~= ns);
        }
    }

    /// Bounded breadth-first traversal from `start`: the handles of every
    /// node dequeued while its hop distance stays within `max_hops`, in
    /// dequeue order. The first dequeued node beyond the bound stops the
    /// traversal, discarding whatever is still queued.
    pub fn collect_reachable(&self, start: usize, max_hops: usize) -> (r: Vec<usize>)
        requires
            self.wf(),
            (start as int) < self.n(),
        ensures
            usize_ints(r@) == spec_reachable(
                self.edges(),
                start as int,
                max_hops as int,
                self.n(),
            ),
    {
        let ghost edges = self.edges();
        let ghost nn = self.n();
        let ghost target = spec_reachable(edges, start as int, max_hops as int, nn);
        let n = self.names.len();
        let mut visited = clear_marks(n);
        let mut queue: Vec<(usize, usize)> = Vec::new();
        queue.push((start, 0));
        let slot = &mut visited[start];
        *slot = true;
        let mut head: usize = 0;
        let mut result: Vec<usize> = Vec::new();
        proof {
            lemma_start_state_ok(start as int, nn);
            assert(marked(visited@) =~= set![start as int]);
            assert(entry_ints(queue@.skip(0)) =~= start_queue(start as int));
            assert(usize_ints(result@) =~= Seq::<int>::empty());
        }
        loop
            invariant_except_break
                self.wf(),
                n == self.n(),
                nn == self.n(),
                edges == self.edges(),
                head <= queue@.len(),
                visited@.len() == n,
                bfs_state_ok(entry_ints(queue@.skip(head as int)), marked(visited@), nn),
                marked(visited@).finite(),
                marked(visited@).len() <= nn,
                forall|k: int|
                    head <= k < queue@.len() ==> (#[trigger] queue@[k]).1 < marked(visited@).len(),
                target == usize_ints(result@) + bfs_collect(
                    edges,
                    entry_ints(queue@.skip(head as int)),
                    marked(visited@),
                    max_hops as int,
                    nn,
                ),
            ensures
                usize_ints(result@) == target,
            decreases nn - marked(visited@).len(), queue@.len() - head,
        {
            let ghost suffix = entry_ints(queue@.skip(head as int));
            let ghost vis = marked(visited@);
            if head >= queue.len() {
                proof {
                    assert(suffix =~= Seq::<(int, int)>::empty());
                }
                break;
            }
            let entry = queue[head];
            let node = entry.0;
            let d = entry.1;
            proof {
                assert(queue@.skip(head as int)[0] == queue@[head as int]);
                assert(suffix[0] == (node as int, d as int));
            }
            if d > max_hops {
                proof {
                    assert(bfs_collect(edges, suffix, vis, max_hops as int, nn)
                        =~= Seq::<int>::empty());
                }
                break;
            }
            let ghost rpre = result@;
            result.push(node);
            head += 1;
            proof {
                assert(vis.contains(node as int));
                assert((node as int) < nn);
                assert((d as int) < vis.len());
                lemma_bfs_expand_ok(edges, suffix, vis, nn);
            }
            let ghost qpre = queue@;
            self.expand_node(node, d, &mut queue, &mut visited);
            proof {
                let ghost ns = rev_out_neighbors(edges, node as int);
                let ghost fr = fresh_push(ns, vis);
                let ghost next = bfs_expand(edges, suffix, vis);
                // the new queue suffix is exactly the expanded spec queue
                assert(entry_ints(queue@.skip(head as int)) =~= entry_ints(queue@).skip(
                    head as int,
                ));
                assert(entry_ints(qpre).skip(head as int) =~= suffix.drop_first());
                assert(entry_ints(queue@).skip(head as int) =~= entry_ints(qpre).skip(head as int)
                    + fr.map_values(|m: int| (m, d as int + 1)));
                assert(fr.map_values(|m: int| (m, d as int + 1)) =~= fr.map_values(
                    |m: int| (m, suffix[0].1 + 1),
                ));
                assert(entry_ints(queue@.skip(head as int)) =~= next.0);
                assert(marked(visited@) == next.1);
                // one unfolding of the collect recursion
                assert(bfs_collect(edges, suffix, vis, max_hops as int, nn) == seq![
                    node as int,
                ] + bfs_collect(edges, next.0, next.1, max_hops as int, nn));
                assert(usize_ints(result@) =~= usize_ints(rpre).push(node as int));
                assert(usize_ints(rpre).push(node as int) + bfs_collect(
                    edges,
                    next.0,
                    next.1,
                    max_hops as int,
                    nn,
                ) =~= usize_ints(rpre) + (seq![node as int] + bfs_collect(
                    edges,
                    next.0,
                    next.1,
                    max_hops as int,
                    nn,
                )));
                // the queued-distance bound survives the expansion
                assert forall|k: int|
                    head <= k < queue@.len() implies (#[trigger] queue@[k]).1 < marked(
                    visited@,
                ).len() by {
                    lemma_len_subset(vis, marked(visited@));
                    if k < qpre.len() {
                        assert(queue@[k] == qpre[k]);
                    } else {
                        assert(queue@[k].1 == d + 1);
                        assert(fr.len() > 0) by {
                            assert(queue@.len() == qpre.len() + fr.map_values(
                                |m: int| (m, d as int + 1),
                            ).len());
                        }
                    }
                }
            }
        }
        proof {
            assert(usize_ints(result@) == target);
        }
        result
    }

    /// Bounded breadth-first search from `start` for `end`: the hop distance
    /// at which `end` is dequeued, checked before the bound; 0 when the
    /// queue empties, or a dequeued node has already reached `max_hops`,
    /// before `end` is found. The 0 is deliberately ambiguous: it is also
    /// the legitimate answer when `start == end`, since the target test
    /// runs before the bound test.
    pub fn distance_to(&self, start: usize, end: usize, max_hops: usize) -> (dist: usize)
        requires
            self.wf(),
            (start as int) < self.n(),
        ensures
            dist as int == spec_distance(
                self.edges(),
                start as int,
                end as int,
                max_hops as int,
                self.n(),
            ),
    {
        let ghost edges = self.edges();
        let ghost nn = self.n();
        let ghost target = spec_distance(edges, start as int, end as int, max_hops as int, nn);
        let n = self.names.len();
        let mut visited = clear_marks(n);
        let mut queue: Vec<(usize, usize)> = Vec::new();
        queue.push((start, 0));
        let slot = &mut visited[start];
        *slot = true;
        let mut head: usize = 0;
        proof {
            lemma_start_state_ok(start as int, nn);
            assert(marked(visited@) =~= set![start as int]);
            assert(entry_ints(queue@.skip(0)) =~= start_queue(start as int));
        }
        loop
            invariant_except_break
                self.wf(),
                n == self.n(),
                nn == self.n(),
                edges == self.edges(),
                head <= queue@.len(),
                visited@.len() == n,
                bfs_state_ok(entry_ints(queue@.skip(head as int)), marked(visited@), nn),
                marked(visited@).finite(),
                marked(visited@).len() <= nn,
                forall|k: int|
                    head <= k < queue@.len() ==> (#[trigger] queue@[k]).1 < marked(visited@).len(),
                target == spec_distance(edges, start as int, end as int, max_hops as int, nn),
                target == bfs_distance(
                    edges,
                    entry_ints(queue@.skip(head as int)),
                    marked(visited@),
                    end as int,
                    max_hops as int,
                    nn,
                ),
            ensures
                target == 0,
            decreases nn - marked(visited@).len(), queue@.len() - head,
        {
            let ghost suffix = entry_ints(queue@.skip(head as int));
            let ghost vis = marked(visited@);
            if head >= queue.len() {
                proof {
                    assert(suffix =~= Seq::<(int, int)>::empty());
                }
                break;
            }
            let entry = queue[head];
            let node = entry.0;
            let d = entry.1;
            proof {
                assert(queue@.skip(head as int)[0] == queue@[head as int]);
                assert(suffix[0] == (node as int, d as int));
            }
            if node == end {
                proof {
                    assert(bfs_distance(edges, suffix, vis, end as int, max_hops as int, nn)
                        == d as int);
                }
                return d;
            }
            if d >= max_hops {
                proof {
                    assert(bfs_distance(edges, suffix, vis, end as int, max_hops as int, nn)
                        == 0);
                }
                return 0;
            }
            head += 1;
            proof {
                assert(vis.contains(node as int));
                assert((node as int) < nn);
                assert((d as int) < vis.len());
                lemma_bfs_expand_ok(edges, suffix, vis, nn);
            }
            let ghost qpre = queue@;
            self.expand_node(node, d, &mut queue, &mut visited);
            proof {
                let ghost ns = rev_out_neighbors(edges, node as int);
                let ghost fr = fresh_push(ns, vis);
                let ghost next = bfs_expand(edges, suffix, vis);
                assert(entry_ints(queue@.skip(head as int)) =~= entry_ints(queue@).skip(
                    head as int,
                ));
                assert(entry_ints(qpre).skip(head as int) =~= suffix.drop_first());
                assert(entry_ints(queue@).skip(head as int) =~= entry_ints(qpre).skip(head as int)
                    + fr.map_values(|m: int| (m, d as int + 1)));
                assert(fr.map_values(|m: int| (m, d as int + 1)) =~= fr.map_values(
                    |m: int| (m, suffix[0].1 + 1),
                ));
                assert(entry_ints(queue@.skip(head as int)) =~= next.0);
                assert(marked(visited@) == next.1);
                assert(bfs_distance(edges, suffix, vis, end as int, max_hops as int, nn)
                    == bfs_distance(edges, next.0, next.1, end as int, max_hops as int, nn));
                assert forall|k: int|
                    head <= k < queue@.len() implies (#[trigger] queue@[k]).1 < marked(
                    visited@,
                ).len() by {
                    lemma_len_subset(vis, marked(visited@));
                    if k < qpre.len() {
                        assert(queue@[k] == qpre[k]);
                    } else {
                        assert(queue@[k].1 == d + 1);
                        assert(fr.len() > 0) by {
                            assert(queue@.len() == qpre.len() + fr.map_values(
                                |m: int| (m, d as int + 1),
                            ).len());
                        }
                    }
                }
            }
        }
        0
    }
}

} // verus!
