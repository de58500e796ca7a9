use vstd::prelude::*;
use crate::player::Player;
use crate::player::Record;
use crate::player::close_seasons;
use crate::player::close_seasons_check;

verus! {

// ---------------------------------------------------------------------------
// Trusted view of petgraph's directed graph.
//
// The connection graph itself is stored in a `petgraph::graph::DiGraph`. Verus
// sees that type as opaque, so its contents are named by two spec functions,
// and every method the library calls goes through a small trusted wrapper
// whose contract states what petgraph's source shows.
// ---------------------------------------------------------------------------

#[verifier::external_type_specification]
#[verifier::external_body]
#[verifier::reject_recursive_types(N)]
#[verifier::reject_recursive_types(E)]
#[verifier::reject_recursive_types(Ty)]
#[verifier::reject_recursive_types(Ix)]
pub struct ExGraph<N, E, Ty, Ix>(petgraph::graph::Graph<N, E, Ty, Ix>);

#[verifier::external_type_specification]
#[verifier::external_body]
pub struct ExDirected(petgraph::Directed);

/// The number of nodes the graph holds.
pub uninterp spec fn graph_nodes(g: petgraph::graph::DiGraph<Player, ()>) -> int;

/// The graph's edges as (source index, target index) pairs, in the order the
/// edges were added. Parallel edges appear once per addition.
pub uninterp spec fn graph_edges(g: petgraph::graph::DiGraph<Player, ()>) -> Seq<(int, int)>;

/// The targets of the edges that leave `a`, most recently added edge first.
pub open spec fn rev_out_neighbors(edges: Seq<(int, int)>, a: int) -> Seq<int>
    decreases edges.len(),
{
    if edges.len() == 0 {
        Seq::empty()
    } else {
        let rest = rev_out_neighbors(edges.drop_last(), a);
        if edges.last().0 == a {
            seq![edges.last().1] + rest
        } else {
            rest
        }
    }
}

/// Relies on petgraph's `Graph::new`: a freshly created graph has no nodes
/// and no edges.
#[verifier::external_body]
fn pg_new() -> (g: petgraph::graph::DiGraph<Player, ()>)
    ensures
        graph_nodes(g) == 0,
        graph_edges(g) == Seq::<(int, int)>::empty(),
{
    petgraph::graph::DiGraph::new()
}

/// Relies on petgraph's `Graph::add_node`: it appends one node and returns
/// its index, which equals the node count before the call. It panics only at
/// the index type's limit, which the precondition rules out.
#[verifier::external_body]
fn pg_add_node(g: &mut petgraph::graph::DiGraph<Player, ()>, p: Player) -> (ix: usize)
    requires
        graph_nodes(*old(g)) < 0xFFFF_FFFF,
    ensures
        graph_nodes(*final(g)) == graph_nodes(*old(g)) + 1,
        graph_edges(*final(g)) == graph_edges(*old(g)),
        ix == graph_nodes(*old(g)),
{
    g.add_node(p).index()
}

/// Relies on petgraph's `Graph::add_edge`: it appends one directed edge from
/// `a` to `b`, leaving the nodes unchanged; parallel edges are kept. It
/// panics only on a missing endpoint or at the index type's limit, which the
/// preconditions rule out.
#[verifier::external_body]
fn pg_add_edge(g: &mut petgraph::graph::DiGraph<Player, ()>, a: usize, b: usize)
    requires
        a < graph_nodes(*old(g)),
        b < graph_nodes(*old(g)),
        graph_edges(*old(g)).len() < 0xFFFF_FFFF,
    ensures
        graph_nodes(*final(g)) == graph_nodes(*old(g)),
        graph_edges(*final(g)) == graph_edges(*old(g)).push((a as int, b as int)),
{
    g.add_edge(
        petgraph::graph::NodeIndex::new(a),
        petgraph::graph::NodeIndex::new(b),
        (),
    );
}

/// Relies on petgraph's `Graph::neighbors`: for a directed graph it yields
/// the targets of `a`'s outgoing edges, most recently added edge first, and
/// yields nothing for an index with no outgoing edges.
#[verifier::external_body]
pub(crate) fn pg_neighbors(g: &petgraph::graph::DiGraph<Player, ()>, a: usize) -> (v: Vec<usize>)
    ensures
        v@.map_values(|x: usize| x as int) == rev_out_neighbors(graph_edges(*g), a as int),
{
    let mut v = Vec::new();
    for nb in g.neighbors(petgraph::graph::NodeIndex::new(a)) {
        v.push(nb.index());
    }
    v
}

/// Relies on petgraph's `Graph::edge_count`: the number of edges the graph
/// holds.
#[verifier::external_body]
fn pg_edge_count(g: &petgraph::graph::DiGraph<Player, ()>) -> (n: usize)
    ensures
        n == graph_edges(*g).len(),
{
    g.edge_count()
}

// ---------------------------------------------------------------------------
// The player graph: a registry of names over the node set, plus the directed
// connection edges.
// ---------------------------------------------------------------------------

/// Every edge endpoint is a valid node index.
pub open spec fn edges_within(edges: Seq<(int, int)>, n: int) -> bool {
    forall|k: int|
        0 <= k < edges.len() ==> {
            let e = #[trigger] edges[k];
            0 <= e.0 < n && 0 <= e.1 < n
        }
}

/// The connection graph together with its player registry. Node handles are
/// the indices `0 .. n`; handle `h` belongs to the player whose name sits at
/// position `h` of the registry.
pub struct PlayerGraph {
    pub g: petgraph::graph::DiGraph<Player, ()>,
    pub names: Vec<String>,
}

impl PlayerGraph {
    /// The registered names, in handle order.
    pub open spec fn name_seq(self) -> Seq<Seq<char>> {
        self.names@.map_values(|s: String| s@)
    }

    /// The number of nodes.
    pub open spec fn n(self) -> int {
        self.name_seq().len() as int
    }

    /// The edges, in the order they were added.
    pub open spec fn edges(self) -> Seq<(int, int)> {
        graph_edges(self.g)
    }

    pub open spec fn has_name(self, nm: Seq<char>) -> bool {
        self.name_seq().contains(nm)
    }

    /// Well-formedness: the registry indexes exactly the graph's nodes, no
    /// name is registered twice, and every edge endpoint is a valid handle.
    pub open spec fn wf(self) -> bool {
        &&& self.names@.len() == graph_nodes(self.g)
        &&& (forall|i: int, j: int|
            0 <= i < j < self.name_seq().len() ==> self.name_seq()[i] != self.name_seq()[j])
        &&& edges_within(self.edges(), self.n())
    }

    pub fn new() -> (r: PlayerGraph)
        ensures
            r.wf(),
            r.name_seq() == Seq::<Seq<char>>::empty(),
            r.edges() == Seq::<(int, int)>::empty(),
    {
        let r = PlayerGraph { g: pg_new(), names: Vec::new() };
        proof {
            assert(r.name_seq() =~= Seq::<Seq<char>>::empty());
        }
        r
    }

    /// Returns the handle of `name`, registering the name and creating its
    /// graph node on first sight. Registered names keep their handles for
    /// the life of the graph.
    pub fn get_or_create(&mut self, name: &String) -> (h: usize)
        requires
            old(self).wf(),
            old(self).n() < 0xFFFF_FFFF,
        ensures
            final(self).wf(),
            final(self).edges() == old(self).edges(),
            old(self).has_name(name@) ==> final(self).name_seq() == old(self).name_seq(),
            !old(self).has_name(name@) ==> final(self).name_seq() == old(self).name_seq().push(
                name@,
            ),
            h < final(self).n(),
            final(self).name_seq()[h as int] == name@,
    {
        let mut i: usize = 0;
        while i < self.names.len()
            invariant
                self.wf(),
                i <= self.names@.len(),
                forall|j: int| 0 <= j < i ==> self.name_seq()[j] != name@,
            decreases self.names@.len() - i,
        {
            if self.names[i] == *name {
                proof {
                    assert(self.name_seq()[i as int] == name@);
                    assert(self.has_name(name@));
                }
                return i;
            }
            i += 1;
        }
        proof {
            assert(!self.has_name(name@)) by {
                if self.name_seq().contains(name@) {
                    let j = choose|j: int|
                        0 <= j < self.name_seq().len() && self.name_seq()[j] == name@;
                    assert(self.name_seq()[j] != name@);
                }
            }
        }
        let h = pg_add_node(&mut self.g, Player::new(name.clone()));
        self.names.push(name.clone());
        proof {
            assert(self.name_seq() =~= old(self).name_seq().push(name@));
        }
        h
    }

    /// Looks a name up without registering it: `Some(h)` exactly when the
    /// name is registered, with `h` its handle.
    pub fn lookup(&self, name: &String) -> (r: Option<usize>)
        requires
            self.wf(),
        ensures
            r is Some <==> self.has_name(name@),
            match r {
                Some(h) => h < self.n() && self.name_seq()[h as int] == name@,
                None => !self.has_name(name@),
            },
    {
        let mut i: usize = 0;
        while i < self.names.len()
            invariant
                self.wf(),
                i <= self.names@.len(),
                forall|j: int| 0 <= j < i ==> self.name_seq()[j] != name@,
            decreases self.names@.len() - i,
        {
            if self.names[i] == *name {
                proof {
                    assert(self.name_seq()[i as int] == name@);
                    assert(self.has_name(name@));
                }
                return Some(i);
            }
            i += 1;
        }
        proof {
            if self.name_seq().contains(name@) {
                let j = choose|j: int|
                    0 <= j < self.name_seq().len() && self.name_seq()[j] == name@;
                assert(self.name_seq()[j] != name@);
            }
        }
        None
    }

    /// Adds one directed connection edge from handle `a` to handle `b`.
    /// Parallel edges and self-loops are kept, as the graph's invariant
    /// documents.
    pub fn add_connection(&mut self, a: usize, b: usize)
        requires
            old(self).wf(),
            a < old(self).n(),
            b < old(self).n(),
            old(self).edges().len() < 0xFFFF_FFFF,
        ensures
            final(self).wf(),
            final(self).name_seq() == old(self).name_seq(),
            final(self).edges() == old(self).edges().push((a as int, b as int)),
    {
        pg_add_edge(&mut self.g, a, b);
    }

    pub fn node_count(&self) -> (n: usize)
        ensures
            n == self.n(),
    {
        self.names.len()
    }

    pub fn edge_count(&self) -> (n: usize)
        ensures
            n == self.edges().len(),
    {
        pg_edge_count(&self.g)
    }
}

/// The position of the first occurrence of `nm` in `names`; `names.len()`
/// when `nm` does not occur.
pub open spec fn first_index(names: Seq<Seq<char>>, nm: Seq<char>) -> int
    decreases names.len(),
{
    if names.len() == 0 {
        0
    } else if names[0] == nm {
        0
    } else {
        1 + first_index(names.drop_first(), nm)
    }
}

/// When `names` has no repeated entry, the handle of a registered name is
/// the one position it occupies: two handles that carry the same name are
/// equal. This is the registry's one-handle-per-name guarantee.
pub proof fn lemma_one_handle_per_name(g: PlayerGraph, h1: int, h2: int)
    requires
        g.wf(),
        0 <= h1 < g.n(),
        0 <= h2 < g.n(),
        g.name_seq()[h1] == g.name_seq()[h2],
    ensures
        h1 == h2,
{
}

// ---------------------------------------------------------------------------
// Building the graph from an ordered record sequence.
// ---------------------------------------------------------------------------

/// The names a pass over `rs` registers: each distinct name once, in order of
/// first appearance.
pub open spec fn registry_names(rs: Seq<Record>) -> Seq<Seq<char>>
    decreases rs.len(),
{
    if rs.len() == 0 {
        Seq::empty()
    } else {
        let prefix = registry_names(rs.drop_last());
        let nm = rs.last().name@;
        if prefix.contains(nm) {
            prefix
        } else {
            prefix.push(nm)
        }
    }
}

/// The edges an edge pass over `rs` adds, resolving names through `names`:
/// one edge per adjacent pair with close seasons, in pair order.
pub open spec fn record_edges_with(rs: Seq<Record>, names: Seq<Seq<char>>) -> Seq<(int, int)>
    decreases rs.len(),
{
    if rs.len() <= 1 {
        Seq::empty()
    } else {
        let rest = record_edges_with(rs.drop_last(), names);
        if close_seasons(rs[rs.len() - 2], rs[rs.len() - 1]) {
            rest.push(
                (
                    first_index(names, rs[rs.len() - 2].name@),
                    first_index(names, rs[rs.len() - 1].name@),
                ),
            )
        } else {
            rest
        }
    }
}

/// The edges the builder adds for `rs`, with names resolved through the
/// registry that the node pass over `rs` produces.
pub open spec fn record_edges(rs: Seq<Record>) -> Seq<(int, int)> {
    record_edges_with(rs, registry_names(rs))
}

/// The registry never holds more names than there were records.
pub proof fn lemma_registry_len(rs: Seq<Record>)
    ensures
        registry_names(rs).len() <= rs.len(),
    decreases rs.len(),
{
    if rs.len() > 0 {
        lemma_registry_len(rs.drop_last());
    }
}

/// Every record's name ends up registered.
pub proof fn lemma_registry_contains(rs: Seq<Record>, i: int)
    requires
        0 <= i < rs.len(),
    ensures
        registry_names(rs).contains(rs[i].name@),
    decreases rs.len(),
{
    let prefix = registry_names(rs.drop_last());
    let nm = rs.last().name@;
    if i == rs.len() - 1 {
        if prefix.contains(nm) {
        } else {
            assert(registry_names(rs)[prefix.len() as int] == nm);
        }
    } else {
        assert(rs.drop_last()[i] == rs[i]);
        lemma_registry_contains(rs.drop_last(), i);
        let j = choose|j: int| 0 <= j < prefix.len() && prefix[j] == rs[i].name@;
        assert(registry_names(rs)[j] == rs[i].name@);
    }
}

/// An edge pass adds at most one edge per adjacent pair.
pub proof fn lemma_record_edges_len(rs: Seq<Record>, names: Seq<Seq<char>>)
    ensures
        record_edges_with(rs, names).len() <= rs.len(),
    decreases rs.len(),
{
    if rs.len() > 1 {
        lemma_record_edges_len(rs.drop_last(), names);
    }
}

impl PlayerGraph {
    /// Builds the connection graph for an ordered record sequence: a first
    /// pass registers every player, a second pass adds one directed edge per
    /// adjacent record pair whose seasons are close, earlier player to later
    /// player.
    pub fn build(records: &Vec<Record>) -> (g: PlayerGraph)
        requires
            records@.len() < 0xFFFF_FFFF,
        ensures
            g.wf(),
            g.name_seq() == registry_names(records@),
            g.edges() == record_edges(records@),
    {
        let mut g = PlayerGraph::new();
        let n_records = records.len();
        let mut i: usize = 0;
        while i < n_records
            invariant
                records@.len() < 0xFFFF_FFFF,
                n_records == records@.len(),
                i <= n_records,
                g.wf(),
                g.name_seq() == registry_names(records@.take(i as int)),
                g.edges() == Seq::<(int, int)>::empty(),
            decreases n_records - i,
        {
            proof {
                lemma_registry_len(records@.take(i as int));
                assert(records@.take(i as int).len() == i as int);
                assert(records@.take(i as int + 1).drop_last() =~= records@.take(i as int));
                assert(records@.take(i as int + 1).last() == records@[i as int]);
            }
            g.get_or_create(&records[i].name);
            i += 1;
        }
        proof {
            assert(records@.take(n_records as int) =~= records@);
        }
        if n_records == 0 {
            return g;
        }
        let mut i: usize = 1;
        while i < n_records
            invariant
                records@.len() < 0xFFFF_FFFF,
                n_records == records@.len(),
                1 <= i <= n_records,
                g.wf(),
                g.name_seq() == registry_names(records@),
                g.edges() == record_edges_with(records@.take(i as int), registry_names(records@)),
            decreases n_records - i,
        {
            proof {
                lemma_record_edges_len(
                    records@.take(i as int),
                    registry_names(records@),
                );
                assert(records@.take(i as int).len() == i as int);
                lemma_registry_contains(records@, i as int - 1);
                lemma_registry_contains(records@, i as int);
            }
            let ha = match g.lookup(&records[i - 1].name) {
                Some(h) => h,
                None => {
                    proof {
                        assert(false);
                    }
                    0
                },
            };
            let hb = match g.lookup(&records[i].name) {
                Some(h) => h,
                None => {
                    proof {
                        assert(false);
                    }
                    0
                },
            };
            proof {
                lemma_first_index_of(g.name_seq(), records@[i as int - 1].name@, ha as int);
                lemma_first_index_of(g.name_seq(), records@[i as int].name@, hb as int);
                assert(records@.take(i as int + 1).drop_last() =~= records@.take(i as int));
                assert(records@.take(i as int + 1).last() == records@[i as int]);
                assert(records@.take(i as int + 1)[i as int - 1] == records@[i as int - 1]);
            }
            if close_seasons_check(&records[i - 1], &records[i]) {
                g.add_connection(ha, hb);
            }
            i += 1;
        }
        proof {
            assert(records@.take(n_records as int) =~= records@);
        }
        g
    }
}

/// The number of adjacent record pairs whose seasons are close.
pub open spec fn close_pair_count(rs: Seq<Record>) -> int
    decreases rs.len(),
{
    if rs.len() <= 1 {
        0
    } else {
        close_pair_count(rs.drop_last()) + if close_seasons(rs[rs.len() - 2], rs[rs.len() - 1]) {
            1int
        } else {
            0int
        }
    }
}

/// The pair of handles an adjacent record pair resolves to through `names`.
pub open spec fn pair_handles(rs: Seq<Record>, names: Seq<Seq<char>>, i: int) -> (int, int) {
    (first_index(names, rs[i - 1].name@), first_index(names, rs[i].name@))
}

/// Holds when `e` is the handle pair of some adjacent record pair with close
/// seasons.
pub open spec fn edge_from_pair(rs: Seq<Record>, names: Seq<Seq<char>>, e: (int, int)) -> bool {
    exists|i: int|
        1 <= i < rs.len() && close_seasons(rs[i - 1], rs[i]) && e == #[trigger] pair_handles(
            rs,
            names,
            i,
        )
}

proof fn lemma_edges_with_match(rs: Seq<Record>, names: Seq<Seq<char>>)
    ensures
        record_edges_with(rs, names).len() == close_pair_count(rs),
        forall|i: int|
            1 <= i < rs.len() && close_seasons(rs[i - 1], rs[i]) ==> record_edges_with(
                rs,
                names,
            ).contains(#[trigger] pair_handles(rs, names, i)),
        forall|k: int|
            0 <= k < record_edges_with(rs, names).len() ==> edge_from_pair(
                rs,
                names,
                #[trigger] record_edges_with(rs, names)[k],
            ),
    decreases rs.len(),
{
    if rs.len() <= 1 {
    } else {
        let pre = rs.drop_last();
        let rest = record_edges_with(pre, names);
        let full = record_edges_with(rs, names);
        let last_i = rs.len() - 1;
        lemma_edges_with_match(pre, names);
        assert forall|i: int| 1 <= i < pre.len() implies #[trigger] pair_handles(pre, names, i)
            == pair_handles(rs, names, i) by {
            assert(pre[i] == rs[i]);
            assert(pre[i - 1] == rs[i - 1]);
        }
        // membership carries from the prefix to the full sequence
        assert forall|i: int| 1 <= i < rs.len() && close_seasons(rs[i - 1], rs[i]) implies
            full.contains(#[trigger] pair_handles(rs, names, i)) by {
            if i < last_i {
                assert(pre[i] == rs[i] && pre[i - 1] == rs[i - 1]);
                assert(rest.contains(pair_handles(pre, names, i)));
                let k = choose|k: int|
                    0 <= k < rest.len() && rest[k] == pair_handles(pre, names, i);
                assert(full[k] == pair_handles(rs, names, i));
            } else {
                assert(full[full.len() - 1] == pair_handles(rs, names, i));
            }
        }
        // every edge comes from some close adjacent pair
        assert forall|k: int| 0 <= k < full.len() implies edge_from_pair(
            rs,
            names,
            #[trigger] full[k],
        ) by {
            if k < rest.len() {
                assert(edge_from_pair(pre, names, rest[k]));
                let i = choose|i: int|
                    1 <= i < pre.len() && close_seasons(pre[i - 1], pre[i]) && rest[k]
                        == #[trigger] pair_handles(pre, names, i);
                assert(pre[i] == rs[i] && pre[i - 1] == rs[i - 1]);
                assert(full[k] == rest[k]);
                assert(full[k] == pair_handles(rs, names, i));
            } else {
                assert(close_seasons(rs[last_i - 1], rs[last_i]));
                assert(full[k] == pair_handles(rs, names, last_i));
            }
        }
    }
}

/// The builder's output, pair by pair: for every adjacent record pair with
/// close seasons there is an edge between the two players' handles; every
/// edge arises from such a pair; and the edge count equals the number of such
/// pairs, duplicates included.
pub proof fn lemma_edges_match_pairs(rs: Seq<Record>)
    ensures
        record_edges(rs).len() == close_pair_count(rs),
        forall|i: int|
            1 <= i < rs.len() && close_seasons(rs[i - 1], rs[i]) ==> record_edges(rs).contains(
                #[trigger] pair_handles(rs, registry_names(rs), i),
            ),
        forall|k: int|
            0 <= k < record_edges(rs).len() ==> edge_from_pair(
                rs,
                registry_names(rs),
                #[trigger] record_edges(rs)[k],
            ),
{
    lemma_edges_with_match(rs, registry_names(rs));
}

/// `first_index` finds exactly the position a distinct name occupies.
pub proof fn lemma_first_index_of(names: Seq<Seq<char>>, nm: Seq<char>, h: int)
    requires
        forall|i: int, j: int| 0 <= i < j < names.len() ==> names[i] != names[j],
        0 <= h < names.len(),
        names[h] == nm,
    ensures
        first_index(names, nm) == h,
    decreases names.len(),
{
    if names.len() > 0 {
        if names[0] == nm {
            assert(h == 0);
        } else {
            assert(h >= 1);
            let rest = names.drop_first();
            assert(rest[h - 1] == nm);
            assert(forall|i: int, j: int| 0 <= i < j < rest.len() ==> rest[i] != rest[j]);
            lemma_first_index_of(rest, nm, h - 1);
        }
    }
}

} // verus!
