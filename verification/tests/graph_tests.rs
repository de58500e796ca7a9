use era_graph::graph::PlayerGraph;
use era_graph::player::Record;

#[test]
fn test_count_connections_within_100_degrees() {
    let mut graph = PlayerGraph::new();
    let player_a = graph.get_or_create(&"Player A".to_string());
    let player_b = graph.get_or_create(&"Player B".to_string());
    let player_c = graph.get_or_create(&"Player C".to_string());

    graph.add_connection(player_a, player_b);
    graph.add_connection(player_b, player_c);

    let result = graph.distance_to(player_a, player_c, 100);
    assert_eq!(result, 2);
}

#[test]
fn registry_one_handle_per_name() {
    let mut graph = PlayerGraph::new();
    let a1 = graph.get_or_create(&"Alice".to_string());
    let b = graph.get_or_create(&"Bob".to_string());
    let a2 = graph.get_or_create(&"Alice".to_string());
    assert_eq!(a1, a2);
    assert_ne!(a1, b);
    assert_eq!(graph.node_count(), 2);
}

#[test]
fn lookup_finds_only_registered_names() {
    let mut graph = PlayerGraph::new();
    let a = graph.get_or_create(&"Alice".to_string());
    assert_eq!(graph.lookup(&"Alice".to_string()), Some(a));
    assert_eq!(graph.lookup(&"Bob".to_string()), None);
}

fn rec(season: i32, name: &str) -> Record {
    Record::new(season, name.to_string(), "Team".to_string())
}

#[test]
fn build_adds_edges_only_for_close_seasons() {
    // close pairs: (1950,1950) and (1980,1980); the gap 1950 -> 1980 adds none
    let records = vec![rec(1950, "A"), rec(1950, "B"), rec(1980, "C"), rec(1980, "D")];
    let graph = PlayerGraph::build(&records);
    assert_eq!(graph.node_count(), 4);
    assert_eq!(graph.edge_count(), 2);
}

#[test]
fn build_keeps_duplicate_edges() {
    // the same adjacent pair recurs, and an earlier season also counts
    let records = vec![rec(1950, "A"), rec(1950, "B"), rec(1949, "A"), rec(1950, "B")];
    let graph = PlayerGraph::build(&records);
    assert_eq!(graph.node_count(), 2);
    assert_eq!(graph.edge_count(), 3);
}

#[test]
fn collect_with_zero_hops_is_start_alone() {
    let records = vec![rec(2000, "A"), rec(2000, "B"), rec(2001, "C")];
    let graph = PlayerGraph::build(&records);
    let a = graph.lookup(&"A".to_string()).unwrap();
    assert_eq!(graph.collect_reachable(a, 0), vec![a]);
}

#[test]
fn collect_is_monotonic_in_hop_bound() {
    let records = vec![rec(2000, "A"), rec(2000, "B"), rec(2001, "C"), rec(2002, "D")];
    let graph = PlayerGraph::build(&records);
    let a = graph.lookup(&"A".to_string()).unwrap();
    let mut previous_len = 0;
    for hops in 0..6 {
        let reached = graph.collect_reachable(a, hops);
        assert!(reached.len() >= previous_len);
        assert_eq!(reached[0], a);
        previous_len = reached.len();
    }
}

#[test]
fn collect_from_sink_is_start_alone() {
    let records = vec![rec(2000, "A"), rec(2000, "B")];
    let graph = PlayerGraph::build(&records);
    let b = graph.lookup(&"B".to_string()).unwrap();
    for hops in 0..5 {
        assert_eq!(graph.collect_reachable(b, hops), vec![b]);
    }
}

#[test]
fn distance_to_self_is_zero() {
    let records = vec![rec(2000, "A"), rec(2000, "B")];
    let graph = PlayerGraph::build(&records);
    let a = graph.lookup(&"A".to_string()).unwrap();
    for hops in 1..5 {
        assert_eq!(graph.distance_to(a, a, hops), 0);
    }
}

#[test]
fn linear_chain_distances_and_stop_rule() {
    let mut graph = PlayerGraph::new();
    let a = graph.get_or_create(&"A".to_string());
    let b = graph.get_or_create(&"B".to_string());
    let c = graph.get_or_create(&"C".to_string());
    graph.add_connection(a, b);
    graph.add_connection(b, c);

    assert_eq!(graph.distance_to(a, c, 100), 2);
    // B at distance 1 is still within the bound; C is discovered but the
    // traversal stops before C is dequeued
    assert_eq!(graph.collect_reachable(a, 1), vec![a, b]);
}

#[test]
fn disconnected_eras_share_nothing() {
    // era-one chain A -> B, era-two chain C -> D, no cross edges
    let records = vec![rec(1950, "A"), rec(1950, "B"), rec(1980, "C"), rec(1980, "D")];
    let graph = PlayerGraph::build(&records);
    let cross = graph.cross_era_connectivity(&records, 1922, 1970, 1971, 2022);
    assert_eq!(cross, 0);
}

#[test]
fn linked_eras_share_the_reached_player() {
    // A's season sits in era one, B's in era two, and A -> B is an edge
    let records = vec![rec(1970, "A"), rec(1971, "B")];
    let graph = PlayerGraph::build(&records);
    assert_eq!(graph.edge_count(), 1);
    let cross = graph.cross_era_connectivity(&records, 1922, 1970, 1971, 2022);
    assert_eq!(cross, 1);
}

#[test]
fn single_record_reports_without_crash() {
    let records = vec![rec(1950, "Solo")];
    let graph = PlayerGraph::build(&records);
    let h = graph.lookup(&"Solo".to_string()).unwrap();
    assert_eq!(graph.collect_reachable(h, 100).len(), 1);
    assert_eq!(graph.cross_era_connectivity(&records, 1922, 1970, 1971, 2022), 0);
}

#[test]
fn branching_follows_latest_edge_first() {
    let mut graph = PlayerGraph::new();
    let a = graph.get_or_create(&"A".to_string());
    let b = graph.get_or_create(&"B".to_string());
    let c = graph.get_or_create(&"C".to_string());
    graph.add_connection(a, b);
    graph.add_connection(a, c);
    // the most recently added edge's target is discovered first
    assert_eq!(graph.collect_reachable(a, 1), vec![a, c, b]);
}

#[test]
fn self_loop_from_repeated_adjacent_name() {
    let records = vec![rec(2000, "A"), rec(2000, "A")];
    let graph = PlayerGraph::build(&records);
    assert_eq!(graph.node_count(), 1);
    assert_eq!(graph.edge_count(), 1);
    let a = graph.lookup(&"A".to_string()).unwrap();
    assert_eq!(graph.collect_reachable(a, 3), vec![a]);
}
