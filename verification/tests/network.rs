use agent_engine::network::{EdgeOptions, Network};

#[test]
fn network() {
    let mut network = Network::<u32>::new(false);
    let first_node: u64 = 1;
    let second_node: u64 = 2;
    // Two nodes, first and second, with a single edge connecting the two
    network.add_node(&first_node);
    network.add_node(&second_node);
    network.add_edge(&first_node, &second_node, EdgeOptions::Simple);

    network.update();

    // Was the network double buffer updated correctly?
    assert!(network.get_edge(&first_node, &second_node).is_some());

    // Are we able to fetch all the connected nodes relative to a specific node?
    let neighbors = network.get_edges(&first_node).unwrap();
    assert!(!neighbors.is_empty());
    let fetched_edge = neighbors.first().unwrap();
    assert_eq!(fetched_edge.u, first_node);
    assert_eq!(fetched_edge.v, second_node);

    network.update_edge(&first_node, &second_node, EdgeOptions::Weighted(7));

    network.update();
    network.update();

    let neighbors = network.get_edges(&first_node).unwrap();
    let fetched_edge = neighbors.first().unwrap();
    assert_eq!(fetched_edge.u, first_node);
    assert_eq!(fetched_edge.v, second_node);
    assert_eq!(fetched_edge.weight, Some(7));
}

#[test]
fn undirected_edges_appear_on_both_endpoints() {
    let mut network = Network::<u32>::new(false);
    network.add_node(&10);
    network.add_node(&20);
    network.add_edge(&10, &20, EdgeOptions::Simple);
    network.update();

    let of_u = network.get_edges(&10).unwrap();
    let of_v = network.get_edges(&20).unwrap();
    assert!(of_u
        .iter()
        .any(|e| (e.u == 10 && e.v == 20) || (e.u == 20 && e.v == 10)));
    assert!(of_v
        .iter()
        .any(|e| (e.u == 10 && e.v == 20) || (e.u == 20 && e.v == 10)));
}

#[test]
fn directed_edge_stays_on_source() {
    let mut network = Network::<u32>::new(true);
    network.add_node(&1);
    network.add_node(&2);
    network.add_edge(&1, &2, EdgeOptions::Simple);
    network.update();

    assert!(network.get_edge(&1, &2).is_some());
    assert!(network.get_edge(&2, &1).is_none());
    assert!(network.get_edges(&2).unwrap().is_empty());
}

#[test]
fn remove_edge_drops_both_sides() {
    let mut network = Network::<u32>::new(false);
    network.add_node(&1);
    network.add_node(&2);
    network.add_edge(&1, &2, EdgeOptions::Simple);
    let removed = network.remove_edge(&1, &2);
    assert!(removed.is_some());
    network.update();
    assert!(network.get_edge(&1, &2).is_none());
    assert!(network.get_edges(&2).unwrap().is_empty());
}

#[test]
fn remove_node_clears_it() {
    let mut network = Network::<u32>::new(false);
    network.add_node(&1);
    network.add_node(&2);
    network.add_node(&3);
    network.add_edge(&1, &2, EdgeOptions::Simple);
    network.add_edge(&2, &3, EdgeOptions::Simple);
    assert!(network.remove_node(&2));
    network.update();
    assert!(network.get_edges(&2).is_none());
    assert!(network
        .get_edges(&1)
        .unwrap()
        .iter()
        .all(|e| e.u != 2 && e.v != 2));
    assert!(network
        .get_edges(&3)
        .unwrap()
        .iter()
        .all(|e| e.u != 2 && e.v != 2));
}

#[test]
fn labeled_and_weighted_edges_carry_their_options() {
    let mut network = Network::<u32>::new(true);
    network.add_node(&1);
    network.add_node(&2);
    network.add_edge(&1, &2, EdgeOptions::WeightedLabeled(42u32, 1500));
    network.update();
    let e = network.get_edge(&1, &2).unwrap();
    assert_eq!(e.label, Some(42u32));
    assert_eq!(e.weight, Some(1500));
}

#[test]
fn preferential_attachment_grows_a_hub() {
    let n: u64 = 1000;
    let nodes: Vec<u64> = (0..n).collect();
    let mut network = Network::<u32>::new(false);
    agent_engine::network::preferential_attachment_ba(&mut network, &nodes, 1);

    let got = network.get_nodes();
    assert_eq!(got.len(), n as usize);

    let mut max_degree = 0usize;
    let mut total_degree = 0usize;
    for id in got {
        let d = network.get_edges(&id).map(|v| v.len()).unwrap_or(0);
        total_degree += d;
        if d > max_degree {
            max_degree = d;
        }
    }
    // Every node past the seed pair contributes one sampled simple edge,
    // counted once per endpoint.
    assert_eq!(total_degree, 2 * (n as usize - 1));
    // With degree-proportional sampling a hub emerges; the expected maximum
    // is on the order of the square root of the node count, so this bound
    // has a wide margin.
    assert!(max_degree >= 8, "max degree {} unexpectedly small", max_degree);
}

#[test]
fn remove_edges_takes_one_match_per_node() {
    let mut network = Network::<u32>::new(false);
    network.add_node(&1);
    network.add_node(&2);
    // Two parallel edges between the same endpoints.
    network.add_edge(&1, &2, EdgeOptions::Weighted(10));
    network.add_edge(&1, &2, EdgeOptions::Weighted(20));
    let removed = network.remove_edges(&2).unwrap();
    assert_eq!(removed.len(), 1);
    assert_eq!(removed[0].weight, Some(10));
    network.update();
    // The other endpoint keeps its second parallel edge; the swept node's
    // own list lost every matching entry.
    let of_one = network.get_edges(&1).unwrap();
    assert_eq!(of_one.len(), 1);
    assert_eq!(of_one[0].weight, Some(20));
    assert!(network.get_edges(&2).unwrap().is_empty());
}
