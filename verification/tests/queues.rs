use route_planner::bidirectional_graph::BidirectionalGraph;
use route_planner::binary_heap::HeapOrdered;
use route_planner::binary_heap::MinHeap;
use route_planner::binary_heap::MinimumItem;
use route_planner::bucket_queue::BucketQueue;
use route_planner::graph::Edge;
use route_planner::queue::CHQueue;
use route_planner::queue::Weights;
use route_planner::state::CHState;
use route_planner::state::State;

fn store(edges: &[(u32, u32, u32)]) -> BidirectionalGraph {
    let mut graph = BidirectionalGraph::new();
    for &(source, target, cost) in edges {
        graph.add_edge(Edge { source, target, cost });
    }
    graph
}

#[test]
fn the_heap_hands_out_the_lowest_priority_first() {
    let mut heap = MinHeap::new();
    assert!(heap.is_empty());
    assert_eq!(heap.peek(), None);
    assert_eq!(heap.pop(), None);
    for (priority, item) in [(5, 1), (3, 2), (9, 3), (3, 7), (0, 4), (5, 0)] {
        heap.push(MinimumItem::new(priority, item));
    }
    assert_eq!(heap.len(), 6);
    assert_eq!(heap.peek(), Some(MinimumItem::new(0, 4)));
    let mut order = Vec::new();
    while let Some(top) = heap.pop() {
        order.push((top.priority, top.item));
    }
    assert_eq!(order, vec![(0, 4), (3, 7), (3, 2), (5, 1), (5, 0), (9, 3)]);
    assert!(heap.is_empty());
}

#[test]
fn the_heap_sorts_many_items() {
    let mut heap = MinHeap::new();
    let mut state: u64 = 99;
    let mut expected = Vec::new();
    for item in 0..500u32 {
        state = state.wrapping_mul(6364136223846793005).wrapping_add(1442695040888963407);
        let priority = (state >> 40) as u32 % 50;
        heap.push(MinimumItem::new(priority, item));
        expected.push((priority, item));
    }
    expected.sort_by(|a, b| a.0.cmp(&b.0).then(b.1.cmp(&a.1)));
    let mut order = Vec::new();
    while let Some(top) = heap.pop() {
        order.push((top.priority, top.item));
    }
    assert_eq!(order, expected);
}

#[test]
fn ties_go_to_the_higher_id() {
    assert!(MinimumItem::new(1, 5).precedes(&MinimumItem::new(2, 9)));
    assert!(MinimumItem::new(2, 9).precedes(&MinimumItem::new(2, 5)));
    assert!(!MinimumItem::new(2, 5).precedes(&MinimumItem::new(2, 9)));
    assert!(MinimumItem::new(2, 5).precedes(&MinimumItem::new(2, 5)));
    assert!(CHState::new(-3, 1).precedes(&CHState::new(0, 8)));
    assert!(CHState::new(4, 8).precedes(&CHState::new(4, 1)));
    assert!(!CHState::new(4, 1).precedes(&CHState::new(4, 8)));
    let near = State { node_cost: 2, node_id: 4 };
    let far = State { node_cost: 3, node_id: 9 };
    assert!(near.precedes(&far));
    assert!(!far.precedes(&near));
    let mut heap = MinHeap::new();
    heap.push(far);
    heap.push(near);
    assert_eq!(heap.pop(), Some(near));
}

#[test]
fn the_bucket_queue_serves_in_a_circle() {
    let mut queue = BucketQueue::new(4);
    assert_eq!(queue.pop(), None);
    queue.insert(2, 20);
    queue.insert(6, 21);
    queue.insert(1, 10);
    queue.insert(3, 30);
    assert_eq!(queue.pop(), Some(10));
    assert_eq!(queue.pop(), Some(21));
    queue.insert(0, 40);
    assert_eq!(queue.pop(), Some(20));
    assert_eq!(queue.pop(), Some(30));
    assert_eq!(queue.pop(), Some(40));
    assert_eq!(queue.pop(), None);
    let mut none = BucketQueue::new(0);
    assert_eq!(none.pop(), None);
}

#[test]
fn the_priority_is_the_weighted_sum_of_the_terms() {
    let graph = store(&[(0, 1, 3), (1, 2, 4), (0, 2, 9)]);
    let queue = CHQueue::new(&graph);
    assert_eq!(queue.len(), 3);
    assert_eq!(queue.get_priority(&graph, 0), 1);
    assert_eq!(queue.get_priority(&graph, 1), 2);
    assert_eq!(queue.get_priority(&graph, 2), 0);
    assert_eq!(queue.edge_difference(&graph, 0), -2);
    assert_eq!(queue.edge_difference(&graph, 1), -1);
    assert_eq!(queue.edge_difference(&graph, 2), -2);
    let weights = Weights {
        deleted_neighbors: 10,
        cost_of_queries: 1000,
        edge_difference: -100,
        voronoi_region: 7,
    };
    let weighted = CHQueue::with_seed(&graph, weights, 5);
    assert_eq!(weighted.get_priority(&graph, 1), 20 + 0 + 100 + 7);
    assert_eq!(weighted.get_priority(&graph, 0), 20 + 0 + 200 + 7);
    assert_eq!(weighted.get_priority(&graph, 2), 20 + 0 + 200 + 0);
}

#[test]
fn lazy_pop_takes_the_lowest_priority_and_empties_the_queue() {
    let graph = store(&[(0, 1, 3), (1, 2, 4), (0, 2, 9)]);
    let mut queue = CHQueue::new(&graph);
    assert_eq!(queue.lazy_pop(&graph), Some(2));
    assert_eq!(queue.len(), 2);
    // node 2 is marked now: nodes 0 and 1 have one live neighbor less
    assert_eq!(queue.get_priority(&graph, 0), 0);
    assert_eq!(queue.get_priority(&graph, 1), 1);
    assert_eq!(queue.lazy_pop(&graph), Some(0));
    assert_eq!(queue.lazy_pop(&graph), Some(1));
    assert_eq!(queue.lazy_pop(&graph), None);
    assert_eq!(queue.len(), 0);
}

#[test]
fn lazy_pop_puts_back_an_entry_whose_priority_has_risen() {
    // only the count of live neighbors counts
    let weights = Weights {
        deleted_neighbors: 1,
        cost_of_queries: 0,
        edge_difference: 0,
        voronoi_region: 0,
    };
    let mut graph = BidirectionalGraph::with_nodes(3);
    graph.add_edge(Edge { source: 1, target: 2, cost: 1 });
    graph.add_edge(Edge { source: 2, target: 1, cost: 1 });
    for seed in 0..5 {
        let mut graph = graph.clone_snapshot();
        let mut queue = CHQueue::with_seed(&graph, weights, seed);
        // held: node 0 at 0, the nodes 1 and 2 at 2
        assert_eq!(queue.get_priority(&graph, 0), 0);
        assert_eq!(queue.get_priority(&graph, 1), 2);
        assert_eq!(queue.get_priority(&graph, 2), 2);
        graph.add_edge(Edge { source: 0, target: 1, cost: 5 });
        graph.add_edge(Edge { source: 0, target: 2, cost: 5 });
        graph.add_edge(Edge { source: 1, target: 0, cost: 5 });
        // now: node 0 at 3, node 1 at 4, node 2 at 3
        assert_eq!(queue.get_priority(&graph, 0), 3);
        assert_eq!(queue.get_priority(&graph, 1), 4);
        assert_eq!(queue.get_priority(&graph, 2), 3);
        // every entry is stale; brought up to date, node 2 ties with node 0
        // and has the higher id
        assert_eq!(queue.lazy_pop(&graph), Some(2));
        assert_eq!(queue.len(), 2);
        assert_eq!(queue.get_priority(&graph, 0), 2);
        assert_eq!(queue.get_priority(&graph, 1), 2);
        assert_eq!(queue.lazy_pop(&graph), Some(0));
        assert_eq!(queue.lazy_pop(&graph), Some(1));
        assert_eq!(queue.lazy_pop(&graph), None);
    }
}
