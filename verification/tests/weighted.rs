use clustering::cluster::{ClusteringInfo, Edge, VertexInfo};
use clustering::sorting::stable_sort_by_weight;

fn setup_basic() -> ClusteringInfo {
    let basic_data = vec![
        (1, 2, 1),
        (1, 3, 4),
        (1, 4, 5),
        (1, 5, 10),
        (1, 6, 11),
        (1, 7, 12),
        (2, 3, 3),
        (2, 4, 4),
        (2, 5, 9),
        (2, 6, 10),
        (2, 7, 11),
        (3, 4, 1),
        (3, 5, 6),
        (3, 6, 7),
        (3, 7, 8),
        (4, 5, 5),
        (4, 6, 6),
        (4, 7, 7),
        (5, 6, 1),
        (5, 7, 2),
        (6, 7, 1),
    ];

    let mut c = ClusteringInfo::new();
    for e in basic_data {
        c.add_edge(e.0, e.1, e.2);
    }
    assert_eq!(c.size(), (7, 21));
    c
}

fn singletons(n: u32) -> ClusteringInfo {
    let mut c = ClusteringInfo::new();
    for v in 0..n {
        c.add_vertex(v);
    }
    c
}

#[test]
fn basic() {
    let mut c = setup_basic();
    assert_eq!(c.cluster(3), 3);
    assert_eq!(c.cluster(2), 5);
}

#[test]
fn cluster_counts_groups() {
    let mut c = setup_basic();
    assert_eq!(c.groups(), 7);
    assert_eq!(c.cluster(4), 1);
    assert_eq!(c.groups(), 4);
    assert_eq!(c.cluster(1), 12);
    assert_eq!(c.groups(), 1);
}

#[test]
fn cluster_with_enough_groups_unites_nothing() {
    let mut c = setup_basic();
    assert_eq!(c.cluster(7), 1);
    assert_eq!(c.groups(), 7);
    assert_eq!(c.cluster(9), 1);
    assert_eq!(c.groups(), 7);
}

#[test]
fn cluster_without_edges_is_zero() {
    let mut c = ClusteringInfo::new();
    assert_eq!(c.cluster(3), 0);
    c.add_vertex(4);
    c.add_vertex(5);
    assert_eq!(c.cluster(1), 0);
    assert_eq!(c.groups(), 2);
    assert_eq!(c.size(), (2, 0));
}

#[test]
fn cluster_without_an_edge_between_groups_returns_the_last_weight() {
    let mut c = ClusteringInfo::new();
    c.add_edge(1, 2, 5);
    c.add_edge(2, 3, -4);
    c.add_edge(1, 3, 9);
    assert_eq!(c.cluster(1), 9);
    assert_eq!(c.groups(), 1);
    // Two components and no edge between them.
    let mut c = ClusteringInfo::new();
    c.add_edge(1, 2, 3);
    c.add_edge(3, 4, 8);
    assert_eq!(c.cluster(2), 8);
    assert_eq!(c.groups(), 2);
    assert_eq!(c.cluster(1), 8);
    assert_eq!(c.groups(), 2);
}

#[test]
fn cluster_takes_negative_weights_first() {
    let mut c = ClusteringInfo::new();
    c.add_edge(1, 2, 4);
    c.add_edge(2, 3, -7);
    c.add_edge(3, 4, 0);
    assert_eq!(c.cluster(3), 0);
    assert_eq!(c.same_group(2, 3), true);
    assert_eq!(c.same_group(1, 2), false);
    assert_eq!(c.cluster(2), 4);
}

#[test]
fn add_vertex_registers_once() {
    let mut c = ClusteringInfo::new();
    c.add_vertex(8);
    c.add_vertex(8);
    c.add_vertex(2);
    assert_eq!(c.size(), (2, 0));
    assert_eq!(c.groups(), 2);
    c.add_edge(8, 3, 1);
    assert_eq!(c.size(), (3, 1));
    assert_eq!(c.groups(), 3);
    c.add_edge(5, 5, 1);
    assert_eq!(c.size(), (4, 2));
}

#[test]
fn find_is_idempotent() {
    let mut c = singletons(8);
    c.union(0, 1);
    c.union(2, 3);
    c.union(1, 3);
    c.union(5, 6);
    for v in 0..8 {
        let root = c.find_grouping(v);
        assert_eq!(c.find_grouping(root), root);
        assert_eq!(c.find_grouping(v), root);
    }
}

#[test]
fn find_groups_after_unions() {
    let mut c = singletons(6);
    c.union(4, 5);
    assert_eq!(c.find_grouping(5), 4);
    c.union(3, 5);
    // Root 4 has rank 2 and takes the single vertex 3 in.
    assert_eq!(c.find_grouping(3), 4);
    c.union(0, 1);
    c.union(1, 4);
    // Both roots have rank 2: the root of the first argument stays.
    assert_eq!(c.find_grouping(5), 0);
    assert_eq!(c.find_grouping(3), 0);
    assert_eq!(c.find_grouping(2), 2);
}

#[test]
fn same_group_is_an_equivalence() {
    let mut c = singletons(7);
    c.union(0, 1);
    c.union(1, 2);
    c.union(4, 5);
    for x in 0..7 {
        assert!(c.same_group(x, x));
        for y in 0..7 {
            assert_eq!(c.same_group(x, y), c.same_group(y, x));
            for z in 0..7 {
                if c.same_group(x, y) && c.same_group(y, z) {
                    assert!(c.same_group(x, z));
                }
            }
        }
    }
    assert!(c.same_group(0, 2));
    assert!(!c.same_group(2, 4));
    assert!(!c.same_group(3, 6));
}

#[test]
fn unions_count_down_the_groups() {
    let mut c = singletons(10);
    assert_eq!(c.groups(), 10);
    let pairs = [(0, 1), (2, 3), (1, 3), (4, 5), (6, 7), (5, 7), (3, 7)];
    let mut done = 0;
    for (a, b) in pairs {
        c.union(a, b);
        done += 1;
        assert_eq!(c.groups(), 10 - done);
    }
    // Unions inside one group leave the count alone.
    c.union(0, 7);
    c.union(6, 2);
    c.union(9, 9);
    assert_eq!(c.groups(), 3);
    assert_eq!(c.size(), (10, 0));
}

#[test]
fn union_by_rank() {
    let mut c = singletons(6);
    let rank = |c: &ClusteringInfo, v: u32| c.vertex(v).unwrap().rank;
    c.union(0, 1);
    assert_eq!((rank(&c, 0), rank(&c, 1)), (2, 1));
    // Different ranks: the root of lower rank goes under, no rank changes.
    c.union(2, 0);
    assert_eq!(c.find_grouping(2), 0);
    assert_eq!((rank(&c, 0), rank(&c, 1), rank(&c, 2)), (2, 1, 1));
    // Equal ranks again: the first root wins and its rank grows by one.
    c.union(3, 4);
    c.union(4, 1);
    assert_eq!(c.find_grouping(0), 3);
    assert_eq!((rank(&c, 3), rank(&c, 0), rank(&c, 4)), (3, 2, 1));
    // A union inside one group changes no rank.
    c.union(1, 2);
    assert_eq!((rank(&c, 3), rank(&c, 0), rank(&c, 4)), (3, 2, 1));
    assert_eq!(rank(&c, 5), 1);
}

#[test]
fn vertex_records() {
    let mut c = singletons(3);
    assert_eq!(c.vertex(1), Some(VertexInfo::new(1)));
    assert_eq!(c.vertex(7), None);
    c.union(2, 1);
    assert_eq!(c.vertex(1), Some(VertexInfo { vertex_id: 1, group_id: 2, rank: 1 }));
    assert_eq!(c.vertex(2), Some(VertexInfo { vertex_id: 2, group_id: 2, rank: 2 }));
    c.union(0, 1);
    assert_eq!(c.vertex(0), Some(VertexInfo { vertex_id: 0, group_id: 2, rank: 1 }));
}

#[test]
fn find_shortens_the_way_to_the_root() {
    let mut c = singletons(4);
    c.union(0, 1);
    c.union(2, 3);
    c.union(2, 0);
    // 1 links to 0, which links to 2.
    assert_eq!(c.vertex(1).unwrap().group_id, 0);
    assert_eq!(c.find_grouping(1), 2);
    assert_eq!(c.vertex(1).unwrap().group_id, 2);
    assert_eq!(c.vertex(0).unwrap().group_id, 2);
}

#[test]
fn new_records() {
    let v = VertexInfo::new(12);
    assert_eq!((v.vertex_id, v.group_id, v.rank), (12, 12, 1));
    let e = Edge::new(3, 4, -9);
    assert_eq!((e.start_id, e.end_id, e.weight), (3, 4, -9));
}

#[test]
fn sort_is_stable_by_weight() {
    let edges = vec![
        Edge::new(9, 1, 5),
        Edge::new(8, 2, 3),
        Edge::new(7, 3, 5),
        Edge::new(1, 4, -2),
        Edge::new(6, 5, 3),
        Edge::new(0, 6, 5),
    ];
    let sorted = stable_sort_by_weight(&edges);
    let expected = vec![
        Edge::new(1, 4, -2),
        Edge::new(8, 2, 3),
        Edge::new(6, 5, 3),
        Edge::new(9, 1, 5),
        Edge::new(7, 3, 5),
        Edge::new(0, 6, 5),
    ];
    assert_eq!(sorted, expected);
    assert_eq!(stable_sort_by_weight(&Vec::new()), Vec::new());
}

#[test]
fn sort_of_many_edges() {
    let mut edges: Vec<Edge> = Vec::new();
    let mut x: u32 = 12345;
    for i in 0..1000u32 {
        x = x.wrapping_mul(1103515245).wrapping_add(12345);
        edges.push(Edge::new(i, i + 1, ((x >> 16) % 50) as i32 - 25));
    }
    let sorted = stable_sort_by_weight(&edges);
    let mut expected = edges.clone();
    expected.sort_by_key(|e| e.weight);
    assert_eq!(sorted, expected);
}
