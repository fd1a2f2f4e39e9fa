use reckon_nifs::graph::{
    build_edges, calculate_max_depth, count_distinct, find_leaves, find_roots, get_ancestors,
    get_descendants, graph_stats, has_cycle, has_path, topo_sort,
};

fn ids(list: &[&str]) -> Vec<Vec<u8>> {
    list.iter().map(|s| s.as_bytes().to_vec()).collect()
}

fn edges(list: &[(&str, &str)]) -> Vec<(Vec<u8>, Vec<u8>)> {
    list.iter().map(|(a, b)| (a.as_bytes().to_vec(), b.as_bytes().to_vec())).collect()
}

fn sorted(mut v: Vec<Vec<u8>>) -> Vec<Vec<u8>> {
    v.sort();
    v.dedup();
    v
}

#[test]
fn edges_from_causation_ids() {
    let events = vec![
        (b"a".to_vec(), None),
        (b"b".to_vec(), Some(b"a".to_vec())),
        (b"c".to_vec(), Some(b"b".to_vec())),
        (b"d".to_vec(), Some(b"zzz".to_vec())),
        (b"e".to_vec(), Some(b"a".to_vec())),
    ];
    assert_eq!(build_edges(&events), edges(&[("a", "b"), ("b", "c"), ("a", "e")]));
    assert_eq!(build_edges(&[]), vec![]);
}

#[test]
fn roots_and_leaves() {
    let n = ids(&["a", "b", "c", "d"]);
    let e = edges(&[("a", "b"), ("b", "c"), ("a", "c")]);
    assert_eq!(find_roots(&n, &e), ids(&["a", "d"]));
    assert_eq!(find_leaves(&n, &e), ids(&["c", "d"]));
}

#[test]
fn topological_order_of_a_chain() {
    let n = ids(&["c", "a", "b"]);
    let e = edges(&[("a", "b"), ("b", "c")]);
    assert_eq!(topo_sort(&n, &e), Some(ids(&["a", "b", "c"])));
    assert!(!has_cycle(&n, &e));
}

#[test]
fn topological_order_respects_every_edge() {
    let n = ids(&["e", "d", "c", "b", "a"]);
    let e = edges(&[("a", "b"), ("a", "c"), ("c", "d"), ("b", "d"), ("d", "e")]);
    let order = topo_sort(&n, &e).unwrap();
    assert_eq!(sorted(order.clone()), sorted(n.clone()));
    assert_eq!(order.len(), n.len());
    let pos = |x: &str| order.iter().position(|y| y == x.as_bytes()).unwrap();
    for (a, b) in [("a", "b"), ("a", "c"), ("c", "d"), ("b", "d"), ("d", "e")] {
        assert!(pos(a) < pos(b));
    }
}

#[test]
fn cycles_are_detected() {
    let n = ids(&["a", "b", "c"]);
    let e = edges(&[("a", "b"), ("b", "c"), ("c", "a")]);
    assert_eq!(topo_sort(&n, &e), None);
    assert!(has_cycle(&n, &e));
    let self_loop = edges(&[("a", "a")]);
    assert!(has_cycle(&n, &self_loop));
    assert_eq!(topo_sort(&n, &self_loop), None);
    // Edges to unknown nodes are ignored.
    assert!(!has_cycle(&n, &edges(&[("a", "x"), ("x", "a")])));
}

#[test]
fn paths_between_nodes() {
    let n = ids(&["a", "b", "c", "d"]);
    let e = edges(&[("a", "b"), ("b", "c")]);
    assert!(has_path(&n, &e, b"a", b"c"));
    assert!(!has_path(&n, &e, b"c", b"a"));
    assert!(!has_path(&n, &e, b"a", b"d"));
    assert!(has_path(&n, &e, b"d", b"d"));
    assert!(!has_path(&n, &e, b"a", b"missing"));
    assert!(!has_path(&n, &e, b"missing", b"missing"));
}

#[test]
fn ancestors_and_descendants() {
    let n = ids(&["a", "b", "c", "d", "e"]);
    let e = edges(&[("a", "b"), ("b", "c"), ("a", "c"), ("d", "e")]);
    assert_eq!(sorted(get_descendants(&n, &e, b"a")), ids(&["b", "c"]));
    assert_eq!(sorted(get_descendants(&n, &e, b"c")), ids(&[]));
    assert_eq!(sorted(get_ancestors(&n, &e, b"c")), ids(&["a", "b"]));
    assert_eq!(sorted(get_ancestors(&n, &e, b"e")), ids(&["d"]));
    assert_eq!(get_descendants(&n, &e, b"missing"), ids(&[]));
}

#[test]
fn ancestors_mirror_descendants_when_edges_join_nodes() {
    let n = ids(&["a", "b", "c", "d"]);
    let e = edges(&[("a", "b"), ("b", "c"), ("c", "a"), ("c", "d")]);
    for x in ["a", "b", "c", "d"] {
        for y in ["a", "b", "c", "d"] {
            let down = get_descendants(&n, &e, x.as_bytes()).contains(&y.as_bytes().to_vec());
            let up = get_ancestors(&n, &e, y.as_bytes()).contains(&x.as_bytes().to_vec());
            assert_eq!(down, up, "{} {}", x, y);
        }
    }
}

#[test]
fn descendants_in_a_cycle_exclude_the_start() {
    let n = ids(&["a", "b"]);
    let e = edges(&[("a", "b"), ("b", "a")]);
    assert_eq!(get_descendants(&n, &e, b"a"), ids(&["b"]));
    assert_eq!(get_ancestors(&n, &e, b"a"), ids(&["b"]));
}

#[test]
fn depth_from_roots() {
    let n = ids(&["a", "b", "c", "d"]);
    assert_eq!(calculate_max_depth(&n, &edges(&[("a", "b"), ("b", "c"), ("c", "d")])), 3);
    assert_eq!(calculate_max_depth(&n, &edges(&[("a", "b"), ("a", "c"), ("b", "d"), ("a", "d")])), 1);
    assert_eq!(calculate_max_depth(&n, &edges(&[])), 0);
    assert_eq!(calculate_max_depth(&[], &edges(&[])), 0);
    // No roots: every node has a parent.
    assert_eq!(calculate_max_depth(&ids(&["a", "b"]), &edges(&[("a", "b"), ("b", "a")])), 0);
}

#[test]
fn stats_of_a_graph() {
    let n = ids(&["a", "b", "c", "d", "a"]);
    let e = edges(&[("a", "b"), ("b", "c")]);
    let s = graph_stats(&n, &e);
    assert_eq!(s.node_count, 5);
    assert_eq!(s.edge_count, 2);
    assert_eq!(s.root_count, 2);
    assert_eq!(s.leaf_count, 2);
    assert_eq!(s.max_depth, 2);
}

#[test]
fn distinct_counting() {
    assert_eq!(count_distinct(&ids(&["a", "b", "a", "c", "b"])), 3);
    assert_eq!(count_distinct(&[]), 0);
}

#[test]
fn descendants_and_ancestors_once_in_breadth_first_order() {
    let n = ids(&["a", "b", "c", "d"]);
    let e = edges(&[("a", "b"), ("a", "c"), ("b", "d"), ("c", "d")]);
    assert_eq!(get_descendants(&n, &e, b"a"), ids(&["b", "c", "d"]));
    assert_eq!(get_ancestors(&n, &e, b"d"), ids(&["b", "c", "a"]));
    // Parallel edges and cycles list each event once.
    let e3 = edges(&[("a", "b"), ("a", "b"), ("b", "a"), ("b", "c"), ("c", "b")]);
    assert_eq!(get_descendants(&n, &e3, b"a"), ids(&["b", "c"]));
    assert_eq!(get_ancestors(&n, &e3, b"c"), ids(&["b", "a"]));
    // An edge leaving an unknown node is not followed.
    let e2 = edges(&[("x", "a"), ("a", "b")]);
    assert_eq!(get_descendants(&ids(&["a", "b"]), &e2, b"x"), ids(&[]));
    assert_eq!(get_ancestors(&ids(&["a", "b"]), &e2, b"b"), ids(&["a", "x"]));
}

#[test]
fn reachability_agrees_between_nodes() {
    let n = ids(&["a", "b", "c", "d", "e"]);
    let e = edges(&[("a", "b"), ("b", "c"), ("c", "a"), ("d", "e"), ("e", "zz"), ("zz", "d")]);
    for x in ["a", "b", "c", "d", "e"] {
        for y in ["a", "b", "c", "d", "e"] {
            if x == y {
                continue;
            }
            let down = get_descendants(&n, &e, x.as_bytes()).contains(&y.as_bytes().to_vec());
            let path = has_path(&n, &e, x.as_bytes(), y.as_bytes());
            let up = get_ancestors(&n, &e, y.as_bytes()).contains(&x.as_bytes().to_vec());
            assert_eq!(down, path, "{} {}", x, y);
            assert_eq!(path, up, "{} {}", x, y);
        }
    }
}
