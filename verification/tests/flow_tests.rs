use rustparse::Edges;
use rustparse::Merge;
use rustparse::Reachable;
use rustparse::solve;

#[test]
fn test_edges() {
    let mut edges = Edges::new();
    edges.push_succ(1, 2);
    edges.push_succ(2, 3);
    edges.push_succ(3, 4);
    edges.push_succ(2, 5);
    let _flows = solve(&edges);
}

#[test]
fn edge_pairs_are_reachable() {
    let mut edges = Edges::new();
    edges.push_succ(1, 2);
    edges.push_succ(2, 3);
    edges.push_succ(3, 4);
    edges.push_succ(2, 5);
    let flows = solve(&edges);
    assert!(flows.is_reachable(1, 2));
    assert!(flows.is_reachable(2, 3));
    assert!(flows.is_reachable(3, 4));
    assert!(flows.is_reachable(2, 5));
}

#[test]
fn reachability_is_transitive() {
    let mut edges = Edges::new();
    edges.push_succ(1, 2);
    edges.push_succ(2, 3);
    edges.push_succ(3, 4);
    let flows = solve(&edges);
    assert!(flows.is_reachable(1, 3));
    assert!(flows.is_reachable(1, 4));
    assert!(flows.is_reachable(2, 4));
    assert!(!flows.is_reachable(4, 1));
    assert!(!flows.is_reachable(3, 2));
}

#[test]
fn reachability_handles_cycles() {
    let mut edges = Edges::new();
    edges.push_succ(1, 2);
    edges.push_succ(2, 1);
    edges.push_succ(2, 3);
    let flows = solve(&edges);
    assert!(flows.is_reachable(1, 1));
    assert!(flows.is_reachable(2, 2));
    assert!(flows.is_reachable(1, 3));
    assert!(!flows.is_reachable(3, 1));
}

#[test]
fn merge_order_keeps_reachability() {
    let mut a1 = Edges::new();
    a1.push_succ(1, 2);
    a1.push_succ(5, 6);
    let mut b1 = Edges::new();
    b1.push_succ(2, 3);
    let mut a2 = Edges::new();
    a2.push_succ(1, 2);
    a2.push_succ(5, 6);
    let mut b2 = Edges::new();
    b2.push_succ(2, 3);
    // merge in both orders
    a1.merge(&b1);
    b2.merge(&a2);
    let f1 = solve(&a1);
    let f2 = solve(&b2);
    for x in 1..7 {
        for y in 1..7 {
            assert_eq!(f1.is_reachable(x, y), f2.is_reachable(x, y));
        }
    }
}

#[test]
fn merge_concatenates_common_keys() {
    let mut a = Edges::new();
    a.push_succ(1, 2);
    let mut b = Edges::new();
    b.push_succ(1, 3);
    b.push_succ(4, 5);
    a.merge(&b);
    assert_eq!(a.len(), 2);
    assert_eq!(a.get(1).unwrap(), &vec![2, 3]);
    assert_eq!(a.get(4).unwrap(), &vec![5]);
}
