use rust_algorithms::disjoint_set::{DisjointSet, Element, ElementParent, UnionFind, UnionResult, find_root};

struct Node {
    value: u32,
    set_type: Element,
}

impl DisjointSet for Node {
    fn get_node(&self) -> Element {
        self.set_type
    }
}

fn create_node(uf: &mut UnionFind, val: u32) -> Node {
    Node { value: val, set_type: Element::new(uf, 0) }
}

#[test]
fn three_deep_find_locked() {
    let mut uf = UnionFind::new();
    let elements: Vec<Element> = (0..3).map(|rank| Element::new(&mut uf, rank)).collect();
    let element0 = elements[0];
    let element1 = elements[1];
    let element2 = elements[2];
    uf.set_parent(element0, element1);
    uf.set_parent(element1, element2);

    assert!(find_root(&mut uf, elements[0]) == element2);
    assert_eq!(elements.len(), 3);
}

#[test]
fn basic_tests() {
    let mut uf = UnionFind::new();
    let root_node = create_node(&mut uf, 12);
    // Check that calling find() on the root node returns that very same root node.
    let full_root = uf.find(root_node.get_node());
    match uf.state(full_root) {
        ElementParent::Rank(rankval) => assert_eq!(rankval, 0),
        ElementParent::UpElement(_) => unreachable!(),
    };
    assert_eq!(full_root, root_node.set_type);
    assert_eq!(root_node.value, 12);

    let test_node = create_node(&mut uf, 10);
    uf.union(root_node.get_node(), test_node.get_node());
    assert_eq!(test_node.value, 10);

    // Check that calling find() on the child node returns the root node.
    let child_root = uf.find(test_node.get_node());
    match uf.state(child_root) {
        ElementParent::Rank(rankval) => assert_eq!(rankval, 1),
        ElementParent::UpElement(_) => unreachable!(),
    };
    assert_eq!(child_root, root_node.set_type);
}

#[test]
fn fresh_element_is_own_root_with_rank_zero() {
    let mut uf = UnionFind::new();
    let e = Element::new(&mut uf, 0);
    let root = uf.find(e);
    assert_eq!(root, e);
    match uf.state(e) {
        ElementParent::Rank(rank) => assert_eq!(rank, 0),
        ElementParent::UpElement(_) => unreachable!(),
    }
}

#[test]
fn find_is_idempotent() {
    let mut uf = UnionFind::new();
    let elements: Vec<Element> = (0..4).map(|_| Element::new(&mut uf, 0)).collect();
    uf.union(elements[0], elements[1]);
    uf.union(elements[1], elements[2]);
    for &e in &elements {
        let once = uf.find(e);
        let twice = uf.find(once);
        assert_eq!(once, twice);
    }
}

#[test]
fn union_merges() {
    let mut uf = UnionFind::new();
    let a = Element::new(&mut uf, 0);
    let b = Element::new(&mut uf, 0);
    let result = uf.union(a, b);
    assert!(matches!(result, UnionResult::Updated));
    assert_eq!(uf.find(a), uf.find(b));
    assert!(uf.same_set(a, b));
}

#[test]
fn union_is_idempotent_on_same_set() {
    let mut uf = UnionFind::new();
    let a = Element::new(&mut uf, 0);
    let b = Element::new(&mut uf, 0);
    assert!(matches!(uf.union(a, b), UnionResult::Updated));
    let root = uf.find(a);
    let rank_before = match uf.state(root) {
        ElementParent::Rank(r) => r,
        ElementParent::UpElement(_) => unreachable!(),
    };
    // A second union of the same pair changes neither the partition nor
    // any rank.
    assert!(matches!(uf.union(a, b), UnionResult::NoChange));
    assert_eq!(uf.find(a), root);
    assert_eq!(uf.find(b), root);
    match uf.state(root) {
        ElementParent::Rank(r) => assert_eq!(r, rank_before),
        ElementParent::UpElement(_) => unreachable!(),
    }
}

#[test]
fn self_union_is_no_change() {
    let mut uf = UnionFind::new();
    let a = Element::new(&mut uf, 0);
    assert!(matches!(uf.union(a, a), UnionResult::NoChange));
    let b = Element::new(&mut uf, 0);
    uf.union(a, b);
    assert!(matches!(uf.union(a, a), UnionResult::NoChange));
    assert!(matches!(uf.union(b, b), UnionResult::NoChange));
}

#[test]
fn rank_stays_under_log2_of_size() {
    let mut uf = UnionFind::new();
    let n = 8;
    let elements: Vec<Element> = (0..n).map(|_| Element::new(&mut uf, 0)).collect();
    // Merge everything, pairing partial trees to push ranks as high as
    // union by rank allows.
    let mut step = 1;
    while step < n {
        let mut i = 0;
        while i + step < n {
            uf.union(elements[i], elements[i + step]);
            i += 2 * step;
        }
        step *= 2;
    }
    // floor(log2(8)) == 3
    for &e in &elements {
        let root = uf.find(e);
        match uf.state(root) {
            ElementParent::Rank(rank) => assert!(rank <= 3),
            ElementParent::UpElement(_) => unreachable!(),
        }
    }
}

#[test]
fn path_compression_rewrites_the_chain() {
    let mut uf = UnionFind::new();
    let e0 = Element::new(&mut uf, 0);
    let e1 = Element::new(&mut uf, 0);
    let e2 = Element::new(&mut uf, 0);
    let root = Element::new(&mut uf, 0);
    uf.set_parent(e2, root);
    uf.set_parent(e1, e2);
    uf.set_parent(e0, e1);

    assert_eq!(uf.find(e0), root);
    // Afterwards every element of the chain points directly at the root.
    for e in [e0, e1, e2] {
        match uf.state(e) {
            ElementParent::UpElement(parent) => assert_eq!(parent, root),
            ElementParent::Rank(_) => unreachable!(),
        }
    }
    match uf.state(root) {
        ElementParent::Rank(_) => {}
        ElementParent::UpElement(_) => unreachable!(),
    }
}

struct Edge {
    point_a: usize,
    point_b: usize,
    weight: u32,
}

/// Accepts each edge (taken in ascending weight order) whose endpoints
/// are not yet connected; reports Err with the partial forest when the
/// graph turns out disconnected.
fn kruskals(
    uf: &mut UnionFind,
    nodes: &[Element],
    edges: &[Edge],
) -> Result<Vec<u32>, Vec<u32>> {
    let mut chosen = Vec::new();
    for edge in edges {
        if uf.same_set(nodes[edge.point_a], nodes[edge.point_b]) {
            continue;
        }
        if matches!(uf.union(nodes[edge.point_a], nodes[edge.point_b]), UnionResult::Updated) {
            chosen.push(edge.weight);
        }
    }
    let first = uf.find(nodes[0]);
    let mut all_connected = true;
    for &node in nodes {
        if uf.find(node) != first {
            all_connected = false;
        }
    }
    if all_connected { Ok(chosen) } else { Err(chosen) }
}

#[test]
fn kruskal_three_nodes_picks_cheap_spanning_tree() {
    let mut uf = UnionFind::new();
    let nodes: Vec<Element> = (0..3).map(|_| Element::new(&mut uf, 0)).collect();
    // Weights 1, 4 and 3 between (0,1), (0,2) and (1,2), sorted ascending.
    let edges = vec![
        Edge { point_a: 0, point_b: 1, weight: 1 },
        Edge { point_a: 1, point_b: 2, weight: 3 },
        Edge { point_a: 0, point_b: 2, weight: 4 },
    ];
    let chosen = kruskals(&mut uf, &nodes, &edges).expect("graph is connected");
    assert_eq!(chosen, vec![1, 3]);
}

#[test]
fn kruskal_reports_disconnected_graph() {
    let mut uf = UnionFind::new();
    let nodes: Vec<Element> = (0..4).map(|_| Element::new(&mut uf, 0)).collect();
    let edges = vec![
        Edge { point_a: 0, point_b: 1, weight: 1 },
        Edge { point_a: 2, point_b: 3, weight: 2 },
    ];
    let chosen = kruskals(&mut uf, &nodes, &edges).expect_err("graph is disconnected");
    assert_eq!(chosen.len(), 2);
    assert!(uf.same_set(nodes[0], nodes[1]));
    assert!(uf.same_set(nodes[2], nodes[3]));
    assert!(!uf.same_set(nodes[0], nodes[2]));
}

#[test]
fn unions_match_connected_components() {
    // Unions on pseudo-random pairs: afterwards the number of distinct
    // roots equals the component count of the union-graph.
    let mut uf = UnionFind::new();
    let n: usize = 17;
    let elements: Vec<Element> = (0..n).map(|_| Element::new(&mut uf, 0)).collect();
    let mut components = n;
    let mut state: u64 = 0x9e3779b97f4a7c15;
    for _ in 0..50 {
        state ^= state << 13;
        state ^= state >> 7;
        state ^= state << 17;
        let a = (state % n as u64) as usize;
        state ^= state << 13;
        state ^= state >> 7;
        state ^= state << 17;
        let b = (state % n as u64) as usize;
        if matches!(uf.union(elements[a], elements[b]), UnionResult::Updated) {
            components -= 1;
        }
    }
    let mut roots: Vec<Element> = Vec::new();
    for &e in &elements {
        let root = uf.find(e);
        if !roots.contains(&root) {
            roots.push(root);
        }
    }
    assert_eq!(roots.len(), components);
}
