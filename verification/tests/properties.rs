use union_find::Forest;
use union_find::Repr;

#[test]
fn fresh_node_is_its_own_representative() {
    let mut f: Forest<u32> = Forest::new();
    let x = f.push(7);
    assert!(f.node(x).is_root());
    assert_eq!(f.find(x), x);
    assert_eq!(f.node(x).rank, 0);
    assert_eq!(f.node(x).tag, 7);
}

#[test]
fn standalone_node_construction() {
    let r: Repr<u32> = Repr::new(5, 7);
    assert!(r.is_root());
    assert_eq!(r.tag, 5);
    assert_eq!(r.rank, 0);
    assert_eq!(r.parent, 7);
    assert_eq!(r.id, 7);
}

#[test]
fn find_is_idempotent() {
    // build a tree of depth two, so the first find has work to do
    let mut f: Forest<()> = Forest::new();
    let x = f.push(());
    let y = f.push(());
    let z = f.push(());
    let w = f.push(());
    f.union(x, y);
    f.union(w, z);
    f.union(w, x);
    // y now sits two links below the root w
    let first = f.find(y);
    assert_eq!(first, w);
    let parents: Vec<usize> = (0..f.len()).map(|i| f.node(i).parent).collect();
    let second = f.find(y);
    assert_eq!(second, first);
    // the second call changed no parent link
    let parents_after: Vec<usize> = (0..f.len()).map(|i| f.node(i).parent).collect();
    assert_eq!(parents, parents_after);
}

#[test]
fn find_compresses_the_path() {
    let mut f: Forest<()> = Forest::new();
    let x = f.push(());
    let y = f.push(());
    let z = f.push(());
    let w = f.push(());
    f.union(x, y);
    f.union(w, z);
    f.union(w, x);
    // before: y -> x -> w; after find, y points straight at w
    assert_eq!(f.node(y).parent, x);
    let root = f.find(y);
    assert_eq!(root, w);
    assert_eq!(f.node(y).parent, w);
}

#[test]
fn union_is_symmetric_and_redundant_union_is_a_no_op() {
    let mut f: Forest<u32> = Forest::new();
    let x = f.push(1);
    let y = f.push(2);
    f.union(x, y);
    assert_eq!(f.find(x), f.find(y));
    let root = f.find(x);
    let ranks: Vec<usize> = (0..f.len()).map(|i| f.node(i).rank).collect();
    f.union(y, x);
    assert_eq!(f.find(x), f.find(y));
    assert_eq!(f.find(x), root);
    let ranks_after: Vec<usize> = (0..f.len()).map(|i| f.node(i).rank).collect();
    assert_eq!(ranks, ranks_after);
}

#[test]
fn union_of_a_node_with_itself_changes_nothing() {
    let mut f: Forest<u32> = Forest::new();
    let x = f.push(1);
    f.union(x, x);
    assert!(f.node(x).is_root());
    assert_eq!(f.node(x).rank, 0);
}

#[test]
fn never_unioned_nodes_stay_separate() {
    let mut f: Forest<u32> = Forest::new();
    let x = f.push(1);
    let y = f.push(2);
    let z = f.push(3);
    f.union(x, y);
    assert_ne!(f.find(x), f.find(z));
    assert_ne!(f.find(y), f.find(z));
}

#[test]
fn rank_growth_on_singletons_and_tie_break() {
    let mut f: Forest<u32> = Forest::new();
    let a = f.push(0);
    let b = f.push(1);
    f.union(a, b);
    // first argument's root survives the tie and absorbs the increment
    assert_eq!(f.find(a), a);
    assert_eq!(f.find(b), a);
    assert_eq!(f.node(a).rank, 1);
    assert_eq!(f.node(b).rank, 0);
    // merging two rank-one trees raises the survivor to rank two
    let c = f.push(2);
    let d = f.push(3);
    f.union(c, d);
    f.union(a, c);
    assert_eq!(f.find(d), a);
    assert_eq!(f.node(a).rank, 2);
    assert_eq!(f.node(c).rank, 1);
}

#[test]
fn lower_ranked_root_goes_below_higher_ranked_root() {
    let mut f: Forest<u32> = Forest::new();
    let a = f.push(0);
    let b = f.push(1);
    let c = f.push(2);
    f.union(a, b);
    // a has rank 1; the singleton c is attached below a even as first argument
    f.union(c, a);
    assert_eq!(f.find(c), a);
    assert_eq!(f.node(a).rank, 1);
    assert_eq!(f.node(c).rank, 0);
}

#[test]
fn empty_forest_has_no_nodes() {
    let f: Forest<u32> = Forest::new();
    assert_eq!(f.len(), 0);
}

#[test]
fn parent_chains_stay_short() {
    // whatever the merge order, every node is at most a few links from its
    // root, and walking parents always reaches a self-parented node
    let mut f: Forest<u32> = Forest::new();
    let mut xs: Vec<usize> = Vec::new();
    for t in 0..16u32 {
        xs.push(f.push(t));
    }
    for pair in xs.chunks(2) {
        f.union(pair[0], pair[1]);
    }
    for quad in xs.chunks(4) {
        f.union(quad[0], quad[2]);
    }
    for oct in xs.chunks(8) {
        f.union(oct[0], oct[4]);
    }
    f.union(xs[0], xs[8]);
    let root = f.find(xs[0]);
    for &x in xs.iter() {
        assert_eq!(f.find(x), root);
        // after find, the path is fully compressed
        assert_eq!(f.node(x).parent, root);
        let mut steps: usize = 0;
        let mut cur = x;
        while f.node(cur).parent != cur {
            cur = f.node(cur).parent;
            steps += 1;
            assert!(steps < f.len());
        }
        assert_eq!(cur, root);
    }
    assert_eq!(f.node(root).rank, 4);
}
