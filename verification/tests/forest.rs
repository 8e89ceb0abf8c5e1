use union_find::Forest;

#[test]
fn non_null_parent() {
    let mut f: Forest<()> = Forest::new();
    let x = f.push(());
    assert!(f.node(x).parent < f.len());
}

#[test]
fn rank_aware_insertion() {
    let mut f: Forest<()> = Forest::new();
    let x = f.push(());
    let y = f.push(());
    let z = f.push(());
    f.union(x, y);
    assert_eq!(f.node(x).rank, 1);
    assert_eq!(f.node(y).rank, 0);
    f.union(y, z);
    assert_eq!(f.node(x).rank, 1);
    assert_eq!(f.node(y).rank, 0);
    assert_eq!(f.node(z).rank, 0);
}

#[test]
fn correct_incrementation() {
    let mut f: Forest<()> = Forest::new();
    let x = f.push(());
    let y = f.push(());
    let z = f.push(());
    let w = f.push(());
    f.union(x, y);
    f.union(w, z);
    f.union(w, x);
    assert_eq!(f.node(w).rank, 2);
}

#[test]
fn no_cycle() {
    let mut f: Forest<()> = Forest::new();
    let x = f.push(());
    let y = f.push(());
    f.union(x, y);
    f.union(y, x);
    assert_eq!(f.find(x), f.find(y));
}

#[test]
fn test_self_find() {
    let mut f: Forest<()> = Forest::new();
    let x = f.push(());
    assert!(f.node(x).is_root());
}

#[test]
fn test_separate() {
    let mut f: Forest<u32> = Forest::new();
    let x = f.push(1);
    let y = f.push(2);
    assert_ne!(f.find(x), f.find(y));
}

#[test]
fn test_union() {
    let mut f: Forest<u32> = Forest::new();
    let x = f.push(1);
    let y = f.push(2);
    f.union(x, y);
    assert_eq!(f.find(x), f.find(y));
}

#[test]
fn test_partition() {
    let v: Vec<u32> = vec![10, 2, 7, 8, 19, 22, 3];

    let mut f: Forest<u32> = Forest::new();
    let mut xs: Vec<usize> = Vec::new();
    for t in v {
        xs.push(f.push(t));
    }

    let odd = f.push(0);
    let even = f.push(0);

    for &x in xs.iter() {
        if f.node(x).tag % 2 == 0 {
            f.union(even, x);
        } else {
            f.union(odd, x);
        }
    }

    let odd_repr = f.find(odd);
    let even_repr = f.find(even);
    let odds = xs
        .iter()
        .filter_map(|&x| {
            if f.find(x) == odd_repr {
                Some(f.node(x).tag)
            } else {
                None
            }
        })
        .collect::<Vec<_>>();
    let evens = xs
        .iter()
        .filter_map(|&x| {
            if f.find(x) == even_repr {
                Some(f.node(x).tag)
            } else {
                None
            }
        })
        .collect::<Vec<_>>();

    assert_eq!(&odds[..], &[7, 19, 3]);
    assert_eq!(&evens[..], &[10, 2, 8, 22]);
}
