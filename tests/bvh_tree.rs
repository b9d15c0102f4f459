use pathtracer::bvh::{BvhTree, NO_CHILD};

#[test]
fn root_holds_every_primitive() {
    let t = BvhTree::root(4, "all");
    assert_eq!(t.len(), 1);
    assert_eq!(t.n_prims(), 4);
    assert_eq!(t.children(0), (NO_CHILD, NO_CHILD));
    assert_eq!(t.elements(0), &vec![0, 1, 2, 3]);
    assert_eq!(*t.bbox(0), "all");
}

#[test]
fn split_partitions_by_mask() {
    let mut t = BvhTree::root(5, 0u8);
    assert!(t.split_node(0, &vec![true, false, true, false, false], 1, 2));
    assert_eq!(t.len(), 3);
    assert_eq!(t.children(0), (1, 2));
    assert!(t.elements(0).is_empty());
    assert_eq!(t.elements(1), &vec![0, 2]);
    assert_eq!(t.elements(2), &vec![1, 3, 4]);
    assert_eq!(*t.bbox(1), 1);
    assert_eq!(*t.bbox(2), 2);
    assert!(t.split_node(2, &vec![false, true, true], 3, 4));
    assert_eq!(t.children(2), (3, 4));
    assert_eq!(t.elements(3), &vec![3, 4]);
    assert_eq!(t.elements(4), &vec![1]);
}

#[test]
fn split_refuses_one_sided_mask() {
    let mut t = BvhTree::root(3, ());
    assert!(!t.split_node(0, &vec![true, true, true], (), ()));
    assert!(!t.split_node(0, &vec![false, false, false], (), ()));
    assert_eq!(t.len(), 1);
    assert_eq!(t.elements(0), &vec![0, 1, 2]);
}

#[test]
fn split_refuses_wrong_mask_length_or_node() {
    let mut t = BvhTree::root(3, ());
    assert!(!t.split_node(0, &vec![true, false], (), ()));
    assert!(!t.split_node(5, &vec![true, false, true], (), ()));
    assert!(t.split_node(0, &vec![true, false, true], (), ()));
    assert!(!t.split_node(0, &vec![true, false, true], (), ()));
    assert_eq!(t.len(), 3);
}

#[test]
fn empty_and_single_roots() {
    let t = BvhTree::root(0, ());
    assert_eq!(t.len(), 1);
    assert!(t.elements(0).is_empty());
    let mut one = BvhTree::root(1, ());
    assert!(!one.split_node(0, &vec![true], (), ()));
}

#[test]
fn build_halves_until_single() {
    let t = pathtracer::bvh::build(4, (0usize, 4usize), |e: &Vec<usize>, b: &(usize, usize)| {
        let mid = e.len() / 2;
        let mask: Vec<bool> = (0..e.len()).map(|i| i < mid).collect();
        Some((mask, (b.0, b.0 + mid), (b.0 + mid, b.1)))
    });
    assert_eq!(t.len(), 7);
    assert_eq!(t.children(0), (1, 2));
    assert!(t.elements(1).is_empty());
    assert!(t.elements(2).is_empty());
    assert_eq!(t.children(1), (3, 4));
    assert_eq!(t.children(2), (5, 6));
    assert_eq!(t.elements(3), &vec![0]);
    assert_eq!(t.elements(4), &vec![1]);
    assert_eq!(t.elements(5), &vec![2]);
    assert_eq!(t.elements(6), &vec![3]);
    assert_eq!(*t.bbox(1), (0, 2));
    assert_eq!(*t.bbox(6), (3, 4));
}

#[test]
fn build_declining_keeps_root_leaf() {
    let t = pathtracer::bvh::build(3, (), |_: &Vec<usize>, _: &()| None);
    assert_eq!(t.len(), 1);
    assert_eq!(t.elements(0), &vec![0, 1, 2]);
}

#[test]
fn build_ignores_invalid_mask() {
    let t = pathtracer::bvh::build(3, (), |e: &Vec<usize>, _: &()| Some((vec![true; e.len()], (), ())));
    assert_eq!(t.len(), 1);
    let u = pathtracer::bvh::build(3, (), |_: &Vec<usize>, _: &()| Some((vec![true, false], (), ())));
    assert_eq!(u.len(), 1);
}

fn halving_tree() -> BvhTree<(usize, usize)> {
    pathtracer::bvh::build(4, (0usize, 4usize), |e: &Vec<usize>, b: &(usize, usize)| {
        let mid = e.len() / 2;
        let mask: Vec<bool> = (0..e.len()).map(|i| i < mid).collect();
        Some((mask, (b.0, b.0 + mid), (b.0 + mid, b.1)))
    })
}

#[test]
fn leaves_hit_follows_accepted_boxes() {
    let t = halving_tree();
    assert_eq!(t.leaves_hit(|b: &(usize, usize)| b.0 <= 2 && 2 < b.1 || b.1 - b.0 > 1), vec![5]);
    assert_eq!(t.leaves_hit(|_: &(usize, usize)| true), vec![3, 4, 5, 6]);
    assert_eq!(t.leaves_hit(|b: &(usize, usize)| b.0 < 2), vec![3, 4]);
}

#[test]
fn leaves_hit_nothing_when_root_missed() {
    let t = halving_tree();
    assert_eq!(t.leaves_hit(|b: &(usize, usize)| *b != (0, 4)), Vec::<usize>::new());
}

#[test]
fn leaves_hit_single_leaf_tree() {
    let t = BvhTree::root(3, 7u32);
    assert_eq!(t.leaves_hit(|b: &u32| *b == 7), vec![0]);
    assert_eq!(t.leaves_hit(|b: &u32| *b == 8), Vec::<usize>::new());
}
