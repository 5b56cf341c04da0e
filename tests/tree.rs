use chtholly::{ChthollyNode, ChthollyTree};

fn runs(tree: &ChthollyTree) -> Vec<(usize, usize, usize)> {
    tree.nodes().iter().map(|n: &ChthollyNode| (n.left(), n.right(), n.value())).collect()
}

fn check_sorted_disjoint(tree: &ChthollyTree) {
    let r = runs(tree);
    for (l, rr, _) in &r {
        assert!(l <= rr);
    }
    for w in r.windows(2) {
        assert!(w[0].1 < w[1].0);
    }
}

fn check_covers(tree: &ChthollyTree, n: usize) {
    let r = runs(tree);
    let mut next = 0;
    for (l, rr, _) in &r {
        assert_eq!(*l, next);
        next = rr + 1;
    }
    assert_eq!(next, n);
}

struct Lcg(usize);

impl Lcg {
    fn next(&mut self) -> usize {
        let ret = self.0;
        self.0 = (self.0 * 7 + 13) % 1_000_000_007;
        ret
    }
}

fn naive_pow_sum(a: &[usize], l: usize, r: usize, p: u32, m: usize) -> usize {
    let mut s: u128 = 0;
    for i in l..=r {
        let mut acc: u128 = 1 % m as u128;
        for _ in 0..p {
            acc = acc * (a[i] as u128 % m as u128) % m as u128;
        }
        s = (s + acc) % m as u128;
    }
    s as usize
}

#[test]
fn from_slice_makes_one_node_per_element() {
    let tree = ChthollyTree::from_slice(&[4, 7, 1]);
    assert_eq!(runs(&tree), vec![(0, 0, 4), (1, 1, 7), (2, 2, 1)]);
    assert_eq!(tree.nth(0, 1), Some(7));
}

#[test]
fn empty_tree_queries_give_nothing() {
    let mut tree = ChthollyTree::default();
    assert!(tree.split(0).is_none());
    assert_eq!(tree.nth(0, 0), None);
    assert_eq!(tree.pow_sum(0, 10, 2, 7), 0);
    tree.add(0, 5, 3);
    assert!(runs(&tree).is_empty());
}

#[test]
fn split_cuts_a_run_in_two() {
    let mut tree = ChthollyTree::from_slice(&[1, 2, 3, 4, 5]);
    tree.merge(1, 3, 9);
    assert_eq!(runs(&tree), vec![(0, 0, 1), (1, 3, 9), (4, 4, 5)]);
    let node = *tree.split(2).expect("index 2 is held");
    assert_eq!((node.left(), node.right(), node.value()), (2, 3, 9));
    assert!(node.contains(3));
    assert!(!node.contains(1));
    assert_eq!(node.len(), 2);
    assert_eq!(runs(&tree), vec![(0, 0, 1), (1, 1, 9), (2, 3, 9), (4, 4, 5)]);
}

#[test]
fn split_twice_equals_split_once() {
    let mut tree = ChthollyTree::from_slice(&[1, 2, 3, 4, 5, 6]);
    tree.merge(0, 5, 8);
    tree.split(3);
    let once = runs(&tree);
    tree.split(3);
    assert_eq!(runs(&tree), once);
    assert_eq!(once, vec![(0, 2, 8), (3, 5, 8)]);
}

#[test]
fn split_at_existing_boundary_returns_that_node() {
    let mut tree = ChthollyTree::from_slice(&[5, 6]);
    let node = *tree.split(1).expect("index 1 is held");
    assert_eq!((node.left(), node.right(), node.value()), (1, 1, 6));
    assert_eq!(runs(&tree), vec![(0, 0, 5), (1, 1, 6)]);
}

#[test]
fn split_before_first_run_changes_nothing() {
    let mut tree = ChthollyTree::default();
    tree.merge(3, 6, 2);
    let before = runs(&tree);
    assert!(tree.split(1).is_none());
    assert_eq!(runs(&tree), before);
}

#[test]
fn split_past_the_end_returns_nothing() {
    let mut tree = ChthollyTree::from_slice(&[1, 2, 3]);
    assert!(tree.split(3).is_none());
    assert_eq!(runs(&tree), vec![(0, 0, 1), (1, 1, 2), (2, 2, 3)]);
}

#[test]
fn merge_coalesces_the_span() {
    let mut tree = ChthollyTree::from_slice(&[1, 2, 3, 4, 5, 6, 7]);
    tree.add(2, 4, 10);
    tree.merge(1, 5, 0);
    let r = runs(&tree);
    assert_eq!(r.iter().filter(|x| **x == (1, 5, 0)).count(), 1);
    for &(l, rr, v) in &r {
        if (l, rr, v) != (1, 5, 0) {
            assert!(rr < 1 || l > 5);
        }
    }
    assert_eq!(r, vec![(0, 0, 1), (1, 5, 0), (6, 6, 7)]);
}

#[test]
fn merge_whole_range_leaves_one_node() {
    let mut tree = ChthollyTree::from_slice(&[3, 1, 4, 1, 5]);
    tree.merge(0, 4, 2);
    assert_eq!(runs(&tree), vec![(0, 4, 2)]);
    assert_eq!(tree.pow_sum(0, 4, 3, 1000), 40);
}

#[test]
fn merge_into_empty_tree_creates_a_node() {
    let mut tree = ChthollyTree::default();
    tree.merge(2, 4, 7);
    assert_eq!(runs(&tree), vec![(2, 4, 7)]);
    assert_eq!(tree.nth(3, 0), Some(7));
    assert_eq!(tree.nth(3, 1), Some(7));
    assert_eq!(tree.nth(3, 2), None);
    assert_eq!(tree.nth(1, 0), None);
}

#[test]
fn merge_over_a_gap_removes_inner_nodes() {
    let mut tree = ChthollyTree::default();
    tree.merge(2, 3, 1);
    tree.merge(6, 8, 2);
    tree.merge(0, 7, 5);
    assert_eq!(runs(&tree), vec![(0, 7, 5), (8, 8, 2)]);
}

#[test]
fn add_changes_only_the_span() {
    let mut tree = ChthollyTree::from_slice(&[1, 1, 1, 1]);
    tree.merge(0, 3, 1);
    tree.add(1, 2, 5);
    assert_eq!(runs(&tree), vec![(0, 0, 1), (1, 2, 6), (3, 3, 1)]);
}

#[test]
fn add_before_first_run_is_a_no_op() {
    let mut tree = ChthollyTree::default();
    tree.merge(4, 6, 1);
    tree.add(0, 10, 3);
    assert_eq!(runs(&tree), vec![(4, 6, 1)]);
}

#[test]
fn nth_zero_inside_a_run_is_its_value() {
    let mut tree = ChthollyTree::from_slice(&[0, 0, 0, 0, 0, 0]);
    tree.merge(1, 4, 9);
    assert_eq!(tree.nth(3, 0), Some(9));
    assert_eq!(tree.nth(3, 1), Some(9));
    assert_eq!(tree.nth(3, 2), Some(0));
    assert_eq!(tree.nth(3, 3), None);
    assert_eq!(tree.nth(10, 0), None);
}

#[test]
fn pow_sum_exact_values() {
    let tree = ChthollyTree::from_slice(&[1, 2, 3]);
    assert_eq!(tree.pow_sum(0, 2, 2, 100), 14);
    assert_eq!(tree.pow_sum(0, 2, 2, 5), 4);
    assert_eq!(tree.pow_sum(1, 1, 0, 7), 1);
    assert_eq!(tree.pow_sum(0, 2, 1, 1), 0);
    let big = ChthollyTree::from_slice(&[2]);
    assert_eq!(big.pow_sum(0, 0, 100, 1_000_000_007), 976_371_285);
    let three = ChthollyTree::from_slice(&[3]);
    assert_eq!(three.pow_sum(0, 0, 4_000_000_000, 998_244_353), 781_964_615);
}

#[test]
fn pow_sum_with_word_sized_values() {
    let tree = ChthollyTree::from_slice(&[usize::MAX - 1]);
    assert_eq!(tree.pow_sum(0, 0, 3, usize::MAX), usize::MAX - 1);
    let mut wide = ChthollyTree::from_slice(&[7, 7]);
    wide.merge(0, 1, 7);
    assert_eq!(wide.pow_sum(0, 1, 13, 1000), 814);
}

#[test]
fn pow_sum_counts_partial_overlap() {
    let mut tree = ChthollyTree::from_slice(&[0; 10]);
    tree.merge(0, 9, 3);
    assert_eq!(tree.pow_sum(2, 5, 2, 1000), 36);
    assert_eq!(runs(&tree), vec![(0, 9, 3)]);
}

#[test]
fn node_len_and_contains() {
    let mut tree = ChthollyTree::default();
    tree.merge(5, 9, 1);
    let node = *tree.split(5).expect("index 5 is held");
    assert_eq!(node.len(), 5);
    assert!(node.contains(5) && node.contains(9));
    assert!(!node.contains(4) && !node.contains(10));
}

#[test]
fn random_operations_match_a_plain_array() {
    for seed in [1usize, 7, 9, 42, 12345] {
        let n = 30;
        let mut rng = Lcg(seed);
        let mut a: Vec<usize> = (0..n).map(|_| rng.next() % 20 + 1).collect();
        let mut tree = ChthollyTree::from_slice(&a);
        for _ in 0..300 {
            let op = rng.next() % 5;
            let mut l = rng.next() % n;
            let mut r = rng.next() % n;
            if l > r {
                std::mem::swap(&mut l, &mut r);
            }
            match op {
                0 => {
                    let v = rng.next() % 20;
                    tree.add(l, r, v);
                    for x in &mut a[l..=r] {
                        *x += v;
                    }
                }
                1 => {
                    let v = rng.next() % 20;
                    tree.merge(l, r, v);
                    for x in &mut a[l..=r] {
                        *x = v;
                    }
                }
                2 => {
                    let x = rng.next() % (n + 2);
                    let expect = if l + x < n { Some(a[l + x]) } else { None };
                    assert_eq!(tree.nth(l, x), expect);
                }
                3 => {
                    let p = (rng.next() % 6) as u32;
                    let m = rng.next() % 50 + 1;
                    assert_eq!(tree.pow_sum(l, r, p, m), naive_pow_sum(&a, l, r, p, m));
                }
                _ => {
                    tree.split(l);
                }
            }
            check_sorted_disjoint(&tree);
            check_covers(&tree, n);
        }
    }
}
