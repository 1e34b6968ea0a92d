use cplib::rerooting::{Rerooting, RerootingData};
use std::cmp::max;

struct Data {}

impl RerootingData for Data {
    type Cost = usize;
    type Data = usize;
    fn spec_merge(&self, first: usize, second: usize) -> usize {
        max(first, second)
    }
    fn spec_apply(&self, value: usize, _: usize, _: usize, cost: usize) -> usize {
        value + cost
    }
    fn spec_e(&self) -> usize {
        0
    }
    fn spec_leaf(&self) -> usize {
        0
    }
    fn merge(&self, first: Self::Data, second: Self::Data) -> Self::Data {
        max(first, second)
    }
    fn apply(&self, value: Self::Data, _: usize, _: usize, cost: Self::Cost) -> Self::Data {
        value + cost
    }
    fn e(&self) -> Self::Data {
        0
    }
    fn leaf(&self) -> Self::Data {
        0
    }
}

#[test]
fn test_rerooting_farthest_path() {
    //      0
    //     / \
    //    1   2
    //   /
    //  3
    let g = vec![vec![1, 2], vec![0, 3], vec![0], vec![1]];
    let mut rerooting = Rerooting::new_from_graph(g, Data {});
    let ans = rerooting.run(0);
    assert_eq!(ans, vec![2, 2, 3, 3]);
}

#[test]
fn farthest_path_does_not_depend_on_start() {
    let g = vec![vec![1, 2], vec![0, 3], vec![0], vec![1]];
    let mut rerooting = Rerooting::new_from_graph(g, Data {});
    assert_eq!(rerooting.run(3), vec![2, 2, 3, 3]);
    assert_eq!(rerooting.run(2), vec![2, 2, 3, 3]);
}

#[test]
fn weighted_farthest_distance() {
    // 0 -5- 1 -3- 2, and 1 -4- 3
    let g = vec![
        vec![(1, 5)],
        vec![(0, 5), (2, 3), (3, 4)],
        vec![(1, 3)],
        vec![(1, 4)],
    ];
    let mut rerooting = Rerooting::new_from_graph_with_cost(g, Data {});
    assert_eq!(rerooting.run(0), vec![9, 5, 8, 9]);
}

#[test]
fn single_node_is_a_leaf() {
    let mut rerooting = Rerooting::new_from_graph(vec![vec![]], Data {});
    assert_eq!(rerooting.run(0), vec![0]);
}

/// Number of nodes in the tree, counted from every root.
struct SubtreeSize;

impl RerootingData for SubtreeSize {
    type Cost = u32;
    type Data = u32;
    fn spec_merge(&self, first: u32, second: u32) -> u32 {
        first + second
    }
    fn spec_apply(&self, value: u32, _: usize, _: usize, _: u32) -> u32 {
        value + 1
    }
    fn spec_e(&self) -> u32 {
        0
    }
    fn spec_leaf(&self) -> u32 {
        0
    }
    fn merge(&self, first: u32, second: u32) -> u32 {
        first + second
    }
    fn apply(&self, value: u32, _: usize, _: usize, _: u32) -> u32 {
        value + 1
    }
    fn e(&self) -> u32 {
        0
    }
    fn leaf(&self) -> u32 {
        0
    }
}

#[test]
fn every_root_sees_the_whole_tree() {
    let g = vec![vec![1], vec![0, 2, 4], vec![1, 3], vec![2], vec![1]];
    let mut rerooting = Rerooting::new_from_graph(g, SubtreeSize);
    assert_eq!(rerooting.run(0), vec![4, 4, 4, 4, 4]);
}
