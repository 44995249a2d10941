use std::collections::HashMap;

use dedup_rs::union_find::UnionFind;

#[test]
fn union_test_union_find_operations() {
    let mut uf = UnionFind::new();
    uf.union(1, 2);
    uf.union(2, 3);
    uf.union(4, 5);
    assert_eq!(uf.find(1), 1);
    assert_eq!(uf.find(2), 1);
    assert_eq!(uf.find(3), 1);
    assert_eq!(uf.find(4), 4);
    assert_eq!(uf.find(5), 4);
    assert_eq!(*uf.rank().get(&1).unwrap(), 1);
    assert_eq!(*uf.rank().get(&2).unwrap(), 0);
    uf.union(3, 4);
    assert!(uf.find(1) == uf.find(5));
    assert_eq!(uf.find(7), 7);
    assert_eq!(*uf.rank().get(&7).unwrap_or(&0), 0);
}

#[test]
fn unionfind_test_union_find_operations() {
    let mut uf = UnionFind::new();
    uf.union(1, 2);
    uf.union(2, 3);
    uf.union(4, 5);
    assert_eq!(uf.find(1), 1);
    assert_eq!(uf.find(2), 1);
    assert_eq!(uf.find(3), 1);
    assert_eq!(uf.find(4), 4);
    assert_eq!(uf.find(5), 4);
    assert_eq!(*uf.rank().get(&1).unwrap(), 1);
    assert_eq!(*uf.rank().get(&2).unwrap(), 0);
    uf.union(3, 4);
    assert!(uf.find(1) == uf.find(5));
    assert_eq!(uf.find(7), 7);
    assert_eq!(*uf.rank().get(&7).unwrap_or(&0), 0);
    // store and rebuild
    let (parent, rank, edges) = uf.into_parts();
    let again = UnionFind::from_parts(parent.clone(), rank.clone(), edges).unwrap();
    assert_eq!(again.parent(), &parent);
    assert_eq!(again.rank(), &rank);
    assert_eq!(again.edges(), edges);
}

#[test]
fn find_is_idempotent_and_adds_new_nodes() {
    let mut uf = UnionFind::new();
    assert_eq!(uf.find(9), 9);
    assert_eq!(uf.parent().get(&9), Some(&9));
    uf.union(9, 10);
    uf.union(11, 10);
    let r = uf.find(11);
    assert_eq!(uf.find(r), r);
    assert_eq!(uf.find(10), r);
    assert_eq!(uf.find(9), r);
    assert_ne!(uf.find(12), r);
}

#[test]
fn edges_count_merging_unions_only() {
    let mut uf = UnionFind::new();
    uf.union(1, 2);
    uf.union(2, 1);
    uf.union(1, 1);
    assert_eq!(uf.edges(), 1);
    uf.union(3, 4);
    uf.union(4, 2);
    uf.union(3, 1);
    assert_eq!(uf.edges(), 3);
}

#[test]
fn higher_rank_root_wins() {
    let mut uf = UnionFind::new();
    uf.union(1, 2);
    // 1 has rank 1, 5 has rank 0: 1 stays the root whichever side it is on
    uf.union(5, 1);
    assert_eq!(uf.find(5), 1);
    assert_eq!(*uf.rank().get(&1).unwrap(), 1);
    assert_eq!(*uf.rank().get(&5).unwrap(), 0);
}

#[test]
fn reset_forgets_everything() {
    let mut uf = UnionFind::new();
    uf.union(1, 2);
    uf.reset();
    assert!(uf.parent().is_empty());
    assert!(uf.rank().is_empty());
    assert_eq!(uf.edges(), 0);
    assert_eq!(uf.find(2), 2);
}

#[test]
fn batch_find_gives_roots() {
    let mut uf = UnionFind::new();
    uf.union(1, 2);
    uf.union(3, 4);
    assert_eq!(uf.batch_find(&[2, 4, 6, 1]), vec![1, 3, 6, 1]);
}

#[test]
fn from_parts_rejects_broken_parts() {
    let mut parent = HashMap::new();
    parent.insert(1usize, 2usize);
    assert!(UnionFind::from_parts(parent.clone(), HashMap::new(), 0).is_none());
    parent.insert(2, 2);
    // rank of 2 does not exceed rank of 1
    assert!(UnionFind::from_parts(parent.clone(), HashMap::new(), 0).is_none());
    let mut rank = HashMap::new();
    rank.insert(2usize, 1usize);
    let mut uf = UnionFind::from_parts(parent.clone(), rank.clone(), 1).unwrap();
    assert_eq!(uf.find(1), 2);
    rank.insert(8, 0);
    assert!(UnionFind::from_parts(parent, rank, 1).is_none());
}

#[test]
fn union_links_loser_to_winner() {
    let mut uf = UnionFind::new();
    uf.union(1, 2);
    assert_eq!(uf.parent().get(&2), Some(&1));
    assert_eq!(uf.parent().get(&1), Some(&1));
}

#[test]
fn find_points_path_at_root() {
    let mut uf = UnionFind::new();
    uf.union(1, 2);
    uf.union(3, 4);
    uf.union(1, 3);
    assert_eq!(uf.parent().get(&4), Some(&3));
    assert_eq!(uf.parent().get(&3), Some(&1));
    assert_eq!(uf.find(4), 1);
    assert_eq!(uf.parent().get(&4), Some(&1));
    assert_eq!(uf.parent().get(&2), Some(&1));
}
