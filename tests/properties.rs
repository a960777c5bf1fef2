use hash_unionfind::UnionFind;
use std::rc::Rc;

fn leader<T: std::hash::Hash + Eq + Clone + std::fmt::Debug>(uf: &mut UnionFind<T>, id: &T) -> T {
    uf.find(id).unwrap().as_ref().clone()
}

#[test]
fn empty_structure_has_no_members() {
    let mut uf: UnionFind<u32> = UnionFind::new();
    assert_eq!(uf.size(), 0);
    assert_eq!(uf.find(&0), None);
    assert_eq!(uf.union(&0, &0), None);
    assert_eq!(uf.size(), 0);
}

#[test]
fn insert_twice_is_one_insert() {
    let mut uf = UnionFind::new();
    uf.insert(7u64);
    uf.insert(8u64);
    uf.union(&7, &8);
    assert_eq!(uf.size(), 2);
    uf.insert(7u64);
    assert_eq!(uf.size(), 2);
    assert_eq!(leader(&mut uf, &7), 7);
    assert_eq!(leader(&mut uf, &8), 7);
}

#[test]
fn fresh_identifier_leads_itself() {
    let mut uf = UnionFind::new();
    uf.insert(String::from("solo"));
    assert_eq!(uf.size(), 1);
    assert_eq!(uf.find(&String::from("solo")), Some(Rc::new(String::from("solo"))));
}

#[test]
fn find_is_stable() {
    let mut uf = UnionFind::new();
    for i in 0..6u8 {
        uf.insert(i);
    }
    uf.union(&1, &2);
    uf.union(&3, &2);
    let first = uf.find(&3);
    let second = uf.find(&3);
    assert_eq!(first, second);
    assert_eq!(first, Some(Rc::new(1)));
    assert_eq!(uf.find(&5), Some(Rc::new(5)));
}

#[test]
fn union_twice_returns_same_leader() {
    let mut uf = UnionFind::new();
    uf.insert('p');
    uf.insert('q');
    let first = uf.union(&'p', &'q');
    let second = uf.union(&'p', &'q');
    assert_eq!(first, Some(Rc::new('p')));
    assert_eq!(first, second);
    assert_eq!(leader(&mut uf, &'q'), 'p');
    assert_eq!(leader(&mut uf, &'p'), 'p');
    assert_eq!(uf.union(&'q', &'p'), Some(Rc::new('p')));
}

#[test]
fn union_with_itself_returns_its_leader() {
    let mut uf = UnionFind::new();
    uf.insert(1i32);
    assert_eq!(uf.union(&1, &1), Some(Rc::new(1)));
    assert_eq!(uf.size(), 1);
}

#[test]
fn union_is_transitive() {
    let mut uf = UnionFind::new();
    for i in 10..15u16 {
        uf.insert(i);
    }
    uf.union(&10, &11);
    uf.union(&11, &12);
    let l = leader(&mut uf, &10);
    assert_eq!(leader(&mut uf, &11), l);
    assert_eq!(leader(&mut uf, &12), l);
    assert_ne!(leader(&mut uf, &13), l);
}

#[test]
fn unknown_keys_change_nothing() {
    let mut uf = UnionFind::new();
    uf.insert(1u32);
    uf.insert(2u32);
    uf.union(&2, &1);
    assert_eq!(uf.find(&9), None);
    assert_eq!(uf.union(&9, &1), None);
    assert_eq!(uf.union(&1, &9), None);
    assert_eq!(uf.union(&9, &9), None);
    assert_eq!(uf.size(), 2);
    assert_eq!(leader(&mut uf, &1), 2);
    assert_eq!(leader(&mut uf, &2), 2);
}

#[test]
fn equal_ranks_keep_first_leader() {
    let mut uf = UnionFind::new();
    uf.insert(1u32);
    uf.insert(2u32);
    assert_eq!(uf.union(&2, &1), Some(Rc::new(2)));
}

#[test]
fn higher_rank_leader_wins() {
    let mut uf = UnionFind::new();
    for i in 0..3usize {
        uf.insert(i);
    }
    // group {0, 1} has rank 2; the singleton 2 has rank 1
    assert_eq!(uf.union(&0, &1), Some(Rc::new(0)));
    assert_eq!(uf.union(&2, &1), Some(Rc::new(0)));
    assert_eq!(leader(&mut uf, &2), 0);
}

#[test]
fn ranks_add_up_on_merge() {
    let mut uf = UnionFind::new();
    for i in 0..7usize {
        uf.insert(i);
    }
    // {0, 1, 2} has rank 3
    uf.union(&0, &1);
    uf.union(&1, &2);
    // {3, 4} has rank 2: the larger group's leader is kept
    uf.union(&3, &4);
    assert_eq!(uf.union(&3, &2), Some(Rc::new(0)));
    // {5, 6} has rank 2, {0..=4} rank 5
    uf.union(&6, &5);
    assert_eq!(uf.union(&6, &4), Some(Rc::new(0)));
    for i in 0..7usize {
        assert_eq!(leader(&mut uf, &i), 0);
    }
}

#[test]
fn long_chain_is_compressed_to_one_leader() {
    let mut uf = UnionFind::new();
    for i in 0..100u32 {
        uf.insert(i);
    }
    for i in 1..100u32 {
        uf.union(&i, &(i - 1));
    }
    assert_eq!(uf.size(), 100);
    let l = leader(&mut uf, &99);
    assert_eq!(l, 1);
    for i in 0..100u32 {
        assert_eq!(leader(&mut uf, &i), l);
    }
}

#[test]
fn default_is_empty() {
    let uf: UnionFind<&str> = UnionFind::default();
    assert_eq!(uf.size(), 0);
}
