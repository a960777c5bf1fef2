use hash_unionfind::UnionFind;

#[test]
fn union_find() {
    let n = 10;

    let mut uf = UnionFind::default();
    for i in 0..n {
        uf.insert(i);
    }

    // build up one set
    uf.union(&0, &1);
    uf.union(&0, &2);
    uf.union(&0, &3);

    // build up another set
    uf.union(&6, &7);
    uf.union(&6, &8);
    uf.union(&6, &9);

    // indexes:         0, 1, 2, 3, 4, 5, 6, 7, 8, 9
    let expected = vec![0, 0, 0, 0, 4, 5, 6, 6, 6, 6];
    for i in 0..n {
        assert_eq!(uf.find(&i).unwrap().as_ref(), &expected[i]);
    }
}

#[test]
fn test_on_str() {
    let mut uf = UnionFind::new();
    uf.insert("a");
    uf.insert("b");
    uf.insert("c");
    uf.insert("d");
    uf.insert("e");

    uf.union(&"a", &"b");
    uf.union(&"b", &"c");

    uf.union(&"d", &"e");

    assert_eq!(None, uf.union(&"x", &"a"));
    assert_eq!(None, uf.union(&"a", &"x"));
    assert_eq!(None, uf.find(&"x"));

    assert_eq!(uf.find(&"a"), uf.find(&"c"));
    assert_ne!(uf.find(&"a"), uf.find(&"d"));

    uf.union(&"a", &"d");

    assert_eq!(uf.find(&"a"), uf.find(&"e"));
    assert_eq!(&"a", uf.find(&"a").unwrap().as_ref());
}
