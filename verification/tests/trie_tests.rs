use trie::trie::Trie;

#[test]
fn fetch_works() {
    let mut t = Trie::new();
    t.insert(vec![1], 3);
    let f = t.fetch(vec![1]);
    assert_eq!(f, Some(3));
}

#[test]
fn deep_fetch_works() {
    let mut t = Trie::new();
    t.insert(vec![1, 2, 3], 4);

    let v1 = t.fetch(vec![1]);
    assert_eq!(v1, None);

    let v2 = t.fetch(vec![1, 2, 3]);
    assert_eq!(v2, Some(4));
}

#[test]
fn insert_works_if_none() {
    let mut t = Trie::new();
    t.insert(vec![1, 2, 3], 4);
    t.insert(vec![1, 2], 5);

    assert_eq!(t.fetch(vec![1]), None);
    assert_eq!(t.fetch(vec![1, 2]), Some(5));
    assert_eq!(t.fetch(vec![1, 2, 3]), Some(4));
}

#[test]
fn works_with_multiple_types() {
    let mut t = Trie::new();
    t.insert(vec![1, 2, 3], "hello");
    t.insert(vec![1, 3, 4], "goodbye");

    assert_eq!(t.fetch(vec![1]), None);
    assert_eq!(t.fetch(vec![1, 2, 3]), Some("hello"));
    assert_eq!(t.fetch(vec![1, 3, 4]), Some("goodbye"));
}

#[test]
fn empty_path_addresses_the_root() {
    let mut t: Trie<u32, u64> = Trie::new();
    assert_eq!(t.fetch(vec![]), None);
    t.insert(vec![], 7);
    assert_eq!(t.fetch(vec![]), Some(7));
}

#[test]
fn root_value_does_not_shadow_deeper_paths() {
    let mut t: Trie<u32, u64> = Trie::new();
    t.insert(vec![], 1);
    t.insert(vec![9], 2);
    assert_eq!(t.fetch(vec![]), Some(1));
    assert_eq!(t.fetch(vec![9]), Some(2));
}

#[test]
fn intermediate_nodes_hold_no_value() {
    let mut t: Trie<u8, &str> = Trie::new();
    t.insert(vec![10, 20], "leaf");
    assert_eq!(t.fetch(vec![10]), None);
    assert_eq!(t.fetch(vec![10, 20]), Some("leaf"));
}

#[test]
fn sibling_paths_do_not_interfere() {
    let mut t: Trie<i64, i64> = Trie::new();
    t.insert(vec![5, 6], 60);
    t.insert(vec![5, 7], 70);
    t.insert(vec![8], 80);
    assert_eq!(t.fetch(vec![5]), None);
    assert_eq!(t.fetch(vec![5, 6]), Some(60));
    assert_eq!(t.fetch(vec![5, 7]), Some(70));
    assert_eq!(t.fetch(vec![8]), Some(80));
}

#[test]
fn char_keys_work() {
    let mut t: Trie<char, u32> = Trie::new();
    t.insert(vec!['c', 'a', 't'], 1);
    t.insert(vec!['c', 'a', 'r'], 2);
    assert_eq!(t.fetch(vec!['c', 'a']), None);
    assert_eq!(t.fetch(vec!['c', 'a', 't']), Some(1));
    assert_eq!(t.fetch(vec!['c', 'a', 'r']), Some(2));
}

#[test]
fn bool_keys_work() {
    let mut t: Trie<bool, &str> = Trie::new();
    t.insert(vec![true, false], "tf");
    t.insert(vec![true, true], "tt");
    assert_eq!(t.fetch(vec![true]), None);
    assert_eq!(t.fetch(vec![true, false]), Some("tf"));
    assert_eq!(t.fetch(vec![true, true]), Some("tt"));
}

#[test]
fn fetched_value_is_an_independent_copy() {
    let mut t: Trie<u16, i32> = Trie::new();
    t.insert(vec![1], -5);
    let a = t.fetch(vec![1]);
    let b = t.fetch(vec![1]);
    assert_eq!(a, Some(-5));
    assert_eq!(b, Some(-5));
}
