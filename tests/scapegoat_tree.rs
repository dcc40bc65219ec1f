use griefer_list::balance::alpha_height_allows;
use griefer_list::keys::compare_keys;
use griefer_list::tree::{ScapegoatNode, ScapegoatTree};

fn depth_bound_holds(tree: &ScapegoatTree) -> bool {
    let h = tree.height();
    h == 0 || alpha_height_allows(h - 1, tree.len())
}

#[test]
fn example_alice_bob() {
    let mut tree = ScapegoatTree::new();
    assert!(tree.insert("alice", 1, 100));
    assert!(tree.insert("bob", 2, 200));
    assert!(!tree.insert("alice", 3, 150));
    let h = tree.search("alice").expect("alice is held");
    let rec = tree.node(h);
    assert_eq!(rec.key(), "alice".as_bytes());
    assert_eq!(rec.ban_count(), 2);
    assert_eq!(rec.last_ban_date(), 150);
    assert!(rec.is_banned_by(1));
    assert!(rec.is_banned_by(3));
    assert!(!rec.is_banned_by(2));
    let b = tree.search("bob").expect("bob is held");
    assert_eq!(tree.node(b).ban_count(), 1);
    assert_eq!(tree.node(b).last_ban_date(), 200);
    assert_eq!(tree.search("carol"), None);
}

#[test]
fn increasing_keys_stay_within_depth_bound() {
    let mut tree = ScapegoatTree::new();
    for i in 0..1000u32 {
        let key = format!("user{:04}", i);
        assert!(tree.insert(&key, (i % 7) as u16, i));
        assert!(depth_bound_holds(&tree), "bound broken after {} keys", i + 1);
    }
    assert_eq!(tree.len(), 1000);
    // floor(log_sqrt2(1000)) = 19, so at most 20 levels.
    assert!(tree.height() <= 20);
    for i in 0..1000u32 {
        let key = format!("user{:04}", i);
        let h = tree.search(&key).expect("every key is found");
        assert_eq!(tree.node(h).key(), key.as_bytes());
        assert_eq!(tree.node(h).last_ban_date(), i);
    }
    assert_eq!(tree.search("user1000"), None);
}

#[test]
fn decreasing_keys_stay_within_depth_bound() {
    let mut tree = ScapegoatTree::new();
    for i in (0..500u32).rev() {
        let key = format!("k{:05}", i);
        tree.insert(&key, 1, i);
        assert!(depth_bound_holds(&tree));
    }
    for i in 0..500u32 {
        assert!(tree.search(&format!("k{:05}", i)).is_some());
    }
}

#[test]
fn scrambled_keys_are_all_found() {
    let mut tree = ScapegoatTree::new();
    let mut x: u32 = 7;
    let mut keys = Vec::new();
    for _ in 0..300 {
        x = x.wrapping_mul(1103515245).wrapping_add(12345) % 100000;
        let key = format!("{}", x);
        tree.insert(&key, (x % 50) as u16, x);
        keys.push(key);
        assert!(depth_bound_holds(&tree));
    }
    for key in &keys {
        let h = tree.search(key).expect("inserted key is found");
        assert_eq!(tree.node(h).key(), key.as_bytes());
    }
    assert_eq!(tree.search("not a number"), None);
    assert_eq!(tree.search(""), None);
}

#[test]
fn idempotent_merge() {
    let mut tree = ScapegoatTree::new();
    assert!(tree.insert("dave", 9, 500));
    assert!(!tree.insert("dave", 9, 500));
    let h = tree.search("dave").unwrap();
    assert_eq!(tree.node(h).ban_count(), 1);
    assert_eq!(tree.node(h).last_ban_date(), 500);
    assert_eq!(tree.len(), 1);
}

#[test]
fn monotone_date_both_orders() {
    let mut a = ScapegoatTree::new();
    a.insert("k", 1, 10);
    a.insert("k", 2, 30);
    let h = a.search("k").unwrap();
    assert_eq!(a.node(h).last_ban_date(), 30);

    let mut b = ScapegoatTree::new();
    b.insert("k", 1, 30);
    b.insert("k", 2, 10);
    let h = b.search("k").unwrap();
    assert_eq!(b.node(h).last_ban_date(), 30);
}

#[test]
fn dedup_ban_list() {
    let mut tree = ScapegoatTree::new();
    for _ in 0..25 {
        tree.insert("eve", 4, 77);
    }
    tree.insert("eve", 5, 1);
    let h = tree.search("eve").unwrap();
    assert_eq!(tree.node(h).ban_count(), 2);
    assert_eq!(tree.node(h).last_ban_date(), 77);
}

#[test]
fn round_trip_handles_are_stable() {
    let mut tree = ScapegoatTree::new();
    tree.insert("m", 1, 5);
    let first = tree.search("m").unwrap();
    for i in 0..200u32 {
        tree.insert(&format!("a{:03}", i), 2, i);
    }
    tree.insert("m", 8, 3);
    let again = tree.search("m").unwrap();
    assert_eq!(first, again);
    assert_eq!(first, 0);
    assert_eq!(tree.node(again).ban_count(), 2);
    assert_eq!(tree.node(again).last_ban_date(), 5);
}

#[test]
fn empty_tree() {
    let tree = ScapegoatTree::new();
    assert_eq!(tree.len(), 0);
    assert_eq!(tree.height(), 0);
    assert_eq!(tree.search("anyone"), None);
}

#[test]
fn empty_key_and_extreme_values() {
    let mut tree = ScapegoatTree::new();
    assert!(tree.insert("", u16::MAX, u32::MAX));
    assert!(!tree.insert("", 0, 0));
    let h = tree.search("").unwrap();
    assert_eq!(tree.node(h).ban_count(), 2);
    assert_eq!(tree.node(h).last_ban_date(), u32::MAX);
}

#[test]
fn fresh_record_is_empty() {
    let n = ScapegoatNode::new();
    assert_eq!(n.key(), b"");
    assert_eq!(n.ban_count(), 0);
    assert_eq!(n.last_ban_date(), 0);
    assert!(!n.is_banned_by(0));
}

#[test]
fn alpha_height_values() {
    assert!(!alpha_height_allows(0, 0));
    assert!(alpha_height_allows(0, 1));
    assert!(!alpha_height_allows(1, 1));
    assert!(alpha_height_allows(2, 2));
    assert!(!alpha_height_allows(3, 2));
    assert!(alpha_height_allows(19, 1000));
    assert!(!alpha_height_allows(20, 1000));
    assert!(alpha_height_allows(127, usize::MAX));
    assert!(!alpha_height_allows(128, usize::MAX));
}

#[test]
fn key_comparison() {
    assert!(compare_keys(b"a", b"b") < 0);
    assert!(compare_keys(b"b", b"a") > 0);
    assert!(compare_keys(b"ab", b"a") > 0);
    assert!(compare_keys(b"", b"a") < 0);
    assert_eq!(compare_keys(b"same", b"same"), 0);
    assert_eq!(compare_keys(b"", b""), 0);
    assert!(compare_keys("Zed".as_bytes(), "alice".as_bytes()) < 0);
}

#[test]
fn new_keys_hang_as_leaves_without_violation() {
    let mut tree = ScapegoatTree::new();
    tree.insert("m", 1, 1);
    tree.insert("f", 1, 1);
    tree.insert("a", 1, 1);
    // "a" hangs two links below the top: no rebuild for three keys.
    assert_eq!(tree.height(), 3);
    assert_eq!(tree.search("a"), Some(2));
    assert_eq!(tree.search("f"), Some(1));
}

#[test]
fn scapegoat_is_the_root_of_a_chain() {
    let mut tree = ScapegoatTree::new();
    for (i, k) in ["a", "b", "c", "d", "e", "f"].iter().enumerate() {
        tree.insert(k, 1, i as u32);
        // a chain of up to six keys stays within 2^depth <= n^2
        assert_eq!(tree.height(), i + 1);
    }
    // depth 6 with 7 keys breaks the bound; every level up to the top passes
    // its own check but the top, so the whole chain is rebuilt.
    tree.insert("g", 1, 6);
    assert_eq!(tree.height(), 3);
    for (i, k) in ["a", "b", "c", "d", "e", "f", "g"].iter().enumerate() {
        assert_eq!(tree.search(k), Some(i));
    }
}

#[test]
fn merge_keeps_the_shape() {
    let mut tree = ScapegoatTree::new();
    for k in ["a", "b", "c", "d", "e", "f"] {
        tree.insert(k, 1, 1);
    }
    assert_eq!(tree.height(), 6);
    assert!(!tree.insert("f", 2, 9));
    assert_eq!(tree.height(), 6);
    assert_eq!(tree.len(), 6);
}
