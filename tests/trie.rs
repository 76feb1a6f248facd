use fast_trie::{shard_amount, Error, Node, Trie};

fn sorted(mut v: Vec<u32>) -> Vec<u32> {
    v.sort();
    v
}

#[test]
fn get_after_insert() {
    let mut trie: Trie<u8, u32> = Trie::new();
    assert_eq!(trie.insert(&[0, 1, 1], 7), Some(&7));
    assert_eq!(trie.get(&[0, 1, 1]), Some(&7));
    assert_eq!(trie.get(&[0, 1]), None);
    assert_eq!(trie.get(&[0, 1, 1, 0]), None);
    assert_eq!(trie.get(&[]), None);
}

#[test]
fn overwrite_keeps_last_value() {
    let mut trie: Trie<u8, u32> = Trie::new();
    assert_eq!(trie.insert(&[0, 1, 1], 7), Some(&7));
    assert_eq!(trie.insert(&[0, 1, 1], 42), Some(&42));
    assert_eq!(trie.get(&[0, 1, 1]), Some(&42));
    assert_eq!(trie.iter(), vec![&42]);
}

#[test]
fn remove_after_insert() {
    let mut trie: Trie<u8, u32> = Trie::new();
    trie.insert(&[3, 4], 9);
    assert_eq!(trie.remove(&[3, 4]), Some(9));
    assert_eq!(trie.get(&[3, 4]), None);
    assert_eq!(trie.remove(&[3, 4]), None);
}

#[test]
fn remove_keeps_key_with_shared_prefix() {
    let mut trie: Trie<u8, u32> = Trie::new();
    trie.insert(&[1, 2, 3], 1);
    trie.insert(&[1, 2, 4], 2);
    trie.insert(&[1], 3);
    assert_eq!(trie.remove(&[1, 2, 3]), Some(1));
    assert_eq!(trie.get(&[1, 2, 4]), Some(&2));
    assert_eq!(trie.get(&[1]), Some(&3));
    assert_eq!(trie.remove(&[1]), Some(3));
    assert_eq!(trie.get(&[1, 2, 4]), Some(&2));
}

#[test]
fn iter_yields_live_values() {
    let mut trie: Trie<u8, u32> = Trie::new();
    assert!(trie.iter().is_empty());
    trie.insert(&[], 10);
    trie.insert(&[1], 11);
    trie.insert(&[1, 2], 12);
    trie.insert(&[2, 2], 12);
    trie.insert(&[1, 2], 13);
    trie.remove(&[1]);
    let values: Vec<u32> = trie.iter().into_iter().copied().collect();
    assert_eq!(sorted(values), vec![10, 12, 13]);
}

#[test]
fn insert_then_remove_all_empties_the_trie() {
    let mut trie: Trie<u8, u32> = Trie::new();
    let keys: Vec<Vec<u8>> = vec![vec![0], vec![0, 1], vec![0, 1, 2], vec![5, 6], vec![]];
    let mut i: u32 = 0;
    for k in keys.iter() {
        trie.insert(k, i);
        i += 1;
    }
    for k in keys.iter() {
        assert!(trie.remove(k).is_some());
    }
    assert!(trie.iter().is_empty());
    for k in keys.iter() {
        assert_eq!(trie.get(k), None);
    }
    assert!(trie.entry(&[]).is_none());
    assert_eq!(trie.insert(&[0, 1], 99), Some(&99));
    assert_eq!(trie.get(&[0, 1]), Some(&99));
}

#[test]
fn remove_then_insert_prunes_and_rebuilds() {
    let mut trie: Trie<char, u32> = Trie::new();
    trie.insert(&['a'], 1);
    trie.insert(&['a', 'b'], 2);
    assert_eq!(trie.remove(&['a', 'b']), Some(2));
    assert_eq!(trie.remove(&['a']), Some(1));
    assert!(trie.iter().is_empty());
    trie.insert(&['a', 'b'], 3);
    assert_eq!(trie.get(&['a']), None);
    assert_eq!(trie.get(&['a', 'b']), Some(&3));
}

#[test]
fn try_remove_reports_not_found() {
    let mut trie: Trie<u8, u32> = Trie::new();
    assert_eq!(trie.try_remove(&[1]), Err(Error::NotFound));
    trie.insert(&[1, 2], 5);
    assert_eq!(trie.try_remove(&[1]), Err(Error::NotFound));
    assert_eq!(trie.try_remove(&[1, 3]), Err(Error::NotFound));
    assert_eq!(trie.try_remove(&[1, 2]), Ok(5));
    assert_eq!(trie.try_insert(&[1], 6), Ok(&6));
}

#[test]
fn entry_walks_the_tree() {
    let mut trie: Trie<u8, u32> = Trie::new();
    trie.insert(&[1, 2, 3], 4);
    trie.insert(&[1], 5);
    let e = trie.entry(&[1]).unwrap();
    assert_eq!(e.get(), Some(&5));
    assert!(!e.is_removed());
    let c = e.child(&2).unwrap();
    assert_eq!(c.get(), None);
    assert_eq!(c.find(&[3]).unwrap().get(), Some(&4));
    assert!(e.child(&9).is_none());
    assert!(trie.entry(&[1, 7]).is_none());
}

#[test]
fn retired_node_refuses_work() {
    let mut node: Node<u8, u32> = Node::new();
    assert_eq!(node.insert_at(&[], 1), Ok(&1));
    assert_eq!(node.remove_at(&[]), Ok((1, true)));
    assert!(node.is_removed());
    assert_eq!(node.insert(2), Err(Error::Retry));
    assert_eq!(node.insert_at(&[4], 2), Err(Error::Retry));
    assert_eq!(node.remove_at(&[4]), Err(Error::Retry));
    assert_eq!(node.remove_at(&[]), Err(Error::NotFound));
    assert_eq!(node.get(), None);
    assert!(node.iter().is_empty());
}

#[test]
fn node_remove_reports_emptiness() {
    let mut node: Node<u8, u32> = Node::new();
    node.insert_at(&[1, 2], 7);
    node.insert_at(&[1], 8);
    assert_eq!(node.remove_at(&[1, 2]), Ok((7, false)));
    assert_eq!(node.get_at(&[1]), Some(&8));
    assert_eq!(node.remove_at(&[1]), Ok((8, true)));
    assert!(node.is_removed());
}

#[test]
fn node_remove_keeps_value_holder() {
    let mut node: Node<u8, u32> = Node::new();
    node.insert_at(&[], 1);
    node.insert_at(&[2], 2);
    assert_eq!(node.remove_at(&[2]), Ok((2, false)));
    assert!(!node.is_removed());
    assert_eq!(node.get(), Some(&1));
    assert!(node.child(&2).is_none());
}

#[test]
fn shard_amount_is_next_power_of_two() {
    assert_eq!(shard_amount(1), 4);
    assert_eq!(shard_amount(3), 16);
    assert_eq!(shard_amount(4), 16);
    assert_eq!(shard_amount(5), 32);
    assert_eq!(shard_amount(12), 64);
}

#[test]
fn default_trie_is_empty() {
    let mut trie: Trie<u16, u32> = Trie::default();
    assert!(trie.iter().is_empty());
    assert_eq!(trie.get(&[1]), None);
    assert_eq!(trie.insert(&[1, 300], 5), Some(&5));
    let node: Node<u16, u32> = Node::default();
    assert!(!node.is_removed());
    assert_eq!(node.get(), None);
}

#[test]
fn removal_prunes_empty_path() {
    let mut trie: Trie<u8, u32> = Trie::new();
    trie.insert(&[1, 2, 3], 1);
    trie.insert(&[1, 4], 2);
    assert_eq!(trie.remove(&[1, 2, 3]), Some(1));
    assert!(trie.entry(&[1, 2]).is_none());
    assert!(trie.entry(&[1]).is_some());
    assert_eq!(trie.remove(&[1, 4]), Some(2));
    assert!(trie.entry(&[1]).is_none());
    assert!(trie.entry(&[]).is_none());
}
