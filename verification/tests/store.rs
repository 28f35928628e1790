use beankey::{CharacterIdMap, SHARD_MASK, SHARD_SHIFT, lookup_key, shard_groups};

#[test]
fn groups_nodes_by_shard_in_shard_order() {
    let nodes = [5, (1 << SHARD_SHIFT) + 3, 7, (3 << SHARD_SHIFT) + 1, (1 << SHARD_SHIFT) + 9];
    assert_eq!(
        shard_groups(&nodes),
        vec![(0, vec![5, 7]), (1, vec![3, 9]), (3, vec![1])]
    );
    assert_eq!(shard_groups(&[]), Vec::<(usize, Vec<usize>)>::new());
    assert_eq!(SHARD_MASK, (1 << SHARD_SHIFT) - 1);
}

#[test]
fn looks_up_the_trie_of_a_reading_by_its_first_cluster() {
    let map = CharacterIdMap::parse("ab").unwrap();
    assert_eq!(lookup_key(&map, "ab"), Some(("a".to_string(), vec![0, 1])));
    assert_eq!(lookup_key(&map, "ba"), Some(("b".to_string(), vec![1, 0])));
    assert_eq!(lookup_key(&map, ""), None);
    assert_eq!(lookup_key(&map, "ac"), None);
}
