use beankey::{
    DictionaryEntry, DictionaryMetadata, UserDictionary, mark_user_dictionary, shard_node_counts,
    user_dictionary_entry,
};

fn entry(word: &str, metadata: u32) -> DictionaryEntry {
    DictionaryEntry {
        word: word.into(),
        ruby: "ヨミ".into(),
        left_id: 3,
        right_id: 4,
        meaning_id: 5,
        base_value_bits: 7,
        adjustment_bits: 9,
        metadata: DictionaryMetadata(metadata),
    }
}

#[test]
fn flags_every_user_entry_and_keeps_the_rest() {
    let marked = mark_user_dictionary(&[entry("a", 0), entry("b", 1), entry("c", 2)]);
    assert_eq!(marked.len(), 3);
    assert_eq!(marked[0].metadata, DictionaryMetadata(2));
    assert_eq!(marked[1].metadata, DictionaryMetadata(3));
    assert_eq!(marked[2].metadata, DictionaryMetadata(2));
    assert_eq!(marked[1].word, "b");
    assert_eq!(marked[1].adjustment_bits, 9);

    let dictionary = UserDictionary::from_entries(&[entry("a", 0)], &[]);
    assert!(!dictionary.is_empty());
    assert_eq!(dictionary.entries()[0].metadata, DictionaryMetadata(2));
    assert!(dictionary.shortcuts().is_empty());
    assert!(UserDictionary::from_entries(&[], &[]).is_empty());
}

#[test]
fn splits_trie_nodes_into_shards() {
    assert_eq!(shard_node_counts(0), Vec::<usize>::new());
    assert_eq!(shard_node_counts(5), vec![5]);
    assert_eq!(shard_node_counts(2048), vec![2048]);
    assert_eq!(shard_node_counts(4100), vec![2048, 2048, 4]);
}

#[test]
fn turns_a_user_item_into_a_katakana_entry() {
    let e = user_dictionary_entry("単語".into(), "たんご");
    assert_eq!(e.word, "単語");
    assert_eq!(e.ruby, "タンゴ");
    assert_eq!((e.left_id, e.right_id, e.meaning_id), (1288, 1288, 501));
    assert_eq!(f32::from_bits(e.base_value_bits), -10.0);
    assert_eq!(f32::from_bits(e.adjustment_bits), 0.0);
    assert_eq!(e.metadata, DictionaryMetadata(2));
}
