use beankey::{CharacterIdMap, DictionaryMetadata, Louds, LoudsError, escaped_identifier, prefix_nodes};

fn encoded_louds(bits: &[bool]) -> Vec<u8> {
    let mut words = Vec::new();
    for chunk in bits.chunks(64) {
        let mut word = 0_u64;
        for (index, value) in chunk.iter().enumerate() {
            if *value {
                word |= 1 << (63 - index);
            }
        }
        if chunk.len() < 64 {
            for index in chunk.len()..64 {
                word |= 1 << (63 - index);
            }
        }
        words.extend(word.to_le_bytes());
    }
    words
}

#[test]
fn traverses_a_level_order_unary_tree() {
    // Super-root, root, then one child for each of the first two nodes.
    let bits = encoded_louds(&[true, false, true, false, true, false, false]);
    let louds = Louds::parse(&bits, &[0, 0, 10, 20]).unwrap();

    assert_eq!(louds.child_range(1), 2..3);
    assert_eq!(louds.child_range(2), 3..4);
    assert_eq!(louds.search(&[10, 20]), Some(3));
    assert_eq!(louds.search(&[20]), None);
}

#[test]
fn rejects_an_invalid_topology_without_panicking() {
    assert!(matches!(
        Louds::parse(&[0; 8], &[0, 0, 0]),
        Err(LoudsError::InvalidTopology { .. })
    ));
}

#[test]
fn encodes_filesystem_identifiers_as_utf16_units() {
    assert_eq!(escaped_identifier("あ"), "[3042]");
    assert_eq!(escaped_identifier("AB"), "[0041_0042]");
    assert_eq!(escaped_identifier("🇯🇵"), "[D83C_DDEF_D83C_DDF5]");
    assert_eq!(escaped_identifier("memory"), "memory");
}

#[test]
fn enumerates_character_ids_by_extended_grapheme() {
    let map = CharacterIdMap::parse("アか\u{3099}😀").unwrap();

    assert_eq!(map.len(), 3);
    assert_eq!(map.encode("か\u{3099}😀"), Some(vec![1, 2]));
}

#[test]
fn a_repeated_grapheme_keeps_its_last_identifier() {
    let map = CharacterIdMap::parse("abca").unwrap();
    assert_eq!(map.len(), 3);
    assert_eq!(map.id("a"), Some(3));
    assert_eq!(map.id("z"), None);
    assert!(!map.is_empty());
    assert_eq!(map.encode("az"), None);
}

#[test]
fn oversized_character_tables_are_refused() {
    let content: String = (0..300).map(|i| char::from_u32(0x4e00 + i).unwrap()).collect();
    assert!(matches!(
        CharacterIdMap::parse(&content),
        Err(LoudsError::NodeTableTooLarge(300))
    ));
}

#[test]
fn louds_errors_name_their_cause() {
    assert_eq!(Louds::parse(&[0; 3], &[]).unwrap_err(), LoudsError::InvalidWordLength(3));
    assert_eq!(
        Louds::parse(&[0xff; 8], &[0, 0]).unwrap_err(),
        LoudsError::MissingZeroDelimiters { needed: 2, found: 0 }
    );
}

#[test]
fn descendants_follow_levels_and_limits() {
    let bits = encoded_louds(&[true, false, true, false, true, false, false]);
    let louds = Louds::parse(&bits, &[0, 0, 10, 20]).unwrap();
    assert_eq!(louds.node_count(), 4);
    assert_eq!(louds.descendants(&[], 0, 10), vec![2]);
    assert_eq!(louds.descendants(&[], 1, 10), vec![2, 3]);
    assert_eq!(louds.descendants(&[30], 1, 10), Vec::<usize>::new());
    assert_eq!(louds.search_child(1, 10), Some(2));
    assert_eq!(louds.child_range(99), 0..0);
}

#[test]
fn metadata_flags_are_contained_in_their_union() {
    let both = DictionaryMetadata(3);
    assert!(both.contains(DictionaryMetadata::learned()));
    assert!(both.contains(DictionaryMetadata::user_dictionary()));
    assert!(!DictionaryMetadata::learned().contains(DictionaryMetadata::user_dictionary()));
    assert!(DictionaryMetadata::default().contains(DictionaryMetadata::default()));
}

#[test]
fn walks_reading_prefixes_until_the_trie_ends() {
    // Root with child "a" (node 2), which has child "b" (node 3).
    let bits = encoded_louds(&[true, false, true, false, true, false, false]);
    let louds = Louds::parse(&bits, &[0, 0, 0, 1]).unwrap();
    let map = CharacterIdMap::parse("ab").unwrap();

    assert_eq!(prefix_nodes(&map, &louds, "abc", 10), vec![(1, 2), (2, 3)]);
    assert_eq!(prefix_nodes(&map, &louds, "abc", 1), vec![(1, 2)]);
    assert_eq!(prefix_nodes(&map, &louds, "ba", 10), Vec::<(usize, usize)>::new());
    assert_eq!(prefix_nodes(&map, &louds, "", 10), Vec::<(usize, usize)>::new());
}
