use beankey::{
    CharacterIdMap, DictionaryEntry, DictionaryMetadata, LearningError, LearningMode,
    LearningRecord, clause_spans, decay, decode_metadata, encode_louds, encode_metadata,
    forget_records, is_memory_file, learned_clause_ranges, learns_individual_word, memorize,
    merge_record, same_entry, valid_learning_entry,
};

fn entry(word: &str, ruby: &str) -> DictionaryEntry {
    DictionaryEntry {
        word: word.into(),
        ruby: ruby.into(),
        left_id: 1285,
        right_id: 1285,
        meaning_id: 501,
        base_value_bits: (-10.0_f32).to_bits(),
        adjustment_bits: 0.0_f32.to_bits(),
        metadata: DictionaryMetadata(0),
    }
}

fn record(word: &str, ruby: &str, used: u16, updated: u16, count: u8) -> LearningRecord {
    LearningRecord { entry: entry(word, ruby), last_used_day: used, last_updated_day: updated, count }
}

#[test]
fn halves_counts_after_each_complete_thirty_two_day_period() {
    let mut records = vec![record("語", "ゴ", 100, 100, 4)];
    decay(&mut records, 165);
    assert_eq!(records[0].count, 1);
    decay(&mut records, 197);
    assert!(records.is_empty());
}

#[test]
fn drops_unused_records_and_restarts_future_ones() {
    let mut records = vec![
        record("古い", "フルイ", 10, 10, 200),
        record("未来", "ミライ", 300, 50, 9),
        record("今", "イマ", 140, 139, 7),
    ];
    decay(&mut records, 140);
    assert_eq!(records.len(), 2);
    assert_eq!(records[0].entry.word, "未来");
    assert_eq!((records[0].last_used_day, records[0].last_updated_day, records[0].count), (140, 140, 1));
    assert_eq!((records[1].last_used_day, records[1].last_updated_day, records[1].count), (140, 139, 7));
}

#[test]
fn merges_the_same_word_and_appends_new_ones() {
    let mut records = vec![record("語", "ゴ", 5, 6, 250)];
    merge_record(&mut records, record("語", "ゴ", 9, 2, 10));
    assert_eq!(records.len(), 1);
    assert_eq!((records[0].last_used_day, records[0].last_updated_day, records[0].count), (9, 6, 255));
    merge_record(&mut records, record("後", "ゴ", 1, 1, 1));
    assert_eq!(records.len(), 2);
    assert!(same_entry(&entry("語", "ゴ"), &entry("語", "ゴ")));
    assert!(!same_entry(&entry("語", "ゴ"), &entry("後", "ゴ")));
}

#[test]
fn round_trips_learning_metadata() {
    let blocks = vec![Vec::new(), vec![(10_u16, 9_u16, 3_u8)]];
    let bytes = encode_metadata(&blocks);
    assert_eq!(bytes, [2, 0, 0, 0, 0, 1, 10, 0, 9, 0, 3, 0]);
    assert_eq!(&bytes[bytes.len() - 6..], &[10, 0, 9, 0, 3, 0]);
    assert_eq!(decode_metadata(&bytes, 2, 2), Ok(blocks));
    assert_eq!(
        decode_metadata(&bytes, 2, 3),
        Err(LearningError::InvalidData("inconsistent node counts"))
    );
    assert_eq!(
        decode_metadata(&bytes[..10], 2, 2),
        Err(LearningError::InvalidData("truncated metadata count"))
    );
    assert_eq!(decode_metadata(&[1, 0], 1, 1), Err(LearningError::InvalidData("truncated numeric field")));
    assert_eq!(decode_metadata(&[1, 0, 0, 0], 1, 1), Err(LearningError::InvalidData("truncated metadata block")));
    assert_eq!(
        decode_metadata(&[0, 0, 0, 0, 7], 0, 0),
        Err(LearningError::InvalidData("trailing metadata bytes"))
    );
}

#[test]
fn encodes_louds_words_with_one_padding() {
    assert_eq!(encode_louds(&[true, false]), [0xff, 0xff, 0xff, 0xff, 0xff, 0xff, 0xff, 0xbf]);
    assert!(encode_louds(&[]).is_empty());
    let mut bits = vec![false; 64];
    bits.push(false);
    let encoded = encode_louds(&bits);
    assert_eq!(encoded.len(), 16);
    assert_eq!(&encoded[..8], &[0; 8]);
    assert_eq!(&encoded[8..], &[0xff, 0xff, 0xff, 0xff, 0xff, 0xff, 0xff, 0x7f]);
}

#[test]
fn recognizes_memory_files_and_modes() {
    assert!(is_memory_file(".pause"));
    assert!(is_memory_file("memory.louds.2"));
    assert!(is_memory_file("0.loudstxt3"));
    assert!(is_memory_file("learningMemory.txt"));
    assert!(!is_memory_file("notes.txt"));
    assert!(LearningMode::OnlyOutput.uses_memory());
    assert!(!LearningMode::OnlyOutput.updates_memory());
    assert!(!LearningMode::default().uses_memory());
}

fn classed(word: &str, left_id: u16, right_id: u16) -> DictionaryEntry {
    DictionaryEntry { left_id, right_id, ..entry(word, "カナ") }
}

fn used(entry: DictionaryEntry, count: u8) -> LearningRecord {
    LearningRecord { entry, last_used_day: 3, last_updated_day: 2, count }
}

#[test]
fn learns_content_words_but_not_particles_or_boundaries() {
    assert!(learns_individual_word(&classed("名詞", 1285, 1285)));
    assert!(!learns_individual_word(&classed("を", 200, 200)));
    assert!(!learns_individual_word(&classed("", 0, 0)));
    assert!(!learns_individual_word(&classed("", 1316, 1316)));
    assert!(!learns_individual_word(&classed("、", 7, 7)));
    assert!(learns_individual_word(&classed("x", 556, 556)));
}

#[test]
fn splits_candidates_into_clauses_and_neighbouring_clause_spans() {
    let entries = [classed("a", 1285, 1285), classed("b", 1285, 1285), classed("c", 200, 200)];
    assert_eq!(learned_clause_ranges(&entries), vec![(0, 1), (1, 3)]);
    assert_eq!(clause_spans(&entries, 0), vec![(0, 3)]);
    assert_eq!(clause_spans(&entries, 3), Vec::<(usize, usize)>::new());
    assert_eq!(learned_clause_ranges(&[]), Vec::<(usize, usize)>::new());
    assert_eq!(clause_spans(&entries[..1], 0), Vec::<(usize, usize)>::new());
}

#[test]
fn memorizes_only_learnable_entries_and_counts_repeated_use() {
    let ids = CharacterIdMap::parse("カナ").unwrap();
    assert!(valid_learning_entry(&entry("仮名", "カナ"), &ids));
    assert!(!valid_learning_entry(&entry("仮名", "カタ"), &ids));
    assert!(!valid_learning_entry(&entry("仮\u{7}名", "カナ"), &ids));
    assert!(!valid_learning_entry(&entry("仮名", ""), &ids));

    let mut records = Vec::new();
    memorize(&mut records, entry("仮名", "カナ"), 10, &ids);
    assert_eq!(records.len(), 1);
    assert_eq!((records[0].count, records[0].last_used_day, records[0].last_updated_day), (1, 10, 10));
    memorize(&mut records, entry("仮名", "カナ"), 12, &ids);
    assert_eq!(records.len(), 1);
    assert_eq!((records[0].count, records[0].last_used_day, records[0].last_updated_day), (2, 12, 10));
    memorize(&mut records, entry("片", "カタ"), 12, &ids);
    assert_eq!(records.len(), 1);

    let mut full = vec![used(entry("仮名", "カナ"), 255)];
    memorize(&mut full, entry("仮名", "カナ"), 4, &ids);
    assert_eq!(full[0].count, 255);
}

#[test]
fn forgets_temporary_by_reading_and_word_and_persisted_by_word() {
    let mut temporary = vec![
        used(entry("仮名", "カナ"), 1),
        used(entry("仮名", "カリナ"), 1),
        used(entry("他", "タ"), 1),
    ];
    let mut persisted = vec![used(entry("仮名", "カリナ"), 4), used(entry("他", "タ"), 4)];
    forget_records(&mut temporary, &mut persisted, &[entry("仮名", "カナ")]);
    assert_eq!(temporary.len(), 2);
    assert_eq!(temporary[0].entry.ruby, "カリナ");
    assert_eq!(temporary[1].entry.word, "他");
    assert_eq!(persisted.len(), 1);
    assert_eq!(persisted[0].entry.word, "他");
}
