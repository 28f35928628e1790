use beankey::{
    CharacterIdMap, DictionaryEntry, DictionaryMetadata, LearningMode, LearningRecord,
    LearningState, prune_for_save,
};

fn entry(word: &str, ruby: &str) -> DictionaryEntry {
    DictionaryEntry {
        word: word.into(),
        ruby: ruby.into(),
        left_id: 1285,
        right_id: 1285,
        meaning_id: 501,
        base_value_bits: (-10.0_f32).to_bits(),
        adjustment_bits: 0,
        metadata: DictionaryMetadata(0),
    }
}

fn record(word: &str, ruby: &str, used: u16) -> LearningRecord {
    LearningRecord { entry: entry(word, ruby), last_used_day: used, last_updated_day: used, count: 1 }
}

fn ids() -> CharacterIdMap {
    CharacterIdMap::parse("キソンシヒョウオモテ").unwrap()
}

#[test]
fn read_only_and_disabled_memories_learn_nothing() {
    let ids = ids();
    let mut read_only =
        LearningState::open(LearningMode::OnlyOutput, 10, 128, vec![record("既存", "キソン", 10)], &ids);
    read_only.learn(&[entry("新規", "シンキ")], &ids);
    assert!(read_only.temporary.is_empty());
    assert!(!read_only.commit());
    assert_eq!(read_only.persisted.len(), 1);

    let disabled =
        LearningState::open(LearningMode::Nothing, 10, 128, vec![record("既存", "キソン", 10)], &ids);
    assert!(disabled.persisted.is_empty());
}

#[test]
fn opening_drops_unlearnable_and_expired_records() {
    let ids = ids();
    let state = LearningState::open(
        LearningMode::InputAndOutput,
        200,
        128,
        vec![record("既存", "キソン", 190), record("他", "タ", 190), record("古", "キソン", 10)],
        &ids,
    );
    assert_eq!(state.persisted.len(), 1);
    assert_eq!(state.persisted[0].entry.word, "既存");
}

#[test]
fn commits_learned_words_and_keeps_the_most_recent_first() {
    let ids = ids();
    let mut state = LearningState::open(
        LearningMode::InputAndOutput,
        10,
        2,
        vec![record("既存", "キソン", 5), record("表", "オモテ", 8)],
        &ids,
    );
    state.learn(&[entry("表層", "ヒョウソウ"), entry("他", "タ")], &ids);
    assert_eq!(state.temporary.len(), 1);
    assert!(state.commit());
    assert!(state.temporary.is_empty());
    assert_eq!(state.persisted.len(), 2);
    assert_eq!(state.persisted[0].entry.word, "表層");
    assert_eq!(state.persisted[1].entry.word, "表");
    assert!(!state.commit());
}

#[test]
fn forgets_a_surface_across_all_readings() {
    let ids = ids();
    let mut state = LearningState::open(
        LearningMode::InputAndOutput,
        10,
        128,
        vec![record("表層", "ヒョウソウ", 10), record("表層", "オモテソウ", 10), record("既存", "キソン", 9)],
        &ids,
    );
    state.learn(&[entry("表層", "ヒョウソウ"), entry("表層", "オモテソウ")], &ids);
    state.forget(&[entry("表層", "ヒョウソウ")]);
    assert!(state.persisted.iter().all(|r| r.entry.word != "表層"));
    assert_eq!(state.temporary.len(), 1);
    assert_eq!(state.temporary[0].entry.ruby, "オモテソウ");
    state.reset();
    assert!(state.persisted.is_empty() && state.temporary.is_empty());
}

#[test]
fn pruning_orders_by_use_keeps_ties_in_order_and_truncates() {
    let mut records = vec![record("a", "キ", 3), record("b", "キ", 7), record("c", "キ", 3), record("d", "キ", 9)];
    prune_for_save(&mut records, 10, 3);
    let words: Vec<_> = records.iter().map(|r| r.entry.word.as_str()).collect();
    assert_eq!(words, vec!["d", "b", "a"]);
}
