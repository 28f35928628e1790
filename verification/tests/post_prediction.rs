use beankey::{
    Candidate, ComposingCount, DictionaryEntry, DictionaryMetadata, PostCompositionPrediction,
    PostPredictionKind,
};

fn entry(word: &str, ruby: &str, class: u16, meaning: u16) -> DictionaryEntry {
    DictionaryEntry {
        word: word.into(),
        ruby: ruby.into(),
        left_id: class,
        right_id: class,
        meaning_id: meaning,
        base_value_bits: (-10.0_f32).to_bits(),
        adjustment_bits: 0,
        metadata: DictionaryMetadata(0),
    }
}

fn base() -> Candidate {
    Candidate {
        text: "今日".into(),
        value_bits: (-12.0_f32).to_bits(),
        composing_count: ComposingCount::Surface(3),
        last_meaning_id: 501,
        entries: vec![entry("今日", "キョウ", 1285, 501)],
        ruby_count: 3,
        is_learning_target: false,
    }
}

#[test]
fn marks_full_stops_as_terminal() {
    let kind = || PostPredictionKind::Additional { entries: Vec::new() };
    assert!(PostCompositionPrediction::new("。".into(), 0, kind()).is_terminal);
    assert!(PostCompositionPrediction::new("．".into(), 0, kind()).is_terminal);
    assert!(!PostCompositionPrediction::new("は".into(), 0, kind()).is_terminal);
    assert!(!PostCompositionPrediction::new("..".into(), 0, kind()).is_terminal);
}

#[test]
fn joins_an_additional_prediction_after_the_candidate() {
    let prediction = PostCompositionPrediction::new(
        "は".into(),
        (-13.0_f32).to_bits(),
        PostPredictionKind::Additional { entries: vec![entry("は", "ハ", 200, 7)] },
    );
    let joined = prediction.join(&base());
    assert_eq!(joined.text, "今日は");
    assert_eq!(f32::from_bits(joined.value_bits), -13.0);
    assert_eq!(joined.entries.len(), 2);
    assert_eq!(joined.ruby_count, 4);
    assert!(matches!(joined.composing_count, ComposingCount::Surface(4)));
    assert_eq!(joined.last_meaning_id, 501);
    assert!(joined.is_learning_target);
    assert_eq!(prediction.joined_entries(&base().entries).1, 1);
}

#[test]
fn replaces_the_target_entries_of_the_candidate() {
    let prediction = PostCompositionPrediction::new(
        "明日".into(),
        0,
        PostPredictionKind::Replacement {
            target_entries: vec![entry("今日", "キョウ", 1285, 501)],
            replacement_entries: vec![entry("明日は", "アシタハ", 200, 9)],
        },
    );
    let joined = prediction.join(&base());
    assert_eq!(joined.text, "明日は");
    assert_eq!(joined.entries.len(), 1);
    assert_eq!(joined.last_meaning_id, 500);
    assert_eq!(prediction.joined_entries(&base().entries).1, 0);
}
