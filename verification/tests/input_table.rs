use std::collections::BTreeSet;

use beankey::{InputModifier, InputPiece, InputTable, KeyElement, ValueElement};

fn type_text(table: &InputTable, input: &str) -> String {
    let mut buffer = Vec::new();
    for value in input.chars() {
        table.apply(&mut buffer, InputPiece::Character(value.to_string()));
    }
    buffer.concat()
}

#[test]
fn converts_standard_roman_sequences_incrementally() {
    let table = InputTable::default_roman_to_kana();

    assert_eq!(type_text(&table, "kyouhaame"), "きょうはあめ");
    assert_eq!(type_text(&table, "kansha"), "かんしゃ");
    assert_eq!(type_text(&table, "itta"), "いった");
}

#[test]
fn composition_separator_resolves_trailing_n() {
    let table = InputTable::default_roman_to_kana();
    let mut buffer = Vec::new();
    for value in "kan".chars() {
        table.apply(&mut buffer, InputPiece::Character(value.to_string()));
    }

    table.apply(&mut buffer, InputPiece::CompositionSeparator);

    assert_eq!(buffer.concat(), "かん");
}

#[test]
fn concrete_mapping_wins_over_wildcard() {
    let table = InputTable::default_roman_to_kana();

    assert_eq!(type_text(&table, "nya"), "にゃ");
    assert_eq!(type_text(&table, "nba"), "んば");
}

#[test]
fn wildcard_preserves_an_extended_grapheme_cluster() {
    let table = InputTable::new(vec![(vec![KeyElement::Any], vec![ValueElement::Any])]);

    assert_eq!(
        table.applied("", InputPiece::character("か\u{3099}".into())),
        "か\u{3099}"
    );
}

#[test]
fn key_rule_beats_character_rule_at_equal_depth() {
    let shifted = InputPiece::Key {
        intention: Some("_".into()),
        input: "_".into(),
        modifiers: BTreeSet::from([InputModifier::Shift]),
    };
    let table = InputTable::new(vec![
        (
            vec![KeyElement::Piece(InputPiece::character("_".into()))],
            vec![ValueElement::Character("字".into())],
        ),
        (
            vec![KeyElement::Piece(shifted.clone())],
            vec![ValueElement::Character("鍵".into())],
        ),
    ]);

    assert_eq!(table.applied("", shifted), "鍵");
}

#[test]
fn later_tables_replace_duplicate_rules() {
    let first = InputTable::new(vec![(
        vec![KeyElement::Piece(InputPiece::character("a".into()))],
        vec![ValueElement::Character("あ".into())],
    )]);
    let second = InputTable::new(vec![(
        vec![KeyElement::Piece(InputPiece::character("a".into()))],
        vec![ValueElement::Character("安".into())],
    )]);

    assert_eq!(
        InputTable::combined(vec![first, second]).applied("", InputPiece::character("a".into())),
        "安"
    );
}

#[test]
fn converts_azik_sequences() {
    let table = InputTable::default_azik();

    assert_eq!(type_text(&table, "szzz"), "さんざん");
    assert_eq!(type_text(&table, "kz"), "かん");
    assert_eq!(type_text(&table, "ds"), "です");
}

#[test]
fn converts_jis_kana_keys_and_shift_zero() {
    let table = InputTable::default_kana_jis();
    assert_eq!(type_text(&table, "qwerty"), "たていすかん");

    let shifted_zero = InputPiece::Key {
        intention: Some("0".into()),
        input: "0".into(),
        modifiers: BTreeSet::from([InputModifier::Shift]),
    };
    assert_eq!(table.applied("", shifted_zero), "を");
    assert_eq!(table.applied("", InputPiece::character("0".into())), "わ");
}

#[test]
fn converts_us_kana_keys() {
    let table = InputTable::default_kana_us();

    assert_eq!(type_text(&table, "qwerty"), "たていすかん");
    assert_eq!(type_text(&table, "f「"), "ば");
    assert_eq!(type_text(&table, "f＝"), "ぱ");
}

#[test]
fn lists_complete_katakana_outputs_for_an_unstable_prefix() {
    let table = InputTable::default_roman_to_kana();
    let values = table.possible_nexts("ky");
    assert!(values.contains(&"キャ".to_owned()));
    assert!(values.contains(&"キュ".to_owned()));
    assert!(values.contains(&"キョ".to_owned()));
    assert!(!values.contains(&"キ".to_owned()));
}

#[test]
fn table_keys_stay_distinct_after_a_duplicate_entry() {
    let table = InputTable::new(vec![
        (
            vec![KeyElement::Piece(InputPiece::character("a".into()))],
            vec![ValueElement::Character("あ".into())],
        ),
        (
            vec![KeyElement::Piece(InputPiece::character("a".into()))],
            vec![ValueElement::Character("亜".into())],
        ),
    ]);
    assert_eq!(table.entries().len(), 1);
    assert_eq!(table.applied("", InputPiece::character("a".into())), "亜");
}
