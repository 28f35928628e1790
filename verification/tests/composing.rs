use beankey::{
    ComposingCount, ComposingText, InputElement, InputPiece, InputStyle, InputTable, InputTableId,
    InputTableRegistry,
};

#[test]
fn edits_direct_input_by_grapheme() {
    let tables = InputTableRegistry::new();
    let mut text = ComposingText::new();
    text.insert_str("あいうえお", InputStyle::Direct, &tables);
    assert_eq!(text.surface(), "あいうえお");
    assert_eq!(text.cursor(), 5);

    assert_eq!(text.move_cursor(-3), -3);
    text.delete_forward(1, &tables);
    text.insert_str("宇", InputStyle::Direct, &tables);

    assert_eq!(text.surface(), "あい宇えお");
    assert_eq!(text.cursor(), 3);
}

#[test]
fn preserves_roman_history_separately_from_surface() {
    let tables = InputTableRegistry::new();
    let mut text = ComposingText::new();

    text.insert_str("kyouhaame", InputStyle::RomanToKana, &tables);

    assert_eq!(text.surface(), "きょうはあめ");
    assert_eq!(text.input().len(), 9);
    assert_eq!(text.cursor(), 6);
}

#[test]
fn freezes_a_roman_segment_before_middle_insertion() {
    let tables = InputTableRegistry::new();
    let mut text = ComposingText::new();
    text.insert_str("nana", InputStyle::RomanToKana, &tables);
    text.move_cursor(-1);

    text.insert_str("k", InputStyle::RomanToKana, &tables);
    assert_eq!(text.surface(), "なkな");
    text.insert_str("a", InputStyle::RomanToKana, &tables);

    assert_eq!(text.surface(), "なかな");
    assert_eq!(text.cursor(), 2);
}

#[test]
fn deletion_does_not_recombine_across_the_removed_region() {
    let tables = InputTableRegistry::new();
    let mut text = ComposingText::new();
    text.insert_str("atst", InputStyle::RomanToKana, &tables);
    text.move_cursor(-2);

    text.delete_forward(1, &tables);
    text.move_cursor(1);

    assert_eq!(text.surface(), "あtt");
}

#[test]
fn resolves_n_at_a_composition_boundary() {
    let tables = InputTableRegistry::new();
    let mut text = ComposingText::new();
    text.insert_str("an", InputStyle::RomanToKana, &tables);
    assert_eq!(text.surface(), "あn");

    text.insert(
        vec![InputElement::new(
            InputPiece::CompositionSeparator,
            InputStyle::RomanToKana,
        )],
        &tables,
    );

    assert_eq!(text.surface(), "あん");
}

#[test]
fn maps_only_independent_roman_boundaries() {
    let tables = InputTableRegistry::new();
    let mut text = ComposingText::new();
    text.insert_str("kyouhaiitenkida", InputStyle::RomanToKana, &tables);

    let map = text.input_to_surface_map(&tables);
    assert_eq!(map.get(&0), Some(&0));
    assert_eq!(map.get(&3), Some(&2));
    assert_eq!(map.get(&4), Some(&3));
    assert_eq!(map.get(&6), Some(&4));
    assert_eq!(map.get(&13), Some(&9));
    assert_eq!(map.get(&15), Some(&10));
    assert!(!map.contains_key(&1));
}

#[test]
fn completes_a_surface_prefix_without_splitting_a_roman_segment() {
    let tables = InputTableRegistry::new();
    let mut text = ComposingText::new();
    text.insert_str("danbasu", InputStyle::RomanToKana, &tables);

    text.complete_prefix(ComposingCount::Surface(2), &tables);

    assert_eq!(text.surface(), "ばす");
    assert_eq!(text.input()[0].piece, InputPiece::character("ば".into()));
    assert_eq!(text.input()[0].input_style, InputStyle::frozen());
}

#[test]
fn composes_and_partially_completes_azik_input() {
    let tables = InputTableRegistry::new();
    let mut text = ComposingText::new();
    text.insert_str(
        "szzz",
        InputStyle::Mapped(InputTableId::DefaultAzik),
        &tables,
    );
    assert_eq!(text.surface(), "さんざん");

    text.complete_prefix(ComposingCount::Surface(3), &tables);

    assert_eq!(text.surface(), "ん");
    assert_eq!(text.input()[0].piece, InputPiece::character("ん".into()));
}

#[test]
fn direct_input_maps_every_position_to_itself() {
    let tables = InputTableRegistry::new();
    let mut text = ComposingText::new();
    text.insert_str("abc", InputStyle::Direct, &tables);
    let map = text.input_to_surface_map(&tables);
    assert_eq!(map.len(), 4);
    assert_eq!(map.get(&3), Some(&3));
}

#[test]
fn moving_the_cursor_is_clamped_to_the_surface() {
    let tables = InputTableRegistry::new();
    let mut text = ComposingText::new();
    text.insert_str("あい", InputStyle::Direct, &tables);
    assert_eq!(text.move_cursor(5), 0);
    assert_eq!(text.move_cursor(-5), -2);
    assert!(text.is_at_start());
    assert_eq!(text.move_cursor(1), 1);
    assert_eq!(text.move_cursor(-1), -1);
    assert_eq!(text.surface_before_cursor(), "");
}

#[test]
fn stopping_clears_the_text() {
    let tables = InputTableRegistry::new();
    let mut text = ComposingText::new();
    text.insert_str("ka", InputStyle::RomanToKana, &tables);
    text.stop();
    assert!(text.is_empty());
    assert_eq!(text.cursor(), 0);
    assert!(text.input().is_empty());
}

#[test]
fn deleting_backward_reconverts_the_rest() {
    let tables = InputTableRegistry::new();
    let mut text = ComposingText::new();
    text.insert_str("kana", InputStyle::RomanToKana, &tables);
    text.delete_backward(1, &tables);
    assert_eq!(text.surface(), "か");
    assert_eq!(text.cursor(), 1);
    assert!(text.is_at_end());
}

#[test]
fn completing_input_elements_reconverts_the_rest() {
    let tables = InputTableRegistry::new();
    let mut text = ComposingText::new();
    text.insert_str("kana", InputStyle::RomanToKana, &tables);
    text.complete_prefix(ComposingCount::Input(2), &tables);
    assert_eq!(text.surface(), "な");
    assert_eq!(text.input().len(), 2);
    assert_eq!(text.cursor(), 1);
}

#[test]
fn composite_completion_applies_both_parts() {
    let tables = InputTableRegistry::new();
    let mut text = ComposingText::new();
    text.insert_str("abcd", InputStyle::Direct, &tables);
    text.complete_prefix(
        ComposingCount::Composite(
            Box::new(ComposingCount::Surface(1)),
            Box::new(ComposingCount::Input(1)),
        ),
        &tables,
    );
    assert_eq!(text.surface(), "cd");
}

#[test]
fn prefix_to_cursor_cuts_input_and_surface() {
    let tables = InputTableRegistry::new();
    let mut text = ComposingText::new();
    text.insert_str("kana", InputStyle::RomanToKana, &tables);
    text.move_cursor(-1);
    let prefix = text.prefix_to_cursor(&tables);
    assert_eq!(prefix.surface(), "か");
    assert_eq!(prefix.input().len(), 2);
}

#[test]
fn difference_suffix_counts_changed_tails() {
    let tables = InputTableRegistry::new();
    let mut before = ComposingText::new();
    before.insert_str("ka", InputStyle::RomanToKana, &tables);
    let mut after = before.duplicate();
    after.insert_str("n", InputStyle::RomanToKana, &tables);
    let difference = after.difference_suffix(&before);
    assert_eq!(difference.deleted_input, 0);
    assert_eq!(difference.added_input, 1);
    assert_eq!(difference.deleted_surface, 0);
    assert_eq!(difference.added_surface, 1);
    assert!(after.input_has_suffix(&after));
    let same = after.difference_suffix(&after);
    assert_eq!(same.added_input + same.deleted_input + same.added_surface + same.deleted_surface, 0);
}

#[test]
fn a_registered_table_converts_named_input() {
    let mut registry = InputTableRegistry::new();
    registry.register("greeting".into(), InputTable::from_custom_tsv("aisatu\tあいさつ"));
    registry.register("greeting".into(), InputTable::from_custom_tsv("aisatu\tこんにちは"));
    let mut text = ComposingText::new();
    text.insert_str(
        "aisatu",
        InputStyle::Mapped(InputTableId::Named("greeting".into())),
        &registry,
    );
    assert_eq!(text.surface(), "こんにちは");
}
