use beankey::{combine_counts, includes_meaning, is_clause, word_type};
use beankey::{
    ComposingCount, ComposingText, ConversionContext, DualIndex, DualIndexMap, InputStyle,
    InputTableRegistry, LatticeIndex, LatticeRange, prediction_usable, to_full_width,
    to_half_width, to_katakana,
};

#[test]
fn katakana_conversion_matches_the_fixed_upstream_range() {
    assert_eq!(to_katakana("ぁあゖー漢"), "ァアヶー漢");
}

#[test]
fn dual_indices_keep_roman_input_and_surface_positions_in_order() {
    let tables = InputTableRegistry::new();
    let mut composing = ComposingText::new();
    composing.insert_str("kya", InputStyle::RomanToKana, &tables);
    let map = DualIndexMap::new(&composing, &tables);
    let indices = map.indices(composing.input().len(), composing.surface_graphemes().len());
    assert_eq!(indices.first().and_then(|index| index.input()), Some(0));
    assert_eq!(indices.first().and_then(|index| index.surface()), Some(0));
    assert!(indices.windows(2).all(|pair| pair[0] != pair[1]));
}

#[test]
fn converts_optional_width_representations() {
    assert_eq!(to_full_width("ABC 123"), "ＡＢＣ　１２３");
    assert_eq!(to_half_width("ガッツポーズ"), "ｶﾞｯﾂﾎﾟｰｽﾞ");
}

#[test]
fn direct_input_maps_positions_to_themselves() {
    let tables = InputTableRegistry::new();
    let mut composing = ComposingText::new();
    composing.insert_str("ab", InputStyle::Direct, &tables);
    let map = DualIndexMap::new(&composing, &tables);
    assert_eq!(
        map.indices(2, 2),
        vec![
            DualIndex::Both { input: 0, surface: 0 },
            DualIndex::Both { input: 1, surface: 1 }
        ]
    );
    assert_eq!(
        map.dual(LatticeIndex::Surface(1)),
        DualIndex::Both { input: 1, surface: 1 }
    );
}

#[test]
fn roman_input_positions_inside_a_syllable_have_no_surface_position() {
    let tables = InputTableRegistry::new();
    let mut composing = ComposingText::new();
    composing.insert_str("kya", InputStyle::RomanToKana, &tables);
    let map = DualIndexMap::new(&composing, &tables);
    assert_eq!(map.dual(LatticeIndex::Input(1)), DualIndex::Input(1));
    assert_eq!(
        map.dual(LatticeIndex::Input(3)),
        DualIndex::Both { input: 3, surface: 2 }
    );
    assert_eq!(map.dual(LatticeIndex::Surface(1)), DualIndex::Surface(1));
}

#[test]
fn ranges_count_what_they_cover() {
    assert!(matches!(
        LatticeRange::Input { from: 1, to: 4 }.count(),
        ComposingCount::Input(3)
    ));
    assert_eq!(
        LatticeRange::Surface { from: 0, to: 2 }.end(),
        LatticeIndex::Surface(2)
    );
    let context = ConversionContext::default();
    assert_eq!(context.right_id, 0);
    assert_eq!(context.meaning_id, 500);
}

#[test]
fn prediction_is_unusable_after_listed_identifiers() {
    assert!(!prediction_usable(13));
    assert!(prediction_usable(12));
    assert!(!prediction_usable(1278));
}

#[test]
fn width_conversion_leaves_other_text_alone() {
    assert_eq!(to_full_width("漢~"), "漢～");
    assert_eq!(to_half_width("漢。"), "漢｡");
}

#[test]
fn classifies_words_and_clauses() {
    assert_eq!(word_type(0), 3);
    assert_eq!(word_type(558), 0);
    assert_eq!(word_type(600), 1);
    assert_eq!(word_type(1285), 1);
    assert_eq!(word_type(2000), 2);
    assert!(is_clause(600, 558));
    assert!(!is_clause(558, 600));
    assert!(!is_clause(0, 600));
    assert!(includes_meaning(900, 2000));
    assert!(!includes_meaning(2000, 2000));
    assert!(matches!(
        combine_counts(ComposingCount::Input(2), ComposingCount::Input(3)),
        ComposingCount::Input(5)
    ));
    assert!(matches!(
        combine_counts(ComposingCount::Input(2), ComposingCount::Surface(3)),
        ComposingCount::Composite(_, _)
    ));
}
