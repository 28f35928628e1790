use beankey::{
    InputStyle, InputTableId, InputTableRegistry, Topology, apply_input_table,
    consume_with_emission, generation_mode, has_continuation, pending_suffix,
    possible_next_displays,
};

#[test]
fn types_text_through_the_roman_table() {
    let tables = InputTableRegistry::new();
    let roman = tables.resolve(&InputStyle::RomanToKana).unwrap();
    assert_eq!(apply_input_table("ka", roman), "カ");
    assert_eq!(apply_input_table("kak", roman), "カk");
    assert!(has_continuation("k", roman));
    assert!(!has_continuation("1", roman));
    assert_eq!(pending_suffix("kak", "カk", roman), "k");
    assert_eq!(pending_suffix("ka", "カ", roman), "");
}

#[test]
fn splits_typed_characters_into_emitted_and_pending_text() {
    let tables = InputTableRegistry::new();
    let roman = tables.resolve(&InputStyle::RomanToKana).unwrap();
    assert_eq!(consume_with_emission("k", "a", Some(roman)), ("カ".to_string(), String::new()));
    assert_eq!(consume_with_emission("", "k", Some(roman)), (String::new(), "k".to_string()));
    assert_eq!(consume_with_emission("x", "y", None), ("y".to_string(), String::new()));
}

#[test]
fn lists_next_displays_sorted_without_repeats() {
    let tables = InputTableRegistry::new();
    let roman = tables.resolve(&InputStyle::RomanToKana).unwrap();
    let displays = possible_next_displays("k", roman);
    assert!(displays.iter().any(|display| display == "カ"));
    assert!(displays.windows(2).all(|pair| pair[0] < pair[1]));
    assert!(possible_next_displays("1", roman).is_empty());
}

#[test]
fn chooses_the_generation_mode_by_input_style() {
    let tables = InputTableRegistry::new();
    let direct = generation_mode(&InputStyle::Direct, &tables);
    assert!(direct.table.is_none());
    assert_eq!(direct.topology, Topology::IosFlickTenkey);
    assert!(direct.use_surface && direct.filter_with_lm);
    let roman = generation_mode(&InputStyle::RomanToKana, &tables);
    assert!(roman.table.is_some());
    assert_eq!(roman.topology, Topology::MacQwerty);
    assert!(!roman.use_surface && !roman.filter_with_lm);
    let mapped = generation_mode(&InputStyle::Mapped(InputTableId::DefaultKanaJis), &tables);
    assert_eq!(mapped.topology, Topology::IosFlickTenkey);
    assert!(mapped.use_surface);
}
