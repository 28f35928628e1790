use beankey::{TextReplacer, TextReplacerError};

const EMOJI_DATA: &str = "👍️\tgood,いいね\t👍🏻️,👍🏿️\n😀️\tえがお,笑顔\t\n";

#[test]
fn searches_normalized_queries_and_can_hide_variations() {
    let replacer = TextReplacer::parse(EMOJI_DATA).unwrap();

    let all = replacer.search("GOOD", false);
    assert_eq!(
        all.iter()
            .map(|item| item.text.as_str())
            .collect::<Vec<_>>(),
        ["👍️", "👍🏻️", "👍🏿️"]
    );
    assert_eq!(replacer.search("イイネ", true)[0].text, "👍️");
    assert!(replacer.search("unknown", false).is_empty());
}

#[test]
fn replaces_a_selected_or_immediately_preceding_emoji() {
    let replacer = TextReplacer::parse(EMOJI_DATA).unwrap();

    let selected = replacer.replacements("", "👍🏻️", "");
    assert_eq!(selected.len(), 2);
    assert_eq!(selected[0].target, "👍🏻️");
    assert_eq!(selected[0].replacement, "👍️");
    assert_eq!(selected[0].base, "👍️");

    let preceding = replacer.replacements("ok👍🏿️", "thanks", "");
    assert_eq!(preceding[0].target, "👍🏿️");
    assert_eq!(preceding[0].replacement, "👍️");
    assert_eq!(preceding[0].text(), "👍️");
}

#[test]
fn rejects_malformed_data_without_partially_loading_it() {
    assert!(matches!(
        TextReplacer::parse("😀\tえがお"),
        Err(TextReplacerError::MalformedLine {
            line: 1,
            field_count: 2
        })
    ));
}

#[test]
fn hidden_variations_and_empty_dictionaries() {
    let replacer = TextReplacer::parse(EMOJI_DATA).unwrap();
    assert_eq!(replacer.search("good", true).len(), 1);
    assert_eq!(replacer.search("笑顔", false)[0].query, "笑顔");
    assert!(!replacer.is_empty());
    assert!(TextReplacer::new().is_empty());
    assert!(TextReplacer::parse("").unwrap().is_empty());
    assert!(replacer.replacements("", "", "").is_empty());
}

#[test]
fn a_malformed_line_is_counted_from_one_including_empty_lines() {
    assert!(matches!(
        TextReplacer::parse("a\tb\tc\n\nbroken"),
        Err(TextReplacerError::MalformedLine { line: 3, field_count: 1 })
    ));
}
