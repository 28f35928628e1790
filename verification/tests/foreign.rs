use beankey::{
    ForeignCompletionProvider, ForeignLanguage, InputElement, InputStyle, KeyboardLanguage,
    completion_languages, foreign_completions, starts_with_ignoring_case, typed_text,
};

struct FixedProvider;

impl ForeignCompletionProvider for FixedProvider {
    fn completions(&self, language: ForeignLanguage, input: &str) -> Vec<String> {
        match language {
            ForeignLanguage::EnglishUs => vec![format!("{input}ing")],
            ForeignLanguage::Greek => vec!["γεια".to_string()],
        }
    }
}

#[test]
fn chooses_completion_languages_by_text_and_keyboard() {
    assert_eq!(completion_languages("hello", KeyboardLanguage::Japanese), [ForeignLanguage::EnglishUs]);
    assert_eq!(
        completion_languages("hello", KeyboardLanguage::Greek),
        [ForeignLanguage::EnglishUs, ForeignLanguage::Greek]
    );
    assert_eq!(completion_languages("γε", KeyboardLanguage::Greek), [ForeignLanguage::Greek]);
    assert!(completion_languages("hi!", KeyboardLanguage::EnglishUs).is_empty());
    assert!(completion_languages("", KeyboardLanguage::Greek).is_empty());
    assert_eq!(KeyboardLanguage::default(), KeyboardLanguage::Unspecified);
}

#[test]
fn collects_completions_and_typed_text() {
    let found = foreign_completions("go", KeyboardLanguage::Greek, &FixedProvider);
    assert_eq!(found.len(), 2);
    assert_eq!(found[0], (ForeignLanguage::EnglishUs, vec!["going".to_string()]));
    assert_eq!(found[1].0, ForeignLanguage::Greek);
    let elements = vec![
        InputElement::character("g".to_string(), InputStyle::Direct),
        InputElement::character("o".to_string(), InputStyle::Direct),
    ];
    assert_eq!(typed_text(&elements), "go");
    assert!(starts_with_ignoring_case("Going", "GO"));
    assert!(!starts_with_ignoring_case("Go", "going"));
}
