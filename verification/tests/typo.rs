use beankey::{
    InputElement, InputStyle, InputTableRegistry, direct_replacements, roman_replacement,
    typo_prefixes,
};

fn elements(text: &str, style: InputStyle) -> Vec<InputElement> {
    text.chars()
        .map(|character| InputElement::character(character.to_string(), style.duplicate()))
        .collect()
}

#[test]
fn enumerates_direct_and_roman_rules_from_the_fixed_upstream() {
    let tables = InputTableRegistry::new();
    let direct = elements("たいかくせい", InputStyle::Direct);
    assert!(
        typo_prefixes(&direct, &tables, 20)
            .iter()
            .any(|prefix| prefix.ruby == "タイガクセイ" && prefix.penalty_halves == 14)
    );

    let roman = elements("li", InputStyle::RomanToKana);
    assert!(
        typo_prefixes(&roman, &tables, 20)
            .iter()
            .any(|prefix| prefix.ruby == "キ" && prefix.penalty_halves == 7)
    );
}

#[test]
fn keeps_the_least_penalty_of_each_prefix() {
    let tables = InputTableRegistry::new();
    let prefixes = typo_prefixes(&elements("はは", InputStyle::Direct), &tables, 20);
    let mut keys: Vec<(String, usize)> =
        prefixes.iter().map(|prefix| (prefix.ruby.clone(), prefix.consumed)).collect();
    let count = keys.len();
    keys.sort();
    keys.dedup();
    assert_eq!(keys.len(), count);
    assert!(prefixes.iter().any(|prefix| prefix.ruby == "バ" && prefix.penalty_halves == 9));
    assert!(prefixes.iter().any(|prefix| prefix.ruby == "バパ" && prefix.penalty_halves == 21));
    assert!(prefixes.iter().all(|prefix| prefix.penalty_halves > 0));
}

#[test]
fn lists_the_slips_of_single_elements() {
    let ha = InputElement::character("は".to_string(), InputStyle::Direct);
    let slips = direct_replacements(&ha);
    assert_eq!(slips, [("バ".to_string(), 9), ("パ".to_string(), 12)]);
    let roman_ha = InputElement::character("は".to_string(), InputStyle::RomanToKana);
    assert!(direct_replacements(&roman_ha).is_empty());
    assert_eq!(roman_replacement(&elements("ts", InputStyle::RomanToKana)), Some("ta"));
    assert_eq!(roman_replacement(&elements("ts", InputStyle::Direct)), None);
    assert_eq!(roman_replacement(&elements("xx", InputStyle::RomanToKana)), None);
}
