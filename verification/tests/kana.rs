use beankey::{to_hiragana, to_katakana};

#[test]
fn converts_only_the_fixed_kana_ranges() {
    assert_eq!(to_katakana("ぁあゖー漢"), "ァアヶー漢");
    assert_eq!(to_hiragana("ァアヶー漢"), "ぁあゖー漢");
}

#[test]
fn hiragana_round_trips_through_katakana() {
    assert_eq!(to_hiragana(&to_katakana("きょうはあめ")), "きょうはあめ");
    assert_eq!(to_katakana(""), "");
}
