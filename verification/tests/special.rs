use beankey::{
    comma_separated_number, email_texts, japanese_era_to_western, parse_hex, parse_i32,
    special_texts, time_text, typographical_texts, unicode_text, version_text,
    western_to_japanese_era,
};

#[test]
fn generates_each_default_special_candidate_family() {
    assert_eq!(special_texts("2019ねん", None)[0], "令和元年");
    assert_eq!(special_texts("me@out", None)[0], "me@outlook.com");
    assert_eq!(special_texts("U+1F600", None)[0], "😀");
    assert_eq!(special_texts("1234", None)[0], "12:34");
    assert!(special_texts("1234", None).iter().any(|text| text == "1,234"));
    assert_eq!(special_texts("ばーじょん", Some("beankey 0.1"))[0], "beankey 0.1");
}

#[test]
fn generates_the_optional_fixed_typography_styles() {
    let letters = typographical_texts("Beh");
    assert_eq!(letters.len(), 13);
    assert_eq!(letters[0], "𝐁𝐞𝐡");
    assert_eq!(letters[1], "𝐵𝑒ℎ");
    assert_eq!(letters[3], "ℬℯ𝒽");

    let alphanumeric = typographical_texts("Az0");
    assert_eq!(alphanumeric.len(), 5);
    assert_eq!(alphanumeric, ["𝐀𝐳𝟎", "𝔸𝕫𝟘", "𝖠𝗓𝟢", "𝗔𝘇𝟬", "𝙰𝚣𝟶"]);
    assert!(typographical_texts("日本語").is_empty());
    assert!(typographical_texts("").is_empty());
}

#[test]
fn converts_era_years_to_western_years() {
    assert_eq!(japanese_era_to_western("ショウワ64ネン").as_deref(), Some("1989年"));
    assert_eq!(japanese_era_to_western("メイジガンネン").as_deref(), Some("1868年"));
    assert_eq!(japanese_era_to_western("レイワ5ネン").as_deref(), Some("2023年"));
    assert_eq!(japanese_era_to_western("レイワ100ネン"), None);
    assert_eq!(japanese_era_to_western("ショウワ64"), None);
}

#[test]
fn converts_western_years_to_era_years() {
    assert_eq!(western_to_japanese_era("2019ネン"), ["令和元年", "平成31年"]);
    assert_eq!(western_to_japanese_era("2000ネン"), ["平成12年"]);
    assert_eq!(western_to_japanese_era("1900ネン"), ["明治-67年"]);
    assert_eq!(western_to_japanese_era("1800ネン"), Vec::<String>::new());
    assert_eq!(western_to_japanese_era("2000"), Vec::<String>::new());
}

#[test]
fn formats_times_and_grouped_numbers() {
    assert_eq!(time_text("930").as_deref(), Some("9:30"));
    assert_eq!(time_text("0905").as_deref(), Some("09:05"));
    assert_eq!(time_text("2460"), None);
    assert_eq!(time_text("12a4"), None);
    assert_eq!(comma_separated_number("-1234567.89").as_deref(), Some("-1,234,567.89"));
    assert_eq!(comma_separated_number("1234").as_deref(), Some("1,234"));
    assert_eq!(comma_separated_number("123"), None);
    assert_eq!(comma_separated_number("1234."), None);
    assert_eq!(comma_separated_number("1.2.3"), None);
}

#[test]
fn reads_code_points_and_hexadecimal() {
    assert_eq!(unicode_text("u3042").as_deref(), Some("あ"));
    assert_eq!(unicode_text("U+1F600").as_deref(), Some("😀"));
    assert_eq!(unicode_text("UD800"), None);
    assert_eq!(unicode_text("x41"), None);
    assert_eq!(parse_hex(&['+', '1', 'F']), Some(31));
    assert_eq!(parse_hex(&[]), None);
    assert_eq!(parse_hex(&['1', '0', '0', '0', '0', '0', '0', '0', '0']), None);
    assert_eq!(parse_i32(&['-', '4', '2']), Some(-42));
    assert_eq!(parse_i32(&['4', '2', 'x']), None);
}

#[test]
fn completes_email_domains() {
    assert_eq!(email_texts("a b@gm"), ["a b@gmail.com"]);
    assert_eq!(email_texts("@").len(), 21);
    assert!(email_texts("あ@g").is_empty());
    assert!(email_texts("plain").is_empty());
    assert_eq!(version_text("バージョン", Some("1.0")).as_deref(), Some("1.0"));
    assert_eq!(version_text("バージョン", None), None);
    assert_eq!(version_text("ほか", Some("1.0")), None);
}
