use beankey::{
    DictionaryEntry, DictionaryMetadata, PrefixConstraint, ZenzPromptBuilder, ZenzV2Config,
    ZenzV3Config, ZenzVersionConfig, evaluation_prompt, input_allowed, normalize_for_model,
    user_dictionary_prompt,
};

#[test]
fn builds_v3_input_prediction_prompt() {
    let config = ZenzVersionConfig::V3(ZenzV3Config {
        profile: Some("profile".into()),
        topic: Some("topic".into()),
        style: Some("style".into()),
        preference: Some("preference".into()),
        right_context: Some("uvwxyz".into()),
        max_left_context_length: Some(2),
        max_right_context_length: Some(3),
        ..Default::default()
    });
    assert_eq!(
        ZenzPromptBuilder::input_prediction("abcdef", "かんじ", &config).unwrap(),
        "\u{EE03}profile\u{EE04}topic\u{EE05}style\u{EE06}preference\u{EE02}ef\u{EE07}uvw\u{EE00}カンジ"
    );
}

#[test]
fn builds_v2_candidate_evaluation_prompt() {
    let config = ZenzVersionConfig::V2(ZenzV2Config {
        profile: Some("profile".into()),
        left_context: Some("abcdef".into()),
        max_left_context_length: Some(3),
    });
    assert_eq!(
        ZenzPromptBuilder::candidate_evaluation("ヘンカン", None, "単語(たんご)", &config),
        "\u{EE00}ヘンカン\u{EE02}辞書:単語(たんご)・プロフィール:profile・発言:def\u{EE01}"
    );
}

#[test]
fn inserts_alignment_separator_only_for_an_internal_cursor() {
    let config = ZenzVersionConfig::V3(ZenzV3Config {
        enable_alignment_separator: true,
        ..Default::default()
    });
    assert_eq!(
        ZenzPromptBuilder::candidate_evaluation("ハシ", Some(1), "", &config),
        "\u{EE00}ハ\u{EE08}シ\u{EE01}"
    );
    assert_eq!(
        ZenzPromptBuilder::candidate_text_for_evaluation("葉", "ハシ", Some(1), &config),
        "葉\u{EE08}"
    );
    assert_eq!(
        ZenzPromptBuilder::candidate_evaluation("ハシ", Some(2), "", &config),
        "\u{EE00}ハシ\u{EE01}"
    );
}

#[test]
fn builds_context_only_prompts() {
    assert_eq!(ZenzPromptBuilder::typo_correction_prefix(""), "\u{EE00}");
    assert_eq!(
        ZenzPromptBuilder::candidate_evaluation(
            "ハシ",
            None,
            "",
            &ZenzVersionConfig::V3(ZenzV3Config {
                right_context: Some("abcdef".into()),
                max_right_context_length: Some(2),
                ..Default::default()
            })
        ),
        "\u{EE07}ab\u{EE00}ハシ\u{EE01}"
    );
}

#[test]
fn alignment_separator_turns_a_prefix_into_an_eos_constraint() {
    let constraint =
        PrefixConstraint::normalized("橋\u{EE08}ignored".as_bytes().to_vec(), false, true);
    assert_eq!(constraint.bytes, "橋".as_bytes());
    assert!(constraint.has_eos);
    assert!(constraint.ignore_memory_and_user_dictionary);
}

#[test]
fn the_second_format_has_no_input_prediction_prompt() {
    let config = ZenzVersionConfig::V2(ZenzV2Config::default());
    assert_eq!(ZenzPromptBuilder::input_prediction("a", "か", &config), None);
    assert_eq!(
        ZenzPromptBuilder::candidate_evaluation("カ", None, "", &config),
        "\u{EE00}カ\u{EE01}"
    );
    assert_eq!(ZenzPromptBuilder::typo_correction_prefix("前"), "\u{EE02}前\u{EE00}");
}

#[test]
fn v3_evaluation_puts_the_dictionary_before_the_conditions() {
    let config = ZenzVersionConfig::V3(ZenzV3Config {
        profile: Some("p".into()),
        left_context: Some("左".into()),
        ..Default::default()
    });
    assert_eq!(
        ZenzPromptBuilder::candidate_evaluation("カ", None, "語", &config),
        "辞書:語\u{EE03}p\u{EE02}左\u{EE00}カ\u{EE01}"
    );
}

#[test]
fn prefix_constraints_check_candidates() {
    let open = PrefixConstraint::new(b"ab".to_vec());
    assert!(!open.is_empty());
    assert!(open.can_continue(b"a"));
    assert!(open.can_continue(b"abc"));
    assert!(!open.can_continue(b"b"));
    assert!(open.is_satisfied_by(b"abc"));
    let exact = PrefixConstraint::normalized(b"ab".to_vec(), true, false);
    assert!(exact.is_satisfied_by(b"ab"));
    assert!(!exact.is_satisfied_by(b"abc"));
    assert!(!exact.can_continue(b"abc"));
    assert!(PrefixConstraint::new(Vec::new()).is_empty());
}

#[test]
fn allows_predictions_that_begin_a_possible_next_input() {
    assert!(input_allowed(&Vec::new(), "あ"));
    assert!(input_allowed(&vec![String::new()], "x"));
    assert!(input_allowed(&vec!["カキ".to_string()], "か"));
    assert!(!input_allowed(&vec!["カキ".to_string()], "き"));
    assert!(input_allowed(&vec!["サ".to_string(), "キク".to_string()], "きく"));
}

fn segment(word: &str, ruby: &str, metadata: u32) -> DictionaryEntry {
    DictionaryEntry {
        word: word.into(),
        ruby: ruby.into(),
        left_id: 1,
        right_id: 1,
        meaning_id: 0,
        base_value_bits: 0,
        adjustment_bits: 0,
        metadata: DictionaryMetadata(metadata),
    }
}

#[test]
fn normalizes_spaces_and_line_breaks_for_the_model() {
    assert_eq!(normalize_for_model("a b\r\nc\n"), "a\u{3000}bc");
    assert_eq!(normalize_for_model(""), "");
}

#[test]
fn lists_only_user_dictionary_words_with_hiragana_readings() {
    let entries = vec![
        segment("単語", "タンゴ", 2),
        segment("を", "ヲ", 0),
        segment("学習", "ガクシュウ", 3),
        segment("済", "ズミ", 1),
    ];
    assert_eq!(user_dictionary_prompt(&entries), "単語(たんご)学習(がくしゅう)");
    assert_eq!(user_dictionary_prompt(&[]), "");
}

#[test]
fn builds_the_normalized_evaluation_prompt_from_candidate_entries() {
    let config = ZenzVersionConfig::V2(ZenzV2Config {
        profile: Some("my profile".into()),
        left_context: None,
        max_left_context_length: None,
    });
    let entries = vec![segment("単語", "タンゴ", 2)];
    assert_eq!(
        evaluation_prompt("タンゴ", None, &entries, &config),
        "\u{EE00}タンゴ\u{EE02}辞書:単語(たんご)・プロフィール:my\u{3000}profile・発言:\u{EE01}"
    );
}
