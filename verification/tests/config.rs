use beankey::{
    ConversionConfig, InferenceConfig, InputStyle, InputStyleConfig, InputTable, InputTableId,
    InputTableRegistry, KeyboardLanguage, KeyboardLanguageConfig, LearningConfig, LearningMode,
    LearningModeConfig, PredictionConfig, PredictionMode, RequestOptions, TypoCorrectionConfig,
    TypoCorrectionMode, default_input_style, keyboard_language, learning_mode, prediction_mode,
    typo_correction_mode,
};

#[test]
fn maps_configuration_values_to_runtime_modes() {
    assert_eq!(prediction_mode(PredictionConfig::Manual), PredictionMode::Manual);
    assert_eq!(typo_correction_mode(TypoCorrectionConfig::Disabled), TypoCorrectionMode::Disabled);
    assert_eq!(learning_mode(LearningModeConfig::OnlyOutput), LearningMode::OnlyOutput);
    assert_eq!(keyboard_language(KeyboardLanguageConfig::Greek), KeyboardLanguage::Greek);
    assert_eq!(RequestOptions::default().n_best, 10);
    assert_eq!(LearningConfig::default().max_count, 65_536);
    let conversion = ConversionConfig::default();
    assert!(conversion.full_width_roman && conversion.live_conversion);
    assert_eq!(conversion.typo_correction, TypoCorrectionConfig::Automatic);
    let profile = InferenceConfig { context_size: 512, batch_size: 512, micro_batch_size: 64, flash_attention: true };
    assert!(profile.is_supported());
    assert!(!InferenceConfig { flash_attention: false, ..profile }.is_supported());
}

#[test]
fn resolves_the_default_input_style() {
    let mut tables = InputTableRegistry::new();
    assert!(matches!(
        default_input_style(InputStyleConfig::KanaJis, &None, &tables),
        Ok(InputStyle::Mapped(InputTableId::DefaultKanaJis))
    ));
    assert_eq!(
        default_input_style(InputStyleConfig::Custom, &Some("mine".to_string()), &tables).err(),
        Some("mine".to_string())
    );
    assert_eq!(default_input_style(InputStyleConfig::Custom, &None, &tables).err(), Some(String::new()));
    tables.register("mine".to_string(), InputTable::from_custom_tsv("a\tあ"));
    assert!(tables.contains("mine"));
    assert!(matches!(
        default_input_style(InputStyleConfig::Custom, &Some("mine".to_string()), &tables),
        Ok(InputStyle::Mapped(InputTableId::Named(name))) if name == "mine"
    ));
}
