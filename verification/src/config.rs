//! The settings of the conversion service and how they become request options, input
//! styles, keyboard layouts and learning modes.
use vstd::prelude::*;

use crate::foreign::KeyboardLanguage;
use crate::input::composing::{InputStyle, InputTableId, InputTableRegistry, custom_position};
use crate::learning::LearningMode;

verus! {

/// When predictions are offered.
#[derive(Clone, Copy, Debug, Eq, PartialEq, Structural)]
pub enum PredictionMode {
    Automatic,
    Manual,
    Disabled,
}

impl Default for PredictionMode {
    fn default() -> (m: Self)
        ensures
            m == PredictionMode::Disabled,
    {
        PredictionMode::Disabled
    }
}

/// When typing slips are corrected.
#[derive(Clone, Copy, Debug, Eq, PartialEq, Structural)]
pub enum TypoCorrectionMode {
    Enabled,
    Automatic,
    Disabled,
}

/// What a conversion request asks for.
#[derive(Clone, Debug, Eq, PartialEq)]
pub struct RequestOptions {
    pub n_best: usize,
    pub japanese_prediction: PredictionMode,
    pub full_width_roman: bool,
    pub half_width_kana: bool,
    pub version_string: Option<String>,
}

impl Default for RequestOptions {
    fn default() -> (r: Self)
        ensures
            r.n_best == 10,
            r.japanese_prediction == PredictionMode::Automatic,
            !r.full_width_roman,
            !r.half_width_kana,
            r.version_string is None,
    {
        RequestOptions {
            n_best: 10,
            japanese_prediction: PredictionMode::Automatic,
            full_width_roman: false,
            half_width_kana: false,
            version_string: None,
        }
    }
}

/// The learning a configuration asks for.
#[derive(Clone, Copy, Debug, Eq, PartialEq, Structural)]
pub enum LearningModeConfig {
    InputAndOutput,
    OnlyOutput,
    Nothing,
}

impl Default for LearningModeConfig {
    fn default() -> (m: Self)
        ensures
            m == LearningModeConfig::InputAndOutput,
    {
        LearningModeConfig::InputAndOutput
    }
}

/// The learning settings.
#[derive(Clone, Copy, Debug, Eq, PartialEq)]
pub struct LearningConfig {
    pub mode: LearningModeConfig,
    pub max_count: usize,
}

impl Default for LearningConfig {
    fn default() -> (c: Self)
        ensures
            c.mode == LearningModeConfig::InputAndOutput,
            c.max_count == 65536,
    {
        LearningConfig { mode: LearningModeConfig::InputAndOutput, max_count: 65536 }
    }
}

/// The keyboard layout a configuration names.
#[derive(Clone, Copy, Debug, Eq, PartialEq, Structural)]
pub enum KeyboardLanguageConfig {
    Unspecified,
    Japanese,
    EnglishUs,
    Greek,
}

impl Default for KeyboardLanguageConfig {
    fn default() -> (k: Self)
        ensures
            k == KeyboardLanguageConfig::Japanese,
    {
        KeyboardLanguageConfig::Japanese
    }
}

/// The input style a configuration names.
#[derive(Clone, Copy, Debug, Eq, PartialEq, Structural)]
pub enum InputStyleConfig {
    Direct,
    RomanToKana,
    Azik,
    KanaJis,
    KanaUs,
    Custom,
}

impl Default for InputStyleConfig {
    fn default() -> (s: Self)
        ensures
            s == InputStyleConfig::RomanToKana,
    {
        InputStyleConfig::RomanToKana
    }
}

/// When a configuration offers predictions.
#[derive(Clone, Copy, Debug, Eq, PartialEq, Structural)]
pub enum PredictionConfig {
    Automatic,
    Manual,
    Disabled,
}

impl Default for PredictionConfig {
    fn default() -> (p: Self)
        ensures
            p == PredictionConfig::Automatic,
    {
        PredictionConfig::Automatic
    }
}

/// When a configuration corrects typing slips.
#[derive(Clone, Copy, Debug, Eq, PartialEq, Structural)]
pub enum TypoCorrectionConfig {
    Enabled,
    Automatic,
    Disabled,
}

impl Default for TypoCorrectionConfig {
    fn default() -> (t: Self)
        ensures
            t == TypoCorrectionConfig::Automatic,
    {
        TypoCorrectionConfig::Automatic
    }
}

/// The punctuation a configuration types.
#[derive(Clone, Copy, Debug, Eq, PartialEq, Structural)]
pub enum PunctuationStyleConfig {
    KutenAndToten,
    KutenAndComma,
    PeriodAndToten,
    PeriodAndComma,
}

impl Default for PunctuationStyleConfig {
    fn default() -> (p: Self)
        ensures
            p == PunctuationStyleConfig::KutenAndToten,
    {
        PunctuationStyleConfig::KutenAndToten
    }
}

/// The language model that ranks typo corrections.
#[derive(Clone, Copy, Debug, Eq, PartialEq, Structural)]
pub enum LmTypoLanguageModel {
    Zenz,
    Ngram,
}

impl Default for LmTypoLanguageModel {
    fn default() -> (m: Self)
        ensures
            m == LmTypoLanguageModel::Zenz,
    {
        LmTypoLanguageModel::Zenz
    }
}

/// The model inference profile.
#[derive(Clone, Copy, Debug, Eq, PartialEq)]
pub struct InferenceConfig {
    pub context_size: usize,
    pub batch_size: usize,
    pub micro_batch_size: usize,
    pub flash_attention: bool,
}

/// The only inference profile the service runs: a context of 512, batches of 512 and
/// micro-batches of 64, with flash attention.
pub open spec fn supported_profile(c: InferenceConfig) -> bool {
    c.context_size == 512 && c.batch_size == 512 && c.micro_batch_size == 64 && c.flash_attention
}

impl InferenceConfig {
    /// Whether this is the inference profile the service runs.
    pub fn is_supported(&self) -> (r: bool)
        ensures
            r == supported_profile(*self),
    {
        self.context_size == 512 && self.batch_size == 512 && self.micro_batch_size == 64
            && self.flash_attention
    }
}

/// The dictionaries of the spelling completer.
#[derive(Clone, Debug, Eq, PartialEq)]
pub struct HunspellConfig {
    pub english_dictionary: String,
    pub greek_dictionary: String,
}

/// The conversion settings; paths are held as text, and the custom tables as name and path.
#[derive(Clone, Debug, Eq, PartialEq)]
pub struct ConversionConfig {
    pub input_style: InputStyleConfig,
    pub custom_input_table: Option<String>,
    pub keyboard_language: KeyboardLanguageConfig,
    pub n_best: usize,
    pub japanese_prediction: PredictionConfig,
    pub foreign_prediction: PredictionConfig,
    pub full_width_roman: bool,
    pub half_width_kana: bool,
    pub typography: bool,
    pub typo_correction: TypoCorrectionConfig,
    pub live_conversion: bool,
    pub type_backslash: bool,
    pub type_half_space: bool,
    pub option_direct_full_width_input: bool,
    pub punctuation_style: PunctuationStyleConfig,
    pub user_dictionary: Option<String>,
    pub user_dictionary_directory: Option<String>,
    pub custom_input_tables: Vec<(String, String)>,
}

impl Default for ConversionConfig {
    fn default() -> (c: Self)
        ensures
            c.input_style == InputStyleConfig::RomanToKana,
            c.custom_input_table is None,
            c.keyboard_language == KeyboardLanguageConfig::Japanese,
            c.n_best == 10,
            c.japanese_prediction == PredictionConfig::Disabled,
            c.foreign_prediction == PredictionConfig::Disabled,
            c.full_width_roman,
            !c.half_width_kana,
            !c.typography,
            c.typo_correction == TypoCorrectionConfig::Automatic,
            c.live_conversion,
            !c.type_backslash,
            !c.type_half_space,
            !c.option_direct_full_width_input,
            c.punctuation_style == PunctuationStyleConfig::KutenAndToten,
            c.user_dictionary is None,
            c.user_dictionary_directory is None,
            c.custom_input_tables@.len() == 0,
    {
        ConversionConfig {
            input_style: InputStyleConfig::RomanToKana,
            custom_input_table: None,
            keyboard_language: KeyboardLanguageConfig::Japanese,
            n_best: 10,
            japanese_prediction: PredictionConfig::Disabled,
            foreign_prediction: PredictionConfig::Disabled,
            full_width_roman: true,
            half_width_kana: false,
            typography: false,
            typo_correction: TypoCorrectionConfig::Automatic,
            live_conversion: true,
            type_backslash: false,
            type_half_space: false,
            option_direct_full_width_input: false,
            punctuation_style: PunctuationStyleConfig::KutenAndToten,
            user_dictionary: None,
            user_dictionary_directory: None,
            custom_input_tables: Vec::new(),
        }
    }
}

/// The prediction mode a configuration names.
pub fn prediction_mode(value: PredictionConfig) -> (m: PredictionMode)
    ensures
        m == match value {
            PredictionConfig::Automatic => PredictionMode::Automatic,
            PredictionConfig::Manual => PredictionMode::Manual,
            PredictionConfig::Disabled => PredictionMode::Disabled,
        },
{
    match value {
        PredictionConfig::Automatic => PredictionMode::Automatic,
        PredictionConfig::Manual => PredictionMode::Manual,
        PredictionConfig::Disabled => PredictionMode::Disabled,
    }
}

/// The typo correction mode a configuration names.
pub fn typo_correction_mode(value: TypoCorrectionConfig) -> (m: TypoCorrectionMode)
    ensures
        m == match value {
            TypoCorrectionConfig::Enabled => TypoCorrectionMode::Enabled,
            TypoCorrectionConfig::Automatic => TypoCorrectionMode::Automatic,
            TypoCorrectionConfig::Disabled => TypoCorrectionMode::Disabled,
        },
{
    match value {
        TypoCorrectionConfig::Enabled => TypoCorrectionMode::Enabled,
        TypoCorrectionConfig::Automatic => TypoCorrectionMode::Automatic,
        TypoCorrectionConfig::Disabled => TypoCorrectionMode::Disabled,
    }
}

/// The learning mode a configuration names.
pub fn learning_mode(value: LearningModeConfig) -> (m: LearningMode)
    ensures
        m == match value {
            LearningModeConfig::InputAndOutput => LearningMode::InputAndOutput,
            LearningModeConfig::OnlyOutput => LearningMode::OnlyOutput,
            LearningModeConfig::Nothing => LearningMode::Nothing,
        },
{
    match value {
        LearningModeConfig::InputAndOutput => LearningMode::InputAndOutput,
        LearningModeConfig::OnlyOutput => LearningMode::OnlyOutput,
        LearningModeConfig::Nothing => LearningMode::Nothing,
    }
}

/// The keyboard layout a configuration names.
pub fn keyboard_language(value: KeyboardLanguageConfig) -> (k: KeyboardLanguage)
    ensures
        k == match value {
            KeyboardLanguageConfig::Unspecified => KeyboardLanguage::Unspecified,
            KeyboardLanguageConfig::Japanese => KeyboardLanguage::Japanese,
            KeyboardLanguageConfig::EnglishUs => KeyboardLanguage::EnglishUs,
            KeyboardLanguageConfig::Greek => KeyboardLanguage::Greek,
        },
{
    match value {
        KeyboardLanguageConfig::Unspecified => KeyboardLanguage::Unspecified,
        KeyboardLanguageConfig::Japanese => KeyboardLanguage::Japanese,
        KeyboardLanguageConfig::EnglishUs => KeyboardLanguage::EnglishUs,
        KeyboardLanguageConfig::Greek => KeyboardLanguage::Greek,
    }
}

/// The default input style a configuration names; a custom style needs a table registered
/// under the configured name, else the name (or an empty one) is reported.
pub fn default_input_style(
    style: InputStyleConfig,
    custom_input_table: &Option<String>,
    tables: &InputTableRegistry,
) -> (r: Result<InputStyle, String>)
    ensures
        match style {
            InputStyleConfig::Direct => r == Ok::<InputStyle, String>(InputStyle::Direct),
            InputStyleConfig::RomanToKana => r == Ok::<InputStyle, String>(InputStyle::RomanToKana),
            InputStyleConfig::Azik => r == Ok::<InputStyle, String>(
                InputStyle::Mapped(InputTableId::DefaultAzik),
            ),
            InputStyleConfig::KanaJis => r == Ok::<InputStyle, String>(
                InputStyle::Mapped(InputTableId::DefaultKanaJis),
            ),
            InputStyleConfig::KanaUs => r == Ok::<InputStyle, String>(
                InputStyle::Mapped(InputTableId::DefaultKanaUs),
            ),
            InputStyleConfig::Custom => match custom_input_table {
                Some(name) => if custom_position(tables@.custom, name@) is Some {
                    r matches Ok(InputStyle::Mapped(InputTableId::Named(n))) && n@ == name@
                } else {
                    r matches Err(n) && n@ == name@
                },
                None => r matches Err(n) && n@.len() == 0,
            },
        },
{
    match style {
        InputStyleConfig::Direct => Ok(InputStyle::Direct),
        InputStyleConfig::RomanToKana => Ok(InputStyle::RomanToKana),
        InputStyleConfig::Azik => Ok(InputStyle::Mapped(InputTableId::DefaultAzik)),
        InputStyleConfig::KanaJis => Ok(InputStyle::Mapped(InputTableId::DefaultKanaJis)),
        InputStyleConfig::KanaUs => Ok(InputStyle::Mapped(InputTableId::DefaultKanaUs)),
        InputStyleConfig::Custom => match custom_input_table {
            Some(name) => {
                if tables.contains(name.as_str()) {
                    Ok(InputStyle::Mapped(InputTableId::Named(name.clone())))
                } else {
                    Err(name.clone())
                }
            },
            None => Err(String::new()),
        },
    }
}

} // verus!
