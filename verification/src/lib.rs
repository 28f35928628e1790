//! Kana-kanji conversion core: input tables, composing text, dictionary tries and prompt building.
pub mod cache;
pub mod config;
pub mod dictionary;
pub mod foreign;
pub mod frame;
pub mod input;
pub mod kana;
pub mod keys;
pub mod lattice;
pub mod learning;
pub mod llama;
pub mod lm_typo;
pub mod memory;
pub mod ngram;
pub mod post_prediction;
pub mod requests;
pub mod special;
pub mod surrounding;
pub mod template;
pub mod text;
pub mod text_replacer;
pub mod typo;
pub mod zenz;

pub use cache::LruCache;
pub use input::composing::{
    ComposingCount, ComposingText, DifferenceSuffix, InputElement, InputStyle, InputTableId,
    InputTableRegistry,
};
pub use input::custom::{FormatError, FormatErrorKind, FormatReport, FormatSide, InputTableExportError};
pub use input::table::{InputModifier, InputPiece, InputTable, KeyElement, ValueElement};
pub use kana::{to_hiragana, to_katakana};
pub use dictionary::binary::{
    BOUNDARY_MEANING, CONNECTION_COUNT, ENTRY_HEADER_SIZE, MEANING_COUNT, MeaningMatrix,
    parse_connection_cost_line, parse_entry_block, parse_entry_shard,
};
pub use dictionary::store::{SHARD_MASK, SHARD_SHIFT, lookup_key, shard_groups};
pub use dictionary::user::{
    SHARD_SIZE, USER_CLASS_ID, USER_MEANING_ID, USER_VALUE_BITS, UserDictionary, mark_user_dictionary,
    shard_node_counts, user_dictionary_entry,
};
pub use dictionary::entry::{DictionaryBinaryError, DictionaryEntry, DictionaryMetadata};
pub use dictionary::louds::{CharacterIdMap, Louds, LoudsError, escaped_identifier, prefix_nodes};
pub use zenz::{
    ALIGNMENT_SEPARATOR, PrefixConstraint, ZenzPromptBuilder, ZenzV2Config, ZenzV3Config,
    ZenzVersionConfig, evaluation_prompt, input_allowed, normalize_for_model, user_dictionary_prompt,
};
pub use lattice::{
    ConversionContext, DualIndex, DualIndexMap, LatticeIndex, LatticeRange, prediction_usable,
    to_full_width, to_half_width,
};
pub use ngram::{
    KEY_VALUE_DELIMITER, NGramError, PREDICTIVE_DELIMITER, VOCABULARY_SIZE, bulk_from_entries,
    decode_token, decode_value, encode_key, predictive_query, value_from_entries, value_query,
};
pub use text_replacer::{ReplacementCandidate, TextReplacer, TextReplacerError, TextSearchResult};
pub use surrounding::{
    SurroundingContext, SurroundingText, decimal, surrounding_context, version_with_context,
};
pub use llama::{
    LlamaError, LlamaSequence, SequencePlan, common_prefix_count, inference_thread_count,
    logits_size, next_logits_start, sequence_plan,
};
pub use frame::{
    EnvelopeHeader, FrameError, MAXIMUM_MESSAGE_SIZE, PROTOCOL_VERSION, VarintDecoder, VarintStep,
    check_frame_size, encode_varint, frame_payload, validate_envelope,
};
pub use keys::{KeyAction, KeySituation, key_action};
pub use special::{
    comma_separated_number, email_texts, japanese_era_to_western, parse_hex, parse_i32,
    special_texts, time_text, typographical_texts, unicode_text, version_text,
    western_to_japanese_era,
};
pub use learning::{
    LearningError, LearningMode, LearningRecord, clause_spans, decay, decode_metadata,
    encode_louds, encode_metadata, forget_records, is_memory_file, learned_clause_ranges,
    learns_individual_word, memorize, merge_record, node_records, same_entry,
    valid_learning_entry,
};
pub use memory::{LearningState, prune_for_save};
pub use post_prediction::{
    BOS_MEANING_ID, Candidate, PostCompositionPrediction, PostPredictionKind,
};
pub use requests::{Admission, RefusalCode, RequestKind, SessionOrder};
pub use keys::{PageDirection, page_selection, valid_event_text};
pub use lattice::{combine_counts, includes_meaning, is_clause, word_type};
pub use template::{
    DayPeriodNameLength, MonthNameLength, WeekdayNameLength, YearNameLength, attribute,
    day_period_name_length, month_name_length, splice_tags, symbol_run, tag_spans, unescape,
    weekday_name_length, year_name_length,
};
pub use typo::{
    MAXIMUM_PENALTY_HALVES, TypoPrefix, direct_replacements, is_stable_prefix, render,
    roman_replacement, typo_prefixes,
};
pub use lm_typo::{
    GenerationMode, Topology, apply_input_table, consume_with_emission, generation_mode,
    has_continuation, pending_suffix, possible_next_displays,
};
pub use foreign::{
    ForeignCompletionProvider, ForeignLanguage, KeyboardLanguage, completion_languages,
    foreign_completions, starts_with_ignoring_case, typed_text,
};
pub use config::{
    ConversionConfig, HunspellConfig, InferenceConfig, InputStyleConfig, KeyboardLanguageConfig,
    LearningConfig, LearningModeConfig, LmTypoLanguageModel, PredictionConfig, PredictionMode,
    PunctuationStyleConfig, RequestOptions, TypoCorrectionConfig, TypoCorrectionMode,
    default_input_style, keyboard_language, learning_mode, prediction_mode, typo_correction_mode,
};
