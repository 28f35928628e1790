use std::collections::BTreeSet;

use beankey::{
    ComposingText, FormatError, FormatErrorKind, FormatReport, FormatSide, InputModifier,
    InputPiece, InputStyle, InputTable, InputTableId, InputTableRegistry, KeyElement, ValueElement,
};

#[test]
fn parses_and_exports_all_supported_tokens_in_order() {
    let source = "ka\tか\nn{any character}\tん{any character}\nn{composition-separator}\tん\n{lbracket}{rbracket}\t{lbracket}{rbracket}\n{shift 0}\tを\n{shift _}\tろ";

    let table = InputTable::from_custom_tsv(source);

    assert_eq!(table.to_custom_tsv().unwrap(), source);
}

#[test]
fn applies_a_registered_custom_table_to_composing_text() {
    let mut registry = InputTableRegistry::new();
    registry.register("greeting".into(), InputTable::from_custom_tsv("aisatu\tあいさつ"));
    let mut text = ComposingText::new();
    text.insert_str(
        "aisatu",
        InputStyle::Mapped(InputTableId::Named("greeting".into())),
        &registry,
    );

    assert_eq!(text.surface(), "あいさつ");
}

#[test]
fn reports_format_errors_with_zero_based_lines() {
    let source = "a\tあ\na\tカ\na{shift 0}b\tX\n{unknown}\tY\nz\t{unknown}\nbroken";

    let FormatReport::InvalidLines(errors) = InputTable::check_custom_tsv(source) else {
        panic!("expected invalid input-table report");
    };
    assert!(errors.contains(&FormatError {
        line: 1,
        kind: FormatErrorKind::DuplicateRule {
            first_defined_at: 0,
        },
    }));
    assert!(errors.contains(&FormatError {
        line: 2,
        kind: FormatErrorKind::ShiftTokenNotAtTail {
            token: "shift 0".into(),
        },
    }));
    assert!(errors.contains(&FormatError {
        line: 3,
        kind: FormatErrorKind::UnknownBraceToken {
            token: "unknown".into(),
            side: FormatSide::Key,
        },
    }));
    assert!(errors.contains(&FormatError {
        line: 4,
        kind: FormatErrorKind::UnknownBraceToken {
            token: "unknown".into(),
            side: FormatSide::Value,
        },
    }));
    assert!(errors.contains(&FormatError {
        line: 5,
        kind: FormatErrorKind::InvalidTabCount { found: 0 },
    }));
}

#[test]
fn rejects_unsupported_key_tokens_during_export() {
    let table = InputTable::new(vec![(
        vec![KeyElement::Piece(InputPiece::Key {
            intention: Some("A".into()),
            input: "A".into(),
            modifiers: BTreeSet::from([InputModifier::Shift]),
        })],
        vec![ValueElement::Character("字".into())],
    )]);

    assert!(table.to_custom_tsv().is_err());
}

#[test]
fn a_valid_table_text_is_fully_valid() {
    assert_eq!(InputTable::check_custom_tsv("ka\tか\n\nki\tき"), FormatReport::FullyValid);
}

#[test]
fn unclosed_braces_are_reported() {
    let FormatReport::InvalidLines(errors) = InputTable::check_custom_tsv("{a\tb") else {
        panic!("expected invalid input-table report");
    };
    assert_eq!(
        errors,
        vec![FormatError { line: 0, kind: FormatErrorKind::UnclosedBrace }]
    );
}

#[test]
fn blank_lines_and_single_columns_hold_no_rule() {
    let table = InputTable::from_custom_tsv("  \nonly\nx\t\ty\n");
    assert_eq!(table.to_custom_tsv().unwrap(), "x\ty");
}
