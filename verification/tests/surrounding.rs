use beankey::{
    SurroundingContext, SurroundingText, ZenzV3Config, ZenzVersionConfig, decimal,
    surrounding_context, version_with_context,
};

#[test]
fn splits_fcitx_surrounding_text_around_the_selection() {
    let context = surrounding_context(Some(&SurroundingText {
        available: true,
        text: "甲😀選択乙".into(),
        cursor: 4,
        anchor: 2,
    }))
    .unwrap();

    assert_eq!(context.left.as_deref(), Some("甲😀"));
    assert_eq!(context.right.as_deref(), Some("乙"));
}

#[test]
fn rejects_out_of_range_surrounding_text_positions() {
    let error = surrounding_context(Some(&SurroundingText {
        available: true,
        text: "甲😀".into(),
        cursor: 3,
        anchor: 2,
    }))
    .unwrap_err();

    assert!(error.contains("exceed 2 characters"));
    assert_eq!(
        error,
        "surrounding text cursor 3 and anchor 2 exceed 2 characters"
    );
}

#[test]
fn unavailable_surrounding_text_gives_no_context() {
    let context = surrounding_context(Some(&SurroundingText {
        available: false,
        text: "abc".into(),
        cursor: 9,
        anchor: 9,
    }))
    .unwrap();
    assert_eq!(context, SurroundingContext { left: None, right: None });
    assert_eq!(surrounding_context(None).unwrap().left, None);
}

#[test]
fn applies_dynamic_context_without_replacing_zenz_conditions() {
    let version = ZenzVersionConfig::V3(ZenzV3Config {
        profile: Some("profile".into()),
        left_context: Some("stale left".into()),
        right_context: Some("stale right".into()),
        ..Default::default()
    });
    let updated = version_with_context(
        &version,
        &SurroundingContext {
            left: Some("left".into()),
            right: Some("right".into()),
        },
    );

    assert_eq!(
        updated,
        ZenzVersionConfig::V3(ZenzV3Config {
            profile: Some("profile".into()),
            left_context: Some("left".into()),
            right_context: Some("right".into()),
            ..Default::default()
        })
    );
}

#[test]
fn decimal_writes_numbers() {
    assert_eq!(decimal(0), "0");
    assert_eq!(decimal(1234), "1234");
}
