use beankey::{
    DayPeriodNameLength, MonthNameLength, WeekdayNameLength, YearNameLength, attribute,
    day_period_name_length, month_name_length, splice_tags, symbol_run, tag_spans, unescape,
    weekday_name_length, year_name_length,
};

#[test]
fn unescapes_template_values() {
    assert_eq!(unescape("a\\cb"), "a,b");
    assert_eq!(unescape("\\d\\s\\t\\n\\0\\b"), "\" \t\n\0\\");
    assert_eq!(unescape("\\bd"), "\\d");
    assert_eq!(unescape("plain"), "plain");
}

#[test]
fn reads_tag_attributes() {
    let tag = "<date format=\"yyyy\" type=\"western\" language=\"ja_JP\">";
    assert_eq!(attribute(tag, "format").as_deref(), Some("yyyy"));
    assert_eq!(attribute(tag, "language").as_deref(), Some("ja_JP"));
    assert_eq!(attribute(tag, "type").as_deref(), Some("western"));
    assert_eq!(attribute(tag, "delta"), None);
    assert_eq!(attribute("<random value=\"1,2", "value"), None);
}

#[test]
fn finds_the_first_unquoted_symbol_run() {
    assert_eq!(symbol_run("yyyy年MM月dd日(EEE)", "Eec"), Some(('E', 3)));
    assert_eq!(symbol_run("'E'EEEE", "Eec"), Some(('E', 4)));
    assert_eq!(symbol_run("''E", "Eec"), Some(('E', 1)));
    assert_eq!(symbol_run("yyyy", "G"), None);
    assert_eq!(weekday_name_length("EEE"), Some(WeekdayNameLength::Abbreviated));
    assert_eq!(weekday_name_length("cccccc"), Some(WeekdayNameLength::StandaloneShort));
    assert_eq!(month_name_length("MM"), None);
    assert_eq!(month_name_length("MMMM"), Some(MonthNameLength::Wide));
    assert_eq!(month_name_length("LLL"), Some(MonthNameLength::StandaloneAbbreviated));
    assert_eq!(year_name_length("Gy年"), Some(YearNameLength::Abbreviated));
    assert_eq!(day_period_name_length("hh:mm a"), Some(DayPeriodNameLength::Abbreviated));
}

#[test]
fn finds_and_splices_tags() {
    let text = "x<random type=\"int\">y<date a>";
    let spans = tag_spans(text, "<random");
    assert_eq!(spans, [(1, 20)]);
    assert_eq!(splice_tags(text, &spans, &[Some("5".to_string())]), "x5y<date a>");
    assert_eq!(splice_tags(text, &spans, &[None]), text);
    assert!(tag_spans("<random", "<random").is_empty());
    assert_eq!(tag_spans("<a><a>", "<a"), [(0, 3), (3, 6)]);
}
