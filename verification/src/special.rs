//! The texts of special candidates: era years, times, grouped numbers, code points, e-mail
//! addresses and mathematical letter styles. Scoring them is left to the converter.
use vstd::prelude::*;

use crate::kana::katakana_seq;
use crate::surrounding::{decimal, decimal_spec};
use crate::text::{chars_of, push_char, scalar_to_char, spells, string_from_chars};

verus! {

pub open spec fn is_digit(c: char) -> bool {
    '0' <= c && c <= '9'
}

pub open spec fn digit_value(c: char) -> int {
    (c as u32) - ('0' as u32)
}

/// The value of a non-empty run of ASCII digits.
pub open spec fn digits_value(s: Seq<char>) -> int
    decreases s.len(),
{
    if s.len() == 0 {
        0
    } else {
        10 * digits_value(s.drop_last()) + digit_value(s.last())
    }
}

pub open spec fn all_digits(s: Seq<char>) -> bool {
    forall|i: int| 0 <= i < s.len() ==> is_digit(#[trigger] s[i])
}

/// `str::parse::<i32>`: an optional sign and at least one ASCII digit, in range.
pub open spec fn sign_len(s: Seq<char>) -> int {
    if s.len() > 0 && (s[0] == '-' || s[0] == '+') {
        1
    } else {
        0
    }
}

pub open spec fn parse_i32_spec(s: Seq<char>) -> Option<int> {
    let negative = s.len() > 0 && s[0] == '-';
    let body = s.skip(sign_len(s));
    if body.len() == 0 || !all_digits(body) {
        None
    } else {
        let v = if negative {
            -digits_value(body)
        } else {
            digits_value(body)
        };
        if i32::MIN <= v <= i32::MAX {
            Some(v)
        } else {
            None
        }
    }
}

proof fn lemma_digits_value_nonneg(s: Seq<char>)
    requires
        all_digits(s),
    ensures
        digits_value(s) >= 0,
        s.len() > 0 ==> digits_value(s) >= digits_value(s.drop_last()),
    decreases s.len(),
{
    if s.len() > 0 {
        assert(all_digits(s.drop_last()));
        lemma_digits_value_nonneg(s.drop_last());
        assert(is_digit(s[s.len() - 1]));
    }
}

proof fn lemma_digits_value_monotone(s: Seq<char>, k: int)
    requires
        all_digits(s),
        0 <= k <= s.len(),
    ensures
        digits_value(s.take(k)) <= digits_value(s),
    decreases s.len() - k,
{
    if k < s.len() {
        lemma_digits_value_monotone(s, k + 1);
        assert(s.take(k + 1).drop_last() == s.take(k));
        assert(all_digits(s.take(k + 1)));
        lemma_digits_value_nonneg(s.take(k + 1));
    } else {
        assert(s.take(k) == s);
    }
}

/// Parses a decimal `i32` as `str::parse` does.
pub fn parse_i32(s: &[char]) -> (r: Option<i32>)
    ensures
        match r {
            Some(v) => parse_i32_spec(s@) == Some(v as int),
            None => parse_i32_spec(s@) is None,
        },
{
    let mut start: usize = 0;
    let mut negative = false;
    if s.len() > 0 && s[0] == '-' {
        negative = true;
        start = 1;
    } else if s.len() > 0 && s[0] == '+' {
        start = 1;
    }
    let ghost body = s@.skip(start as int);
    if start >= s.len() {
        assert(body.len() == 0);
        return None;
    }
    let mut value: i64 = 0;
    let mut i = start;
    while i < s.len()
        invariant
            start <= i <= s@.len(),
            negative == (s@.len() > 0 && s@[0] == '-'),
            start == sign_len(s@),
            body == s@.skip(start as int),
            all_digits(body.take(i - start)),
            value == digits_value(body.take(i - start)),
            0 <= value <= 0x8000_0000,
        decreases s@.len() - i,
    {
        let c = s[i];
        assert(body[i - start] == c);
        assert(body.take(i - start + 1).drop_last() == body.take(i - start));
        assert(body.take(i - start + 1).last() == c);
        if !('0' <= c && c <= '9') {
            assert(!is_digit(body[i - start]));
            assert(!all_digits(body));
            return None;
        }
        let d = ((c as u32) - ('0' as u32)) as i64;
        value = value * 10 + d;
        assert(all_digits(body.take(i - start + 1)));
        assert(value == digits_value(body.take(i - start + 1)));
        if value > 0x8000_0000 {
            proof {
                if all_digits(body) {
                    lemma_digits_value_monotone(body, i - start + 1);
                }
            }
            return None;
        }
        i = i + 1;
    }
    assert(body.take(i - start) == body);
    assert(all_digits(body));
    assert(value == digits_value(body));
    assert(body.len() > 0);
    if negative {
        Some((-value) as i32)
    } else if value > 0x7fff_ffff {
        None
    } else {
        Some(value as i32)
    }
}


/// A number in decimal, with a minus sign when negative.
pub open spec fn signed_decimal(n: int) -> Seq<char> {
    if n >= 0 {
        decimal_spec(n as nat)
    } else {
        seq!['-'] + decimal_spec((-n) as nat)
    }
}

fn signed_decimal_exec(n: i64) -> (s: String)
    requires
        -0xffff_ffff <= n <= 0xffff_ffff,
    ensures
        s@ == signed_decimal(n as int),
{
    if n >= 0 {
        decimal(n as usize)
    } else {
        let mut s = String::new();
        push_char(&mut s, '-');
        let digits = decimal((-n) as usize);
        s.append(digits.as_str());
        s
    }
}

pub open spec fn ends_with(s: Seq<char>, suffix: Seq<char>) -> bool {
    suffix.len() <= s.len() && s.skip(s.len() - suffix.len()) == suffix
}

pub open spec fn starts_with(s: Seq<char>, prefix: Seq<char>) -> bool {
    prefix.len() <= s.len() && s.take(prefix.len() as int) == prefix
}

pub(crate) fn chars_ends_with(s: &Vec<char>, suffix: &str) -> (r: bool)
    ensures
        r == ends_with(s@, suffix@),
{
    let sc = chars_of(suffix);
    if sc.len() > s.len() {
        return false;
    }
    let tail = crate::text::slice_chars(s.as_slice(), s.len() - sc.len(), s.len());
    assert(tail@ == s@.skip(s@.len() - sc@.len()));
    spells(tail.as_slice(), suffix)
}

fn chars_starts_with(s: &Vec<char>, prefix: &str) -> (r: bool)
    ensures
        r == starts_with(s@, prefix@),
{
    let pc = chars_of(prefix);
    if pc.len() > s.len() {
        return false;
    }
    let head = crate::text::slice_chars(s.as_slice(), 0, pc.len());
    assert(head@ == s@.take(pc@.len() as int));
    spells(head.as_slice(), prefix)
}

/// The eras written in katakana, with the western year before their first year and the
/// character counts (with the year and `ネン`) of their readings.
pub open spec fn era_name(i: int) -> Seq<char> {
    if i == 0 {
        "ショウワ"@
    } else if i == 1 {
        "ヘイセイ"@
    } else if i == 2 {
        "レイワ"@
    } else if i == 3 {
        "メイジ"@
    } else {
        "タイショウ"@
    }
}

pub open spec fn era_offset(i: int) -> int {
    if i == 0 {
        1925
    } else if i == 1 {
        1988
    } else if i == 2 {
        2018
    } else if i == 3 {
        1867
    } else {
        1911
    }
}

pub open spec fn era_counts(i: int) -> (int, int) {
    if i == 0 || i == 1 {
        (7, 8)
    } else if i == 2 || i == 3 {
        (6, 7)
    } else {
        (8, 9)
    }
}

fn era_exec(i: usize) -> (r: (&'static str, i64, usize, usize))
    requires
        i < 5,
    ensures
        r.0@ == era_name(i as int),
        r.1 == era_offset(i as int),
        (r.2 as int, r.3 as int) == era_counts(i as int),
{
    if i == 0 {
        ("ショウワ", 1925, 7, 8)
    } else if i == 1 {
        ("ヘイセイ", 1988, 7, 8)
    } else if i == 2 {
        ("レイワ", 2018, 6, 7)
    } else if i == 3 {
        ("メイジ", 1867, 6, 7)
    } else {
        ("タイショウ", 1911, 8, 9)
    }
}

/// The first era (from `k` on) whose name starts the text.
pub open spec fn era_of(w: Seq<char>, k: int) -> Option<int>
    decreases 5 - k,
{
    if k >= 5 || k < 0 {
        None
    } else if starts_with(w, era_name(k)) {
        Some(k)
    } else {
        era_of(w, k + 1)
    }
}

/// The western year of a year reading such as `ショウワ64ネン` or `レイワガンネン`.
pub open spec fn era_to_western_spec(v: Seq<char>) -> Option<Seq<char>> {
    if v == "メイジガンネン"@ {
        Some("1868年"@)
    } else if v == "タイショウガンネン"@ {
        Some("1912年"@)
    } else if v == "ショウワガンネン"@ {
        Some("1926年"@)
    } else if v == "ヘイセイガンネン"@ {
        Some("1989年"@)
    } else if v == "レイワガンネン"@ {
        Some("2019年"@)
    } else if !ends_with(v, "ネン"@) {
        None
    } else {
        era_reading_spec(v, v.take(v.len() - 2))
    }
}

/// The western year of a reading `v` whose text before `ネン` is `w`.
pub open spec fn era_reading_spec(v: Seq<char>, w: Seq<char>) -> Option<Seq<char>> {
    match era_of(w, 0) {
        None => None,
        Some(i) => if v.len() != era_counts(i).0 && v.len() != era_counts(i).1 {
            None
        } else {
            match parse_i32_spec(w.skip(era_name(i).len() as int)) {
                None => None,
                Some(y) => Some(signed_decimal(y + era_offset(i)) + "年"@),
            }
        },
    }
}

/// Converts a Japanese-era year reading to the western year.
pub fn japanese_era_to_western(value: &str) -> (r: Option<String>)
    ensures
        match r {
            Some(s) => era_to_western_spec(value@) == Some(s@),
            None => era_to_western_spec(value@) is None,
        },
{
    let v = chars_of(value);
    if spells(v.as_slice(), "メイジガンネン") {
        return Some("1868年".to_owned());
    } else if spells(v.as_slice(), "タイショウガンネン") {
        return Some("1912年".to_owned());
    } else if spells(v.as_slice(), "ショウワガンネン") {
        return Some("1926年".to_owned());
    } else if spells(v.as_slice(), "ヘイセイガンネン") {
        return Some("1989年".to_owned());
    } else if spells(v.as_slice(), "レイワガンネン") {
        return Some("2019年".to_owned());
    }
    if !chars_ends_with(&v, "ネン") {
        return None;
    }
    proof {
        reveal_strlit("ネン");
    }
    let w = crate::text::slice_chars(v.as_slice(), 0, v.len() - 2);
    assert(w@ == v@.take(v@.len() - 2));
    assert(era_to_western_spec(value@) == era_reading_spec(v@, w@));
    let mut k: usize = 0;
    while k < 5
        invariant
            k <= 5,
            era_of(w@, k as int) == era_of(w@, 0),
            era_to_western_spec(value@) == era_reading_spec(v@, w@),
        decreases 5 - k,
    {
        let (name, offset, a, b) = era_exec(k);
        if chars_starts_with(&w, name) {
            assert(era_of(w@, 0) == Some(k as int));
            if v.len() != a && v.len() != b {
                return None;
            }
            let nc = chars_of(name);
            let rest = crate::text::slice_chars(w.as_slice(), nc.len(), w.len());
            assert(rest@ == w@.skip(era_name(k as int).len() as int));
            match parse_i32(rest.as_slice()) {
                None => {
                    return None;
                },
                Some(y) => {
                    let mut s = signed_decimal_exec((y as i64) + offset);
                    s.append("年");
                    return Some(s);
                },
            }
        }
        k = k + 1;
    }
    None
}


/// A year `n` of an era, as `<era>n年`.
pub open spec fn era_year(era: Seq<char>, n: int) -> Seq<char> {
    era + signed_decimal(n) + "年"@
}

/// The Japanese-era names of a western year reading such as `2019ネン` (its first four
/// characters are the year).
pub open spec fn western_to_era_spec(v: Seq<char>) -> Seq<Seq<char>> {
    if !ends_with(v, "ネン"@) {
        Seq::empty()
    } else {
        match parse_i32_spec(v.take(if v.len() < 4 { v.len() as int } else { 4 })) {
            None => Seq::empty(),
            Some(year) => if year == 1989 {
                seq!["平成元年"@, "昭和64年"@]
            } else if year == 2019 {
                seq!["令和元年"@, "平成31年"@]
            } else if year == 1926 {
                seq!["昭和元年"@, "大正15年"@]
            } else if year == 1912 {
                seq!["大正元年"@, "明治45年"@]
            } else if year == 1868 {
                seq!["明治元年"@, "慶應4年"@]
            } else if 1990 <= year <= 2018 {
                seq![era_year("平成"@, year - 1988)]
            } else if 1927 <= year <= 1988 {
                seq![era_year("昭和"@, year - 1925)]
            } else if 1869 <= year <= 1911 {
                seq![era_year("明治"@, year - 1967)]
            } else if 1913 <= year <= 1925 {
                seq![era_year("大正"@, year - 1911)]
            } else if year >= 2020 {
                seq![era_year("令和"@, year - 2018)]
            } else {
                Seq::empty()
            },
        }
    }
}

fn era_year_exec(era: &str, n: i64) -> (s: String)
    requires
        -0xffff_ffff <= n <= 0xffff_ffff,
    ensures
        s@ == era_year(era@, n as int),
{
    let mut s = era.to_owned();
    let digits = signed_decimal_exec(n);
    s.append(digits.as_str());
    s.append("年");
    s
}

fn one(s: &str) -> (v: Vec<String>)
    ensures
        crate::text::views(v@) == seq![s@],
{
    let mut v: Vec<String> = Vec::new();
    v.push(s.to_owned());
    assert(crate::text::views(v@) =~= seq![s@]);
    v
}

fn two(a: &str, b: &str) -> (v: Vec<String>)
    ensures
        crate::text::views(v@) == seq![a@, b@],
{
    let mut v: Vec<String> = Vec::new();
    v.push(a.to_owned());
    v.push(b.to_owned());
    assert(crate::text::views(v@) =~= seq![a@, b@]);
    v
}

fn one_string(s: String) -> (v: Vec<String>)
    ensures
        crate::text::views(v@) == seq![s@],
{
    let mut v: Vec<String> = Vec::new();
    let ghost sv = s@;
    v.push(s);
    assert(crate::text::views(v@) =~= seq![sv]);
    v
}

/// The Japanese-era names of a western year reading.
pub fn western_to_japanese_era(value: &str) -> (out: Vec<String>)
    ensures
        crate::text::views(out@) == western_to_era_spec(value@),
{
    let v = chars_of(value);
    let none: Vec<String> = Vec::new();
    assert(crate::text::views(none@) =~= Seq::<Seq<char>>::empty());
    if !chars_ends_with(&v, "ネン") {
        return none;
    }
    let n = if v.len() < 4 {
        v.len()
    } else {
        4
    };
    let head = crate::text::slice_chars(v.as_slice(), 0, n);
    assert(head@ == v@.take(n as int));
    let year = match parse_i32(head.as_slice()) {
        None => {
            return none;
        },
        Some(y) => y as i64,
    };
    if year == 1989 {
        two("平成元年", "昭和64年")
    } else if year == 2019 {
        two("令和元年", "平成31年")
    } else if year == 1926 {
        two("昭和元年", "大正15年")
    } else if year == 1912 {
        two("大正元年", "明治45年")
    } else if year == 1868 {
        two("明治元年", "慶應4年")
    } else if 1990 <= year && year <= 2018 {
        one_string(era_year_exec("平成", year - 1988))
    } else if 1927 <= year && year <= 1988 {
        one_string(era_year_exec("昭和", year - 1925))
    } else if 1869 <= year && year <= 1911 {
        one_string(era_year_exec("明治", year - 1967))
    } else if 1913 <= year && year <= 1925 {
        one_string(era_year_exec("大正", year - 1911))
    } else if year >= 2020 {
        one_string(era_year_exec("令和", year - 2018))
    } else {
        none
    }
}

/// Two decimal digits.
pub open spec fn two_digits(n: int) -> Seq<char> {
    seq![(('0' as u32) + n / 10) as char, (('0' as u32) + n % 10) as char]
}

/// The time written by three or four digits: `H:MM` or `HH:MM`, with the minutes below 60
/// and (for four digits) the hours at most 24.
pub open spec fn time_spec(v: Seq<char>) -> Option<Seq<char>> {
    if !all_digits(v) {
        None
    } else if v.len() == 3 {
        let hour = digit_value(v[0]);
        let minute = 10 * digit_value(v[1]) + digit_value(v[2]);
        if minute <= 59 {
            Some(decimal_spec(hour as nat) + seq![':'] + two_digits(minute))
        } else {
            None
        }
    } else if v.len() == 4 {
        let hour = 10 * digit_value(v[0]) + digit_value(v[1]);
        let minute = 10 * digit_value(v[2]) + digit_value(v[3]);
        if hour <= 24 && minute <= 59 {
            Some(two_digits(hour) + seq![':'] + two_digits(minute))
        } else {
            None
        }
    } else {
        None
    }
}

fn digit_of(c: char) -> (d: u32)
    requires
        is_digit(c),
    ensures
        d == digit_value(c),
        d < 10,
{
    (c as u32) - ('0' as u32)
}

fn push_two_digits(s: &mut String, n: u32)
    requires
        n < 100,
    ensures
        final(s)@ == old(s)@ + two_digits(n as int),
{
    push_char(s, scalar_to_char(('0' as u32) + n / 10));
    push_char(s, scalar_to_char(('0' as u32) + n % 10));
}

/// The time written by the digits of `value`.
pub fn time_text(value: &str) -> (r: Option<String>)
    ensures
        match r {
            Some(s) => time_spec(value@) == Some(s@),
            None => time_spec(value@) is None,
        },
{
    let v = chars_of(value);
    let mut i: usize = 0;
    while i < v.len()
        invariant
            i <= v@.len(),
            v@ == value@,
            forall|j: int| 0 <= j < i ==> is_digit(#[trigger] v@[j]),
        decreases v@.len() - i,
    {
        if !('0' <= v[i] && v[i] <= '9') {
            assert(!is_digit(v@[i as int]));
            assert(!all_digits(value@));
            return None;
        }
        i = i + 1;
    }
    assert(all_digits(v@));
    if v.len() == 3 {
        let hour = digit_of(v[0]);
        let minute = 10 * digit_of(v[1]) + digit_of(v[2]);
        if minute <= 59 {
            let mut s = decimal(hour as usize);
            push_char(&mut s, ':');
            push_two_digits(&mut s, minute);
            return Some(s);
        }
        None
    } else if v.len() == 4 {
        let hour = 10 * digit_of(v[0]) + digit_of(v[1]);
        let minute = 10 * digit_of(v[2]) + digit_of(v[3]);
        if hour <= 24 && minute <= 59 {
            let mut s = String::new();
            push_two_digits(&mut s, hour);
            push_char(&mut s, ':');
            push_two_digits(&mut s, minute);
            return Some(s);
        }
        None
    } else {
        None
    }
}


/// Digits grouped by three from the right with commas.
pub open spec fn group3(s: Seq<char>) -> Seq<char>
    decreases s.len(),
{
    if s.len() <= 3 {
        s
    } else {
        group3(s.take(s.len() - 3)) + seq![','] + s.skip(s.len() - 3)
    }
}

/// Each part is a non-empty run of digits.
pub open spec fn digit_runs(parts: Seq<Seq<char>>) -> bool {
    forall|k: int| 0 <= k < parts.len() ==> parts[k].len() > 0 && all_digits(#[trigger] parts[k])
}

/// A number of more than three integer digits (optionally negative, optionally with a
/// fraction) with its integer digits grouped by commas.
pub open spec fn comma_spec(v: Seq<char>) -> Option<Seq<char>> {
    let negative = v.len() > 0 && v[0] == '-';
    let body = if negative {
        v.skip(1)
    } else {
        v
    };
    let parts = crate::text::split_spec(body, '.');
    if parts.len() > 2 || !digit_runs(parts) || parts[0].len() <= 3 {
        None
    } else {
        Some(
            (if negative {
                seq!['-']
            } else {
                Seq::empty()
            }) + group3(parts[0]) + (if parts.len() == 2 {
                seq!['.'] + parts[1]
            } else {
                Seq::empty()
            }),
        )
    }
}

fn group3_exec(s: &Vec<char>) -> (out: Vec<char>)
    ensures
        out@ == group3(s@),
    decreases s@.len(),
{
    if s.len() <= 3 {
        return crate::text::slice_chars(s.as_slice(), 0, s.len());
    }
    let head = crate::text::slice_chars(s.as_slice(), 0, s.len() - 3);
    let mut out = group3_exec(&head);
    out.push(',');
    let mut i = s.len() - 3;
    let ghost before = out@;
    while i < s.len()
        invariant
            s@.len() - 3 <= i <= s@.len(),
            s@.len() > 3,
            out@ == before + s@.subrange(s@.len() - 3, i as int),
        decreases s@.len() - i,
    {
        out.push(s[i]);
        assert(s@.subrange(s@.len() - 3, i + 1) == s@.subrange(s@.len() - 3, i as int).push(s@[i as int]));
        i = i + 1;
    }
    assert(s@.subrange(s@.len() - 3, s@.len() as int) == s@.skip(s@.len() - 3));
    assert(head@ == s@.take(s@.len() - 3));
    out
}

fn is_digit_run(s: &Vec<char>) -> (r: bool)
    ensures
        r == (s@.len() > 0 && all_digits(s@)),
{
    if s.len() == 0 {
        return false;
    }
    let mut i: usize = 0;
    while i < s.len()
        invariant
            i <= s@.len(),
            forall|j: int| 0 <= j < i ==> is_digit(#[trigger] s@[j]),
        decreases s@.len() - i,
    {
        if !('0' <= s[i] && s[i] <= '9') {
            assert(!is_digit(s@[i as int]));
            return false;
        }
        i = i + 1;
    }
    true
}

/// The number with its integer digits grouped by commas.
pub fn comma_separated_number(value: &str) -> (r: Option<String>)
    ensures
        match r {
            Some(s) => comma_spec(value@) == Some(s@),
            None => comma_spec(value@) is None,
        },
{
    let v = chars_of(value);
    let negative = v.len() > 0 && v[0] == '-';
    let body = if negative {
        crate::text::slice_chars(v.as_slice(), 1, v.len())
    } else {
        crate::text::slice_chars(v.as_slice(), 0, v.len())
    };
    let ghost spec_body = if negative {
        value@.skip(1)
    } else {
        value@
    };
    assert(body@ == spec_body);
    assert(negative == (value@.len() > 0 && value@[0] == '-'));
    let parts = crate::text::split_chars(body.as_slice(), '.');
    let ghost pv = parts@.map_values(|p: Vec<char>| p@);
    proof {
        crate::text::lemma_split_nonempty(body@, '.');
    }
    assert(pv == crate::text::split_spec(spec_body, '.'));
    if parts.len() > 2 {
        return None;
    }
    let mut k: usize = 0;
    while k < parts.len()
        invariant
            k <= parts@.len(),
            parts@.len() <= 2,
            negative == (value@.len() > 0 && value@[0] == '-'),
            spec_body == (if negative {
                value@.skip(1)
            } else {
                value@
            }),
            pv == parts@.map_values(|p: Vec<char>| p@),
            pv == crate::text::split_spec(spec_body, '.'),
            forall|j: int| 0 <= j < k ==> pv[j].len() > 0 && all_digits(#[trigger] pv[j]),
        decreases parts@.len() - k,
    {
        assert(pv[k as int] == parts@[k as int]@);
        if !is_digit_run(&parts[k]) {
            assert(pv[k as int].len() == 0 || !all_digits(pv[k as int]));
            assert(!digit_runs(pv));
            return None;
        }
        k = k + 1;
    }
    assert(pv[0] == parts@[0]@);
    assert(digit_runs(pv));
    if parts[0].len() <= 3 {
        return None;
    }
    let grouped = group3_exec(&parts[0]);
    let mut out = String::new();
    if negative {
        push_char(&mut out, '-');
    }
    let ghost prefix = out@;
    let mut i: usize = 0;
    while i < grouped.len()
        invariant
            i <= grouped@.len(),
            out@ == prefix + grouped@.take(i as int),
        decreases grouped@.len() - i,
    {
        push_char(&mut out, grouped[i]);
        assert(grouped@.take(i + 1) == grouped@.take(i as int).push(grouped@[i as int]));
        i = i + 1;
    }
    assert(grouped@.take(i as int) == grouped@);
    if parts.len() == 2 {
        assert(pv[1] == parts@[1]@);
        push_char(&mut out, '.');
        let ghost mid = out@;
        let mut j: usize = 0;
        while j < parts[1].len()
            invariant
                j <= parts@[1]@.len(),
                parts@.len() == 2,
                out@ == mid + parts@[1]@.take(j as int),
            decreases parts@[1]@.len() - j,
        {
            push_char(&mut out, parts[1][j]);
            assert(parts@[1]@.take(j + 1) == parts@[1]@.take(j as int).push(parts@[1]@[j as int]));
            j = j + 1;
        }
        assert(parts@[1]@.take(j as int) == parts@[1]@);
    }
    proof {
        if negative {
            assert(body@ == value@.skip(1));
        } else {
            assert(body@ == value@);
        }
    }
    assert(out@ =~= comma_spec(value@)->0);
    Some(out)
}

pub open spec fn hex_digit_value(c: char) -> Option<int> {
    if '0' <= c && c <= '9' {
        Some((c as u32) - ('0' as u32))
    } else if 'a' <= c && c <= 'f' {
        Some((c as u32) - ('a' as u32) + 10)
    } else if 'A' <= c && c <= 'F' {
        Some((c as u32) - ('A' as u32) + 10)
    } else {
        None
    }
}

/// The value of a run of hexadecimal digits, or `None` if a character is not one.
pub open spec fn hex_value(s: Seq<char>) -> Option<int>
    decreases s.len(),
{
    if s.len() == 0 {
        Some(0)
    } else {
        match (hex_value(s.drop_last()), hex_digit_value(s.last())) {
            (Some(v), Some(d)) => Some(16 * v + d),
            _ => None,
        }
    }
}

/// `u32::from_str_radix(s, 16)`: an optional `+` and at least one hexadecimal digit, in range.
pub open spec fn parse_hex_spec(s: Seq<char>) -> Option<int> {
    let body = if s.len() > 0 && s[0] == '+' {
        s.skip(1)
    } else {
        s
    };
    if body.len() == 0 {
        None
    } else {
        match hex_value(body) {
            Some(v) => if v <= u32::MAX {
                Some(v)
            } else {
                None
            },
            None => None,
        }
    }
}

proof fn lemma_hex_monotone(s: Seq<char>, k: int)
    requires
        0 <= k <= s.len(),
        hex_value(s) is Some,
    ensures
        hex_value(s.take(k)) is Some,
        hex_value(s.take(k))->0 <= hex_value(s)->0,
        hex_value(s)->0 >= 0,
    decreases s.len() - k,
{
    if k < s.len() {
        lemma_hex_monotone(s, k + 1);
        assert(s.take(k + 1).drop_last() == s.take(k));
        lemma_hex_nonneg(s.take(k + 1));
    } else {
        assert(s.take(k) == s);
        lemma_hex_nonneg(s);
    }
}

proof fn lemma_hex_nonneg(s: Seq<char>)
    ensures
        hex_value(s) is Some ==> hex_value(s)->0 >= 0 && (s.len() > 0 ==> hex_value(s.drop_last()) is Some && hex_value(s)->0 >= hex_value(s.drop_last())->0),
    decreases s.len(),
{
    if s.len() > 0 {
        lemma_hex_nonneg(s.drop_last());
    }
}

proof fn lemma_hex_none_extends(s: Seq<char>, k: int)
    requires
        0 <= k <= s.len(),
        hex_value(s.take(k)) is None,
    ensures
        hex_value(s) is None,
    decreases s.len() - k,
{
    if k < s.len() {
        assert(s.take(k + 1).drop_last() == s.take(k));
        lemma_hex_none_extends(s, k + 1);
    } else {
        assert(s.take(k) == s);
    }
}

fn hex_digit_exec(c: char) -> (r: Option<u32>)
    ensures
        match r {
            Some(d) => hex_digit_value(c) == Some(d as int) && d < 16,
            None => hex_digit_value(c) is None,
        },
{
    if '0' <= c && c <= '9' {
        Some((c as u32) - ('0' as u32))
    } else if 'a' <= c && c <= 'f' {
        Some((c as u32) - ('a' as u32) + 10)
    } else if 'A' <= c && c <= 'F' {
        Some((c as u32) - ('A' as u32) + 10)
    } else {
        None
    }
}

/// Parses hexadecimal as `u32::from_str_radix` does.
pub fn parse_hex(s: &[char]) -> (r: Option<u32>)
    ensures
        match r {
            Some(v) => parse_hex_spec(s@) == Some(v as int),
            None => parse_hex_spec(s@) is None,
        },
{
    let start: usize = if s.len() > 0 && s[0] == '+' {
        1
    } else {
        0
    };
    let ghost body = s@.skip(start as int);
    if start >= s.len() {
        return None;
    }
    assert(start == 0 ==> body == s@);
    assert(body.take(0) == Seq::<char>::empty());
    let mut value: u64 = 0;
    let mut i = start;
    while i < s.len()
        invariant
            start <= i <= s@.len(),
            start == (if s@.len() > 0 && s@[0] == '+' {
                1usize
            } else {
                0usize
            }),
            body == s@.skip(start as int),
            body == (if s@.len() > 0 && s@[0] == '+' {
                s@.skip(1)
            } else {
                s@
            }),
            body.len() == s@.len() - start,
            body.len() > 0,
            hex_value(body.take(i - start)) == Some(value as int),
            value <= u32::MAX,
        decreases s@.len() - i,
    {
        assert(body.take(i - start + 1).drop_last() == body.take(i - start));
        assert(body.take(i - start + 1).last() == s@[i as int]);
        match hex_digit_exec(s[i]) {
            None => {
                proof {
                    lemma_hex_none_extends(body, i - start + 1);
                }
                return None;
            },
            Some(d) => {
                value = value * 16 + d as u64;
                if value > 0xffff_ffff {
                    proof {
                        if hex_value(body) is Some {
                            lemma_hex_monotone(body, i - start + 1);
                        }
                    }
                    return None;
                }
            },
        }
        i = i + 1;
    }
    assert(body.take(i - start) == body);
    Some(value as u32)
}

/// The character of a code point written as `u`, `U`, `u+` or `U+` and hexadecimal digits.
pub open spec fn unicode_from(ruby: Seq<char>, k: int) -> Option<char>
    decreases 4 - k,
{
    if k < 0 || k >= 4 {
        None
    } else {
        let prefix = if k == 0 {
            "u"@
        } else if k == 1 {
            "U"@
        } else if k == 2 {
            "u+"@
        } else {
            "U+"@
        };
        let found = if starts_with(ruby, prefix) {
            match parse_hex_spec(ruby.skip(prefix.len() as int)) {
                Some(n) => if crate::text::is_scalar(n as u32) {
                    Some((n as u32) as char)
                } else {
                    None
                },
                None => None,
            }
        } else {
            None
        };
        match found {
            Some(c) => Some(c),
            None => unicode_from(ruby, k + 1),
        }
    }
}

fn unicode_prefix(k: usize) -> (p: &'static str)
    requires
        k < 4,
    ensures
        p@ == (if k == 0 {
            "u"@
        } else if k == 1 {
            "U"@
        } else if k == 2 {
            "u+"@
        } else {
            "U+"@
        }),
{
    if k == 0 {
        "u"
    } else if k == 1 {
        "U"
    } else if k == 2 {
        "u+"
    } else {
        "U+"
    }
}

/// The character whose code point the text spells.
pub fn unicode_text(ruby: &str) -> (r: Option<String>)
    ensures
        match r {
            Some(s) => unicode_from(ruby@, 0) matches Some(c) && s@ == seq![c],
            None => unicode_from(ruby@, 0) is None,
        },
{
    let v = chars_of(ruby);
    let mut k: usize = 0;
    while k < 4
        invariant
            k <= 4,
            v@ == ruby@,
            unicode_from(ruby@, k as int) == unicode_from(ruby@, 0),
        decreases 4 - k,
    {
        let prefix = unicode_prefix(k);
        if chars_starts_with(&v, prefix) {
            let pc = chars_of(prefix);
            let rest = crate::text::slice_chars(v.as_slice(), pc.len(), v.len());
            assert(rest@ == ruby@.skip(prefix@.len() as int));
            match parse_hex(rest.as_slice()) {
                Some(n) => {
                    if n <= 0xd7ff || (0xe000 <= n && n <= 0x10ffff) {
                        let c = scalar_to_char(n);
                        let mut s = String::new();
                        push_char(&mut s, c);
                        assert(s@ == seq![c]);
                        return Some(s);
                    }
                },
                None => {},
            }
        }
        k = k + 1;
    }
    None
}

/// The e-mail domains offered after `@`.
pub open spec fn email_domain(i: int) -> Seq<char> {
    if i == 0 {
        "@gmail.com"@
    } else
    if i == 1 {
        "@icloud.com"@
    } else
    if i == 2 {
        "@yahoo.co.jp"@
    } else
    if i == 3 {
        "@au.com"@
    } else
    if i == 4 {
        "@docomo.ne.jp"@
    } else
    if i == 5 {
        "@excite.co.jp"@
    } else
    if i == 6 {
        "@ezweb.ne.jp"@
    } else
    if i == 7 {
        "@googlemail.com"@
    } else
    if i == 8 {
        "@hotmail.co.jp"@
    } else
    if i == 9 {
        "@hotmail.com"@
    } else
    if i == 10 {
        "@i.softbank.jp"@
    } else
    if i == 11 {
        "@live.jp"@
    } else
    if i == 12 {
        "@me.com"@
    } else
    if i == 13 {
        "@mineo.jp"@
    } else
    if i == 14 {
        "@nifty.com"@
    } else
    if i == 15 {
        "@outlook.com"@
    } else
    if i == 16 {
        "@outlook.jp"@
    } else
    if i == 17 {
        "@softbank.ne.jp"@
    } else
    if i == 18 {
        "@yahoo.ne.jp"@
    } else
    if i == 19 {
        "@ybb.ne.jp"@
    } else {
        "@ymobile.ne.jp"@
    }
}

fn email_domain_exec(i: usize) -> (d: &'static str)
    requires
        i < 21,
    ensures
        d@ == email_domain(i as int),
{
    if i == 0 {
        "@gmail.com"
    } else
    if i == 1 {
        "@icloud.com"
    } else
    if i == 2 {
        "@yahoo.co.jp"
    } else
    if i == 3 {
        "@au.com"
    } else
    if i == 4 {
        "@docomo.ne.jp"
    } else
    if i == 5 {
        "@excite.co.jp"
    } else
    if i == 6 {
        "@ezweb.ne.jp"
    } else
    if i == 7 {
        "@googlemail.com"
    } else
    if i == 8 {
        "@hotmail.co.jp"
    } else
    if i == 9 {
        "@hotmail.com"
    } else
    if i == 10 {
        "@i.softbank.jp"
    } else
    if i == 11 {
        "@live.jp"
    } else
    if i == 12 {
        "@me.com"
    } else
    if i == 13 {
        "@mineo.jp"
    } else
    if i == 14 {
        "@nifty.com"
    } else
    if i == 15 {
        "@outlook.com"
    } else
    if i == 16 {
        "@outlook.jp"
    } else
    if i == 17 {
        "@softbank.ne.jp"
    } else
    if i == 18 {
        "@yahoo.ne.jp"
    } else
    if i == 19 {
        "@ybb.ne.jp"
    } else {
        "@ymobile.ne.jp"
    }
}

/// Characters an e-mail identifier may hold besides ASCII letters and digits.
pub open spec fn sentence_symbols() -> Seq<char> {
    "\n !'_<>[]{}*@`^|~=\"#$%&+(),-./:;?\\’"@
}

pub open spec fn is_ascii_alphanumeric(c: char) -> bool {
    ('0' <= c && c <= '9') || ('a' <= c && c <= 'z') || ('A' <= c && c <= 'Z')
}

/// Text that may be an English sentence: not empty, with ASCII letters, digits and common
/// symbols only.
pub open spec fn english_sentence(s: Seq<char>) -> bool {
    s.len() > 0 && forall|i: int|
        0 <= i < s.len() ==> is_ascii_alphanumeric(#[trigger] s[i]) || sentence_symbols().contains(
            s[i],
        )
}

/// The last position of `c` in `s`.
pub open spec fn last_index(s: Seq<char>, c: char) -> Option<int>
    decreases s.len(),
{
    if s.len() == 0 {
        None
    } else if s.last() == c {
        Some(s.len() - 1)
    } else {
        last_index(s.drop_last(), c)
    }
}

/// All the known domains, in the order they are offered.
pub open spec fn all_domains() -> Seq<Seq<char>> {
    Seq::new(21, |i: int| email_domain(i))
}

/// Whether a domain starts with what was typed from the `@` on.
pub open spec fn domain_matches(typed: Seq<char>) -> spec_fn(Seq<char>) -> bool {
    |d: Seq<char>| starts_with(d, typed)
}

/// The completed addresses: the text up to its last `@`, followed by each known domain that
/// starts with the rest; nothing when the identifier is not a sentence.
pub open spec fn email_spec(v: Seq<char>) -> Seq<Seq<char>> {
    match last_index(v, '@') {
        None => Seq::empty(),
        Some(at) => {
            let identifier = v.take(at);
            let typed = v.skip(at);
            if identifier.len() > 0 && !english_sentence(identifier) {
                Seq::empty()
            } else {
                all_domains().filter(domain_matches(typed)).map_values(|d: Seq<char>| identifier + d)
            }
        },
    }
}

fn vec_starts_with(s: &Vec<char>, prefix: &Vec<char>) -> (r: bool)
    ensures
        r == starts_with(s@, prefix@),
{
    if prefix.len() > s.len() {
        return false;
    }
    let mut i: usize = 0;
    while i < prefix.len()
        invariant
            i <= prefix@.len() <= s@.len(),
            forall|j: int| 0 <= j < i ==> s@[j] == prefix@[j],
        decreases prefix@.len() - i,
    {
        if s[i] != prefix[i] {
            assert(s@.take(prefix@.len() as int)[i as int] != prefix@[i as int]);
            return false;
        }
        i = i + 1;
    }
    assert(s@.take(prefix@.len() as int) =~= prefix@);
    true
}

fn concat_chars(a: &Vec<char>, b: &Vec<char>) -> (out: Vec<char>)
    ensures
        out@ == a@ + b@,
{
    let mut out = crate::text::slice_chars(a.as_slice(), 0, a.len());
    let mut i: usize = 0;
    while i < b.len()
        invariant
            i <= b@.len(),
            out@ == a@ + b@.take(i as int),
        decreases b@.len() - i,
    {
        out.push(b[i]);
        assert(b@.take(i + 1) == b@.take(i as int).push(b@[i as int]));
        i = i + 1;
    }
    assert(b@.take(i as int) == b@);
    out
}

/// The e-mail addresses offered for the text: its identifier completed with each known
/// domain that matches what follows its last `@`.
pub fn email_texts(surface: &str) -> (out: Vec<String>)
    ensures
        crate::text::views(out@) == email_spec(surface@),
{
    let v = chars_of(surface);
    let at = match find_last(&v, '@') {
        None => {
            assert(Seq::<String>::empty().map_values(|s: String| s@) =~= Seq::<Seq<char>>::empty());
            return Vec::new();
        },
        Some(at) => at,
    };
    let identifier = crate::text::slice_chars(v.as_slice(), 0, at);
    let typed = crate::text::slice_chars(v.as_slice(), at, v.len());
    assert(identifier@ == surface@.take(at as int));
    assert(typed@ == surface@.skip(at as int));
    if identifier.len() > 0 && !is_english_sentence(&identifier) {
        assert(Seq::<String>::empty().map_values(|s: String| s@) =~= Seq::<Seq<char>>::empty());
        return Vec::new();
    }
    let ghost pred = domain_matches(typed@);
    let ghost domains = all_domains();
    let mut out: Vec<String> = Vec::new();
    let mut i: usize = 0;
    assert(domains.take(0) =~= Seq::<Seq<char>>::empty());
    assert(Seq::<Seq<char>>::empty().filter(pred) =~= Seq::<Seq<char>>::empty()) by {
        reveal(Seq::filter);
    }
    while i < 21
        invariant
            i <= 21,
            domains == all_domains(),
            pred == domain_matches(typed@),
            out@.len() == domains.take(i as int).filter(pred).len(),
            forall|j: int|
                0 <= j < out@.len() ==> (#[trigger] out@[j])@ == identifier@ + domains.take(
                    i as int,
                ).filter(pred)[j],
        decreases 21 - i,
    {
        let d = email_domain_exec(i);
        let dc = chars_of(d);
        let ghost before = domains.take(i as int).filter(pred);
        proof {
            assert(domains.take(i + 1) == domains.take(i as int).push(domains[i as int]));
            domains.take(i as int).lemma_filter_push(domains[i as int], pred);
        }
        if vec_starts_with(&dc, &typed) {
            let joined = concat_chars(&identifier, &dc);
            let text = crate::text::string_from_chars(joined.as_slice());
            out.push(text);
            assert(domains.take(i + 1).filter(pred) == before.push(domains[i as int]));
        } else {
            assert(domains.take(i + 1).filter(pred) == before);
        }
        i = i + 1;
    }
    assert(domains.take(21) == domains);
    assert(out@.map_values(|s: String| s@) =~= email_spec(surface@));
    out
}

fn find_last(v: &Vec<char>, c: char) -> (r: Option<usize>)
    ensures
        match r {
            Some(i) => last_index(v@, c) == Some(i as int) && i < v@.len(),
            None => last_index(v@, c) is None,
        },
{
    let mut k: usize = v.len();
    assert(v@.take(k as int) == v@);
    while k > 0
        invariant
            k <= v@.len(),
            last_index(v@.take(k as int), c) == last_index(v@, c),
        decreases k,
    {
        assert(v@.take(k as int).drop_last() == v@.take(k - 1));
        assert(v@.take(k as int).last() == v@[k - 1]);
        if v[k - 1] == c {
            return Some(k - 1);
        }
        k = k - 1;
    }
    None
}

fn contains_char(v: &Vec<char>, c: char) -> (r: bool)
    ensures
        r == v@.contains(c),
{
    let mut j: usize = 0;
    while j < v.len()
        invariant
            j <= v@.len(),
            forall|m: int| 0 <= m < j ==> v@[m] != c,
        decreases v@.len() - j,
    {
        if v[j] == c {
            assert(v@[j as int] == c);
            return true;
        }
        j = j + 1;
    }
    false
}

fn is_english_sentence(s: &Vec<char>) -> (r: bool)
    ensures
        r == english_sentence(s@),
{
    if s.len() == 0 {
        return false;
    }
    let symbols = chars_of("\n !'_<>[]{}*@`^|~=\"#$%&+(),-./:;?\\’");
    let mut i: usize = 0;
    while i < s.len()
        invariant
            i <= s@.len(),
            symbols@ == sentence_symbols(),
            forall|j: int| 0 <= j < i ==> is_ascii_alphanumeric(#[trigger] s@[j]) || sentence_symbols().contains(s@[j]),
        decreases s@.len() - i,
    {
        let c = s[i];
        let alnum = ('0' <= c && c <= '9') || ('a' <= c && c <= 'z') || ('A' <= c && c <= 'Z');
        if !alnum && !contains_char(&symbols, c) {
            return false;
        }
        i = i + 1;
    }
    true
}


/// The offsets that a typographic style adds to ASCII upper-case letters, lower-case
/// letters and digits (a style without digits has none).
pub open spec fn style_offsets(i: int) -> (u32, u32, Option<u32>) {
    if i == 0 {
        (119743, 119737, Some(120734))
    } else if i == 1 {
        (119795, 119789, None)
    } else if i == 2 {
        (119847, 119841, None)
    } else if i == 3 {
        (119899, 119893, None)
    } else if i == 4 {
        (119951, 119945, None)
    } else if i == 5 {
        (120003, 119997, None)
    } else if i == 6 {
        (120055, 120049, Some(120744))
    } else if i == 7 {
        (120107, 120101, None)
    } else if i == 8 {
        (120159, 120153, Some(120754))
    } else if i == 9 {
        (120211, 120205, Some(120764))
    } else if i == 10 {
        (120263, 120257, None)
    } else if i == 11 {
        (120315, 120309, None)
    } else {
        (120367, 120361, Some(120774))
    }
}

/// The letters a style writes with a character of its own, and those characters.
pub open spec fn style_exceptions(i: int) -> (Seq<char>, Seq<char>) {
    if i == 1 {
        ("h"@, "ℎ"@)
    } else if i == 3 {
        ("BEFHILMRego"@, "ℬℰℱℋℐℒℳℛℯℊℴ"@)
    } else if i == 5 {
        ("CHIRZ"@, "ℭℌℑℜℨ"@)
    } else if i == 6 {
        ("CHNPQRZ"@, "ℂℍℕℙℚℝℤ"@)
    } else {
        (""@, ""@)
    }
}

pub open spec fn is_ascii_upper(c: char) -> bool {
    'A' <= c && c <= 'Z'
}

pub open spec fn is_ascii_lower(c: char) -> bool {
    'a' <= c && c <= 'z'
}

/// One character written in style `i`: its exception if it has one, else shifted by the
/// offset of its kind when that gives a character, else unchanged.
pub open spec fn styled_char(i: int, c: char) -> char {
    let (sources, targets) = style_exceptions(i);
    match crate::text::find_spec(sources, c) {
        Some(j) => targets[j],
        None => {
            let (upper, lower, digit) = style_offsets(i);
            let offset = if is_ascii_upper(c) {
                Some(upper)
            } else if is_ascii_lower(c) {
                Some(lower)
            } else if is_digit(c) {
                digit
            } else {
                None
            };
            match offset {
                Some(o) => {
                    let n = (c as u32) + o;
                    if n <= u32::MAX && crate::text::is_scalar(n as u32) {
                        (n as u32) as char
                    } else {
                        c
                    }
                },
                None => c,
            }
        },
    }
}

/// The text written in style `i`.
pub open spec fn styled_spec(i: int, t: Seq<char>) -> Seq<char> {
    t.map_values(|c: char| styled_char(i, c))
}

/// Whether style `i` is offered: all styles for letters only, those with digits otherwise.
pub open spec fn style_offered(only_letters: bool) -> spec_fn(int) -> bool {
    |i: int| only_letters || style_offsets(i).2 is Some
}

pub open spec fn style_indices() -> Seq<int> {
    Seq::new(13, |i: int| i)
}

/// The typographic renderings of an ASCII alphanumeric text, in the order offered.
pub open spec fn typographical_spec(t: Seq<char>) -> Seq<Seq<char>> {
    if t.len() == 0 || !(forall|k: int| 0 <= k < t.len() ==> is_ascii_alphanumeric(#[trigger] t[k])) {
        Seq::empty()
    } else {
        let only_letters = forall|k: int|
            0 <= k < t.len() ==> is_ascii_upper(#[trigger] t[k]) || is_ascii_lower(t[k]);
        style_indices().filter(style_offered(only_letters)).map_values(|i: int| styled_spec(i, t))
    }
}

fn style_offsets_exec(i: usize) -> (r: (u32, u32, Option<u32>))
    requires
        i < 13,
    ensures
        r == style_offsets(i as int),
{
    if i == 0 {
        (119743, 119737, Some(120734))
    } else if i == 1 {
        (119795, 119789, None)
    } else if i == 2 {
        (119847, 119841, None)
    } else if i == 3 {
        (119899, 119893, None)
    } else if i == 4 {
        (119951, 119945, None)
    } else if i == 5 {
        (120003, 119997, None)
    } else if i == 6 {
        (120055, 120049, Some(120744))
    } else if i == 7 {
        (120107, 120101, None)
    } else if i == 8 {
        (120159, 120153, Some(120754))
    } else if i == 9 {
        (120211, 120205, Some(120764))
    } else if i == 10 {
        (120263, 120257, None)
    } else if i == 11 {
        (120315, 120309, None)
    } else {
        (120367, 120361, Some(120774))
    }
}

fn style_exceptions_exec(i: usize) -> (r: (Vec<char>, Vec<char>))
    requires
        i < 13,
    ensures
        r.0@ == style_exceptions(i as int).0,
        r.1@ == style_exceptions(i as int).1,
        r.0@.len() == r.1@.len(),
{
    if i == 1 {
        proof {
            reveal_strlit("h");
            reveal_strlit("ℎ");
        }
        (chars_of("h"), chars_of("ℎ"))
    } else if i == 3 {
        proof {
            reveal_strlit("BEFHILMRego");
            reveal_strlit("ℬℰℱℋℐℒℳℛℯℊℴ");
        }
        (chars_of("BEFHILMRego"), chars_of("ℬℰℱℋℐℒℳℛℯℊℴ"))
    } else if i == 5 {
        proof {
            reveal_strlit("CHIRZ");
            reveal_strlit("ℭℌℑℜℨ");
        }
        (chars_of("CHIRZ"), chars_of("ℭℌℑℜℨ"))
    } else if i == 6 {
        proof {
            reveal_strlit("CHNPQRZ");
            reveal_strlit("ℂℍℕℙℚℝℤ");
        }
        (chars_of("CHNPQRZ"), chars_of("ℂℍℕℙℚℝℤ"))
    } else {
        proof {
            reveal_strlit("");
        }
        (chars_of(""), chars_of(""))
    }
}

fn styled_char_exec(i: usize, c: char, sources: &Vec<char>, targets: &Vec<char>) -> (r: char)
    requires
        i < 13,
        sources@ == style_exceptions(i as int).0,
        targets@ == style_exceptions(i as int).1,
        sources@.len() == targets@.len(),
    ensures
        r == styled_char(i as int, c),
{
    match crate::text::find_char(sources.as_slice(), c) {
        Some(j) => targets[j],
        None => {
            let (upper, lower, digit) = style_offsets_exec(i);
            let offset = if 'A' <= c && c <= 'Z' {
                Some(upper)
            } else if 'a' <= c && c <= 'z' {
                Some(lower)
            } else if '0' <= c && c <= '9' {
                digit
            } else {
                None
            };
            match offset {
                Some(o) => {
                    let code = c as u32;
                    if code <= u32::MAX - o {
                        let n = code + o;
                        if n <= 0xd7ff || (0xe000 <= n && n <= 0x10ffff) {
                            scalar_to_char(n)
                        } else {
                            c
                        }
                    } else {
                        c
                    }
                },
                None => c,
            }
        },
    }
}

/// The text written in style `i`.
fn styled(i: usize, text: &Vec<char>) -> (out: String)
    requires
        i < 13,
    ensures
        out@ == styled_spec(i as int, text@),
{
    let (sources, targets) = style_exceptions_exec(i);
    let mut out = String::new();
    let mut k: usize = 0;
    while k < text.len()
        invariant
            k <= text@.len(),
            i < 13,
            sources@ == style_exceptions(i as int).0,
            targets@ == style_exceptions(i as int).1,
            sources@.len() == targets@.len(),
            out@ == styled_spec(i as int, text@.take(k as int)),
        decreases text@.len() - k,
    {
        let c = styled_char_exec(i, text[k], &sources, &targets);
        push_char(&mut out, c);
        assert(styled_spec(i as int, text@.take(k + 1)) =~= styled_spec(i as int, text@.take(k as int)).push(c));
        k = k + 1;
    }
    assert(text@.take(k as int) == text@);
    out
}

fn ascii_classes(text: &Vec<char>) -> (r: (bool, bool))
    ensures
        r.0 == (forall|k: int| 0 <= k < text@.len() ==> is_ascii_alphanumeric(#[trigger] text@[k])),
        r.1 == (forall|k: int|
            0 <= k < text@.len() ==> is_ascii_upper(#[trigger] text@[k]) || is_ascii_lower(text@[k])),
{
    let mut alnum = true;
    let mut letters = true;
    let mut k: usize = 0;
    while k < text.len()
        invariant
            k <= text@.len(),
            alnum == (forall|j: int| 0 <= j < k ==> is_ascii_alphanumeric(#[trigger] text@[j])),
            letters == (forall|j: int|
                0 <= j < k ==> is_ascii_upper(#[trigger] text@[j]) || is_ascii_lower(text@[j])),
        decreases text@.len() - k,
    {
        let c = text[k];
        let is_letter = ('A' <= c && c <= 'Z') || ('a' <= c && c <= 'z');
        let is_number = '0' <= c && c <= '9';
        if !(is_letter || is_number) {
            alnum = false;
        }
        if !is_letter {
            letters = false;
        }
        k = k + 1;
    }
    (alnum, letters)
}

/// The text written in each typographic style offered for it: none unless it is ASCII
/// letters and digits only, the styles with digits when it holds a digit, and all
/// thirteen when it holds letters only.
pub fn typographical_texts(text: &str) -> (out: Vec<String>)
    ensures
        crate::text::views(out@) == typographical_spec(text@),
{
    let t = chars_of(text);
    let (alnum, only_letters) = ascii_classes(&t);
    if t.len() == 0 || !alnum {
        assert(Seq::<String>::empty().map_values(|s: String| s@) =~= Seq::<Seq<char>>::empty());
        return Vec::new();
    }
    let ghost pred = style_offered(only_letters);
    let ghost styles = style_indices();
    let mut out: Vec<String> = Vec::new();
    let mut i: usize = 0;
    assert(styles.take(0) =~= Seq::<int>::empty());
    assert(Seq::<int>::empty().filter(pred) =~= Seq::<int>::empty()) by {
        reveal(Seq::filter);
    }
    while i < 13
        invariant
            i <= 13,
            styles == style_indices(),
            pred == style_offered(only_letters),
            out@.len() == styles.take(i as int).filter(pred).len(),
            forall|j: int|
                0 <= j < out@.len() ==> (#[trigger] out@[j])@ == styled_spec(
                    styles.take(i as int).filter(pred)[j],
                    t@,
                ),
        decreases 13 - i,
    {
        let ghost before = styles.take(i as int).filter(pred);
        proof {
            assert(styles.take(i + 1) == styles.take(i as int).push(styles[i as int]));
            styles.take(i as int).lemma_filter_push(styles[i as int], pred);
        }
        let (_, _, digit) = style_offsets_exec(i);
        if only_letters || digit.is_some() {
            let s = styled(i, &t);
            out.push(s);
            assert(styles.take(i + 1).filter(pred) == before.push(i as int));
        } else {
            assert(styles.take(i + 1).filter(pred) == before);
        }
        i = i + 1;
    }
    assert(styles.take(13) == styles);
    assert(out@.map_values(|s: String| s@) =~= typographical_spec(text@));
    out
}


/// The text of a present value as a one-element sequence, or nothing.
pub open spec fn present(o: Option<Seq<char>>) -> Seq<Seq<char>> {
    match o {
        Some(s) => seq![s],
        None => Seq::empty(),
    }
}

/// The character the reading spells as a code point, as text.
pub open spec fn unicode_spec(ruby: Seq<char>) -> Option<Seq<char>> {
    match unicode_from(ruby, 0) {
        Some(c) => Some(seq![c]),
        None => None,
    }
}

/// The version string, offered for the reading `バージョン`.
pub open spec fn version_spec(ruby: Seq<char>, version: Option<Seq<char>>) -> Option<Seq<char>> {
    if ruby == "バージョン"@ {
        version
    } else {
        None
    }
}

/// The special texts offered for a surface, in order: the western year of a Japanese era
/// year, the era years of a western year, e-mail addresses, the character of a code point,
/// the version, a time and a number with grouped digits.
pub open spec fn special_spec(surface: Seq<char>, version: Option<Seq<char>>) -> Seq<Seq<char>> {
    let ruby = crate::kana::katakana_seq(surface);
    present(era_to_western_spec(ruby)) + western_to_era_spec(ruby) + email_spec(surface) + present(
        unicode_spec(ruby),
    ) + present(version_spec(ruby, version)) + present(time_spec(surface)) + present(
        comma_spec(surface),
    )
}

fn append_texts(out: &mut Vec<String>, more: Vec<String>)
    ensures
        crate::text::views(final(out)@) == crate::text::views(old(out)@) + crate::text::views(more@),
{
    let mut rest = more;
    out.append(&mut rest);
    assert(crate::text::views(out@) =~= crate::text::views(old(out)@) + crate::text::views(more@));
}

fn append_present(out: &mut Vec<String>, o: Option<String>)
    ensures
        crate::text::views(final(out)@) == crate::text::views(old(out)@) + present(
            match o {
                Some(s) => Some(s@),
                None => None,
            },
        ),
{
    match o {
        Some(s) => {
            out.push(s);
            assert(crate::text::views(out@) =~= crate::text::views(old(out)@).push(s@));
        },
        None => {
            assert(crate::text::views(out@) =~= crate::text::views(old(out)@) + Seq::empty());
        },
    }
}

/// The version string when the reading is `バージョン`.
pub fn version_text(ruby: &str, version: Option<&str>) -> (r: Option<String>)
    ensures
        (match r {
            Some(s) => Some(s@),
            None => None,
        }) == version_spec(
            ruby@,
            match version {
                Some(v) => Some(v@),
                None => None,
            },
        ),
{
    let v = chars_of(ruby);
    if !spells(v.as_slice(), "バージョン") {
        return None;
    }
    match version {
        Some(text) => Some(crate::text::string_from_chars(chars_of(text).as_slice())),
        None => None,
    }
}

/// Every special text offered for the surface, in order.
pub fn special_texts(surface: &str, version: Option<&str>) -> (out: Vec<String>)
    ensures
        crate::text::views(out@) == special_spec(
            surface@,
            match version {
                Some(v) => Some(v@),
                None => None,
            },
        ),
{
    let ruby = crate::kana::to_katakana(surface);
    let mut out: Vec<String> = Vec::new();
    assert(crate::text::views(out@) =~= Seq::<Seq<char>>::empty());
    let western = japanese_era_to_western(ruby.as_str());
    append_present(&mut out, western);
    append_texts(&mut out, western_to_japanese_era(ruby.as_str()));
    append_texts(&mut out, email_texts(surface));
    let unicode = unicode_text(ruby.as_str());
    assert(match unicode {
        Some(s) => Some(s@),
        None => None,
    } == unicode_spec(ruby@));
    append_present(&mut out, unicode);
    append_present(&mut out, version_text(ruby.as_str(), version));
    append_present(&mut out, time_text(surface));
    append_present(&mut out, comma_separated_number(surface));
    out
}


proof fn lemma_decimal_digits(n: nat)
    ensures
        decimal_spec(n).len() >= 1,
        all_digits(decimal_spec(n)),
        digits_value(decimal_spec(n)) == n,
        n < 10 ==> decimal_spec(n).len() == 1,
        10 <= n < 100 ==> decimal_spec(n).len() == 2,
        100 <= n < 1000 ==> decimal_spec(n).len() == 3,
        1000 <= n < 10000 ==> decimal_spec(n).len() == 4,
    decreases n,
{
    if n < 10 {
        let d = decimal_spec(n);
        assert(d.drop_last() =~= Seq::<char>::empty());
        assert((('0' as u32) + n) as char as u32 == ('0' as u32) + n);
        assert(digit_value(d.last()) == n);
        assert(digits_value(d.drop_last()) == 0);
        assert(digits_value(d) == 10 * digits_value(d.drop_last()) + digit_value(d.last()));
    } else {
        lemma_decimal_digits(n / 10);
        let d = decimal_spec(n);
        assert(d.drop_last() == decimal_spec(n / 10));
        assert(d.last() == (('0' as u32) + n % 10) as char);
        assert((('0' as u32) + n % 10) as char as u32 == ('0' as u32) + n % 10);
        assert(digit_value(d.last()) == n % 10);
        assert(10 * (n / 10) + n % 10 == n);
        assert(digits_value(d) == 10 * digits_value(d.drop_last()) + digit_value(d.last()));
        assert forall|i: int| 0 <= i < d.len() implies is_digit(#[trigger] d[i]) by {
            if i < d.len() - 1 {
                assert(d[i] == decimal_spec(n / 10)[i]);
            }
        }
    }
}

proof fn lemma_parse_decimal(n: nat)
    requires
        n <= i32::MAX,
    ensures
        parse_i32_spec(decimal_spec(n)) == Some(n as int),
{
    lemma_decimal_digits(n);
    let d = decimal_spec(n);
    assert(is_digit(d[0]));
    assert(sign_len(d) == 0);
    assert(d.skip(0) == d);
}

/// The reading `<era><n>ネン` of a year `n` (from 2 to 99) of era `i`, whose katakana name
/// no earlier era's name begins, gives back the western year `n + offset`.
proof fn lemma_era_reading(i: int, n: nat)
    requires
        0 <= i < 5,
        2 <= n <= 99,
        forall|k: int| 0 <= k < i ==> !starts_with(era_name(i) + decimal_spec(n), #[trigger] era_name(k)),
        era_counts(i).0 <= era_name(i).len() + decimal_spec(n).len() + 2 <= era_counts(i).1,
    ensures
        era_to_western_spec(era_name(i) + decimal_spec(n) + "ネン"@) == Some(
            decimal_spec((n + era_offset(i)) as nat) + "年"@,
        ),
{
    reveal_strlit("ネン");
    reveal_strlit("メイジガンネン");
    reveal_strlit("タイショウガンネン");
    reveal_strlit("ショウワガンネン");
    reveal_strlit("ヘイセイガンネン");
    reveal_strlit("レイワガンネン");
    lemma_decimal_digits(n);
    lemma_parse_decimal(n);
    let name = era_name(i);
    let r = name + decimal_spec(n) + "ネン"@;
    let w = r.take(r.len() - 2);
    assert(r.skip(r.len() - 2) =~= "ネン"@);
    assert(w =~= name + decimal_spec(n));
    assert(w.take(name.len() as int) =~= name);
    assert(era_of(w, i) == Some(i)) by {
        assert(starts_with(w, era_name(i)));
    }
    assert forall|k: int| 0 <= k <= i implies era_of(w, k) == Some(i) by {
        lemma_era_of_from(w, k, i);
    }
    assert(w.skip(name.len() as int) =~= decimal_spec(n));
    assert(r[0] == name[0]);
    assert(r[name.len() as int] == decimal_spec(n)[0]);
    assert(is_digit(decimal_spec(n)[0]));
    assert(("ショウワガンネン"@)[4] == 'ガ');
    assert(("ヘイセイガンネン"@)[4] == 'ガ');
    assert(("メイジガンネン"@)[3] == 'ガ');
    assert(("レイワガンネン"@)[3] == 'ガ');
    assert(("タイショウガンネン"@)[5] == 'ガ');
    reveal_strlit("ショウワ");
    reveal_strlit("ヘイセイ");
    reveal_strlit("レイワ");
    reveal_strlit("メイジ");
    reveal_strlit("タイショウ");
    assert(r != "メイジガンネン"@);
    assert(r != "レイワガンネン"@);
    assert(r != "ヘイセイガンネン"@);
    assert(r != "ショウワガンネン"@);
    assert(r != "タイショウガンネン"@);
    assert(signed_decimal((n + era_offset(i)) as int) == decimal_spec((n + era_offset(i)) as nat));
}

proof fn lemma_era_of_from(w: Seq<char>, k: int, i: int)
    requires
        0 <= k <= i < 5,
        starts_with(w, era_name(i)),
        forall|j: int| 0 <= j < i ==> !starts_with(w, #[trigger] era_name(j)),
    ensures
        era_of(w, k) == Some(i),
    decreases i - k,
{
    if k < i {
        lemma_era_of_from(w, k + 1, i);
    }
}

/// A western year read as `<year>ネン` is offered as `<era><n>年` with `n` the years since
/// the era began, and reading that era year back gives the western year: for Taisho
/// (1913 to 1925, `n + 1911`), Showa (1927 to 1988, `n + 1925`), Heisei (1990 to 2018,
/// `n + 1988`) and Reiwa (2020 to 2117, `n + 2018`).
pub proof fn lemma_era_years_round_trip(year: nat)
    requires
        1913 <= year <= 1925 || 1927 <= year <= 1988 || 1990 <= year <= 2018 || 2020 <= year
            <= 2117,
    ensures
        1913 <= year <= 1925 ==> exists|n: nat|
            #![trigger decimal_spec(n)]
            {
                &&& n + 1911 == year
                &&& western_to_era_spec(decimal_spec(year) + "ネン"@) == seq![
                    "大正"@ + decimal_spec(n) + "年"@,
                ]
                &&& era_to_western_spec("タイショウ"@ + decimal_spec(n) + "ネン"@) == Some(
                    decimal_spec(year) + "年"@,
                )
            },
        1927 <= year <= 1988 ==> exists|n: nat|
            #![trigger decimal_spec(n)]
            {
                &&& n + 1925 == year
                &&& western_to_era_spec(decimal_spec(year) + "ネン"@) == seq![
                    "昭和"@ + decimal_spec(n) + "年"@,
                ]
                &&& era_to_western_spec("ショウワ"@ + decimal_spec(n) + "ネン"@) == Some(
                    decimal_spec(year) + "年"@,
                )
            },
        1990 <= year <= 2018 ==> exists|n: nat|
            #![trigger decimal_spec(n)]
            {
                &&& n + 1988 == year
                &&& western_to_era_spec(decimal_spec(year) + "ネン"@) == seq![
                    "平成"@ + decimal_spec(n) + "年"@,
                ]
                &&& era_to_western_spec("ヘイセイ"@ + decimal_spec(n) + "ネン"@) == Some(
                    decimal_spec(year) + "年"@,
                )
            },
        2020 <= year <= 2117 ==> exists|n: nat|
            #![trigger decimal_spec(n)]
            {
                &&& n + 2018 == year
                &&& western_to_era_spec(decimal_spec(year) + "ネン"@) == seq![
                    "令和"@ + decimal_spec(n) + "年"@,
                ]
                &&& era_to_western_spec("レイワ"@ + decimal_spec(n) + "ネン"@) == Some(
                    decimal_spec(year) + "年"@,
                )
            },
{
    reveal_strlit("ネン");
    reveal_strlit("ショウワ");
    reveal_strlit("ヘイセイ");
    reveal_strlit("レイワ");
    reveal_strlit("メイジ");
    reveal_strlit("タイショウ");
    lemma_decimal_digits(year);
    lemma_parse_decimal(year);
    let v = decimal_spec(year) + "ネン"@;
    assert(v.take(4) =~= decimal_spec(year));
    assert(v.skip(v.len() - 2) =~= "ネン"@);
    assert(ends_with(v, "ネン"@));
    let (i, era, offset): (int, Seq<char>, int) = if year <= 1925 {
        (4, "大正"@, 1911)
    } else if year <= 1988 {
        (0, "昭和"@, 1925)
    } else if year <= 2018 {
        (1, "平成"@, 1988)
    } else {
        (2, "令和"@, 2018)
    };
    let n: nat = (year - offset) as nat;
    lemma_decimal_digits(n);
    assert(western_to_era_spec(v) == seq![era_year(era, n as int)]);
    assert(signed_decimal(n as int) == decimal_spec(n));
    let name = era_name(i);
    assert forall|k: int| 0 <= k < i implies !starts_with(name + decimal_spec(n), #[trigger] era_name(k)) by {
        let t = name + decimal_spec(n);
        assert(t[0] == name[0]);
        assert(era_name(k)[0] != name[0]);
    }
    lemma_era_reading(i, n);
    assert(era_to_western_spec(name + decimal_spec(n) + "ネン"@) == Some(decimal_spec(year) + "年"@));
    assert(western_to_era_spec(v) == seq![era + decimal_spec(n) + "年"@]);
    assert(name == if year <= 1925 {
        "タイショウ"@
    } else if year <= 1988 {
        "ショウワ"@
    } else if year <= 2018 {
        "ヘイセイ"@
    } else {
        "レイワ"@
    });
}


pub open spec fn not_comma() -> spec_fn(char) -> bool {
    |c: char| c != ','
}

/// Grouping digits by three inserts only commas, one before every further three digits:
/// removing the commas gives back the digits, and a run of `n > 0` digits gains
/// `(n - 1) / 3` commas.
pub proof fn lemma_group3_inserts_commas(s: Seq<char>)
    requires
        all_digits(s),
    ensures
        group3(s).filter(not_comma()) == s,
        s.len() > 0 ==> group3(s).len() == s.len() + (s.len() - 1) / 3,
    decreases s.len(),
{
    if s.len() <= 3 {
        assert forall|i: int| 0 <= i < s.len() implies not_comma()(s[i]) by {
            assert(is_digit(s[i]));
        }
        lemma_filter_all(s, not_comma());
    } else {
        let head = s.take(s.len() - 3);
        let tail = s.skip(s.len() - 3);
        assert forall|i: int| 0 <= i < head.len() implies is_digit(#[trigger] head[i]) by {
            assert(head[i] == s[i]);
        }
        lemma_group3_inserts_commas(head);
        assert forall|i: int| 0 <= i < tail.len() implies not_comma()(tail[i]) by {
            assert(tail[i] == s[i + s.len() - 3]);
            assert(is_digit(s[i + s.len() - 3]));
        }
        lemma_filter_all(tail, not_comma());
        let g = group3(head);
        Seq::filter_distributes_over_add(g + seq![','], tail, not_comma());
        Seq::filter_distributes_over_add(g, seq![','], not_comma());
        let e = Seq::<char>::empty();
        e.lemma_filter_push(',', not_comma());
        assert(e.push(',') =~= seq![',']);
        lemma_filter_all(e, not_comma());
        assert(seq![','].filter(not_comma()) =~= Seq::<char>::empty());
        assert(head + tail =~= s);
    }
}

proof fn lemma_filter_all(s: Seq<char>, pred: spec_fn(char) -> bool)
    requires
        forall|i: int| 0 <= i < s.len() ==> pred(s[i]),
    ensures
        s.filter(pred) == s,
    decreases s.len(),
{
    reveal(Seq::filter);
    if s.len() > 0 {
        let d = s.drop_last();
        assert forall|i: int| 0 <= i < d.len() implies pred(d[i]) by {
            assert(d[i] == s[i]);
        }
        lemma_filter_all(d, pred);
        assert(s.last() == s[s.len() - 1]);
        assert(d.push(s.last()) =~= s);
    }
}

} // verus!
