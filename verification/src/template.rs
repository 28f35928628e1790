//! The text of template tags: finding them, reading their attributes, unescaping values, and
//! the widths of the name fields in a date pattern.
use vstd::prelude::*;

use crate::text::{chars_of, push_char};

verus! {

/// `s` with every occurrence of `from` (not empty) replaced by `to`, scanning from the left
/// without overlaps, as `str::replace` does.
pub open spec fn replace_all(s: Seq<char>, from: Seq<char>, to: Seq<char>) -> Seq<char>
    decreases s.len(),
{
    if s.len() == 0 || from.len() == 0 {
        s
    } else if from.len() <= s.len() && s.take(from.len() as int) == from {
        to + replace_all(s.skip(from.len() as int), from, to)
    } else {
        seq![s[0]] + replace_all(s.skip(1), from, to)
    }
}

/// The escapes of template values, undone in this order: `\d` quote, `\s` space, `\c`
/// comma, `\t` tab, `\n` newline, `\0` NUL, `\b` backslash.
pub open spec fn unescape_spec(v: Seq<char>) -> Seq<char> {
    let a = replace_all(v, seq!['\\', 'd'], seq!['"']);
    let b = replace_all(a, seq!['\\', 's'], seq![' ']);
    let c = replace_all(b, seq!['\\', 'c'], seq![',']);
    let d = replace_all(c, seq!['\\', 't'], seq!['\t']);
    let e = replace_all(d, seq!['\\', 'n'], seq!['\n']);
    let f = replace_all(e, seq!['\\', '0'], seq!['\0']);
    replace_all(f, seq!['\\', 'b'], seq!['\\'])
}

fn replace_pair(s: &Vec<char>, first: char, second: char, to: char) -> (out: Vec<char>)
    ensures
        out@ == replace_all(s@, seq![first, second], seq![to]),
{
    let ghost from = seq![first, second];
    let mut out: Vec<char> = Vec::new();
    let mut i: usize = 0;
    assert(s@.skip(0) =~= s@);
    assert(out@ + replace_all(s@, from, seq![to]) =~= replace_all(s@, from, seq![to]));
    while i < s.len()
        invariant
            i <= s@.len(),
            from == seq![first, second],
            replace_all(s@, from, seq![to]) == out@ + replace_all(s@.skip(i as int), from, seq![to]),
        decreases s@.len() - i,
    {
        let ghost rest = s@.skip(i as int);
        if i + 1 < s.len() && s[i] == first && s[i + 1] == second {
            assert(rest.take(2) =~= from);
            assert(rest.skip(2) =~= s@.skip(i + 2));
            out.push(to);
            assert(replace_all(s@, from, seq![to]) =~= out@ + replace_all(s@.skip(i + 2), from, seq![to]));
            i = i + 2;
        } else {
            proof {
                if rest.len() >= 2 {
                    assert(rest.take(2) != from) by {
                        if rest.take(2) == from {
                            assert(rest.take(2)[0] == s@[i as int]);
                            assert(rest.take(2)[1] == s@[i + 1]);
                        }
                    }
                }
            }
            assert(rest.skip(1) =~= s@.skip(i + 1));
            assert(rest[0] == s@[i as int]);
            out.push(s[i]);
            assert(replace_all(s@, from, seq![to]) =~= out@ + replace_all(s@.skip(i + 1), from, seq![to]));
            i = i + 1;
        }
    }
    assert(s@.skip(i as int) =~= Seq::<char>::empty());
    assert(out@ + Seq::<char>::empty() =~= out@);
    out
}

/// Undoes the escapes of a template value.
pub fn unescape(value: &str) -> (out: String)
    ensures
        out@ == unescape_spec(value@),
{
    let v = chars_of(value);
    let a = replace_pair(&v, '\\', 'd', '"');
    let b = replace_pair(&a, '\\', 's', ' ');
    let c = replace_pair(&b, '\\', 'c', ',');
    let d = replace_pair(&c, '\\', 't', '\t');
    let e = replace_pair(&d, '\\', 'n', '\n');
    let f = replace_pair(&e, '\\', '0', '\0');
    let g = replace_pair(&f, '\\', 'b', '\\');
    crate::text::string_from_chars(g.as_slice())
}

/// ASCII whitespace as `char::is_ascii_whitespace` defines it.
pub open spec fn is_ascii_space(c: char) -> bool {
    c == ' ' || c == '\t' || c == '\n' || c == '\x0C' || c == '\r'
}

/// The words of `s` between runs of ASCII whitespace (`str::split_ascii_whitespace`).
pub open spec fn ascii_words(s: Seq<char>) -> Seq<Seq<char>>
    decreases s.len(),
{
    if s.len() == 0 {
        Seq::empty()
    } else {
        let rest = ascii_words(s.drop_last());
        if is_ascii_space(s.last()) {
            rest
        } else if s.len() >= 2 && !is_ascii_space(s[s.len() - 2]) && rest.len() > 0 {
            rest.update(rest.len() - 1, rest.last().push(s.last()))
        } else {
            rest.push(seq![s.last()])
        }
    }
}

/// The first word of `words` that starts with `prefix`.
pub open spec fn first_with_prefix(words: Seq<Seq<char>>, prefix: Seq<char>) -> Option<int>
    decreases words.len(),
{
    if words.len() == 0 {
        None
    } else {
        match first_with_prefix(words.drop_last(), prefix) {
            Some(i) => Some(i),
            None => if prefix.is_prefix_of(words.last()) {
                Some(words.len() - 1)
            } else {
                None
            },
        }
    }
}

/// The value of attribute `key` in a tag: the first word starting with `key="`, without
/// that prefix and without a closing `">` (or else a closing `"`, which must be there).
pub open spec fn attribute_spec(tag: Seq<char>, key: Seq<char>) -> Option<Seq<char>> {
    let prefix = key + seq!['=', '"'];
    let words = ascii_words(tag);
    match first_with_prefix(words, prefix) {
        None => None,
        Some(i) => {
            let value = words[i].skip(prefix.len() as int);
            if value.len() >= 2 && value.skip(value.len() - 2) == seq!['"', '>'] {
                Some(value.take(value.len() - 2))
            } else if value.len() >= 1 && value.last() == '"' {
                Some(value.drop_last())
            } else {
                None
            }
        },
    }
}

fn words_of(s: &Vec<char>) -> (out: Vec<Vec<char>>)
    ensures
        out@.map_values(|w: Vec<char>| w@) == ascii_words(s@),
{
    let mut out: Vec<Vec<char>> = Vec::new();
    let mut i: usize = 0;
    assert(s@.take(0) =~= Seq::<char>::empty());
    assert(out@.map_values(|w: Vec<char>| w@) =~= Seq::<Seq<char>>::empty());
    while i < s.len()
        invariant
            i <= s@.len(),
            out@.map_values(|w: Vec<char>| w@) == ascii_words(s@.take(i as int)),
        decreases s@.len() - i,
    {
        let c = s[i];
        let ghost prev = out@.map_values(|w: Vec<char>| w@);
        let ghost t = s@.take(i + 1);
        assert(t.drop_last() =~= s@.take(i as int));
        assert(t.last() == c);
        let space = c == ' ' || c == '\t' || c == '\n' || c == '\x0C' || c == '\r';
        if !space {
            let joins = if i >= 1 {
                let p = s[i - 1];
                !(p == ' ' || p == '\t' || p == '\n' || p == '\x0C' || p == '\r') && out.len() > 0
            } else {
                false
            };
            if i >= 1 {
                assert(t[t.len() - 2] == s@[i - 1]);
            }
            if joins {
                let last = out.len() - 1;
                let mut word = out.remove(last);
                word.push(c);
                out.push(word);
                assert(out@.map_values(|w: Vec<char>| w@) =~= prev.update(
                    prev.len() - 1,
                    prev.last().push(c),
                ));
            } else {
                let mut word: Vec<char> = Vec::new();
                word.push(c);
                out.push(word);
                assert(out@.map_values(|w: Vec<char>| w@) =~= prev.push(seq![c]));
            }
        }
        i = i + 1;
    }
    assert(s@.take(i as int) =~= s@);
    out
}

fn has_prefix(prefix: &Vec<char>, word: &Vec<char>) -> (r: bool)
    ensures
        r == prefix@.is_prefix_of(word@),
{
    if prefix.len() > word.len() {
        return false;
    }
    let mut i: usize = 0;
    while i < prefix.len()
        invariant
            i <= prefix@.len() <= word@.len(),
            forall|j: int| 0 <= j < i ==> prefix@[j] == word@[j],
        decreases prefix@.len() - i,
    {
        if prefix[i] != word[i] {
            return false;
        }
        i = i + 1;
    }
    true
}

/// The value of attribute `key` in a tag.
pub fn attribute(tag: &str, key: &str) -> (r: Option<String>)
    ensures
        match r {
            Some(v) => attribute_spec(tag@, key@) == Some(v@),
            None => attribute_spec(tag@, key@) is None,
        },
{
    let mut prefix = chars_of(key);
    prefix.push('=');
    prefix.push('"');
    assert(prefix@ =~= key@ + seq!['=', '"']);
    let t = chars_of(tag);
    let words = words_of(&t);
    let ghost wv = words@.map_values(|w: Vec<char>| w@);
    let mut i: usize = 0;
    assert(wv.take(0) =~= Seq::<Seq<char>>::empty());
    while i < words.len()
        invariant
            i <= words@.len(),
            wv == words@.map_values(|w: Vec<char>| w@),
            wv == ascii_words(tag@),
            prefix@ == key@ + seq!['=', '"'],
            first_with_prefix(wv.take(i as int), prefix@) is None,
        decreases words@.len() - i,
    {
        assert(wv.take(i + 1).drop_last() =~= wv.take(i as int));
        assert(wv[i as int] == words@[i as int]@);
        if has_prefix(&prefix, &words[i]) {
            proof {
                lemma_first_with_prefix_extends(wv, prefix@, i as int + 1);
            }
            let word = &words[i];
            let n = word.len();
            let p = prefix.len();
            let value = crate::text::slice_chars(word.as_slice(), p, n);
            let ghost vv = wv[i as int].skip(p as int);
            assert(value@ == vv);
            let m = value.len();
            if m >= 2 && value[m - 2] == '"' && value[m - 1] == '>' {
                assert(vv.skip(m - 2) =~= seq!['"', '>']);
                let kept = crate::text::slice_chars(value.as_slice(), 0, m - 2);
                return Some(crate::text::string_from_chars(kept.as_slice()));
            }
            proof {
                if m >= 2 {
                    assert(vv.skip(m - 2) != seq!['"', '>']) by {
                        if vv.skip(m - 2) == seq!['"', '>'] {
                            assert(vv.skip(m - 2)[0] == vv[m - 2]);
                            assert(vv.skip(m - 2)[1] == vv[m - 1]);
                        }
                    }
                }
            }
            if m >= 1 && value[m - 1] == '"' {
                let kept = crate::text::slice_chars(value.as_slice(), 0, m - 1);
                return Some(crate::text::string_from_chars(kept.as_slice()));
            }
            return None;
        }
        i = i + 1;
    }
    assert(wv.take(i as int) =~= wv);
    None
}

proof fn lemma_first_with_prefix_extends(words: Seq<Seq<char>>, prefix: Seq<char>, k: int)
    requires
        0 <= k <= words.len(),
        first_with_prefix(words.take(k), prefix) is Some,
    ensures
        first_with_prefix(words, prefix) == first_with_prefix(words.take(k), prefix),
    decreases words.len() - k,
{
    if k < words.len() {
        assert(words.take(k + 1).drop_last() =~= words.take(k));
        lemma_first_with_prefix_extends(words, prefix, k + 1);
    } else {
        assert(words.take(k) =~= words);
    }
}

/// How many times `c` repeats from position `j`.
pub open spec fn run_length(p: Seq<char>, j: int, c: char) -> int
    decreases p.len() - j,
{
    if j < p.len() && j >= 0 && p[j] == c {
        1 + run_length(p, j + 1, c)
    } else {
        0
    }
}

/// The first unquoted field symbol of a date pattern from position `i`, with the length
/// of its run; `'` toggles quoting and `''` is a literal quote.
pub open spec fn symbol_run_from(p: Seq<char>, symbols: Seq<char>, i: int, quoted: bool) -> Option<
    (char, int),
>
    decreases p.len() - i,
{
    if i < 0 || i >= p.len() {
        None
    } else if p[i] == '\'' {
        if i + 1 < p.len() && p[i + 1] == '\'' {
            symbol_run_from(p, symbols, i + 2, quoted)
        } else {
            symbol_run_from(p, symbols, i + 1, !quoted)
        }
    } else if !quoted && symbols.contains(p[i]) {
        Some((p[i], 1 + run_length(p, i + 1, p[i])))
    } else {
        symbol_run_from(p, symbols, i + 1, quoted)
    }
}

fn contains_char(v: &Vec<char>, c: char) -> (r: bool)
    ensures
        r == v@.contains(c),
{
    let mut j: usize = 0;
    while j < v.len()
        invariant
            j <= v@.len(),
            forall|m: int| 0 <= m < j ==> v@[m] != c,
        decreases v@.len() - j,
    {
        if v[j] == c {
            assert(v@[j as int] == c);
            return true;
        }
        j = j + 1;
    }
    false
}

/// The first unquoted symbol of `symbols` in a date pattern, with the length of its run.
pub fn symbol_run(pattern: &str, symbols: &str) -> (r: Option<(char, usize)>)
    ensures
        match r {
            Some((c, n)) => symbol_run_from(pattern@, symbols@, 0, false) == Some((c, n as int)),
            None => symbol_run_from(pattern@, symbols@, 0, false) is None,
        },
{
    let p = chars_of(pattern);
    let syms = chars_of(symbols);
    let mut quoted = false;
    let mut i: usize = 0;
    while i < p.len()
        invariant
            i <= p@.len() + 1,
            p@ == pattern@,
            syms@ == symbols@,
            symbol_run_from(p@, syms@, i as int, quoted) == symbol_run_from(p@, syms@, 0, false),
        decreases p@.len() + 1 - i,
    {
        let c = p[i];
        if c == '\'' {
            if i + 1 < p.len() && p[i + 1] == '\'' {
                i = i + 2;
            } else {
                quoted = !quoted;
                i = i + 1;
            }
        } else if !quoted && contains_char(&syms, c) {
            let mut width: usize = 1;
            let mut j = i + 1;
            while j < p.len() && p[j] == c
                invariant
                    i < j <= p@.len(),
                    width == j - i,
                    run_length(p@, i + 1, c) == (j - i - 1) + run_length(p@, j as int, c),
                decreases p@.len() - j,
            {
                j = j + 1;
                width = width + 1;
            }
            return Some((c, width));
        } else {
            i = i + 1;
        }
    }
    None
}

/// The widths of the era names in a date pattern.
#[derive(Clone, Copy, Debug, Eq, PartialEq)]
pub enum YearNameLength {
    Abbreviated,
    Wide,
    Narrow,
}

/// The widths of month names.
#[derive(Clone, Copy, Debug, Eq, PartialEq)]
pub enum MonthNameLength {
    Abbreviated,
    Wide,
    Narrow,
    StandaloneAbbreviated,
    StandaloneWide,
    StandaloneNarrow,
}

/// The widths of weekday names.
#[derive(Clone, Copy, Debug, Eq, PartialEq)]
pub enum WeekdayNameLength {
    Abbreviated,
    Wide,
    Narrow,
    Short,
    StandaloneAbbreviated,
    StandaloneWide,
    StandaloneNarrow,
    StandaloneShort,
}

/// The widths of day-period names.
#[derive(Clone, Copy, Debug, Eq, PartialEq)]
pub enum DayPeriodNameLength {
    Abbreviated,
    Wide,
    Narrow,
}

/// The era width of `G` fields: up to three abbreviated, four wide, more narrow.
pub open spec fn year_length_spec(run: Option<(char, int)>) -> Option<YearNameLength> {
    match run {
        Some((_, w)) => if 1 <= w <= 3 {
            Some(YearNameLength::Abbreviated)
        } else if w == 4 {
            Some(YearNameLength::Wide)
        } else if w >= 5 {
            Some(YearNameLength::Narrow)
        } else {
            None
        },
        None => None,
    }
}

/// The name width a pattern asks for its era.
pub fn year_name_length(pattern: &str) -> (r: Option<YearNameLength>)
    ensures
        r == year_length_spec(symbol_run_from(pattern@, "G"@, 0, false)),
{
    match symbol_run(pattern, "G") {
        Some((_, w)) => if 1 <= w && w <= 3 {
            Some(YearNameLength::Abbreviated)
        } else if w == 4 {
            Some(YearNameLength::Wide)
        } else if w >= 5 {
            Some(YearNameLength::Narrow)
        } else {
            None
        },
        None => None,
    }
}

/// The month width of `M` (formatting) and `L` (standalone) fields of three or more.
pub open spec fn month_length_spec(run: Option<(char, int)>) -> Option<MonthNameLength> {
    match run {
        Some((c, w)) => if c == 'M' && w == 3 {
            Some(MonthNameLength::Abbreviated)
        } else if c == 'M' && w == 4 {
            Some(MonthNameLength::Wide)
        } else if c == 'M' && w >= 5 {
            Some(MonthNameLength::Narrow)
        } else if c == 'L' && w == 3 {
            Some(MonthNameLength::StandaloneAbbreviated)
        } else if c == 'L' && w == 4 {
            Some(MonthNameLength::StandaloneWide)
        } else if c == 'L' && w >= 5 {
            Some(MonthNameLength::StandaloneNarrow)
        } else {
            None
        },
        None => None,
    }
}

/// The name width a pattern asks for its month.
pub fn month_name_length(pattern: &str) -> (r: Option<MonthNameLength>)
    ensures
        r == month_length_spec(symbol_run_from(pattern@, "ML"@, 0, false)),
{
    match symbol_run(pattern, "ML") {
        Some((c, w)) => if c == 'M' && w == 3 {
            Some(MonthNameLength::Abbreviated)
        } else if c == 'M' && w == 4 {
            Some(MonthNameLength::Wide)
        } else if c == 'M' && w >= 5 {
            Some(MonthNameLength::Narrow)
        } else if c == 'L' && w == 3 {
            Some(MonthNameLength::StandaloneAbbreviated)
        } else if c == 'L' && w == 4 {
            Some(MonthNameLength::StandaloneWide)
        } else if c == 'L' && w >= 5 {
            Some(MonthNameLength::StandaloneNarrow)
        } else {
            None
        },
        None => None,
    }
}

/// The weekday width of `E`/`e` (formatting) and `c` (standalone, from three) fields.
pub open spec fn weekday_length_spec(run: Option<(char, int)>) -> Option<WeekdayNameLength> {
    match run {
        Some((c, w)) => if (c == 'E' || c == 'e') && 1 <= w <= 3 {
            Some(WeekdayNameLength::Abbreviated)
        } else if (c == 'E' || c == 'e') && w == 4 {
            Some(WeekdayNameLength::Wide)
        } else if (c == 'E' || c == 'e') && w == 5 {
            Some(WeekdayNameLength::Narrow)
        } else if (c == 'E' || c == 'e') && w >= 6 {
            Some(WeekdayNameLength::Short)
        } else if c == 'c' && w == 3 {
            Some(WeekdayNameLength::StandaloneAbbreviated)
        } else if c == 'c' && w == 4 {
            Some(WeekdayNameLength::StandaloneWide)
        } else if c == 'c' && w == 5 {
            Some(WeekdayNameLength::StandaloneNarrow)
        } else if c == 'c' && w >= 6 {
            Some(WeekdayNameLength::StandaloneShort)
        } else {
            None
        },
        None => None,
    }
}

/// The name width a pattern asks for its weekday.
pub fn weekday_name_length(pattern: &str) -> (r: Option<WeekdayNameLength>)
    ensures
        r == weekday_length_spec(symbol_run_from(pattern@, "Eec"@, 0, false)),
{
    match symbol_run(pattern, "Eec") {
        Some((c, w)) => if (c == 'E' || c == 'e') && 1 <= w && w <= 3 {
            Some(WeekdayNameLength::Abbreviated)
        } else if (c == 'E' || c == 'e') && w == 4 {
            Some(WeekdayNameLength::Wide)
        } else if (c == 'E' || c == 'e') && w == 5 {
            Some(WeekdayNameLength::Narrow)
        } else if (c == 'E' || c == 'e') && w >= 6 {
            Some(WeekdayNameLength::Short)
        } else if c == 'c' && w == 3 {
            Some(WeekdayNameLength::StandaloneAbbreviated)
        } else if c == 'c' && w == 4 {
            Some(WeekdayNameLength::StandaloneWide)
        } else if c == 'c' && w == 5 {
            Some(WeekdayNameLength::StandaloneNarrow)
        } else if c == 'c' && w >= 6 {
            Some(WeekdayNameLength::StandaloneShort)
        } else {
            None
        },
        None => None,
    }
}

/// The day-period width of `a`, `b` and `B` fields.
pub open spec fn day_period_length_spec(run: Option<(char, int)>) -> Option<DayPeriodNameLength> {
    match run {
        Some((_, w)) => if 1 <= w <= 3 {
            Some(DayPeriodNameLength::Abbreviated)
        } else if w == 4 {
            Some(DayPeriodNameLength::Wide)
        } else if w >= 5 {
            Some(DayPeriodNameLength::Narrow)
        } else {
            None
        },
        None => None,
    }
}

/// The name width a pattern asks for its day period.
pub fn day_period_name_length(pattern: &str) -> (r: Option<DayPeriodNameLength>)
    ensures
        r == day_period_length_spec(symbol_run_from(pattern@, "abB"@, 0, false)),
{
    match symbol_run(pattern, "abB") {
        Some((_, w)) => if 1 <= w && w <= 3 {
            Some(DayPeriodNameLength::Abbreviated)
        } else if w == 4 {
            Some(DayPeriodNameLength::Wide)
        } else if w >= 5 {
            Some(DayPeriodNameLength::Narrow)
        } else {
            None
        },
        None => None,
    }
}


/// The first `>` at or after position `i`.
pub open spec fn close_from(s: Seq<char>, i: int) -> Option<int>
    decreases s.len() - i,
{
    if i < 0 || i >= s.len() {
        None
    } else if s[i] == '>' {
        Some(i)
    } else {
        close_from(s, i + 1)
    }
}

/// The tags from position `from` on: each starts where `prefix` occurs and ends after the
/// next `>`; scanning stops at a tag that is never closed.
pub open spec fn tag_spans_from(s: Seq<char>, prefix: Seq<char>, from: int) -> Seq<(int, int)>
    decreases s.len() - from,
{
    if from < 0 || from + prefix.len() > s.len() || from >= s.len() {
        Seq::empty()
    } else if s.subrange(from, from + prefix.len()) == prefix {
        match close_from(s, from) {
            Some(gt) => if from <= gt < s.len() {
                seq![(from, gt + 1)] + tag_spans_from(s, prefix, gt + 1)
            } else {
                Seq::empty()
            },
            None => Seq::empty(),
        }
    } else {
        tag_spans_from(s, prefix, from + 1)
    }
}

proof fn lemma_close_from(s: Seq<char>, i: int)
    ensures
        match close_from(s, i) {
            Some(gt) => i <= gt < s.len() && s[gt] == '>',
            None => true,
        },
    decreases s.len() - i,
{
    if 0 <= i < s.len() && s[i] != '>' {
        lemma_close_from(s, i + 1);
    }
}

fn close_position(s: &Vec<char>, i: usize) -> (r: Option<usize>)
    ensures
        match r {
            Some(gt) => close_from(s@, i as int) == Some(gt as int),
            None => close_from(s@, i as int) is None,
        },
{
    let mut j = i;
    while j < s.len()
        invariant
            i <= j,
            close_from(s@, j as int) == close_from(s@, i as int),
        decreases s@.len() - j,
    {
        if s[j] == '>' {
            return Some(j);
        }
        j = j + 1;
    }
    None
}

fn occurs_at(s: &Vec<char>, pattern: &Vec<char>, at: usize) -> (r: bool)
    requires
        at + pattern@.len() <= s@.len(),
    ensures
        r == (s@.subrange(at as int, at + pattern@.len()) == pattern@),
{
    let mut k: usize = 0;
    while k < pattern.len()
        invariant
            k <= pattern@.len(),
            at + pattern@.len() <= s@.len(),
            forall|m: int| 0 <= m < k ==> s@[at + m] == pattern@[m],
        decreases pattern@.len() - k,
    {
        assert(at + k < s.len());
        if s[at + k] != pattern[k] {
            assert(s@.subrange(at as int, at + pattern@.len())[k as int] != pattern@[k as int]);
            return false;
        }
        k = k + 1;
    }
    assert(s@.subrange(at as int, at + pattern@.len()) =~= pattern@);
    true
}

pub open spec fn spans_view(v: Seq<(usize, usize)>) -> Seq<(int, int)> {
    v.map_values(|p: (usize, usize)| (p.0 as int, p.1 as int))
}

/// The character ranges of the tags of `text` that start with `prefix`.
pub fn tag_spans(text: &str, prefix: &str) -> (out: Vec<(usize, usize)>)
    ensures
        spans_view(out@) == tag_spans_from(text@, prefix@, 0),
{
    let s = chars_of(text);
    let p = chars_of(prefix);
    let mut out: Vec<(usize, usize)> = Vec::new();
    let mut from: usize = 0;
    assert(spans_view(out@) + tag_spans_from(s@, p@, 0) =~= tag_spans_from(s@, p@, 0));
    while from < s.len() && p.len() <= s.len() - from
        invariant
            from <= s@.len(),
            s@ == text@,
            p@ == prefix@,
            tag_spans_from(s@, p@, 0) == spans_view(out@) + tag_spans_from(s@, p@, from as int),
        decreases s@.len() - from,
    {
        if occurs_at(&s, &p, from) {
            proof {
                lemma_close_from(s@, from as int);
            }
            match close_position(&s, from) {
                None => {
                    assert(tag_spans_from(s@, p@, from as int) =~= Seq::<(int, int)>::empty());
                    assert(spans_view(out@) + Seq::<(int, int)>::empty() =~= spans_view(out@));
                    return out;
                },
                Some(gt) => {
                    let ghost before = spans_view(out@);
                    out.push((from, gt + 1));
                    assert(spans_view(out@) =~= before.push((from as int, gt + 1)));
                    assert(before + tag_spans_from(s@, p@, from as int) =~= spans_view(out@)
                        + tag_spans_from(s@, p@, gt + 1));
                    from = gt + 1;
                },
            }
        } else {
            from = from + 1;
        }
    }
    assert(tag_spans_from(s@, p@, from as int) =~= Seq::<(int, int)>::empty());
    assert(spans_view(out@) + Seq::<(int, int)>::empty() =~= spans_view(out@));
    out
}

/// Spans that follow one another within a text of length `n`, from position `from` on.
pub open spec fn ordered_spans(spans: Seq<(int, int)>, from: int, n: int) -> bool {
    &&& forall|k: int| 0 <= k < spans.len() ==> (#[trigger] spans[k]).0 <= spans[k].1 <= n
    &&& spans.len() > 0 ==> from <= spans[0].0
    &&& forall|k: int| 0 < k < spans.len() ==> spans[k - 1].1 <= (#[trigger] spans[k]).0
    &&& from <= n
}

/// The text with the spans from the `k`-th on replaced by their values, a span without a
/// value keeping its text, starting at position `from`.
pub open spec fn spliced(
    s: Seq<char>,
    spans: Seq<(int, int)>,
    values: Seq<Option<Seq<char>>>,
    k: int,
    from: int,
) -> Seq<char>
    decreases spans.len() - k,
{
    if k < 0 || k >= spans.len() {
        s.subrange(from, s.len() as int)
    } else {
        let (a, b) = spans[k];
        s.subrange(from, a) + (match values[k] {
            Some(v) => v,
            None => s.subrange(a, b),
        }) + spliced(s, spans, values, k + 1, b)
    }
}

pub open spec fn values_view(v: Seq<Option<String>>) -> Seq<Option<Seq<char>>> {
    v.map_values(
        |o: Option<String>|
            match o {
                Some(s) => Some(s@),
                None => None,
            },
    )
}

fn push_range(out: &mut String, s: &Vec<char>, a: usize, b: usize)
    requires
        a <= b <= s@.len(),
    ensures
        final(out)@ == old(out)@ + s@.subrange(a as int, b as int),
{
    let mut i = a;
    while i < b
        invariant
            a <= i <= b <= s@.len(),
            out@ == old(out)@ + s@.subrange(a as int, i as int),
        decreases b - i,
    {
        push_char(out, s[i]);
        assert(s@.subrange(a as int, i + 1) =~= s@.subrange(a as int, i as int).push(s@[i as int]));
        i = i + 1;
    }
}

/// Replaces each tag span that has a value by that value.
pub fn splice_tags(text: &str, spans: &[(usize, usize)], values: &[Option<String>]) -> (out: String)
    requires
        spans@.len() == values@.len(),
        ordered_spans(spans_view(spans@), 0, text@.len() as int),
    ensures
        out@ == spliced(text@, spans_view(spans@), values_view(values@), 0, 0),
{
    let s = chars_of(text);
    let ghost sv = spans_view(spans@);
    let ghost vv = values_view(values@);
    let mut out = String::new();
    let mut from: usize = 0;
    let mut k: usize = 0;
    assert(out@ + spliced(s@, sv, vv, 0, 0) =~= spliced(s@, sv, vv, 0, 0));
    while k < spans.len()
        invariant
            k <= spans@.len() == values@.len(),
            s@ == text@,
            sv == spans_view(spans@),
            vv == values_view(values@),
            ordered_spans(sv, 0, s@.len() as int),
            from <= s@.len(),
            k < spans@.len() ==> from <= sv[k as int].0,
            spliced(s@, sv, vv, 0, 0) == out@ + spliced(s@, sv, vv, k as int, from as int),
        decreases spans@.len() - k,
    {
        let (a, b) = spans[k];
        assert(sv[k as int] == (a as int, b as int));
        let ghost before = out@;
        push_range(&mut out, &s, from, a);
        match &values[k] {
            Some(v) => {
                let vc = chars_of(v.as_str());
                push_range(&mut out, &vc, 0, vc.len());
                assert(vc@.subrange(0, vc@.len() as int) =~= v@);
            },
            None => {
                push_range(&mut out, &s, a, b);
            },
        }
        assert(before + spliced(s@, sv, vv, k as int, from as int) =~= out@ + spliced(
            s@,
            sv,
            vv,
            k + 1,
            b as int,
        ));
        from = b;
        k = k + 1;
    }
    push_range(&mut out, &s, from, s.len());
    out
}

proof fn lemma_spans_ordered(s: Seq<char>, prefix: Seq<char>, from: int)
    requires
        0 <= from <= s.len(),
    ensures
        ordered_spans(tag_spans_from(s, prefix, from), from, s.len() as int),
    decreases s.len() - from,
{
    let t = tag_spans_from(s, prefix, from);
    if from + prefix.len() > s.len() || from >= s.len() {
    } else if s.subrange(from, from + prefix.len()) == prefix {
        lemma_close_from(s, from);
        match close_from(s, from) {
            Some(gt) => {
                if from <= gt < s.len() {
                    lemma_spans_ordered(s, prefix, gt + 1);
                    let rest = tag_spans_from(s, prefix, gt + 1);
                    assert(t == seq![(from, gt + 1)] + rest);
                    assert forall|k: int| 0 < k < t.len() implies t[k - 1].1 <= (
                    #[trigger] t[k]).0 by {
                        if k > 1 {
                            assert(t[k - 1] == rest[k - 2]);
                            assert(t[k] == rest[k - 1]);
                        } else {
                            assert(t[k] == rest[0]);
                        }
                    }
                    assert forall|k: int| 0 <= k < t.len() implies (#[trigger] t[k]).0 <= t[k].1
                        <= s.len() by {
                        if k > 0 {
                            assert(t[k] == rest[k - 1]);
                        }
                    }
                }
            },
            None => {},
        }
    } else {
        lemma_spans_ordered(s, prefix, from + 1);
    }
}

proof fn lemma_spliced_unchanged(
    s: Seq<char>,
    spans: Seq<(int, int)>,
    values: Seq<Option<Seq<char>>>,
    k: int,
    from: int,
)
    requires
        0 <= k <= spans.len(),
        spans.len() == values.len(),
        forall|j: int| 0 <= j < values.len() ==> (#[trigger] values[j]) is None,
        forall|j: int| 0 <= j < spans.len() ==> (#[trigger] spans[j]).0 <= spans[j].1 <= s.len(),
        forall|j: int| 0 < j < spans.len() ==> spans[j - 1].1 <= (#[trigger] spans[j]).0,
        k < spans.len() ==> from <= spans[k].0,
        0 <= from <= s.len(),
    ensures
        spliced(s, spans, values, k, from) == s.subrange(from, s.len() as int),
    decreases spans.len() - k,
{
    if k < spans.len() {
        let (a, b) = spans[k];
        lemma_spliced_unchanged(s, spans, values, k + 1, b);
        assert(s.subrange(from, a) + s.subrange(a, b) + s.subrange(b, s.len() as int) =~= s.subrange(
            from,
            s.len() as int,
        ));
    }
}

/// Tags left without a replacement leave the text as it was.
pub proof fn lemma_unreplaced_tags_unchanged(
    s: Seq<char>,
    prefix: Seq<char>,
    values: Seq<Option<Seq<char>>>,
)
    requires
        values.len() == tag_spans_from(s, prefix, 0).len(),
        forall|j: int| 0 <= j < values.len() ==> (#[trigger] values[j]) is None,
    ensures
        spliced(s, tag_spans_from(s, prefix, 0), values, 0, 0) == s,
{
    lemma_spans_ordered(s, prefix, 0);
    lemma_spliced_unchanged(s, tag_spans_from(s, prefix, 0), values, 0, 0);
    assert(s.subrange(0, s.len() as int) =~= s);
}

} // verus!
