//! The tab-separated text format of custom input tables: parsing, export and validation.
use vstd::prelude::*;

use crate::input::table::{
    InputPiece, InputTable, KeyElement, KeyV, MappingV, PieceV, ValueElement, ValueV, entries_view,
    key_view, same_key, shifted_key, table_from, value_view,
};
use crate::text::{
    chars_of, spells, find_char, find_spec, graphemes, lemma_find, lines_of, lines_spec, slice_chars,
    spec_graphemes, split_chars, split_once_spec, split_spec, string_from_chars, views,
};

verus! {

/// `char::is_whitespace`: the characters with the Unicode `White_Space` property.
pub open spec fn is_white(c: char) -> bool {
    let v = c as u32;
    (0x9 <= v && v <= 0xd) || v == 0x20 || v == 0x85 || v == 0xa0 || v == 0x1680 || (0x2000 <= v
        && v <= 0x200a) || v == 0x2028 || v == 0x2029 || v == 0x202f || v == 0x205f || v == 0x3000
}

/// A line that holds only white space (`str::trim` leaves nothing).
pub open spec fn blank(line: Seq<char>) -> bool {
    forall|i: int| 0 <= i < line.len() ==> is_white(#[trigger] line[i])
}

fn is_white_char(c: char) -> (r: bool)
    ensures
        r == is_white(c),
{
    let v = c as u32;
    (0x9 <= v && v <= 0xd) || v == 0x20 || v == 0x85 || v == 0xa0 || v == 0x1680 || (0x2000 <= v
        && v <= 0x200a) || v == 0x2028 || v == 0x2029 || v == 0x202f || v == 0x205f || v == 0x3000
}

fn is_blank(line: &[char]) -> (r: bool)
    ensures
        r == blank(line@),
{
    let mut i: usize = 0;
    while i < line.len()
        invariant
            i <= line@.len(),
            forall|j: int| 0 <= j < i ==> is_white(#[trigger] line@[j]),
        decreases line@.len() - i,
    {
        if !is_white_char(line[i]) {
            return false;
        }
        i = i + 1;
    }
    true
}

/// The key element a brace token stands for.
pub open spec fn key_token(tok: Seq<char>) -> Option<KeyV> {
    if tok == "composition-separator"@ {
        Some(KeyV::Piece(PieceV::Separator))
    } else if tok == "any character"@ {
        Some(KeyV::Any)
    } else if tok == "lbracket"@ {
        Some(KeyV::Piece(PieceV::Character("{"@)))
    } else if tok == "rbracket"@ {
        Some(KeyV::Piece(PieceV::Character("}"@)))
    } else if tok == "shift 0"@ {
        Some(KeyV::Piece(PieceV::Key { intention: Some("0"@), input: "0"@, shifted: true }))
    } else if tok == "shift _"@ {
        Some(KeyV::Piece(PieceV::Key { intention: Some("_"@), input: "_"@, shifted: true }))
    } else {
        None
    }
}

/// The value element a brace token stands for.
pub open spec fn value_token(tok: Seq<char>) -> Option<ValueV> {
    if tok == "any character"@ {
        Some(ValueV::Any)
    } else if tok == "lbracket"@ {
        Some(ValueV::Character("{"@))
    } else if tok == "rbracket"@ {
        Some(ValueV::Character("}"@))
    } else {
        None
    }
}

/// A `{token}` at the start of `s`: the token and how many characters it takes.
pub open spec fn brace_token(s: Seq<char>) -> Option<(Seq<char>, int)> {
    if s.len() > 0 && s[0] == '{' {
        match find_spec(s.skip(1), '}') {
            Some(c) => if 0 <= c && c + 2 <= s.len() {
                Some((s.subrange(1, c + 1), c + 2))
            } else {
                None
            },
            None => None,
        }
    } else {
        None
    }
}

/// The first grapheme cluster of `s` and how many characters it takes.
pub open spec fn first_grapheme(s: Seq<char>) -> Seq<char> {
    spec_graphemes(s)[0]
}

pub open spec fn grapheme_step(s: Seq<char>) -> int {
    let n = first_grapheme(s).len() as int;
    if n < 1 {
        1
    } else if n > s.len() {
        s.len() as int
    } else {
        n
    }
}

/// The elements of a key column: recognised brace tokens, otherwise grapheme clusters.
pub open spec fn parse_key_spec(s: Seq<char>) -> Seq<KeyV>
    decreases s.len(),
{
    if s.len() == 0 {
        Seq::empty()
    } else {
        let token = match brace_token(s) {
            Some((tok, used)) => match key_token(tok) {
                Some(k) => Some((k, used)),
                None => None,
            },
            None => None,
        };
        match token {
            Some((k, used)) => seq![k] + parse_key_spec(s.skip(used)),
            None => seq![KeyV::Piece(PieceV::Character(first_grapheme(s)))] + parse_key_spec(
                s.skip(grapheme_step(s)),
            ),
        }
    }
}

/// The elements of a value column.
pub open spec fn parse_value_spec(s: Seq<char>) -> Seq<ValueV>
    decreases s.len(),
{
    if s.len() == 0 {
        Seq::empty()
    } else {
        let token = match brace_token(s) {
            Some((tok, used)) => match value_token(tok) {
                Some(v) => Some((v, used)),
                None => None,
            },
            None => None,
        };
        match token {
            Some((v, used)) => seq![v] + parse_value_spec(s.skip(used)),
            None => seq![ValueV::Character(first_grapheme(s))] + parse_value_spec(
                s.skip(grapheme_step(s)),
            ),
        }
    }
}

fn key_token_exec(tok: &[char]) -> (r: Option<KeyElement>)
    ensures
        match r {
            Some(k) => key_token(tok@) == Some(k@),
            None => key_token(tok@) is None,
        },
{
    if spells(tok, "composition-separator") {
        Some(KeyElement::Piece(InputPiece::CompositionSeparator))
    } else if spells(tok, "any character") {
        Some(KeyElement::Any)
    } else if spells(tok, "lbracket") {
        Some(KeyElement::Piece(InputPiece::Character("{".to_owned())))
    } else if spells(tok, "rbracket") {
        Some(KeyElement::Piece(InputPiece::Character("}".to_owned())))
    } else if spells(tok, "shift 0") {
        Some(KeyElement::Piece(shifted_key("0".to_owned())))
    } else if spells(tok, "shift _") {
        Some(KeyElement::Piece(shifted_key("_".to_owned())))
    } else {
        None
    }
}

fn value_token_exec(tok: &[char]) -> (r: Option<ValueElement>)
    ensures
        match r {
            Some(v) => value_token(tok@) == Some(v@),
            None => value_token(tok@) is None,
        },
{
    if spells(tok, "any character") {
        Some(ValueElement::Any)
    } else if spells(tok, "lbracket") {
        Some(ValueElement::Character("{".to_owned()))
    } else if spells(tok, "rbracket") {
        Some(ValueElement::Character("}".to_owned()))
    } else {
        None
    }
}

/// The brace token at the start of `s`, found as `brace_token` describes it.
fn brace_token_exec(s: &Vec<char>) -> (r: Option<(Vec<char>, usize)>)
    ensures
        match r {
            Some((tok, used)) => brace_token(s@) == Some((tok@, used as int)),
            None => brace_token(s@) is None,
        },
{
    if s.len() > 0 && s[0] == '{' {
        let rest = slice_chars(s, 1, s.len());
        assert(rest@ == s@.skip(1));
        match find_char(&rest, '}') {
            Some(c) => {
                proof {
                    lemma_find(rest@, '}');
                }
                let tok = slice_chars(&rest, 0, c);
                assert(tok@ == s@.subrange(1, c + 1));
                Some((tok, c + 2))
            },
            None => None,
        }
    } else {
        None
    }
}

/// The first grapheme cluster of the non-empty `s` and its length in characters.
fn first_grapheme_exec(s: &Vec<char>) -> (r: (String, usize))
    requires
        s@.len() > 0,
    ensures
        r.0@ == first_grapheme(s@),
        r.1 == grapheme_step(s@),
        r.1 as int == first_grapheme(s@).len(),
        1 <= r.1 <= s@.len(),
{
    let text = string_from_chars(s.as_slice());
    let gs = graphemes(text.as_str());
    let ghost gv = views(gs@);
    assert(gv.flatten() == s@);
    if gs.len() == 0 {
        assert(gv.len() == 0);
        assert(gv.flatten() == Seq::<char>::empty());
        assert(false);
    }
    assert(gv.flatten() == gv.first() + gv.drop_first().flatten());
    assert(gv[0] == gs@[0]@);
    let g = gs[0].clone();
    let n = chars_of(g.as_str()).len();
    (g, n)
}

fn parse_key(s: &Vec<char>) -> (out: Vec<KeyElement>)
    ensures
        key_view(out@) == parse_key_spec(s@),
{
    let mut out: Vec<KeyElement> = Vec::new();
    let mut rem = slice_chars(s, 0, s.len());
    assert(rem@ == s@);
    assert(key_view(out@) + parse_key_spec(rem@) == parse_key_spec(s@));
    while rem.len() > 0
        invariant
            key_view(out@) + parse_key_spec(rem@) == parse_key_spec(s@),
        decreases rem@.len(),
    {
        let ghost before = key_view(out@);
        let ghost r = rem@;
        let mut element: Option<(KeyElement, usize)> = None;
        match brace_token_exec(&rem) {
            Some((tok, used)) => match key_token_exec(&tok) {
                Some(k) => {
                    element = Some((k, used));
                },
                None => {},
            },
            None => {},
        }
        match element {
            Some((k, used)) => {
                out.push(k);
                rem = slice_chars(&rem, used, rem.len());
                assert(key_view(out@) == before.push(key_view(out@).last()));
                assert(before.push(key_view(out@).last()) + parse_key_spec(rem@) == before + parse_key_spec(r));
            },
            None => {
                let (g, step) = first_grapheme_exec(&rem);
                out.push(KeyElement::Piece(InputPiece::Character(g)));
                rem = slice_chars(&rem, step, rem.len());
                assert(key_view(out@) == before.push(key_view(out@).last()));
                assert(before.push(key_view(out@).last()) + parse_key_spec(rem@) == before + parse_key_spec(r));
            },
        }
    }
    assert(parse_key_spec(rem@) == Seq::<KeyV>::empty());
    assert(key_view(out@) + Seq::<KeyV>::empty() == key_view(out@));
    out
}

fn parse_value(s: &Vec<char>) -> (out: Vec<ValueElement>)
    ensures
        value_view(out@) == parse_value_spec(s@),
{
    let mut out: Vec<ValueElement> = Vec::new();
    let mut rem = slice_chars(s, 0, s.len());
    assert(rem@ == s@);
    assert(value_view(out@) + parse_value_spec(rem@) == parse_value_spec(s@));
    while rem.len() > 0
        invariant
            value_view(out@) + parse_value_spec(rem@) == parse_value_spec(s@),
        decreases rem@.len(),
    {
        let ghost before = value_view(out@);
        let ghost r = rem@;
        let mut element: Option<(ValueElement, usize)> = None;
        match brace_token_exec(&rem) {
            Some((tok, used)) => match value_token_exec(&tok) {
                Some(v) => {
                    element = Some((v, used));
                },
                None => {},
            },
            None => {},
        }
        match element {
            Some((v, used)) => {
                out.push(v);
                rem = slice_chars(&rem, used, rem.len());
                assert(value_view(out@) == before.push(value_view(out@).last()));
                assert(before.push(value_view(out@).last()) + parse_value_spec(rem@) == before + parse_value_spec(r));
            },
            None => {
                let (g, step) = first_grapheme_exec(&rem);
                out.push(ValueElement::Character(g));
                rem = slice_chars(&rem, step, rem.len());
                assert(value_view(out@) == before.push(value_view(out@).last()));
                assert(before.push(value_view(out@).last()) + parse_value_spec(rem@) == before + parse_value_spec(r));
            },
        }
    }
    assert(parse_value_spec(rem@) == Seq::<ValueV>::empty());
    assert(value_view(out@) + Seq::<ValueV>::empty() == value_view(out@));
    out
}


/// The non-empty tab-separated columns of a line.
pub open spec fn columns(line: Seq<char>) -> Seq<Seq<char>> {
    split_spec(line, '\t').filter(|c: Seq<char>| c.len() > 0)
}

/// The rule of one line: its first two non-empty columns as key and value; blank lines and
/// lines with fewer columns hold none.
pub open spec fn custom_rule(line: Seq<char>) -> Option<MappingV> {
    if blank(line) {
        None
    } else {
        let cols = columns(line);
        if cols.len() < 2 {
            None
        } else {
            Some(MappingV { key: parse_key_spec(cols[0]), value: parse_value_spec(cols[1]) })
        }
    }
}

/// The rules of a custom table text, line by line.
pub open spec fn custom_rules(content: Seq<char>) -> Seq<MappingV> {
    lines_spec(content).filter_map(|l: Seq<char>| custom_rule(l))
}

/// The first two non-empty columns of a line, if it has two.
fn two_columns(line: &Vec<char>) -> (r: Option<(Vec<char>, Vec<char>)>)
    ensures
        match r {
            Some((k, v)) => columns(line@).len() >= 2 && k@ == columns(line@)[0] && v@
                == columns(line@)[1],
            None => columns(line@).len() < 2,
        },
{
    let parts = split_chars(line.as_slice(), '\t');
    let ghost pv = parts@.map_values(|v: Vec<char>| v@);
    let mut kept: Vec<Vec<char>> = Vec::new();
    let mut i: usize = 0;
    while i < parts.len()
        invariant
            i <= parts@.len(),
            pv == parts@.map_values(|v: Vec<char>| v@),
            pv == split_spec(line@, '\t'),
            kept@.map_values(|v: Vec<char>| v@) == pv.take(i as int).filter(|c: Seq<char>| c.len() > 0),
        decreases parts@.len() - i,
    {
        assert(pv.take(i + 1).drop_last() == pv.take(i as int));
        assert(pv.take(i + 1).last() == parts@[i as int]@);
        proof {
            reveal(Seq::filter);
        }
        if parts[i].len() > 0 {
            let ghost before = kept@.map_values(|v: Vec<char>| v@);
            let piece = slice_chars(&parts[i], 0, parts[i].len());
            assert(piece@ == parts@[i as int]@);
            kept.push(piece);
            assert(kept@.map_values(|v: Vec<char>| v@) == before.push(parts@[i as int]@));
        }
        i = i + 1;
    }
    assert(pv.take(i as int) == pv);
    if kept.len() < 2 {
        return None;
    }
    let k = slice_chars(&kept[0], 0, kept[0].len());
    let v = slice_chars(&kept[1], 0, kept[1].len());
    Some((k, v))
}

impl InputTable {
    /// Parses a custom table: each non-blank line with two non-empty tab-separated columns
    /// is a rule; `{token}`s stand for separators, wildcards, braces and shifted keys.
    pub fn from_custom_tsv(content: &str) -> (t: Self)
        ensures
            t@ == table_from(custom_rules(content@)),
    {
        let lines = lines_of(content);
        let ghost ls = lines@.map_values(|v: Vec<char>| v@);
        let mut entries: Vec<(Vec<KeyElement>, Vec<ValueElement>)> = Vec::new();
        let mut i: usize = 0;
        while i < lines.len()
            invariant
                i <= lines@.len(),
                ls == lines@.map_values(|v: Vec<char>| v@),
                ls == lines_spec(content@),
                entries_view(entries@) == ls.take(i as int).filter_map(|l: Seq<char>| custom_rule(l)),
            decreases lines@.len() - i,
        {
            let line = &lines[i];
            proof {
                ls.lemma_filter_map_take_succ(|l: Seq<char>| custom_rule(l), i as int);
                assert(ls[i as int] == line@);
            }
            if !is_blank(line.as_slice()) {
                match two_columns(line) {
                    Some((k, v)) => {
                        let ghost before = entries_view(entries@);
                        entries.push((parse_key(&k), parse_value(&v)));
                        assert(entries_view(entries@) == before.push(custom_rule(line@)->0));
                    },
                    None => {},
                }
            }
            i = i + 1;
        }
        assert(ls.take(i as int) == ls);
        InputTable::new(entries)
    }
}


/// A grapheme as the format writes it: braces become their tokens.
pub open spec fn encode_char_spec(v: Seq<char>) -> Seq<char> {
    if v == "{"@ {
        "{lbracket}"@
    } else if v == "}"@ {
        "{rbracket}"@
    } else {
        v
    }
}

/// How a key element is written; `None` for a key the format cannot express.
pub open spec fn encode_key_spec(k: KeyV) -> Option<Seq<char>> {
    match k {
        KeyV::Piece(PieceV::Character(v)) => Some(encode_char_spec(v)),
        KeyV::Piece(PieceV::Separator) => Some("{composition-separator}"@),
        KeyV::Piece(PieceV::Key { intention, input, shifted }) => if shifted && intention == Some(
            "0"@,
        ) && input == "0"@ {
            Some("{shift 0}"@)
        } else if shifted && intention == Some("_"@) && input == "_"@ {
            Some("{shift _}"@)
        } else {
            None
        },
        KeyV::Any => Some("{any character}"@),
    }
}

pub open spec fn encode_value_spec(v: ValueV) -> Seq<char> {
    match v {
        ValueV::Character(c) => encode_char_spec(c),
        ValueV::Any => "{any character}"@,
    }
}

/// A key written out, or its first element that cannot be written.
pub open spec fn encode_key_seq(key: Seq<KeyV>) -> Result<Seq<char>, KeyV>
    decreases key.len(),
{
    if key.len() == 0 {
        Ok(Seq::empty())
    } else {
        match encode_key_seq(key.drop_last()) {
            Err(e) => Err(e),
            Ok(prefix) => match encode_key_spec(key.last()) {
                Some(t) => Ok(prefix + t),
                None => Err(key.last()),
            },
        }
    }
}

pub open spec fn encode_value_seq(value: Seq<ValueV>) -> Seq<char> {
    value.map_values(|v: ValueV| encode_value_spec(v)).flatten()
}

/// The lines of a table written out, or the first key element that cannot be written.
pub open spec fn export_lines(table: Seq<MappingV>) -> Result<Seq<Seq<char>>, KeyV>
    decreases table.len(),
{
    if table.len() == 0 {
        Ok(Seq::empty())
    } else {
        match export_lines(table.drop_last()) {
            Err(e) => Err(e),
            Ok(lines) => match encode_key_seq(table.last().key) {
                Err(e) => Err(e),
                Ok(k) => Ok(lines.push(k + seq!['\t'] + encode_value_seq(table.last().value))),
            },
        }
    }
}

/// Lines joined with `\n` between them.
pub open spec fn join_lines(lines: Seq<Seq<char>>) -> Seq<char>
    decreases lines.len(),
{
    if lines.len() == 0 {
        Seq::empty()
    } else if lines.len() == 1 {
        lines[0]
    } else {
        join_lines(lines.drop_last()) + seq!['\n'] + lines.last()
    }
}

/// A key element that the custom table format cannot express.
#[derive(Clone, Debug, Eq, PartialEq)]
pub struct InputTableExportError {
    element: KeyElement,
}

impl View for InputTableExportError {
    type V = KeyV;

    closed spec fn view(&self) -> KeyV {
        self.element@
    }
}

fn push_str(out: &mut String, s: &str)
    ensures
        final(out)@ == old(out)@ + s@,
{
    out.append(s);
}

fn encode_character(value: &String) -> (s: String)
    ensures
        s@ == encode_char_spec(value@),
{
    let chars = chars_of(value.as_str());
    if spells(&chars, "{") {
        "{lbracket}".to_owned()
    } else if spells(&chars, "}") {
        "{rbracket}".to_owned()
    } else {
        value.clone()
    }
}

fn encode_key(element: &KeyElement) -> (r: Option<String>)
    ensures
        match r {
            Some(s) => encode_key_spec(element@) == Some(s@),
            None => encode_key_spec(element@) is None,
        },
{
    match element {
        KeyElement::Piece(InputPiece::Character(value)) => Some(encode_character(value)),
        KeyElement::Piece(InputPiece::CompositionSeparator) => Some(
            "{composition-separator}".to_owned(),
        ),
        KeyElement::Piece(InputPiece::Key { intention, input, modifiers }) => {
            let shifted = !modifiers.is_empty();
            let input_chars = chars_of(input.as_str());
            let (zero, underscore) = match intention {
                Some(i) => {
                    let ic = chars_of(i.as_str());
                    (spells(&ic, "0"), spells(&ic, "_"))
                },
                None => (false, false),
            };
            if shifted && zero && spells(&input_chars, "0") {
                Some("{shift 0}".to_owned())
            } else if shifted && underscore && spells(&input_chars, "_") {
                Some("{shift _}".to_owned())
            } else {
                None
            }
        },
        KeyElement::Any => Some("{any character}".to_owned()),
    }
}

fn encode_value(element: &ValueElement) -> (s: String)
    ensures
        s@ == encode_value_spec(element@),
{
    match element {
        ValueElement::Character(value) => encode_character(value),
        ValueElement::Any => "{any character}".to_owned(),
    }
}

fn encode_key_all(key: &Vec<KeyElement>) -> (r: Result<String, InputTableExportError>)
    ensures
        match r {
            Ok(s) => encode_key_seq(key_view(key@)) == Ok::<Seq<char>, KeyV>(s@),
            Err(e) => encode_key_seq(key_view(key@)) == Err::<Seq<char>, KeyV>(e@),
        },
{
    let ghost kv = key_view(key@);
    let mut out = String::new();
    let mut i: usize = 0;
    while i < key.len()
        invariant
            i <= key@.len(),
            kv == key_view(key@),
            encode_key_seq(kv.take(i as int)) == Ok::<Seq<char>, KeyV>(out@),
        decreases key@.len() - i,
    {
        assert(kv.take(i + 1).drop_last() == kv.take(i as int));
        assert(kv.take(i + 1).last() == key@[i as int]@);
        match encode_key(&key[i]) {
            Some(t) => {
                push_str(&mut out, t.as_str());
            },
            None => {
                proof {
                    lemma_encode_key_error_prefix(kv, i as int + 1);
                }
                return Err(InputTableExportError { element: key[i].duplicate() });
            },
        }
        i = i + 1;
    }
    assert(kv.take(i as int) == kv);
    Ok(out)
}

/// An error in a prefix of a key is the error of the whole key.
proof fn lemma_encode_key_error_prefix(key: Seq<KeyV>, n: int)
    requires
        0 <= n <= key.len(),
        encode_key_seq(key.take(n)) is Err,
    ensures
        encode_key_seq(key) == encode_key_seq(key.take(n)),
    decreases key.len() - n,
{
    if n < key.len() {
        assert(key.take(n + 1).drop_last() == key.take(n));
        lemma_encode_key_error_prefix(key, n + 1);
    } else {
        assert(key.take(n) == key);
    }
}

/// An error in a prefix of a table is the error of the whole table.
proof fn lemma_export_error_prefix(table: Seq<MappingV>, n: int)
    requires
        0 <= n <= table.len(),
        export_lines(table.take(n)) is Err,
    ensures
        export_lines(table) == export_lines(table.take(n)),
    decreases table.len() - n,
{
    if n < table.len() {
        assert(table.take(n + 1).drop_last() == table.take(n));
        lemma_export_error_prefix(table, n + 1);
    } else {
        assert(table.take(n) == table);
    }
}

impl InputTable {
    /// Writes the table in the custom table format, one rule per line; fails on the first
    /// key element (in rule order) that the format cannot express.
    pub fn to_custom_tsv(&self) -> (r: Result<String, InputTableExportError>)
        ensures
            match r {
                Ok(s) => match export_lines(self@) {
                    Ok(lines) => s@ == join_lines(lines),
                    Err(_) => false,
                },
                Err(e) => export_lines(self@) == Err::<Seq<Seq<char>>, KeyV>(e@),
            },
    {
        let entries = self.entries();
        let ghost ev = entries_view(entries@);
        let mut out = String::new();
        let mut i: usize = 0;
        while i < entries.len()
            invariant
                i <= entries@.len(),
                ev == entries_view(entries@),
                ev == self@,
                match export_lines(ev.take(i as int)) {
                    Ok(lines) => out@ == join_lines(lines) && lines.len() == i,
                    Err(_) => false,
                },
            decreases entries@.len() - i,
        {
            let ghost prev = export_lines(ev.take(i as int))->Ok_0;
            assert(ev.take(i + 1).drop_last() == ev.take(i as int));
            assert(ev.take(i + 1).last() == ev[i as int]);
            let key = encode_key_all(&entries[i].0);
            match key {
                Ok(k) => {
                    let mut line = k;
                    push_str(&mut line, "\t");
                    let ghost vv = value_view(entries@[i as int].1@);
                    let ghost enc = vv.map_values(|v: ValueV| encode_value_spec(v));
                    let mut j: usize = 0;
                    while j < entries[i].1.len()
                        invariant
                            j <= entries@[i as int].1@.len(),
                            i < entries@.len(),
                            vv == value_view(entries@[i as int].1@),
                            enc == vv.map_values(|v: ValueV| encode_value_spec(v)),
                            line@ == k@ + "\t"@ + enc.take(j as int).flatten(),
                        decreases entries@[i as int].1@.len() - j,
                    {
                        let piece = encode_value(&entries[i].1[j]);
                        let ghost before = line@;
                        push_str(&mut line, piece.as_str());
                        proof {
                            assert(enc.take(j + 1) == enc.take(j as int).push(enc[j as int]));
                            enc.take(j as int).lemma_flatten_push(enc[j as int]);
                        }
                        j = j + 1;
                    }
                    proof {
                        assert(enc.take(j as int) == enc);
                        reveal_strlit("\t");
                        assert("\t"@ == seq!['\t']);
                        assert(ev[i as int].value == vv);
                    }
                    if i > 0 {
                        push_str(&mut out, "\n");
                        proof {
                            reveal_strlit("\n");
                        }
                    }
                    push_str(&mut out, line.as_str());
                    proof {
                        let lines = prev.push(line@);
                        assert(lines.drop_last() == prev);
                        if i == 0 {
                            assert(prev.len() == 0);
                            assert(out@ == line@);
                        }
                    }
                },
                Err(e) => {
                    proof {
                        lemma_export_error_prefix(ev, i + 1);
                    }
                    return Err(e);
                },
            }
            i = i + 1;
        }
        assert(ev.take(i as int) == ev);
        Ok(out)
    }
}


/// Which column of a line a token was found in.
#[derive(Clone, Copy, Debug, Eq, Hash, PartialEq)]
pub enum FormatSide {
    Key,
    Value,
}

/// What is wrong with a line of a custom table.
#[derive(Clone, Debug, Eq, Hash, PartialEq)]
pub enum FormatErrorKind {
    InvalidTabCount { found: usize },
    UnknownBraceToken { token: String, side: FormatSide },
    UnclosedBrace,
    ShiftTokenNotAtTail { token: String },
    DuplicateRule { first_defined_at: usize },
}

pub enum KindV {
    InvalidTabCount { found: int },
    UnknownBraceToken { token: Seq<char>, side: FormatSide },
    UnclosedBrace,
    ShiftTokenNotAtTail { token: Seq<char> },
    DuplicateRule { first_defined_at: int },
}

impl View for FormatErrorKind {
    type V = KindV;

    open spec fn view(&self) -> KindV {
        match self {
            FormatErrorKind::InvalidTabCount { found } => KindV::InvalidTabCount { found: *found as int },
            FormatErrorKind::UnknownBraceToken { token, side } => KindV::UnknownBraceToken {
                token: token@,
                side: *side,
            },
            FormatErrorKind::UnclosedBrace => KindV::UnclosedBrace,
            FormatErrorKind::ShiftTokenNotAtTail { token } => KindV::ShiftTokenNotAtTail {
                token: token@,
            },
            FormatErrorKind::DuplicateRule { first_defined_at } => KindV::DuplicateRule {
                first_defined_at: *first_defined_at as int,
            },
        }
    }
}

/// An error and its zero-based line.
#[derive(Clone, Debug, Eq, Hash, PartialEq)]
pub struct FormatError {
    pub line: usize,
    pub kind: FormatErrorKind,
}

pub struct ErrorV {
    pub line: int,
    pub kind: KindV,
}

impl View for FormatError {
    type V = ErrorV;

    open spec fn view(&self) -> ErrorV {
        ErrorV { line: self.line as int, kind: self.kind@ }
    }
}

/// The outcome of checking a custom table text.
#[derive(Clone, Debug, Eq, PartialEq)]
pub enum FormatReport {
    FullyValid,
    InvalidLines(Vec<FormatError>),
}

pub open spec fn errors_view(es: Seq<FormatError>) -> Seq<ErrorV> {
    es.map_values(|e: FormatError| e@)
}

/// Tokens the key column knows.
pub open spec fn known_key_token(tok: Seq<char>) -> bool {
    key_token(tok) is Some
}

/// Tokens the value column knows.
pub open spec fn known_value_token(tok: Seq<char>) -> bool {
    value_token(tok) is Some
}

pub open spec fn known_token(side: FormatSide, tok: Seq<char>) -> bool {
    match side {
        FormatSide::Key => known_key_token(tok),
        FormatSide::Value => known_value_token(tok),
    }
}

/// The brace errors of a column and the first shift token (in a key) that is not at its end.
pub open spec fn scan_spec(s: Seq<char>, side: FormatSide) -> (Seq<KindV>, Option<Seq<char>>)
    decreases s.len(),
{
    match find_spec(s, '{') {
        None => (Seq::empty(), None),
        Some(open) => if 0 <= open < s.len() {
            let rest = s.skip(open + 1);
            match find_spec(rest, '}') {
                None => (seq![KindV::UnclosedBrace], None),
                Some(close) => if 0 <= close < rest.len() {
                    let token = rest.take(close);
                    let nested = find_spec(token, '{') is Some;
                    let here = if nested {
                        seq![KindV::UnclosedBrace]
                    } else if !known_token(side, token) {
                        seq![KindV::UnknownBraceToken { token, side }]
                    } else {
                        Seq::empty()
                    };
                    let shift_here = !nested && side == FormatSide::Key && (token == "shift 0"@
                        || token == "shift _"@) && close + 1 != rest.len();
                    let (later, later_shift) = scan_spec(rest.skip(close + 1), side);
                    (here + later, if shift_here {
                        Some(token)
                    } else {
                        later_shift
                    })
                } else {
                    (Seq::empty(), None)
                },
            }
        } else {
            (Seq::empty(), None)
        },
    }
}

pub open spec fn tab_count(line: Seq<char>) -> int {
    line.filter(|c: char| c == '\t').len() as int
}

pub open spec fn at_line(n: int, kinds: Seq<KindV>) -> Seq<ErrorV> {
    kinds.map_values(|k: KindV| ErrorV { line: n, kind: k })
}

/// The first line that defined a key.
pub open spec fn seen_position(seen: Seq<(Seq<KeyV>, int)>, key: Seq<KeyV>) -> Option<int>
    decreases seen.len(),
{
    if seen.len() == 0 {
        None
    } else {
        match seen_position(seen.drop_last(), key) {
            Some(i) => Some(i),
            None => if seen.last().0 == key {
                Some(seen.last().1)
            } else {
                None
            },
        }
    }
}

/// The errors of line `n` and the keys defined so far after it.
pub open spec fn line_check(n: int, line: Seq<char>, seen: Seq<(Seq<KeyV>, int)>) -> (
    Seq<ErrorV>,
    Seq<(Seq<KeyV>, int)>,
) {
    if blank(line) {
        (Seq::empty(), seen)
    } else {
        let tabs = tab_count(line);
        let tab_errors = if tabs != 1 {
            seq![ErrorV { line: n, kind: KindV::InvalidTabCount { found: tabs } }]
        } else {
            Seq::empty()
        };
        match split_once_spec(line, '\t') {
            None => (tab_errors, seen),
            Some((key, value)) => {
                let (key_errors, shift) = scan_spec(key, FormatSide::Key);
                let (value_errors, _) = scan_spec(value, FormatSide::Value);
                let shift_errors = match shift {
                    Some(t) => seq![ErrorV { line: n, kind: KindV::ShiftTokenNotAtTail { token: t } }],
                    None => Seq::empty(),
                };
                let errors = tab_errors + at_line(n, key_errors) + at_line(n, value_errors)
                    + shift_errors;
                let parsed = parse_key_spec(key);
                match seen_position(seen, parsed) {
                    Some(first) => (
                        errors.push(
                            ErrorV { line: n, kind: KindV::DuplicateRule { first_defined_at: first } },
                        ),
                        seen,
                    ),
                    None => (errors, seen.push((parsed, n))),
                }
            },
        }
    }
}

/// The errors of the lines, in line order.
pub open spec fn check_lines(lines: Seq<Seq<char>>) -> (Seq<ErrorV>, Seq<(Seq<KeyV>, int)>)
    decreases lines.len(),
{
    if lines.len() == 0 {
        (Seq::empty(), Seq::empty())
    } else {
        let (errors, seen) = check_lines(lines.drop_last());
        let (more, seen2) = line_check(lines.len() - 1, lines.last(), seen);
        (errors + more, seen2)
    }
}

/// The errors of a custom table text split at every `\n`.
pub open spec fn check_spec(content: Seq<char>) -> Seq<ErrorV> {
    check_lines(split_spec(content, '\n')).0
}

fn count_tabs(line: &[char]) -> (n: usize)
    ensures
        n == tab_count(line@),
{
    let mut n: usize = 0;
    let mut i: usize = 0;
    while i < line.len()
        invariant
            i <= line@.len(),
            n == line@.take(i as int).filter(|c: char| c == '\t').len(),
            n <= i,
        decreases line@.len() - i,
    {
        proof {
            reveal(Seq::filter);
            assert(line@.take(i + 1).drop_last() == line@.take(i as int));
        }
        if line[i] == '\t' {
            n = n + 1;
        }
        i = i + 1;
    }
    assert(line@.take(i as int) == line@);
    n
}

fn scan_tokens(s: &Vec<char>, side: FormatSide, line: usize, errors: &mut Vec<FormatError>) -> (shift:
    Option<String>)
    ensures
        errors_view(final(errors)@) == errors_view(old(errors)@) + at_line(
            line as int,
            scan_spec(s@, side).0,
        ),
        opt_seq(shift) == scan_spec(s@, side).1,
    decreases s@.len(),
{
    proof {
        lemma_find(s@, '{');
    }
    let ghost before = errors_view(errors@);
    match find_char(s.as_slice(), '{') {
        None => {
            assert(at_line(line as int, Seq::<KindV>::empty()) == Seq::<ErrorV>::empty());
            assert(before + Seq::<ErrorV>::empty() == before);
            None
        },
        Some(open) => {
            let len = s.len();
            assert(open < len);
            let rest = slice_chars(s.as_slice(), open + 1, s.len());
            assert(rest@ == s@.skip(open + 1));
            proof {
                lemma_find(rest@, '}');
            }
            match find_char(rest.as_slice(), '}') {
                None => {
                    errors.push(FormatError { line, kind: FormatErrorKind::UnclosedBrace });
                    assert(at_line(line as int, seq![KindV::UnclosedBrace]) == seq![
                        ErrorV { line: line as int, kind: KindV::UnclosedBrace },
                    ]);
                    None
                },
                Some(close) => {
                    let token = slice_chars(rest.as_slice(), 0, close);
                    assert(token@ == rest@.take(close as int));
                    let nested = find_char(token.as_slice(), '{').is_some();
                    let ghost here: Seq<KindV>;
                    if nested {
                        errors.push(FormatError { line, kind: FormatErrorKind::UnclosedBrace });
                        proof {
                            here = seq![KindV::UnclosedBrace];
                        }
                    } else {
                        let known = match side {
                            FormatSide::Key => key_token_exec(token.as_slice()).is_some(),
                            FormatSide::Value => value_token_exec(token.as_slice()).is_some(),
                        };
                        if !known {
                            errors.push(
                                FormatError {
                                    line,
                                    kind: FormatErrorKind::UnknownBraceToken {
                                        token: string_from_chars(token.as_slice()),
                                        side,
                                    },
                                },
                            );
                            proof {
                                here = seq![KindV::UnknownBraceToken { token: token@, side }];
                            }
                        } else {
                            proof {
                                here = Seq::empty();
                            }
                        }
                    }
                    assert(errors_view(errors@) == before + at_line(line as int, here));
                    let is_key = match side {
                        FormatSide::Key => true,
                        FormatSide::Value => false,
                    };
                    let shift_here = !nested && is_key && (spells(token.as_slice(), "shift 0")
                        || spells(token.as_slice(), "shift _")) && close + 1 != rest.len();
                    let tail = slice_chars(rest.as_slice(), close + 1, rest.len());
                    assert(tail@ == rest@.skip(close + 1));
                    let ghost mid = errors_view(errors@);
                    let later = scan_tokens(&tail, side, line, errors);
                    proof {
                        let later_kinds = scan_spec(tail@, side).0;
                        assert(at_line(line as int, here + later_kinds) == at_line(line as int, here)
                            + at_line(line as int, later_kinds));
                    }
                    if shift_here {
                        Some(string_from_chars(token.as_slice()))
                    } else {
                        later
                    }
                },
            }
        },
    }
}

pub open spec fn opt_seq(o: Option<String>) -> Option<Seq<char>> {
    match o {
        Some(s) => Some(s@),
        None => None,
    }
}

/// The first line that defined `key`, from the keys seen so far.
fn find_seen(seen: &Vec<(Vec<KeyElement>, usize)>, key: &Vec<KeyElement>) -> (r: Option<usize>)
    ensures
        match r {
            Some(line) => seen_position(seen_view(seen@), key_view(key@)) == Some(line as int),
            None => seen_position(seen_view(seen@), key_view(key@)) is None,
        },
{
    let ghost sv = seen_view(seen@);
    let mut i: usize = 0;
    while i < seen.len()
        invariant
            i <= seen@.len(),
            sv == seen_view(seen@),
            seen_position(sv.take(i as int), key_view(key@)) is None,
        decreases seen@.len() - i,
    {
        assert(sv.take(i + 1).drop_last() == sv.take(i as int));
        assert(sv.take(i + 1).last() == (key_view(seen@[i as int].0@), seen@[i as int].1 as int));
        if same_key(&seen[i].0, key) {
            proof {
                lemma_seen_prefix(sv, key_view(key@), i + 1);
            }
            return Some(seen[i].1);
        }
        i = i + 1;
    }
    assert(sv.take(i as int) == sv);
    None
}

pub open spec fn seen_view(seen: Seq<(Vec<KeyElement>, usize)>) -> Seq<(Seq<KeyV>, int)> {
    seen.map_values(|e: (Vec<KeyElement>, usize)| (key_view(e.0@), e.1 as int))
}

proof fn lemma_seen_prefix(seen: Seq<(Seq<KeyV>, int)>, key: Seq<KeyV>, n: int)
    requires
        0 <= n <= seen.len(),
        seen_position(seen.take(n), key) is Some,
    ensures
        seen_position(seen, key) == seen_position(seen.take(n), key),
    decreases seen.len() - n,
{
    if n < seen.len() {
        assert(seen.take(n + 1).drop_last() == seen.take(n));
        lemma_seen_prefix(seen, key, n + 1);
    } else {
        assert(seen.take(n) == seen);
    }
}


/// Checks line `n`, adding its errors and, when it defines a new key, the key.
fn check_line(
    n: usize,
    line: &Vec<char>,
    errors: &mut Vec<FormatError>,
    seen: &mut Vec<(Vec<KeyElement>, usize)>,
)
    ensures
        ({
            let (more, s2) = line_check(n as int, line@, seen_view(old(seen)@));
            errors_view(final(errors)@) == errors_view(old(errors)@) + more && seen_view(
                final(seen)@,
            ) == s2
        }),
{
    let ghost e0 = errors_view(errors@);
    let ghost s0 = seen_view(seen@);
    if is_blank(line.as_slice()) {
        assert(errors_view(errors@) =~= e0 + Seq::<ErrorV>::empty());
        return;
    }
    let tabs = count_tabs(line.as_slice());
    if tabs != 1 {
        errors.push(FormatError { line: n, kind: FormatErrorKind::InvalidTabCount { found: tabs } });
    }
    let ghost e1 = errors_view(errors@);
    let ghost tab_errors = if tabs != 1 {
        seq![ErrorV { line: n as int, kind: KindV::InvalidTabCount { found: tabs as int } }]
    } else {
        Seq::<ErrorV>::empty()
    };
    assert(e1 =~= e0 + tab_errors);
    proof {
        lemma_find(line@, '\t');
    }
    let t = match find_char(line.as_slice(), '\t') {
        None => {
            return;
        },
        Some(t) => t,
    };
    let len = line.len();
    assert(t < len);
    let key = slice_chars(line.as_slice(), 0, t);
    let value = slice_chars(line.as_slice(), t + 1, line.len());
    assert(key@ == line@.take(t as int));
    assert(value@ == line@.skip(t + 1));
    let shift = scan_tokens(&key, FormatSide::Key, n, errors);
    scan_tokens(&value, FormatSide::Value, n, errors);
    let ghost e3 = errors_view(errors@);
    let ghost key_errors = at_line(n as int, scan_spec(key@, FormatSide::Key).0);
    let ghost value_errors = at_line(n as int, scan_spec(value@, FormatSide::Value).0);
    assert(e3 =~= e0 + (tab_errors + key_errors + value_errors));
    let ghost shift_errors = match scan_spec(key@, FormatSide::Key).1 {
        Some(tok) => seq![ErrorV { line: n as int, kind: KindV::ShiftTokenNotAtTail { token: tok } }],
        None => Seq::<ErrorV>::empty(),
    };
    match shift {
        Some(token) => {
            let ghost before = errors_view(errors@);
            let ghost tv = token@;
            let e = FormatError { line: n, kind: FormatErrorKind::ShiftTokenNotAtTail { token } };
            assert(e@ == ErrorV { line: n as int, kind: KindV::ShiftTokenNotAtTail { token: tv } });
            errors.push(e);
            assert(errors_view(errors@) =~= before.push(e@));
            assert(shift_errors == seq![e@]);
        },
        None => {
            assert(shift_errors == Seq::<ErrorV>::empty());
        },
    }
    let ghost errs = tab_errors + key_errors + value_errors + shift_errors;
    assert(errors_view(errors@) =~= e0 + errs);
    let parsed = parse_key(&key);
    match find_seen(seen, &parsed) {
        Some(first) => {
            let ghost before = errors_view(errors@);
            let dup = FormatError { line: n, kind: FormatErrorKind::DuplicateRule { first_defined_at: first } };
            assert(dup@ == ErrorV { line: n as int, kind: KindV::DuplicateRule { first_defined_at: first as int } });
            errors.push(dup);
            assert(errors_view(errors@) =~= before.push(dup@));
            assert(errors_view(errors@) =~= e0 + errs.push(
                ErrorV { line: n as int, kind: KindV::DuplicateRule { first_defined_at: first as int } },
            ));
        },
        None => {
            seen.push((parsed, n));
            assert(seen_view(seen@) == s0.push((key_view(parsed@), n as int)));
        },
    }
}

impl InputTable {
    /// Checks a custom table text line by line (lines split at `\n`, numbered from zero):
    /// tab counts, brace tokens, shift tokens not at the end of a key, and keys defined
    /// twice.
    pub fn check_custom_tsv(content: &str) -> (r: FormatReport)
        ensures
            match r {
                FormatReport::FullyValid => check_spec(content@).len() == 0,
                FormatReport::InvalidLines(errors) => check_spec(content@).len() > 0
                    && errors_view(errors@) == check_spec(content@),
            },
    {
        let chars = chars_of(content);
        let lines = split_chars(chars.as_slice(), '\n');
        let ghost ls = lines@.map_values(|v: Vec<char>| v@);
        let mut errors: Vec<FormatError> = Vec::new();
        let mut seen: Vec<(Vec<KeyElement>, usize)> = Vec::new();
        let mut n: usize = 0;
        assert(ls.take(0) == Seq::<Seq<char>>::empty());
        while n < lines.len()
            invariant
                n <= lines@.len(),
                ls == lines@.map_values(|v: Vec<char>| v@),
                ls == split_spec(content@, '\n'),
                (errors_view(errors@), seen_view(seen@)) == check_lines(ls.take(n as int)),
            decreases lines@.len() - n,
        {
            let line = &lines[n];
            assert(ls.take(n + 1).drop_last() == ls.take(n as int));
            assert(ls.take(n + 1).last() == line@);
            check_line(n, line, &mut errors, &mut seen);
            n = n + 1;
        }
        assert(ls.take(n as int) == ls);
        if errors.len() == 0 {
            FormatReport::FullyValid
        } else {
            FormatReport::InvalidLines(errors)
        }
    }
}

} // verus!
