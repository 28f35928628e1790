//! The input-table side of typo correction with a language model: what typing a text
//! through a table shows, which typed suffix is still pending, and how typing one more
//! character splits into emitted and pending text.
use vstd::prelude::*;

use crate::input::composing::{InputStyle, InputTableRegistry, RegistryV, StyleV, resolve_spec};
use crate::input::table::{
    InputPiece, InputTable, KeyElement, KeyV, MappingV, PieceV, ValueElement, ValueV, apply_spec,
    entries_view, key_view, nexts_spec, value_view,
};
use crate::kana::{katakana_seq, to_katakana};
use crate::special::ends_with;
use crate::text::{chars_of, graphemes, spec_graphemes, views};
use crate::zenz::concat_range;

verus! {

/// The text shown after typing the clusters one by one, each as a character, into the table.
pub open spec fn typed_through(table: Seq<MappingV>, gs: Seq<Seq<char>>) -> Seq<char>
    decreases gs.len(),
{
    if gs.len() == 0 {
        Seq::empty()
    } else {
        apply_spec(
            table,
            spec_graphemes(typed_through(table, gs.drop_last())),
            PieceV::Character(gs.last()),
        ).0.flatten()
    }
}

/// What typing `input` through the table shows, in katakana.
pub open spec fn applied_text(table: Seq<MappingV>, input: Seq<char>) -> Seq<char> {
    katakana_seq(typed_through(table, spec_graphemes(input)))
}

/// What typing `input` through the table shows, in katakana.
pub fn apply_input_table(input: &str, table: &InputTable) -> (out: String)
    ensures
        out@ == applied_text(table@, input@),
{
    let gs = graphemes(input);
    let ghost gv = views(gs@);
    let mut current = String::new();
    let mut i: usize = 0;
    assert(gv.take(0) =~= Seq::<Seq<char>>::empty());
    while i < gs.len()
        invariant
            i <= gs@.len(),
            gv == views(gs@),
            gv == spec_graphemes(input@),
            current@ == typed_through(table@, gv.take(i as int)),
        decreases gs@.len() - i,
    {
        assert(gv.take(i + 1).drop_last() =~= gv.take(i as int));
        assert(gv.take(i + 1).last() == gs@[i as int]@);
        let piece = InputPiece::character(gs[i].clone());
        current = table.applied(current.as_str(), piece);
        i = i + 1;
    }
    assert(gv.take(i as int) =~= gv);
    to_katakana(current.as_str())
}

/// A rule key that types the clusters and then more.
pub open spec fn key_extends(key: Seq<KeyV>, gs: Seq<Seq<char>>) -> bool {
    key.len() > gs.len() && forall|j: int|
        0 <= j < gs.len() ==> #[trigger] key[j] == KeyV::Piece(PieceV::Character(gs[j]))
}

/// Whether the table can continue what is pending: some rule offers a next output for it,
/// or some rule's key types its clusters and then more.
pub open spec fn continues(table: Seq<MappingV>, pending: Seq<char>) -> bool {
    nexts_spec(table, pending).len() > 0 || exists|i: int|
        0 <= i < table.len() && key_extends(#[trigger] table[i].key, spec_graphemes(pending))
}

fn extends_exec(key: &Vec<KeyElement>, gs: &Vec<String>) -> (r: bool)
    ensures
        r == key_extends(key_view(key@), views(gs@)),
{
    if key.len() <= gs.len() {
        return false;
    }
    let mut j: usize = 0;
    while j < gs.len()
        invariant
            j <= gs@.len() < key@.len(),
            forall|m: int|
                0 <= m < j ==> #[trigger] key_view(key@)[m] == KeyV::Piece(
                    PieceV::Character(views(gs@)[m]),
                ),
        decreases gs@.len() - j,
    {
        assert(key_view(key@)[j as int] == key@[j as int]@);
        assert(views(gs@)[j as int] == gs@[j as int]@);
        let matches = match &key[j] {
            KeyElement::Piece(InputPiece::Character(v)) => *v == gs[j],
            _ => false,
        };
        if !matches {
            return false;
        }
        j = j + 1;
    }
    true
}

/// Whether the table can continue what is pending.
pub fn has_continuation(pending: &str, table: &InputTable) -> (r: bool)
    ensures
        r == continues(table@, pending@),
{
    let nexts = table.possible_nexts(pending);
    assert(views(nexts@).len() == nexts@.len());
    if nexts.len() > 0 {
        return true;
    }
    let gs = graphemes(pending);
    let es = table.entries();
    let ghost t = table@;
    let mut i: usize = 0;
    while i < es.len()
        invariant
            i <= es@.len(),
            entries_view(es@) == t,
            t == table@,
            nexts_spec(t, pending@).len() == 0,
            views(gs@) == spec_graphemes(pending@),
            forall|k: int| 0 <= k < i ==> !key_extends(#[trigger] t[k].key, spec_graphemes(pending@)),
        decreases es@.len() - i,
    {
        assert(t[i as int].key == key_view(es@[i as int].0@));
        if extends_exec(&es[i].0, &gs) {
            assert(key_extends(t[i as int].key, spec_graphemes(pending@)));
            return true;
        }
        i = i + 1;
    }
    false
}

/// The last `length` clusters of `gs`, as text.
pub open spec fn last_clusters(gs: Seq<Seq<char>>, length: int) -> Seq<char> {
    gs.skip(gs.len() - length).flatten()
}

/// The longest suffix of what was typed, of at most `length` clusters, that the table can
/// continue, that it shows as itself and that the converted text ends with.
pub open spec fn pending_upto(
    table: Seq<MappingV>,
    gs: Seq<Seq<char>>,
    converted: Seq<char>,
    length: int,
) -> Seq<char>
    decreases length,
{
    if length <= 0 || length > gs.len() {
        Seq::empty()
    } else {
        let suffix = last_clusters(gs, length);
        let display = applied_text(table, suffix);
        if continues(table, suffix) && display == suffix && ends_with(converted, display) {
            suffix
        } else {
            pending_upto(table, gs, converted, length - 1)
        }
    }
}

/// The part of what was typed that is still pending after converting it.
pub open spec fn pending_spec(table: Seq<MappingV>, raw: Seq<char>, converted: Seq<char>) -> Seq<
    char,
> {
    let gs = spec_graphemes(raw);
    pending_upto(table, gs, converted, gs.len() as int)
}

fn texts_equal(a: &Vec<char>, b: &Vec<char>) -> (r: bool)
    ensures
        r == (a@ == b@),
{
    if a.len() != b.len() {
        return false;
    }
    let mut i: usize = 0;
    while i < a.len()
        invariant
            i <= a@.len() == b@.len(),
            forall|j: int| 0 <= j < i ==> a@[j] == b@[j],
        decreases a@.len() - i,
    {
        if a[i] != b[i] {
            return false;
        }
        i = i + 1;
    }
    assert(a@ =~= b@);
    true
}

fn text_ends_with(s: &Vec<char>, suffix: &Vec<char>) -> (r: bool)
    ensures
        r == ends_with(s@, suffix@),
{
    if suffix.len() > s.len() {
        return false;
    }
    let tail = crate::text::slice_chars(s.as_slice(), s.len() - suffix.len(), s.len());
    assert(tail@ =~= s@.skip(s@.len() - suffix@.len()));
    texts_equal(&tail, suffix)
}

/// The part of what was typed that is still pending after converting it.
pub fn pending_suffix(raw: &str, converted: &str, table: &InputTable) -> (out: String)
    ensures
        out@ == pending_spec(table@, raw@, converted@),
{
    let gs = graphemes(raw);
    let ghost gv = views(gs@);
    let converted_chars = chars_of(converted);
    let mut length = gs.len();
    while length > 0
        invariant
            length <= gs@.len(),
            gv == views(gs@),
            gv == spec_graphemes(raw@),
            converted_chars@ == converted@,
            pending_upto(table@, gv, converted@, length as int) == pending_spec(
                table@,
                raw@,
                converted@,
            ),
        decreases length,
    {
        let suffix = concat_range(&gs, gs.len() - length, gs.len());
        assert(gv.subrange(gs@.len() - length, gs@.len() as int) =~= gv.skip(gv.len() - length));
        if has_continuation(suffix.as_str(), table) {
            let display = apply_input_table(suffix.as_str(), table);
            let display_chars = chars_of(display.as_str());
            if texts_equal(&display_chars, &chars_of(suffix.as_str())) && text_ends_with(
                &converted_chars,
                &display_chars,
            ) {
                return suffix;
            }
        }
        length = length - 1;
    }
    String::new()
}

/// What typing one more character emits and what stays pending: without a table the
/// character is emitted as it is; otherwise the pending text and the character are typed
/// through the table, and the clusters before the new pending suffix are emitted (nothing
/// when the suffix is longer than the result).
pub open spec fn emission_spec(
    pending: Seq<char>,
    new_character: Seq<char>,
    table: Option<Seq<MappingV>>,
) -> (Seq<char>, Seq<char>) {
    match table {
        None => (new_character, Seq::empty()),
        Some(t) => {
            let raw = pending + new_character;
            let converted = applied_text(t, raw);
            let next = pending_spec(t, raw, converted);
            if next.len() == 0 {
                (converted, Seq::empty())
            } else {
                let pending_count = spec_graphemes(next).len() as int;
                let gs = spec_graphemes(converted);
                if gs.len() < pending_count {
                    (Seq::empty(), next)
                } else {
                    (gs.take(gs.len() - pending_count).flatten(), next)
                }
            }
        },
    }
}

/// What typing one more character emits and what stays pending.
pub fn consume_with_emission(pending: &str, new_character: &str, table: Option<&InputTable>) -> (r: (
    String,
    String,
))
    ensures
        (r.0@, r.1@) == emission_spec(
            pending@,
            new_character@,
            match table {
                Some(t) => Some(t@),
                None => None,
            },
        ),
{
    let table = match table {
        None => {
            return (crate::text::string_from_chars(chars_of(new_character).as_slice()), String::new());
        },
        Some(t) => t,
    };
    let mut raw_chars = chars_of(pending);
    let extra = chars_of(new_character);
    let mut k: usize = 0;
    while k < extra.len()
        invariant
            k <= extra@.len(),
            raw_chars@ == pending@ + extra@.take(k as int),
        decreases extra@.len() - k,
    {
        raw_chars.push(extra[k]);
        assert(extra@.take(k + 1) =~= extra@.take(k as int).push(extra@[k as int]));
        k = k + 1;
    }
    assert(extra@.take(k as int) =~= extra@);
    let raw = crate::text::string_from_chars(raw_chars.as_slice());
    let converted = apply_input_table(raw.as_str(), table);
    let next_pending = pending_suffix(raw.as_str(), converted.as_str(), table);
    if next_pending.as_str().is_empty() {
        return (converted, String::new());
    }
    let pending_count = graphemes(next_pending.as_str()).len();
    let gs = graphemes(converted.as_str());
    let converted_count = gs.len();
    if converted_count < pending_count {
        return (String::new(), next_pending);
    }
    let emitted = concat_range(&gs, 0, converted_count - pending_count);
    assert(views(gs@).subrange(0, converted_count - pending_count) =~= views(gs@).take(
        converted_count - pending_count,
    ));
    (emitted, next_pending)
}

/// The keyboards whose neighbouring keys the correction considers.
#[derive(Clone, Copy, Debug, Eq, PartialEq)]
pub enum Topology {
    MacQwerty,
    IosQwerty,
    IosFlickTenkey,
}

/// How corrections are generated for an input style.
pub struct GenerationMode<'a> {
    pub table: Option<&'a InputTable>,
    pub topology: Topology,
    pub use_surface: bool,
    pub filter_with_lm: bool,
}

/// Roman input works on the typed keys with a QWERTY layout; a mapped table does too when
/// it offers next outputs for the empty text, and otherwise (as direct input) works on the
/// surface with the flick layout and filters with the model.
pub open spec fn generation_spec(style: StyleV, reg: RegistryV) -> (Option<Seq<MappingV>>, Topology, bool, bool) {
    match style {
        StyleV::RomanToKana => (resolve_spec(reg, style), Topology::MacQwerty, false, false),
        StyleV::Mapped(_) => {
            let table = resolve_spec(reg, style);
            let qwerty = match table {
                Some(t) => nexts_spec(t, Seq::empty()).len() > 0,
                None => false,
            };
            (table, if qwerty {
                Topology::IosQwerty
            } else {
                Topology::IosFlickTenkey
            }, !qwerty, !qwerty)
        },
        StyleV::Direct => (None, Topology::IosFlickTenkey, true, true),
    }
}

/// How corrections are generated for an input style.
pub fn generation_mode<'a>(input_style: &InputStyle, tables: &'a InputTableRegistry) -> (m: GenerationMode<'a>)
    ensures
        (match m.table {
            Some(t) => Some(t@),
            None => None,
        }, m.topology, m.use_surface, m.filter_with_lm) == generation_spec(input_style@, tables@),
{
    match input_style {
        InputStyle::RomanToKana => GenerationMode {
            table: tables.resolve(input_style),
            topology: Topology::MacQwerty,
            use_surface: false,
            filter_with_lm: false,
        },
        InputStyle::Mapped(_) => {
            let table = tables.resolve(input_style);
            let qwerty = match table {
                Some(t) => {
                    proof {
                        reveal_strlit("");
                    }
                    let ns = t.possible_nexts("");
                    assert(views(ns@).len() == ns@.len());
                    assert(""@ =~= Seq::<char>::empty());
                    ns.len() > 0
                },
                None => false,
            };
            GenerationMode {
                table,
                topology: if qwerty {
                    Topology::IosQwerty
                } else {
                    Topology::IosFlickTenkey
                },
                use_surface: !qwerty,
                filter_with_lm: !qwerty,
            }
        },
        InputStyle::Direct => GenerationMode {
            table: None,
            topology: Topology::IosFlickTenkey,
            use_surface: true,
            filter_with_lm: true,
        },
    }
}


/// Lexicographic order of texts by code point (the order of `String`).
pub open spec fn text_less(a: Seq<char>, b: Seq<char>) -> bool
    decreases a.len(),
{
    if a.len() == 0 {
        b.len() > 0
    } else if b.len() == 0 {
        false
    } else if a[0] != b[0] {
        a[0] < b[0]
    } else {
        text_less(a.skip(1), b.skip(1))
    }
}

pub proof fn lemma_text_less_total(a: Seq<char>, b: Seq<char>)
    ensures
        text_less(a, b) || a == b || text_less(b, a),
        !(text_less(a, b) && text_less(b, a)),
        !text_less(a, a),
    decreases a.len(),
{
    if a.len() > 0 && b.len() > 0 && a[0] == b[0] {
        lemma_text_less_total(a.skip(1), b.skip(1));
        if a.skip(1) == b.skip(1) {
            assert(a =~= seq![a[0]] + a.skip(1));
            assert(b =~= seq![b[0]] + b.skip(1));
        }
    }
    if a.len() > 0 {
        lemma_text_less_total(a.skip(1), a.skip(1));
    }
    if a.len() == 0 && b.len() == 0 {
        assert(a =~= b);
    }
}

pub proof fn lemma_text_less_transitive(a: Seq<char>, b: Seq<char>, c: Seq<char>)
    requires
        text_less(a, b),
        text_less(b, c),
    ensures
        text_less(a, c),
    decreases a.len(),
{
    if a.len() > 0 && b.len() > 0 && c.len() > 0 && a[0] == b[0] && b[0] == c[0] {
        lemma_text_less_transitive(a.skip(1), b.skip(1), c.skip(1));
    }
}

/// The position of the first `Any` in a key.
pub open spec fn first_any(key: Seq<KeyV>) -> Option<int>
    decreases key.len(),
{
    if key.len() == 0 {
        None
    } else {
        match first_any(key.drop_last()) {
            Some(i) => Some(i),
            None => if key.last() == KeyV::Any {
                Some(key.len() - 1)
            } else {
                None
            },
        }
    }
}

/// The characters of a value before its first `Any`.
pub open spec fn leading_text(value: Seq<ValueV>) -> Seq<char>
    decreases value.len(),
{
    if value.len() == 0 {
        Seq::empty()
    } else {
        match value[0] {
            ValueV::Character(c) => c + leading_text(value.skip(1)),
            ValueV::Any => Seq::empty(),
        }
    }
}

/// What a rule ending in `Any` shows after the pending clusters: its value's text before
/// the `Any`, when the key's other elements type exactly those clusters.
pub open spec fn any_display(m: MappingV, gs: Seq<Seq<char>>) -> Option<Seq<char>> {
    match first_any(m.key) {
        Some(i) => if i == m.key.len() - 1 && i == gs.len() && (forall|j: int|
            0 <= j < i ==> #[trigger] m.key[j] == KeyV::Piece(PieceV::Character(gs[j]))) && leading_text(
            m.value,
        ).len() > 0 {
            Some(katakana_seq(leading_text(m.value)))
        } else {
            None
        },
        None => None,
    }
}

pub open spec fn any_displays(table: Seq<MappingV>, gs: Seq<Seq<char>>) -> Seq<Seq<char>> {
    table.filter_map(|m: MappingV| any_display(m, gs))
}

/// The displays a pending text can continue to: the table's next outputs and the outputs
/// of its rules that end in `Any` after exactly the pending clusters.
pub open spec fn next_displays(table: Seq<MappingV>, pending: Seq<char>) -> Seq<Seq<char>> {
    nexts_spec(table, pending) + any_displays(table, spec_graphemes(pending))
}

/// Texts in strictly increasing order.
pub open spec fn strictly_sorted(v: Seq<Seq<char>>) -> bool {
    forall|i: int, j: int| 0 <= i < j < v.len() ==> text_less(#[trigger] v[i], #[trigger] v[j])
}

fn first_any_exec(key: &Vec<KeyElement>) -> (r: Option<usize>)
    ensures
        match r {
            Some(i) => first_any(key_view(key@)) == Some(i as int),
            None => first_any(key_view(key@)) is None,
        },
{
    let ghost kv = key_view(key@);
    let mut i: usize = 0;
    assert(kv.take(0) =~= Seq::<KeyV>::empty());
    while i < key.len()
        invariant
            i <= key@.len(),
            kv == key_view(key@),
            first_any(kv.take(i as int)) is None,
        decreases key@.len() - i,
    {
        assert(kv.take(i + 1).drop_last() =~= kv.take(i as int));
        assert(kv[i as int] == key@[i as int]@);
        if matches!(key[i], KeyElement::Any) {
            proof {
                lemma_first_any_extends(kv, i as int + 1);
            }
            return Some(i);
        }
        i = i + 1;
    }
    assert(kv.take(i as int) =~= kv);
    None
}

proof fn lemma_first_any_extends(key: Seq<KeyV>, k: int)
    requires
        0 <= k <= key.len(),
        first_any(key.take(k)) is Some,
    ensures
        first_any(key) == first_any(key.take(k)),
    decreases key.len() - k,
{
    if k < key.len() {
        assert(key.take(k + 1).drop_last() =~= key.take(k));
        lemma_first_any_extends(key, k + 1);
    } else {
        assert(key.take(k) =~= key);
    }
}

fn leading_text_exec(value: &Vec<ValueElement>) -> (out: Vec<char>)
    ensures
        out@ == leading_text(value_view(value@)),
{
    let ghost vv = value_view(value@);
    let mut out: Vec<char> = Vec::new();
    let mut i: usize = 0;
    assert(vv.skip(0) =~= vv);
    while i < value.len()
        invariant
            i <= value@.len(),
            vv == value_view(value@),
            leading_text(vv) == out@ + leading_text(vv.skip(i as int)),
        decreases value@.len() - i,
    {
        assert(vv[i as int] == value@[i as int]@);
        assert(vv.skip(i as int)[0] == vv[i as int]);
        assert(vv.skip(i as int).skip(1) =~= vv.skip(i + 1));
        match &value[i] {
            ValueElement::Character(c) => {
                let cc = chars_of(c.as_str());
                let ghost before = out@;
                let mut k: usize = 0;
                while k < cc.len()
                    invariant
                        k <= cc@.len(),
                        out@ == before + cc@.take(k as int),
                    decreases cc@.len() - k,
                {
                    out.push(cc[k]);
                    assert(cc@.take(k + 1) =~= cc@.take(k as int).push(cc@[k as int]));
                    k = k + 1;
                }
                assert(cc@.take(k as int) =~= cc@);
                assert(before + (cc@ + leading_text(vv.skip(i + 1))) =~= out@ + leading_text(vv.skip(i + 1)));
            },
            ValueElement::Any => {
                assert(leading_text(vv.skip(i as int)) =~= Seq::<char>::empty());
                assert(out@ + Seq::<char>::empty() =~= out@);
                return out;
            },
        }
        i = i + 1;
    }
    assert(vv.skip(i as int) =~= Seq::<ValueV>::empty());
    assert(out@ + Seq::<char>::empty() =~= out@);
    out
}

fn any_display_exec(key: &Vec<KeyElement>, value: &Vec<ValueElement>, gs: &Vec<String>) -> (r: Option<String>)
    ensures
        match r {
            Some(d) => any_display(MappingV { key: key_view(key@), value: value_view(value@) }, views(gs@))
                == Some(d@),
            None => any_display(MappingV { key: key_view(key@), value: value_view(value@) }, views(gs@)) is None,
        },
{
    let ghost m = MappingV { key: key_view(key@), value: value_view(value@) };
    let any_index = match first_any_exec(key) {
        None => {
            return None;
        },
        Some(i) => i,
    };
    if any_index != key.len() - 1 || any_index != gs.len() {
        return None;
    }
    let mut j: usize = 0;
    while j < any_index
        invariant
            j <= any_index == gs@.len(),
            any_index < key@.len(),
            forall|t: int|
                0 <= t < j ==> #[trigger] key_view(key@)[t] == KeyV::Piece(PieceV::Character(views(gs@)[t])),
        decreases any_index - j,
    {
        assert(key_view(key@)[j as int] == key@[j as int]@);
        assert(views(gs@)[j as int] == gs@[j as int]@);
        let same = match &key[j] {
            KeyElement::Piece(InputPiece::Character(v)) => *v == gs[j],
            _ => false,
        };
        if !same {
            return None;
        }
        j = j + 1;
    }
    let text = leading_text_exec(value);
    if text.len() == 0 {
        return None;
    }
    Some(to_katakana(crate::text::string_from_chars(text.as_slice()).as_str()))
}

fn compare_texts(a: &Vec<char>, b: &Vec<char>) -> (r: i8)
    ensures
        (r < 0) == text_less(a@, b@),
        (r == 0) == (a@ == b@),
        (r > 0) == text_less(b@, a@),
{
    proof {
        lemma_text_less_total(a@, b@);
    }
    let mut i: usize = 0;
    assert(a@.skip(0) =~= a@);
    assert(b@.skip(0) =~= b@);
    assert(a@.take(0) =~= b@.take(0));
    while i < a.len() && i < b.len()
        invariant
            i <= a@.len(),
            i <= b@.len(),
            a@.take(i as int) == b@.take(i as int),
            text_less(a@, b@) == text_less(a@.skip(i as int), b@.skip(i as int)),
            text_less(b@, a@) == text_less(b@.skip(i as int), a@.skip(i as int)),
        decreases a@.len() - i,
    {
        assert(a@.skip(i as int)[0] == a@[i as int]);
        assert(b@.skip(i as int)[0] == b@[i as int]);
        assert(a@.skip(i as int).skip(1) =~= a@.skip(i + 1));
        assert(b@.skip(i as int).skip(1) =~= b@.skip(i + 1));
        if a[i] != b[i] {
            if a[i] < b[i] {
                return -1;
            } else {
                return 1;
            }
        }
        assert(a@.take(i + 1) =~= a@.take(i as int).push(a@[i as int]));
        assert(b@.take(i + 1) =~= b@.take(i as int).push(b@[i as int]));
        i = i + 1;
    }
    if a.len() == b.len() {
        assert(a@ =~= a@.take(i as int));
        assert(b@ =~= b@.take(i as int));
        0
    } else if a.len() < b.len() {
        -1
    } else {
        1
    }
}

/// Inserts a text into a strictly sorted list unless it is already there.
fn insert_sorted(out: &mut Vec<String>, text: String)
    requires
        strictly_sorted(views(old(out)@)),
    ensures
        strictly_sorted(views(final(out)@)),
        views(final(out)@).to_set() == views(old(out)@).to_set().insert(text@),
{
    let tc = chars_of(text.as_str());
    let ghost ov = views(out@);
    let mut p: usize = 0;
    let mut placed = false;
    while !placed && p < out.len()
        invariant
            p <= out@.len(),
            ov == views(out@),
            ov == views(old(out)@),
            strictly_sorted(ov),
            tc@ == text@,
            forall|k: int| 0 <= k < p ==> text_less(#[trigger] ov[k], text@),
            placed ==> p < out@.len() && text_less(text@, ov[p as int]),
        decreases out@.len() - p + (if placed {
            0int
        } else {
            1int
        }),
    {
        let oc = chars_of(out[p].as_str());
        assert(ov[p as int] == out@[p as int]@);
        let c = compare_texts(&oc, &tc);
        if c == 0 {
            assert(ov.to_set().insert(text@) =~= ov.to_set()) by {
                assert(ov.contains(text@));
            }
            return;
        }
        if c > 0 {
            placed = true;
        } else {
            p = p + 1;
        }
    }
    proof {
        assert forall|k: int| p <= k < ov.len() implies text_less(text@, #[trigger] ov[k]) by {
            if k > p {
                lemma_text_less_transitive(text@, ov[p as int], ov[k]);
            }
        }
    }
    out.insert(p, text);
    let ghost nv = views(out@);
    assert(nv =~= ov.insert(p as int, text@));
    assert forall|i: int, j: int| 0 <= i < j < nv.len() implies text_less(#[trigger] nv[i], #[trigger] nv[j]) by {
        if j < p {
            assert(nv[i] == ov[i] && nv[j] == ov[j]);
        } else if j == p {
            assert(nv[i] == ov[i]);
        } else if i < p {
            assert(nv[i] == ov[i] && nv[j] == ov[j - 1]);
            lemma_text_less_transitive(ov[i], text@, ov[j - 1]);
        } else if i == p {
            assert(nv[j] == ov[j - 1]);
        } else {
            assert(nv[i] == ov[i - 1] && nv[j] == ov[j - 1]);
        }
    }
    assert(nv.to_set() =~= ov.to_set().insert(text@)) by {
        assert forall|x: Seq<char>| nv.to_set().contains(x) implies ov.to_set().insert(text@).contains(x) by {
            let i = choose|i: int| 0 <= i < nv.len() && nv[i] == x;
            if i < p {
                assert(ov[i] == x);
            } else if i > p {
                assert(ov[i - 1] == x);
            }
        }
        assert forall|x: Seq<char>| ov.to_set().insert(text@).contains(x) implies nv.to_set().contains(x) by {
            if x == text@ {
                assert(nv[p as int] == x);
            } else {
                let i = choose|i: int| 0 <= i < ov.len() && ov[i] == x;
                if i < p {
                    assert(nv[i] == x);
                } else {
                    assert(nv[i + 1] == x);
                }
            }
        }
    }
}

/// The displays a pending text can continue to, sorted and without repeats.
pub fn possible_next_displays(pending: &str, table: &InputTable) -> (out: Vec<String>)
    ensures
        strictly_sorted(views(out@)),
        views(out@).to_set() == next_displays(table@, pending@).to_set(),
{
    let displays = table.possible_nexts(pending);
    let gs = graphemes(pending);
    let es = table.entries();
    let ghost t = table@;
    let ghost gv = views(gs@);
    let mut all: Vec<String> = displays;
    let ghost base = views(all@);
    let mut i: usize = 0;
    assert(t.take(0) =~= Seq::<MappingV>::empty());
    assert(base + any_displays(t.take(0), gv) =~= base) by {
        reveal(Seq::filter_map);
    }
    while i < es.len()
        invariant
            i <= es@.len(),
            entries_view(es@) == t,
            t == table@,
            gv == views(gs@),
            gv == spec_graphemes(pending@),
            base == nexts_spec(t, pending@),
            views(all@) == base + any_displays(t.take(i as int), gv),
        decreases es@.len() - i,
    {
        proof {
            t.lemma_filter_map_take_succ(|m: MappingV| any_display(m, gv), i as int);
        }
        assert(t[i as int] == MappingV { key: key_view(es@[i as int].0@), value: value_view(es@[i as int].1@) });
        let ghost before = views(all@);
        match any_display_exec(&es[i].0, &es[i].1, &gs) {
            Some(d) => {
                all.push(d);
                assert(views(all@) =~= before.push(d@));
                assert(views(all@) =~= base + any_displays(t.take(i + 1), gv));
            },
            None => {
                assert(views(all@) =~= base + any_displays(t.take(i + 1), gv));
            },
        }
        i = i + 1;
    }
    assert(t.take(i as int) =~= t);
    let mut out: Vec<String> = Vec::new();
    let ghost av = views(all@);
    let mut k: usize = 0;
    assert(views(out@).to_set() =~= av.take(0).to_set());
    while k < all.len()
        invariant
            k <= all@.len(),
            av == views(all@),
            strictly_sorted(views(out@)),
            views(out@).to_set() == av.take(k as int).to_set(),
        decreases all@.len() - k,
    {
        assert(av[k as int] == all@[k as int]@);
        insert_sorted(&mut out, all[k].clone());
        assert(av.take(k + 1) =~= av.take(k as int).push(av[k as int]));
        proof {
            av.take(k as int).lemma_push_to_set_commute(av[k as int]);
        }
        k = k + 1;
    }
    assert(av.take(k as int) =~= av);
    out
}

} // verus!
