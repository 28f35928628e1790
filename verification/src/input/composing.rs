//! Composing text: the typed input history and its converted surface graphemes.
use std::collections::HashMap;

use vstd::prelude::*;

use crate::input::table::{
    InputPiece, InputTable, MappingV, PieceV, apply_spec, displayed, option_seq, opt_view,
};
use crate::text::{concat_strings, graphemes, spec_graphemes, views};

verus! {

broadcast use vstd::std_specs::hash::group_hash_axioms;

/// Which input table converts an element.
#[derive(Clone, Debug, Eq, Hash, PartialEq)]
pub enum InputTableId {
    Empty,
    DefaultRomanToKana,
    DefaultAzik,
    DefaultKanaJis,
    DefaultKanaUs,
    Named(String),
}

pub enum TableIdV {
    Empty,
    DefaultRomanToKana,
    DefaultAzik,
    DefaultKanaJis,
    DefaultKanaUs,
    Named(Seq<char>),
}

impl View for InputTableId {
    type V = TableIdV;

    open spec fn view(&self) -> TableIdV {
        match self {
            InputTableId::Empty => TableIdV::Empty,
            InputTableId::DefaultRomanToKana => TableIdV::DefaultRomanToKana,
            InputTableId::DefaultAzik => TableIdV::DefaultAzik,
            InputTableId::DefaultKanaJis => TableIdV::DefaultKanaJis,
            InputTableId::DefaultKanaUs => TableIdV::DefaultKanaUs,
            InputTableId::Named(n) => TableIdV::Named(n@),
        }
    }
}

/// How an element is converted: directly, by the romaji table, or by a named table.
#[derive(Clone, Debug, Eq, Hash, PartialEq)]
pub enum InputStyle {
    Direct,
    RomanToKana,
    Mapped(InputTableId),
}

pub enum StyleV {
    Direct,
    RomanToKana,
    Mapped(TableIdV),
}

impl View for InputStyle {
    type V = StyleV;

    open spec fn view(&self) -> StyleV {
        match self {
            InputStyle::Direct => StyleV::Direct,
            InputStyle::RomanToKana => StyleV::RomanToKana,
            InputStyle::Mapped(id) => StyleV::Mapped(id@),
        }
    }
}

/// The style of frozen text: converted by the empty table, so it never changes.
pub open spec fn frozen_style() -> StyleV {
    StyleV::Mapped(TableIdV::Empty)
}

impl InputStyle {
    pub fn frozen() -> (s: Self)
        ensures
            s@ == frozen_style(),
    {
        InputStyle::Mapped(InputTableId::Empty)
    }

    /// A copy with the same view.
    pub fn duplicate(&self) -> (s: Self)
        ensures
            s@ == self@,
    {
        match self {
            InputStyle::Direct => InputStyle::Direct,
            InputStyle::RomanToKana => InputStyle::RomanToKana,
            InputStyle::Mapped(id) => InputStyle::Mapped(
                match id {
                    InputTableId::Empty => InputTableId::Empty,
                    InputTableId::DefaultRomanToKana => InputTableId::DefaultRomanToKana,
                    InputTableId::DefaultAzik => InputTableId::DefaultAzik,
                    InputTableId::DefaultKanaJis => InputTableId::DefaultKanaJis,
                    InputTableId::DefaultKanaUs => InputTableId::DefaultKanaUs,
                    InputTableId::Named(n) => InputTableId::Named(n.clone()),
                },
            ),
        }
    }

    /// Whether two styles have the same view.
    pub fn same_as(&self, other: &Self) -> (r: bool)
        ensures
            r == (self@ == other@),
    {
        match (self, other) {
            (InputStyle::Direct, InputStyle::Direct) => true,
            (InputStyle::RomanToKana, InputStyle::RomanToKana) => true,
            (InputStyle::Mapped(a), InputStyle::Mapped(b)) => match (a, b) {
                (InputTableId::Empty, InputTableId::Empty) => true,
                (InputTableId::DefaultRomanToKana, InputTableId::DefaultRomanToKana) => true,
                (InputTableId::DefaultAzik, InputTableId::DefaultAzik) => true,
                (InputTableId::DefaultKanaJis, InputTableId::DefaultKanaJis) => true,
                (InputTableId::DefaultKanaUs, InputTableId::DefaultKanaUs) => true,
                (InputTableId::Named(x), InputTableId::Named(y)) => *x == *y,
                _ => false,
            },
            _ => false,
        }
    }
}

/// The built-in tables and the registered custom tables.
#[derive(Clone, Debug)]
pub struct InputTableRegistry {
    empty: InputTable,
    roman_to_kana: InputTable,
    azik: InputTable,
    kana_jis: InputTable,
    kana_us: InputTable,
    custom: Vec<(String, InputTable)>,
}

pub struct RegistryV {
    pub empty: Seq<MappingV>,
    pub roman: Seq<MappingV>,
    pub azik: Seq<MappingV>,
    pub jis: Seq<MappingV>,
    pub us: Seq<MappingV>,
    pub custom: Seq<(Seq<char>, Seq<MappingV>)>,
}

impl View for InputTableRegistry {
    type V = RegistryV;

    closed spec fn view(&self) -> RegistryV {
        RegistryV {
            empty: self.empty@,
            roman: self.roman_to_kana@,
            azik: self.azik@,
            jis: self.kana_jis@,
            us: self.kana_us@,
            custom: self.custom@.map_values(|e: (String, InputTable)| (e.0@, e.1@)),
        }
    }
}

/// The first registered table named `name`.
pub open spec fn custom_position(custom: Seq<(Seq<char>, Seq<MappingV>)>, name: Seq<char>) -> Option<
    int,
>
    decreases custom.len(),
{
    if custom.len() == 0 {
        None
    } else {
        match custom_position(custom.drop_last(), name) {
            Some(i) => Some(i),
            None => if custom.last().0 == name {
                Some(custom.len() - 1)
            } else {
                None
            },
        }
    }
}

pub proof fn lemma_custom_position(custom: Seq<(Seq<char>, Seq<MappingV>)>, name: Seq<char>)
    ensures
        match custom_position(custom, name) {
            Some(i) => 0 <= i < custom.len() && custom[i].0 == name && forall|j: int|
                0 <= j < i ==> (#[trigger] custom[j]).0 != name,
            None => forall|j: int| 0 <= j < custom.len() ==> (#[trigger] custom[j]).0 != name,
        },
    decreases custom.len(),
{
    if custom.len() > 0 {
        lemma_custom_position(custom.drop_last(), name);
        assert forall|j: int| 0 <= j < custom.len() - 1 implies custom.drop_last()[j] == custom[j] by {}
    }
}

/// The table that converts elements of a style; direct input has none, and an unknown
/// custom name resolves to the empty table.
pub open spec fn resolve_spec(reg: RegistryV, style: StyleV) -> Option<Seq<MappingV>> {
    match style {
        StyleV::Direct => None,
        StyleV::RomanToKana => Some(reg.roman),
        StyleV::Mapped(TableIdV::Empty) => Some(reg.empty),
        StyleV::Mapped(TableIdV::DefaultRomanToKana) => Some(reg.roman),
        StyleV::Mapped(TableIdV::DefaultAzik) => Some(reg.azik),
        StyleV::Mapped(TableIdV::DefaultKanaJis) => Some(reg.jis),
        StyleV::Mapped(TableIdV::DefaultKanaUs) => Some(reg.us),
        StyleV::Mapped(TableIdV::Named(name)) => match custom_position(reg.custom, name) {
            Some(i) => Some(reg.custom[i].1),
            None => Some(reg.empty),
        },
    }
}

/// Registers a custom table: an existing table with the same name is replaced in place.
pub open spec fn register_spec(
    custom: Seq<(Seq<char>, Seq<MappingV>)>,
    name: Seq<char>,
    table: Seq<MappingV>,
) -> Seq<(Seq<char>, Seq<MappingV>)> {
    match custom_position(custom, name) {
        Some(i) => custom.update(i, (name, table)),
        None => custom.push((name, table)),
    }
}

impl InputTableRegistry {
    /// The built-in tables and no custom table.
    pub fn new() -> (r: Self)
        ensures
            r@.empty == Seq::<MappingV>::empty(),
            r@.roman == InputTable::default_roman_to_kana_view(),
            r@.azik == InputTable::default_azik_view(),
            r@.jis == InputTable::default_kana_jis_view(),
            r@.us == InputTable::default_kana_us_view(),
            r@.custom == Seq::<(Seq<char>, Seq<MappingV>)>::empty(),
    {
        let r = InputTableRegistry {
            empty: InputTable::empty(),
            roman_to_kana: InputTable::default_roman_to_kana(),
            azik: InputTable::default_azik(),
            kana_jis: InputTable::default_kana_jis(),
            kana_us: InputTable::default_kana_us(),
            custom: Vec::new(),
        };
        assert(r@.custom == Seq::<(Seq<char>, Seq<MappingV>)>::empty());
        r
    }

    /// The position of the first custom table named `name`.
    fn find_custom(&self, name: &String) -> (r: Option<usize>)
        ensures
            match r {
                Some(i) => custom_position(self@.custom, name@) == Some(i as int) && i
                    < self.custom@.len(),
                None => custom_position(self@.custom, name@) is None,
            },
    {
        let ghost cv = self@.custom;
        proof {
            lemma_custom_position(cv, name@);
        }
        let mut i: usize = 0;
        while i < self.custom.len()
            invariant
                i <= self.custom@.len(),
                cv == self@.custom,
                cv.len() == self.custom@.len(),
                forall|j: int| 0 <= j < i ==> (#[trigger] cv[j]).0 != name@,
            decreases self.custom@.len() - i,
        {
            assert(cv[i as int] == (self.custom@[i as int].0@, self.custom@[i as int].1@));
            if self.custom[i].0 == *name {
                proof {
                    lemma_custom_position(cv, name@);
                }
                return Some(i);
            }
            i = i + 1;
        }
        None
    }

    /// Registers `table` under `name`, replacing a table registered under the same name.
    pub fn register(&mut self, name: String, table: InputTable)
        ensures
            final(self)@.custom == register_spec(old(self)@.custom, name@, table@),
            final(self)@.empty == old(self)@.empty,
            final(self)@.roman == old(self)@.roman,
            final(self)@.azik == old(self)@.azik,
            final(self)@.jis == old(self)@.jis,
            final(self)@.us == old(self)@.us,
    {
        let ghost cv = self@.custom;
        let ghost entry = (name@, table@);
        match self.find_custom(&name) {
            Some(i) => {
                self.custom.set(i, (name, table));
                assert(self@.custom == cv.update(i as int, entry));
            },
            None => {
                self.custom.push((name, table));
                assert(self@.custom == cv.push(entry));
            },
        }
    }

    /// Whether a custom table is registered under `name`.
    pub fn contains(&self, name: &str) -> (r: bool)
        ensures
            r == custom_position(self@.custom, name@) is Some,
    {
        let key = name.to_owned();
        self.find_custom(&key).is_some()
    }

    /// The table that converts elements of `style`.
    pub fn resolve(&self, style: &InputStyle) -> (r: Option<&InputTable>)
        ensures
            match r {
                Some(t) => resolve_spec(self@, style@) == Some(t@),
                None => resolve_spec(self@, style@) is None,
            },
    {
        match style {
            InputStyle::Direct => None,
            InputStyle::RomanToKana => Some(&self.roman_to_kana),
            InputStyle::Mapped(InputTableId::Empty) => Some(&self.empty),
            InputStyle::Mapped(InputTableId::DefaultRomanToKana) => Some(&self.roman_to_kana),
            InputStyle::Mapped(InputTableId::DefaultAzik) => Some(&self.azik),
            InputStyle::Mapped(InputTableId::DefaultKanaJis) => Some(&self.kana_jis),
            InputStyle::Mapped(InputTableId::DefaultKanaUs) => Some(&self.kana_us),
            InputStyle::Mapped(InputTableId::Named(name)) => match self.find_custom(name) {
                Some(i) => {
                    assert(self@.custom[i as int] == (self.custom@[i as int].0@, self.custom@[i as int].1@));
                    Some(&self.custom[i].1)
                },
                None => Some(&self.empty),
            },
        }
    }
}

/// One typed element and the style that converts it.
#[derive(Clone, Debug, Eq, Hash, PartialEq)]
pub struct InputElement {
    pub piece: InputPiece,
    pub input_style: InputStyle,
}

pub struct ElementV {
    pub piece: PieceV,
    pub style: StyleV,
}

impl View for InputElement {
    type V = ElementV;

    open spec fn view(&self) -> ElementV {
        ElementV { piece: self.piece@, style: self.input_style@ }
    }
}

pub open spec fn elements_view(es: Seq<InputElement>) -> Seq<ElementV> {
    es.map_values(|e: InputElement| e@)
}

impl InputElement {
    pub fn new(piece: InputPiece, input_style: InputStyle) -> (e: Self)
        ensures
            e@ == (ElementV { piece: piece@, style: input_style@ }),
    {
        InputElement { piece, input_style }
    }

    /// A character element.
    pub fn character(value: String, input_style: InputStyle) -> (e: Self)
        ensures
            e@ == (ElementV { piece: PieceV::Character(value@), style: input_style@ }),
    {
        Self::new(InputPiece::Character(value), input_style)
    }

    pub fn duplicate(&self) -> (e: Self)
        ensures
            e@ == self@,
    {
        InputElement { piece: self.piece.duplicate(), input_style: self.input_style.duplicate() }
    }

    /// Whether two elements have the same view.
    pub fn same_as(&self, other: &Self) -> (r: bool)
        ensures
            r == (self@ == other@),
    {
        self.piece.same_as(&other.piece) && self.input_style.same_as(&other.input_style)
    }
}

/// The graphemes after typing `piece` of style `style` into `surface`, and how many trailing
/// graphemes were rewritten.
pub open spec fn update_surface_spec(
    reg: RegistryV,
    surface: Seq<Seq<char>>,
    piece: PieceV,
    style: StyleV,
) -> (Seq<Seq<char>>, int) {
    match resolve_spec(reg, style) {
        Some(t) => apply_spec(t, surface, piece),
        None => (surface + option_seq(displayed(piece)), 0),
    }
}

/// A run of consecutive elements of one style, converted together.
pub struct SegmentV {
    pub graphemes: Seq<Seq<char>>,
    pub style: StyleV,
}

/// Adds an element to the segments: it continues the last segment when the styles agree,
/// a leading composition separator is dropped, otherwise it starts a new segment.
pub open spec fn update_segments_spec(reg: RegistryV, segs: Seq<SegmentV>, e: ElementV) -> (
    Seq<SegmentV>,
    int,
) {
    if segs.len() > 0 && segs.last().style == e.style {
        let (g, d) = update_surface_spec(reg, segs.last().graphemes, e.piece, e.style);
        (segs.update(segs.len() - 1, SegmentV { graphemes: g, style: e.style }), d)
    } else if segs.len() == 0 && e.piece is Separator {
        (segs, 0)
    } else {
        let (g, _) = update_surface_spec(reg, Seq::empty(), e.piece, e.style);
        (segs.push(SegmentV { graphemes: g, style: e.style }), 0)
    }
}

/// The segments of a sequence of elements.
pub open spec fn segments_of(reg: RegistryV, es: Seq<ElementV>) -> Seq<SegmentV>
    decreases es.len(),
{
    if es.len() == 0 {
        Seq::empty()
    } else {
        update_segments_spec(reg, segments_of(reg, es.drop_last()), es.last()).0
    }
}

pub open spec fn segment_graphemes(segs: Seq<SegmentV>) -> Seq<Seq<char>> {
    segs.map_values(|s: SegmentV| s.graphemes).flatten()
}

/// The surface graphemes of a sequence of elements.
pub open spec fn convert_spec(reg: RegistryV, es: Seq<ElementV>) -> Seq<Seq<char>> {
    segment_graphemes(segments_of(reg, es))
}

/// Graphemes the element at `j` rewrote in the surface of the elements before it.
pub open spec fn deleted_at(reg: RegistryV, es: Seq<ElementV>, j: int) -> int {
    update_segments_spec(reg, segments_of(reg, es.take(j)), es[j]).1
}

pub open spec fn min_usize(x: int) -> int {
    if x > usize::MAX {
        usize::MAX as int
    } else {
        x
    }
}

/// Number of surface graphemes of `es[..k]` (saturated at `usize::MAX`).
pub open spec fn surface_len(reg: RegistryV, es: Seq<ElementV>, k: int) -> int {
    min_usize(convert_spec(reg, es.take(k)).len() as int)
}

pub open spec fn saturating_sub(a: int, b: int) -> int {
    if a >= b {
        a - b
    } else {
        0
    }
}

/// Drops trailing boundaries whose surface index exceeds `t`.
pub open spec fn pop_above(s: Seq<(int, int)>, t: int) -> Seq<(int, int)>
    decreases s.len(),
{
    if s.len() > 0 && s.last().1 > t {
        pop_above(s.drop_last(), t)
    } else {
        s
    }
}

/// The `(input, surface)` boundaries of `es[..k]` that no later element of `es[..k]`
/// rewrites across: each element drops the boundaries above the surface length it keeps
/// and adds the boundary after itself.
pub open spec fn boundaries_upto(reg: RegistryV, es: Seq<ElementV>, k: int) -> Seq<(int, int)>
    decreases k,
{
    if k <= 0 {
        seq![(0, 0)]
    } else {
        let j = k - 1;
        let t = saturating_sub(surface_len(reg, es, j), deleted_at(reg, es, j));
        pop_above(boundaries_upto(reg, es, j), t).push((k, surface_len(reg, es, k)))
    }
}

struct SurfaceSegment {
    graphemes: Vec<String>,
    input_style: InputStyle,
}

impl View for SurfaceSegment {
    type V = SegmentV;

    closed spec fn view(&self) -> SegmentV {
        SegmentV { graphemes: views(self.graphemes@), style: self.input_style@ }
    }
}

spec fn segments_view(segs: Seq<SurfaceSegment>) -> Seq<SegmentV> {
    segs.map_values(|s: SurfaceSegment| s@)
}

/// Types a piece into a grapheme buffer with the table of `style`.
fn update_surface(
    surface: &mut Vec<String>,
    piece: &InputPiece,
    style: &InputStyle,
    tables: &InputTableRegistry,
) -> (deleted: usize)
    ensures
        (views(final(surface)@), deleted as int) == update_surface_spec(
            tables@,
            views(old(surface)@),
            piece@,
            style@,
        ),
{
    match tables.resolve(style) {
        Some(table) => table.apply(surface, piece.duplicate()),
        None => {
            let ghost before = views(surface@);
            match piece.displayed() {
                Some(value) => {
                    surface.push(value);
                    assert(views(surface@) == before + seq![value@]);
                },
                None => {
                    assert(before + Seq::<Seq<char>>::empty() == before);
                },
            }
            0
        },
    }
}

/// Adds one element to the segments; returns how many graphemes of the last segment it
/// rewrote.
fn update_segments(
    segments: &mut Vec<SurfaceSegment>,
    element: &InputElement,
    tables: &InputTableRegistry,
) -> (deleted: usize)
    ensures
        (segments_view(final(segments)@), deleted as int) == update_segments_spec(
            tables@,
            segments_view(old(segments)@),
            element@,
        ),
{
    let ghost segs = segments_view(segments@);
    let n = segments.len();
    if n > 0 && segments[n - 1].input_style.same_as(&element.input_style) {
        let last = segments.pop().unwrap();
        assert(segments_view(segments@) == segs.drop_last());
        let mut graphemes = last.graphemes;
        let deleted = update_surface(&mut graphemes, &element.piece, &element.input_style, tables);
        let style = element.input_style.duplicate();
        segments.push(SurfaceSegment { graphemes, input_style: style });
        assert(segments_view(segments@) == segs.update(
            segs.len() - 1,
            SegmentV { graphemes: views(graphemes@), style: element.input_style@ },
        ));
        return deleted;
    }
    let is_separator = match &element.piece {
        InputPiece::CompositionSeparator => true,
        _ => false,
    };
    if n == 0 && is_separator {
        return 0;
    }
    let mut surface: Vec<String> = Vec::new();
    assert(views(surface@) == Seq::<Seq<char>>::empty());
    update_surface(&mut surface, &element.piece, &element.input_style, tables);
    let style = element.input_style.duplicate();
    segments.push(SurfaceSegment { graphemes: surface, input_style: style });
    assert(segments_view(segments@) == segs.push(
        SegmentV { graphemes: views(surface@), style: element.input_style@ },
    ));
    0
}

/// Concatenates the graphemes of all segments.
fn flatten_segments(segments: Vec<SurfaceSegment>) -> (out: Vec<String>)
    ensures
        views(out@) == segment_graphemes(segments_view(segments@)),
{
    let ghost all = segments_view(segments@).map_values(|s: SegmentV| s.graphemes);
    let mut out: Vec<String> = Vec::new();
    let mut i: usize = 0;
    while i < segments.len()
        invariant
            i <= segments@.len(),
            all == segments_view(segments@).map_values(|s: SegmentV| s.graphemes),
            views(out@) == all.take(i as int).flatten(),
        decreases segments@.len() - i,
    {
        let ghost before = views(out@);
        let mut j: usize = 0;
        while j < segments[i].graphemes.len()
            invariant
                j <= segments@[i as int].graphemes@.len(),
                i < segments@.len(),
                views(out@) == before + views(segments@[i as int].graphemes@.take(j as int)),
            decreases segments@[i as int].graphemes@.len() - j,
        {
            let ghost o = views(out@);
            out.push(segments[i].graphemes[j].clone());
            assert(views(out@) == o.push(segments@[i as int].graphemes@[j as int]@));
            assert(views(segments@[i as int].graphemes@.take(j + 1)) == views(
                segments@[i as int].graphemes@.take(j as int),
            ).push(segments@[i as int].graphemes@[j as int]@));
            j = j + 1;
        }
        proof {
            assert(segments@[i as int].graphemes@.take(j as int) == segments@[i as int].graphemes@);
            assert(all[i as int] == views(segments@[i as int].graphemes@));
            assert(all.take(i + 1) == all.take(i as int).push(all[i as int]));
            all.take(i as int).lemma_flatten_push(all[i as int]);
        }
        i = i + 1;
    }
    assert(all.take(i as int) == all);
    out
}

/// Converts the first `count` elements from scratch.
fn convert_prefix(elements: &[InputElement], count: usize, tables: &InputTableRegistry) -> (out: Vec<
    String,
>)
    requires
        count <= elements@.len(),
    ensures
        views(out@) == convert_spec(tables@, elements_view(elements@).take(count as int)),
{
    let ghost es = elements_view(elements@).take(count as int);
    let mut segments: Vec<SurfaceSegment> = Vec::new();
    let mut i: usize = 0;
    while i < count
        invariant
            i <= count <= elements@.len(),
            es == elements_view(elements@).take(count as int),
            segments_view(segments@) == segments_of(tables@, es.take(i as int)),
        decreases count - i,
    {
        update_segments(&mut segments, &elements[i], tables);
        assert(es.take(i + 1).drop_last() == es.take(i as int));
        assert(es.take(i + 1).last() == elements@[i as int]@);
        i = i + 1;
    }
    assert(es.take(i as int) == es);
    flatten_segments(segments)
}

/// Converts elements from scratch.
fn convert_elements(elements: &[InputElement], tables: &InputTableRegistry) -> (out: Vec<String>)
    ensures
        views(out@) == convert_spec(tables@, elements_view(elements@)),
{
    assert(elements_view(elements@).take(elements@.len() as int) == elements_view(elements@));
    convert_prefix(elements, elements.len(), tables)
}

/// Result of scanning the boundaries from the top for a surface position.
pub enum ScanV {
    Exact(int),
    Split { start: (int, int), end: (int, int) },
}

/// Scans boundaries from the last one down: a boundary at `target` is exact; otherwise the
/// segment containing `target` runs from the first boundary below it to the lowest
/// boundary above it seen so far.
pub open spec fn scan_spec(b: Seq<(int, int)>, target: int, end: (int, int)) -> ScanV
    decreases b.len(),
{
    if b.len() == 0 {
        ScanV::Split { start: (0, 0), end }
    } else {
        let top = b.last();
        if top.1 == target {
            ScanV::Exact(top.0)
        } else if top.1 < target {
            ScanV::Split { start: top, end }
        } else {
            scan_spec(b.drop_last(), target, if top.1 < end.1 { top } else { end })
        }
    }
}

pub open spec fn frozen_elements(gs: Seq<Seq<char>>) -> Seq<ElementV> {
    gs.map_values(|g: Seq<char>| ElementV { piece: PieceV::Character(g), style: frozen_style() })
}

/// The input after making `target` (a surface position) an input position, and that input
/// position: a segment containing `target` in its middle is replaced by its surface
/// graphemes as frozen characters.
pub open spec fn force_spec(
    reg: RegistryV,
    input: Seq<ElementV>,
    surface: Seq<Seq<char>>,
    target: int,
) -> (Seq<ElementV>, int) {
    if target == 0 {
        (input, 0)
    } else if target >= surface.len() {
        (input, input.len() as int)
    } else {
        match scan_spec(
            boundaries_upto(reg, input, input.len() as int),
            target,
            (input.len() as int, surface.len() as int),
        ) {
            ScanV::Exact(i) => (input, i),
            ScanV::Split { start, end } => {
                let end_surface = if end.1 < surface.len() { end.1 } else { surface.len() as int };
                (
                    input.take(start.0) + frozen_elements(surface.subrange(start.1, end_surface))
                        + input.skip(end.0),
                    target - start.1 + start.0,
                )
            },
        }
    }
}

/// Boundaries have strictly increasing input positions within `0..=k`, the first is
/// `(0, 0)` and the last is at `k`.
pub open spec fn boundaries_ordered(b: Seq<(int, int)>, k: int) -> bool {
    &&& b.len() > 0
    &&& b[0] == (0int, 0int)
    &&& b.last().0 == k
    &&& forall|i: int, j: int| 0 <= i < j < b.len() ==> (#[trigger] b[i]).0 < (#[trigger] b[j]).0
    &&& forall|i: int| 0 <= i < b.len() ==> 0 <= (#[trigger] b[i]).0 <= k
    &&& forall|i: int| 0 <= i < b.len() ==> 0 <= (#[trigger] b[i]).1
}

proof fn lemma_pop_above_prefix(s: Seq<(int, int)>, t: int)
    ensures
        pop_above(s, t).len() <= s.len(),
        pop_above(s, t) == s.take(pop_above(s, t).len() as int),
        s.len() > 0 && s[0].1 <= t ==> pop_above(s, t).len() > 0,
    decreases s.len(),
{
    if s.len() > 0 && s.last().1 > t {
        lemma_pop_above_prefix(s.drop_last(), t);
        let r = pop_above(s.drop_last(), t);
        assert(s.drop_last().take(r.len() as int) == s.take(r.len() as int));
        if s[0].1 <= t {
            assert(s.drop_last().len() > 0);
            assert(s.drop_last()[0] == s[0]);
        }
    } else {
        assert(s.take(s.len() as int) == s);
    }
}

proof fn lemma_boundaries_ordered(reg: RegistryV, es: Seq<ElementV>, k: int)
    requires
        0 <= k,
    ensures
        boundaries_ordered(boundaries_upto(reg, es, k), k),
    decreases k,
{
    if k > 0 {
        let j = k - 1;
        lemma_boundaries_ordered(reg, es, j);
        let prev = boundaries_upto(reg, es, j);
        let t = saturating_sub(surface_len(reg, es, j), deleted_at(reg, es, j));
        lemma_pop_above_prefix(prev, t);
        let kept = pop_above(prev, t);
        assert(prev[0].1 <= t);
        let b = kept.push((k, surface_len(reg, es, k)));
        assert forall|x: int| 0 <= x < kept.len() implies #[trigger] kept[x] == prev[x] by {}
        assert(b[0] == (0int, 0int));
        assert forall|x: int, y: int| 0 <= x < y < b.len() implies (#[trigger] b[x]).0 < (#[trigger] b[y]).0 by {
            if y < kept.len() {
                assert(kept[x] == prev[x] && kept[y] == prev[y]);
            } else {
                assert(kept[x] == prev[x]);
            }
        }
        assert forall|x: int| 0 <= x < b.len() implies 0 <= (#[trigger] b[x]).1 by {
            if x < kept.len() {
                assert(kept[x] == prev[x]);
            }
        }
    }
}

proof fn lemma_scan(b: Seq<(int, int)>, target: int, end: (int, int), n: int)
    requires
        target > 0,
        end.1 > target,
        0 <= end.0 <= n,
        forall|i: int, j: int| 0 <= i < j < b.len() ==> (#[trigger] b[i]).0 < (#[trigger] b[j]).0,
        forall|i: int| 0 <= i < b.len() ==> 0 <= (#[trigger] b[i]).0 <= end.0,
        forall|i: int| 0 <= i < b.len() ==> 0 <= (#[trigger] b[i]).1,
    ensures
        match scan_spec(b, target, end) {
            ScanV::Exact(i) => 0 <= i <= n,
            ScanV::Split { start, end: e } => 0 <= start.0 <= e.0 <= n && 0 <= start.1 < target
                < e.1,
        },
    decreases b.len(),
{
    if b.len() > 0 {
        let top = b.last();
        if top.1 > target {
            let ne = if top.1 < end.1 { top } else { end };
            assert forall|i: int| 0 <= i < b.len() - 1 implies 0 <= (#[trigger] b.drop_last()[i]).0 <= ne.0 by {
                assert(b.drop_last()[i] == b[i]);
                assert(b[i].0 < b[b.len() - 1].0);
            }
            assert forall|i: int, j: int| 0 <= i < j < b.len() - 1 implies (#[trigger] b.drop_last()[i]).0 < (#[trigger] b.drop_last()[j]).0 by {
                assert(b.drop_last()[i] == b[i] && b.drop_last()[j] == b[j]);
            }
            assert forall|i: int| 0 <= i < b.len() - 1 implies 0 <= (#[trigger] b.drop_last()[i]).1 by {
                assert(b.drop_last()[i] == b[i]);
            }
            lemma_scan(b.drop_last(), target, ne, n);
        }
    }
}

/// Length of the longest common prefix.
pub open spec fn common_prefix_len<A>(a: Seq<A>, b: Seq<A>) -> int
    decreases a.len(),
{
    if a.len() == 0 || b.len() == 0 || a[0] != b[0] {
        0
    } else {
        1 + common_prefix_len(a.drop_first(), b.drop_first())
    }
}

pub proof fn lemma_common_prefix_len<A>(a: Seq<A>, b: Seq<A>)
    ensures
        0 <= common_prefix_len(a, b) <= a.len(),
        common_prefix_len(a, b) <= b.len(),
        forall|i: int| 0 <= i < common_prefix_len(a, b) ==> a[i] == b[i],
        common_prefix_len(a, b) < a.len() && common_prefix_len(a, b) < b.len() ==> a[common_prefix_len(a, b)]
            != b[common_prefix_len(a, b)],
    decreases a.len(),
{
    if !(a.len() == 0 || b.len() == 0 || a[0] != b[0]) {
        lemma_common_prefix_len(a.drop_first(), b.drop_first());
        assert forall|i: int| 0 <= i < common_prefix_len(a, b) implies a[i] == b[i] by {
            if i > 0 {
                assert(a.drop_first()[i - 1] == a[i]);
                assert(b.drop_first()[i - 1] == b[i]);
            }
        }
    }
}

/// The common prefix length is the first position where the sequences differ.
pub proof fn lemma_common_prefix_first_difference<A>(a: Seq<A>, b: Seq<A>, k: int)
    requires
        0 <= k <= a.len(),
        k <= b.len(),
        forall|i: int| 0 <= i < k ==> a[i] == b[i],
        k == a.len() || k == b.len() || a[k] != b[k],
    ensures
        common_prefix_len(a, b) == k,
    decreases a.len(),
{
    if k > 0 {
        assert(a[0] == b[0]);
        assert forall|i: int| 0 <= i < k - 1 implies a.drop_first()[i] == b.drop_first()[i] by {
            assert(a[i + 1] == b[i + 1]);
        }
        if k < a.len() && k < b.len() {
            assert(a.drop_first()[k - 1] == a[k] && b.drop_first()[k - 1] == b[k]);
        }
        lemma_common_prefix_first_difference(a.drop_first(), b.drop_first(), k - 1);
    }
}

#[derive(Clone, Copy, Debug)]
struct IndexPair {
    input: usize,
    surface: usize,
}

spec fn pairs_view(s: Seq<IndexPair>) -> Seq<(int, int)> {
    s.map_values(|p: IndexPair| (p.input as int, p.surface as int))
}

/// Number of graphemes of the segments, saturated at `usize::MAX`.
fn segments_len(segments: &Vec<SurfaceSegment>) -> (n: usize)
    ensures
        n == min_usize(segment_graphemes(segments_view(segments@)).len() as int),
{
    let ghost all = segments_view(segments@).map_values(|s: SegmentV| s.graphemes);
    let mut total: usize = 0;
    let mut i: usize = 0;
    while i < segments.len()
        invariant
            i <= segments@.len(),
            all == segments_view(segments@).map_values(|s: SegmentV| s.graphemes),
            total == min_usize(all.take(i as int).flatten().len() as int),
        decreases segments@.len() - i,
    {
        proof {
            assert(all[i as int] == views(segments@[i as int].graphemes@));
            assert(all.take(i + 1) == all.take(i as int).push(all[i as int]));
            all.take(i as int).lemma_flatten_push(all[i as int]);
        }
        let len = segments[i].graphemes.len();
        total = total.saturating_add(len);
        i = i + 1;
    }
    assert(all.take(i as int) == all);
    total
}

/// Text being composed: typed elements, their converted surface, and a cursor counted in
/// surface graphemes.
#[derive(Clone, Debug, Eq, PartialEq)]
pub struct ComposingText {
    cursor: usize,
    input: Vec<InputElement>,
    surface: Vec<String>,
}

pub struct ComposingV {
    pub cursor: int,
    pub input: Seq<ElementV>,
    pub surface: Seq<Seq<char>>,
}

impl View for ComposingText {
    type V = ComposingV;

    closed spec fn view(&self) -> ComposingV {
        ComposingV {
            cursor: self.cursor as int,
            input: elements_view(self.input@),
            surface: views(self.surface@),
        }
    }
}

impl ComposingV {
    /// The cursor lies within the surface.
    pub open spec fn wf(self) -> bool {
        0 <= self.cursor <= self.surface.len()
    }
}

impl ComposingText {
    proof fn lemma_lens(&self)
        ensures
            self@.input.len() == self.input@.len(),
            self@.surface.len() == self.surface@.len(),
            self@.cursor == self.cursor,
    {
    }

    /// The `(input, surface)` positions where the surface can be split without splitting a
    /// conversion: positions that no later element rewrites across.
    fn independent_boundaries(&self, tables: &InputTableRegistry) -> (b: Vec<IndexPair>)
        ensures
            pairs_view(b@) == boundaries_upto(tables@, self@.input, self@.input.len() as int),
    {
        let ghost es = self@.input;
        let mut boundaries: Vec<IndexPair> = vec![IndexPair { input: 0, surface: 0 }];
        assert(pairs_view(boundaries@) == seq![(0int, 0int)]);
        let mut converting: Vec<SurfaceSegment> = Vec::new();
        let mut converted_len: usize = 0;
        let mut index: usize = 0;
        proof {
            assert(es.take(0) == Seq::<ElementV>::empty());
            assert(segment_graphemes(Seq::<SegmentV>::empty()) == Seq::<Seq<char>>::empty());
        }
        while index < self.input.len()
            invariant
                es == self@.input,
                index <= self.input@.len(),
                es.len() == self.input@.len(),
                segments_view(converting@) == segments_of(tables@, es.take(index as int)),
                converted_len == surface_len(tables@, es, index as int),
                pairs_view(boundaries@) == boundaries_upto(tables@, es, index as int),
            decreases self.input@.len() - index,
        {
            let element = &self.input[index];
            assert(es[index as int] == element@);
            let deleted = update_segments(&mut converting, element, tables);
            let previous_converted_len = converted_len;
            converted_len = segments_len(&converting);
            proof {
                assert(es.take(index + 1).drop_last() == es.take(index as int));
                assert(es.take(index + 1).last() == es[index as int]);
            }
            let threshold = previous_converted_len.saturating_sub(deleted);
            let ghost start = pairs_view(boundaries@);
            while boundaries.len() > 0 && boundaries[boundaries.len() - 1].surface > threshold
                invariant
                    pop_above(pairs_view(boundaries@), threshold as int) == pop_above(start, threshold as int),
                decreases boundaries@.len(),
            {
                let ghost before = pairs_view(boundaries@);
                boundaries.pop();
                assert(pairs_view(boundaries@) == before.drop_last());
            }
            let ghost kept = pairs_view(boundaries@);
            assert(pop_above(kept, threshold as int) == kept);
            boundaries.push(IndexPair { input: index + 1, surface: converted_len });
            assert(pairs_view(boundaries@) == kept.push(((index + 1) as int, converted_len as int)));
            index = index + 1;
        }
        boundaries
    }

    /// Makes the surface position `target_surface` an input position (freezing a segment
    /// into plain characters if `target_surface` falls inside one) and returns it.
    fn force_input_cursor(&mut self, target_surface: usize, tables: &InputTableRegistry) -> (r: usize)
        ensures
            (final(self)@.input, r as int) == force_spec(
                tables@,
                old(self)@.input,
                old(self)@.surface,
                target_surface as int,
            ),
            r <= final(self)@.input.len(),
            final(self)@.surface == old(self)@.surface,
            final(self)@.cursor == old(self)@.cursor,
    {
        proof {
            self.lemma_lens();
        }
        if target_surface == 0 {
            return 0;
        }
        if target_surface >= self.surface.len() {
            return self.input.len();
        }
        let ghost es = self@.input;
        let ghost n = es.len() as int;
        let boundaries = self.independent_boundaries(tables);
        let ghost bv = pairs_view(boundaries@);
        proof {
            lemma_boundaries_ordered(tables@, es, n);
        }
        let mut segment_end = IndexPair { input: self.input.len(), surface: self.surface.len() };
        let mut top: usize = boundaries.len();
        let ghost initial_end = (n, self@.surface.len() as int);
        proof {
            assert(bv.take(top as int) == bv);
            lemma_scan(bv, target_surface as int, initial_end, n);
        }
        while top > 0
            invariant
                top <= boundaries@.len(),
                bv == pairs_view(boundaries@),
                bv == boundaries_upto(tables@, es, n),
                initial_end == (n, self@.surface.len() as int),
                boundaries_ordered(bv, n),
                n == self.input@.len(),
                target_surface < self.surface@.len(),
                0 < target_surface,
                1 <= top,
                scan_spec(bv.take(top as int), target_surface as int, (segment_end.input as int, segment_end.surface as int))
                    == scan_spec(bv, target_surface as int, initial_end),
                match scan_spec(bv, target_surface as int, initial_end) {
                    ScanV::Exact(i) => 0 <= i <= n,
                    ScanV::Split { start, end: e } => 0 <= start.0 <= e.0 <= n && 0 <= start.1 < target_surface < e.1,
                },
                es == self@.input,
                self@.surface.len() == self.surface@.len(),
                *self == *old(self),
            decreases top,
        {
            let start = boundaries[top - 1];
            proof {
                assert(bv.take(top as int).last() == bv[top - 1]);
                assert(bv.take(top as int).drop_last() == bv.take(top - 1));
                assert(bv[top - 1] == (start.input as int, start.surface as int));
            }
            if start.surface == target_surface {
                assert(scan_spec(bv, target_surface as int, initial_end) == ScanV::Exact(start.input as int));
                return start.input;
            }
            if start.surface < target_surface {
                assert(scan_spec(bv, target_surface as int, initial_end) == ScanV::Split {
                    start: (start.input as int, start.surface as int),
                    end: (segment_end.input as int, segment_end.surface as int),
                });
                let ghost sv = self@.surface;
                let end_surface = if segment_end.surface < self.surface.len() {
                    segment_end.surface
                } else {
                    self.surface.len()
                };
                let mut input: Vec<InputElement> = Vec::new();
                let mut k: usize = 0;
                while k < start.input
                    invariant
                        k <= start.input,
                        start.input <= self.input@.len(),
                        elements_view(input@) == es.take(k as int),
                        es == self@.input,
                    decreases start.input - k,
                {
                    let ghost before = elements_view(input@);
                    input.push(self.input[k].duplicate());
                    assert(es[k as int] == self.input@[k as int]@);
                    assert(elements_view(input@) == before.push(es[k as int]));
                    assert(es.take(k + 1) == es.take(k as int).push(es[k as int]));
                    k = k + 1;
                }
                let ghost prefix = elements_view(input@);
                let mut g: usize = start.surface;
                while g < end_surface
                    invariant
                        start.surface <= g <= end_surface,
                        end_surface <= self.surface@.len(),
                        sv == self@.surface,
                        elements_view(input@) == prefix + frozen_elements(sv.subrange(start.surface as int, g as int)),
                    decreases end_surface - g,
                {
                    let ghost before = elements_view(input@);
                    input.push(InputElement::character(self.surface[g].clone(), InputStyle::frozen()));
                    assert(sv.subrange(start.surface as int, g + 1) == sv.subrange(start.surface as int, g as int).push(sv[g as int]));
                    assert(elements_view(input@) == before.push(ElementV { piece: PieceV::Character(sv[g as int]), style: frozen_style() }));
                    g = g + 1;
                }
                let ghost middle = elements_view(input@);
                let mut k: usize = segment_end.input;
                while k < self.input.len()
                    invariant
                        segment_end.input <= k <= self.input@.len(),
                        elements_view(input@) == middle + es.subrange(segment_end.input as int, k as int),
                        es == self@.input,
                    decreases self.input@.len() - k,
                {
                    let ghost before = elements_view(input@);
                    input.push(self.input[k].duplicate());
                    assert(es[k as int] == self.input@[k as int]@);
                    assert(elements_view(input@) == before.push(es[k as int]));
                    assert(es.subrange(segment_end.input as int, k + 1) == es.subrange(segment_end.input as int, k as int).push(es[k as int]));
                    k = k + 1;
                }
                assert(es.subrange(segment_end.input as int, n) == es.skip(segment_end.input as int));
                assert(elements_view(input@).len() == start.input + (end_surface - start.surface) + (n - segment_end.input));
                assert(target_surface < end_surface);
                let total = input.len();
                assert(target_surface - start.surface + start.input < total);
                let result = (target_surface - start.surface) + start.input;
                self.input = input;
                return result;
            }
            if start.surface < segment_end.surface {
                segment_end = start;
            }
            top = top - 1;
        }
        proof {
            assert(bv.take(0) == Seq::<(int, int)>::empty());
        }
        0
    }
}


/// The frozen separator that ends a composition before text typed in the middle.
pub open spec fn separator_element() -> ElementV {
    ElementV { piece: PieceV::Separator, style: frozen_style() }
}

pub open spec fn min_int(a: int, b: int) -> int {
    if a <= b {
        a
    } else {
        b
    }
}

/// Inserting elements at the cursor: the cursor position is made an input position, a frozen
/// separator there is dropped, the elements (followed by a frozen separator when the cursor is
/// not at the end) are inserted, and the surface before the cursor is converted again.
pub open spec fn insert_spec(reg: RegistryV, v: ComposingV, es: Seq<ElementV>) -> ComposingV {
    if es.len() == 0 {
        v
    } else {
        let (input1, ic1) = force_spec(reg, v.input, v.surface, v.cursor);
        let added = if v.cursor != v.surface.len() {
            es.push(separator_element())
        } else {
            es
        };
        let drop_sep = ic1 > 0 && input1[ic1 - 1] == separator_element();
        let input2 = if drop_sep {
            input1.remove(ic1 - 1)
        } else {
            input1
        };
        let ic = if drop_sep {
            ic1 - 1
        } else {
            ic1
        };
        let input3 = input2.take(ic) + added + input2.skip(ic);
        let prefix = convert_spec(reg, input3.take(ic + added.len()));
        ComposingV {
            cursor: prefix.len() as int,
            input: input3,
            surface: prefix + v.surface.skip(v.cursor),
        }
    }
}

/// The two input positions of a backward deletion of `count` graphemes, after the forced
/// start position and a frozen separator before it are dealt with.
pub open spec fn delete_positions(reg: RegistryV, v: ComposingV, count: int) -> (
    Seq<ElementV>,
    int,
    int,
) {
    let (input1, t1) = force_spec(reg, v.input, v.surface, v.cursor - count);
    let (input2, c1) = force_spec(reg, input1, v.surface, v.cursor);
    if t1 > 0 && input2[t1 - 1] == separator_element() {
        (input2.remove(t1 - 1), t1 - 1, c1 - 1)
    } else {
        (input2, t1, c1)
    }
}

/// The deleted range does not end before it starts.
pub open spec fn delete_in_order(reg: RegistryV, v: ComposingV, count: int) -> bool {
    let count = min_int(count, v.cursor);
    count == 0 || {
        let (input1, t1) = force_spec(reg, v.input, v.surface, v.cursor - count);
        let (input2, c1) = force_spec(reg, input1, v.surface, v.cursor);
        t1 <= c1
    }
}

/// Deleting up to `count` graphemes before the cursor: the input between the two forced
/// positions is removed (replaced by a frozen separator inside the text, so that the two
/// sides do not combine), and the surface is converted again.
pub open spec fn delete_backward_spec(reg: RegistryV, v: ComposingV, count: int) -> ComposingV {
    let count = min_int(count, v.cursor);
    if count == 0 {
        v
    } else {
        let (input3, target, current) = delete_positions(reg, v, count);
        let input4 = if target == 0 || current == input3.len() {
            input3.take(target) + input3.skip(current)
        } else {
            input3.take(target) + seq![separator_element()] + input3.skip(current)
        };
        ComposingV { cursor: v.cursor - count, input: input4, surface: convert_spec(reg, input4) }
    }
}

/// The text with the cursor moved forward by up to `count` graphemes, ready for a backward
/// deletion of the same number.
pub open spec fn forward_count(v: ComposingV, count: int) -> int {
    min_int(count, v.surface.len() - v.cursor)
}

pub open spec fn clamp(x: int, lo: int, hi: int) -> int {
    if x < lo {
        lo
    } else if x > hi {
        hi
    } else {
        x
    }
}

/// How much of the text to complete.
pub enum ComposingCount {
    Input(usize),
    Surface(usize),
    Composite(Box<ComposingCount>, Box<ComposingCount>),
}

/// After completion the cursor keeps its distance from the end unless it reached the
/// start, in which case it moves to the end.
pub open spec fn cursor_after_completion(c: int, len: int) -> int {
    if c == 0 {
        len
    } else {
        c
    }
}

/// Completing (removing) a prefix of the text; `None` where the remaining input converts to
/// a longer surface than the text had.
pub open spec fn complete_spec(reg: RegistryV, v: ComposingV, count: ComposingCount) -> Option<
    ComposingV,
>
    decreases count,
{
    match count {
        ComposingCount::Input(n) => {
            let n = min_int(n as int, v.input.len() as int);
            let input = v.input.skip(n);
            let surface = convert_spec(reg, input);
            if surface.len() > v.surface.len() {
                None
            } else {
                let c = saturating_sub(v.cursor, v.surface.len() - surface.len());
                Some(
                    ComposingV {
                        cursor: cursor_after_completion(c, surface.len() as int),
                        input,
                        surface,
                    },
                )
            }
        },
        ComposingCount::Surface(n) => {
            let n = min_int(n as int, v.surface.len() as int);
            let (input1, i) = force_spec(reg, v.input, v.surface, n);
            let surface = v.surface.skip(n);
            let c = saturating_sub(v.cursor, n);
            Some(
                ComposingV {
                    cursor: cursor_after_completion(c, surface.len() as int),
                    input: input1.skip(i),
                    surface,
                },
            )
        },
        ComposingCount::Composite(left, right) => match complete_spec(reg, v, *left) {
            Some(v1) => complete_spec(reg, v1, *right),
            None => None,
        },
    }
}

/// Completing a prefix of a text whose cursor lies within its surface leaves the cursor
/// within the remaining surface.
pub proof fn lemma_complete_keeps_cursor(reg: RegistryV, v: ComposingV, count: ComposingCount)
    requires
        v.wf(),
        complete_spec(reg, v, count) is Some,
    ensures
        complete_spec(reg, v, count).unwrap().wf(),
    decreases count,
{
    match count {
        ComposingCount::Composite(left, right) => {
            lemma_complete_keeps_cursor(reg, v, *left);
            let v1 = complete_spec(reg, v, *left).unwrap();
            lemma_complete_keeps_cursor(reg, v1, *right);
        },
        _ => {},
    }
}

/// Every element is a directly typed character and there are as many surface graphemes.
pub open spec fn identity_mapping(v: ComposingV) -> bool {
    &&& v.input.len() == v.surface.len()
    &&& forall|i: int|
        0 <= i < v.input.len() ==> (#[trigger] v.input[i]).style == StyleV::Direct
            && v.input[i].piece is Character
}

/// The map that collecting `(input, surface)` pairs in order builds.
pub open spec fn pairs_map(b: Seq<(int, int)>) -> Map<usize, usize>
    decreases b.len(),
{
    if b.len() == 0 {
        Map::empty()
    } else {
        pairs_map(b.drop_last()).insert(b.last().0 as usize, b.last().1 as usize)
    }
}

/// Which input positions correspond to which surface positions.
pub open spec fn surface_map_spec(reg: RegistryV, v: ComposingV) -> Map<usize, usize> {
    if identity_mapping(v) {
        pairs_map(Seq::new((v.input.len() + 1) as nat, |i: int| (i, i)))
    } else {
        pairs_map(boundaries_upto(reg, v.input, v.input.len() as int))
    }
}

/// How two texts differ after their common prefixes.
#[derive(Clone, Copy, Debug, Eq, PartialEq)]
pub struct DifferenceSuffix {
    pub deleted_input: usize,
    pub added_input: usize,
    pub deleted_surface: usize,
    pub added_surface: usize,
}

fn is_frozen_separator(e: &InputElement) -> (r: bool)
    ensures
        r == (e@ == separator_element()),
{
    let is_sep = match &e.piece {
        InputPiece::CompositionSeparator => true,
        _ => false,
    };
    is_sep && e.input_style.same_as(&InputStyle::frozen())
}

/// `v[..from] + middle + v[to..]`.
fn splice_elements(v: &Vec<InputElement>, from: usize, to: usize, middle: Vec<InputElement>) -> (out:
    Vec<InputElement>)
    requires
        from <= to <= v@.len(),
    ensures
        elements_view(out@) == elements_view(v@).take(from as int) + elements_view(middle@)
            + elements_view(v@).skip(to as int),
{
    let ghost ev = elements_view(v@);
    let mut out: Vec<InputElement> = Vec::new();
    let mut k: usize = 0;
    while k < from
        invariant
            k <= from <= v@.len(),
            ev == elements_view(v@),
            elements_view(out@) == ev.take(k as int),
        decreases from - k,
    {
        let ghost before = elements_view(out@);
        out.push(v[k].duplicate());
        assert(ev[k as int] == v@[k as int]@);
        assert(elements_view(out@) == before.push(ev[k as int]));
        assert(ev.take(k + 1) == ev.take(k as int).push(ev[k as int]));
        k = k + 1;
    }
    let ghost mv = elements_view(middle@);
    let ghost first = elements_view(out@);
    let mut m: usize = 0;
    while m < middle.len()
        invariant
            m <= middle@.len(),
            mv == elements_view(middle@),
            elements_view(out@) == first + mv.take(m as int),
        decreases middle@.len() - m,
    {
        let ghost before = elements_view(out@);
        out.push(middle[m].duplicate());
        assert(mv[m as int] == middle@[m as int]@);
        assert(elements_view(out@) == before.push(mv[m as int]));
        assert(mv.take(m + 1) == mv.take(m as int).push(mv[m as int]));
        m = m + 1;
    }
    assert(mv.take(m as int) == mv);
    let ghost second = elements_view(out@);
    let mut k: usize = to;
    while k < v.len()
        invariant
            to <= k <= v@.len(),
            ev == elements_view(v@),
            elements_view(out@) == second + ev.subrange(to as int, k as int),
        decreases v@.len() - k,
    {
        let ghost before = elements_view(out@);
        out.push(v[k].duplicate());
        assert(ev[k as int] == v@[k as int]@);
        assert(elements_view(out@) == before.push(ev[k as int]));
        assert(ev.subrange(to as int, k + 1) == ev.subrange(to as int, k as int).push(ev[k as int]));
        k = k + 1;
    }
    assert(ev.subrange(to as int, v@.len() as int) == ev.skip(to as int));
    out
}

/// `prefix + surface[from..]`.
fn append_suffix(prefix: Vec<String>, surface: &Vec<String>, from: usize) -> (out: Vec<String>)
    requires
        from <= surface@.len(),
    ensures
        views(out@) == views(prefix@) + views(surface@).skip(from as int),
{
    let ghost sv = views(surface@);
    let ghost pv = views(prefix@);
    let mut out = prefix;
    let mut k: usize = from;
    while k < surface.len()
        invariant
            from <= k <= surface@.len(),
            sv == views(surface@),
            views(out@) == pv + sv.subrange(from as int, k as int),
        decreases surface@.len() - k,
    {
        let ghost before = views(out@);
        out.push(surface[k].clone());
        assert(views(out@) == before.push(sv[k as int]));
        assert(sv.subrange(from as int, k + 1) == sv.subrange(from as int, k as int).push(sv[k as int]));
        k = k + 1;
    }
    assert(sv.subrange(from as int, surface@.len() as int) == sv.skip(from as int));
    out
}

/// Common prefix length of two element slices, compared by view.
fn common_elements_len(a: &Vec<InputElement>, b: &Vec<InputElement>) -> (n: usize)
    ensures
        n == common_prefix_len(elements_view(a@), elements_view(b@)),
{
    let ghost av = elements_view(a@);
    let ghost bv = elements_view(b@);
    let mut i: usize = 0;
    while i < a.len() && i < b.len() && a[i].same_as(&b[i])
        invariant
            i <= a@.len(),
            i <= b@.len(),
            av == elements_view(a@),
            bv == elements_view(b@),
            forall|j: int| 0 <= j < i ==> av[j] == bv[j],
        decreases a@.len() - i,
    {
        assert(av[i as int] == a@[i as int]@ && bv[i as int] == b@[i as int]@);
        i = i + 1;
    }
    proof {
        if i < a@.len() && i < b@.len() {
            assert(av[i as int] == a@[i as int]@ && bv[i as int] == b@[i as int]@);
        }
        lemma_common_prefix_first_difference(av, bv, i as int);
    }
    i
}

/// Common prefix length of two grapheme sequences.
fn common_graphemes_len(a: &Vec<String>, b: &Vec<String>) -> (n: usize)
    ensures
        n == common_prefix_len(views(a@), views(b@)),
{
    let ghost av = views(a@);
    let ghost bv = views(b@);
    let mut i: usize = 0;
    while i < a.len() && i < b.len() && a[i] == b[i]
        invariant
            i <= a@.len(),
            i <= b@.len(),
            av == views(a@),
            bv == views(b@),
            forall|j: int| 0 <= j < i ==> av[j] == bv[j],
        decreases a@.len() - i,
    {
        assert(av[i as int] == a@[i as int]@ && bv[i as int] == b@[i as int]@);
        i = i + 1;
    }
    proof {
        if i < a@.len() && i < b@.len() {
            assert(av[i as int] == a@[i as int]@ && bv[i as int] == b@[i as int]@);
        }
        lemma_common_prefix_first_difference(av, bv, i as int);
    }
    i
}


impl ComposingText {
    /// An empty text.
    pub fn new() -> (t: Self)
        ensures
            t@ == (ComposingV {
                cursor: 0,
                input: Seq::<ElementV>::empty(),
                surface: Seq::<Seq<char>>::empty(),
            }),
    {
        let t = ComposingText { cursor: 0, input: Vec::new(), surface: Vec::new() };
        assert(t@.input == Seq::<ElementV>::empty());
        assert(t@.surface == Seq::<Seq<char>>::empty());
        t
    }

    /// A copy with the same view.
    pub fn duplicate(&self) -> (t: Self)
        ensures
            t@ == self@,
    {
        let none: Vec<InputElement> = Vec::new();
        assert(elements_view(none@) == Seq::<ElementV>::empty());
        let input = splice_elements(&self.input, self.input.len(), self.input.len(), none);
        proof {
            assert(elements_view(self.input@).take(self.input@.len() as int) + Seq::<ElementV>::empty()
                + elements_view(self.input@).skip(self.input@.len() as int) == elements_view(self.input@));
        }
        let nothing: Vec<String> = Vec::new();
        assert(views(nothing@) + views(self.surface@).skip(0) == views(self.surface@));
        let surface = append_suffix(nothing, &self.surface, 0);
        ComposingText { cursor: self.cursor, input, surface }
    }

    pub fn cursor(&self) -> (c: usize)
        ensures
            c == self@.cursor,
    {
        self.cursor
    }

    /// The typed elements.
    pub fn input(&self) -> (r: &[InputElement])
        ensures
            elements_view(r@) == self@.input,
    {
        self.input.as_slice()
    }

    /// The surface as one string.
    pub fn surface(&self) -> (s: String)
        ensures
            s@ == self@.surface.flatten(),
    {
        concat_strings(self.surface.as_slice())
    }

    /// The surface graphemes.
    pub fn surface_graphemes(&self) -> (r: &[String])
        ensures
            views(r@) == self@.surface,
    {
        self.surface.as_slice()
    }

    /// The surface before the cursor, as one string.
    pub fn surface_before_cursor(&self) -> (s: String)
        requires
            self@.wf(),
        ensures
            s@ == self@.surface.take(self@.cursor).flatten(),
    {
        let mut before: Vec<String> = Vec::new();
        let mut i: usize = 0;
        while i < self.cursor
            invariant
                i <= self.cursor <= self.surface@.len(),
                views(before@) == views(self.surface@).take(i as int),
            decreases self.cursor - i,
        {
            let ghost b = views(before@);
            before.push(self.surface[i].clone());
            assert(views(before@) == b.push(views(self.surface@)[i as int]));
            assert(views(self.surface@).take(i + 1) == views(self.surface@).take(i as int).push(
                views(self.surface@)[i as int],
            ));
            i = i + 1;
        }
        concat_strings(before.as_slice())
    }

    pub fn is_empty(&self) -> (r: bool)
        ensures
            r == (self@.surface.len() == 0),
    {
        self.surface.len() == 0
    }

    pub fn is_at_end(&self) -> (r: bool)
        ensures
            r == (self@.cursor == self@.surface.len()),
    {
        self.cursor == self.surface.len()
    }

    pub fn is_at_start(&self) -> (r: bool)
        ensures
            r == (self@.cursor == 0),
    {
        self.cursor == 0
    }

    /// Inserts elements at the cursor.
    pub fn insert(&mut self, elements: Vec<InputElement>, tables: &InputTableRegistry)
        requires
            old(self)@.wf(),
        ensures
            final(self)@ == insert_spec(tables@, old(self)@, elements_view(elements@)),
            final(self)@.wf(),
    {
        let ghost v = self@;
        let ghost es = elements_view(elements@);
        if elements.len() == 0 {
            return;
        }
        let mut elements = elements;
        let mut input_cursor = self.force_input_cursor(self.cursor, tables);
        let ghost input1 = self@.input;
        let ghost ic1 = input_cursor as int;
        if !self.is_at_end() {
            elements.push(InputElement::new(InputPiece::CompositionSeparator, InputStyle::frozen()));
            assert(elements_view(elements@) == es.push(separator_element()));
        }
        if input_cursor > 0 && is_frozen_separator(&self.input[input_cursor - 1]) {
            assert(self@.input[input_cursor - 1] == self.input@[input_cursor - 1]@);
            self.input.remove(input_cursor - 1);
            assert(self@.input == input1.remove(ic1 - 1));
            input_cursor = input_cursor - 1;
        } else {
            proof {
                if input_cursor > 0 {
                    assert(self@.input[input_cursor - 1] == self.input@[input_cursor - 1]@);
                }
            }
        }
        let ghost added = elements_view(elements@);
        let inserted_count = elements.len();
        let input = splice_elements(&self.input, input_cursor, input_cursor, elements);
        assert(elements_view(input@).len() == self@.input.len() + added.len());
        self.input = input;
        let total = self.input.len();
        assert(input_cursor + inserted_count <= total);
        let upto = input_cursor + inserted_count;
        let new_prefix = convert_prefix(self.input.as_slice(), upto, tables);
        let new_cursor = new_prefix.len();
        let surface = append_suffix(new_prefix, &self.surface, self.cursor);
        self.surface = surface;
        self.cursor = new_cursor;
    }

    /// Inserts the grapheme clusters of `value`, each as a character element of `input_style`.
    pub fn insert_str(&mut self, value: &str, input_style: InputStyle, tables: &InputTableRegistry)
        requires
            old(self)@.wf(),
        ensures
            final(self)@ == insert_spec(
                tables@,
                old(self)@,
                spec_graphemes(value@).map_values(
                    |g: Seq<char>| ElementV { piece: PieceV::Character(g), style: input_style@ },
                ),
            ),
            final(self)@.wf(),
    {
        let gs = graphemes(value);
        let ghost gv = views(gs@);
        let ghost target = spec_graphemes(value@).map_values(
            |g: Seq<char>| ElementV { piece: PieceV::Character(g), style: input_style@ },
        );
        let mut elements: Vec<InputElement> = Vec::new();
        let mut i: usize = 0;
        while i < gs.len()
            invariant
                i <= gs@.len(),
                gv == views(gs@),
                gv == spec_graphemes(value@),
                target == gv.map_values(
                    |g: Seq<char>| ElementV { piece: PieceV::Character(g), style: input_style@ },
                ),
                elements_view(elements@) == target.take(i as int),
            decreases gs@.len() - i,
        {
            let ghost before = elements_view(elements@);
            elements.push(InputElement::character(gs[i].clone(), input_style.duplicate()));
            assert(target[i as int] == ElementV { piece: PieceV::Character(gv[i as int]), style: input_style@ });
            assert(elements_view(elements@) == before.push(target[i as int]));
            assert(target.take(i + 1) == target.take(i as int).push(target[i as int]));
            i = i + 1;
        }
        assert(target.take(i as int) == target);
        self.insert(elements, tables);
    }

    /// Deletes up to `count` graphemes before the cursor.
    #[verifier::rlimit(40)]
    pub fn delete_backward(&mut self, count: usize, tables: &InputTableRegistry)
        requires
            delete_in_order(tables@, old(self)@, count as int),
        ensures
            final(self)@ == delete_backward_spec(tables@, old(self)@, count as int),
            min_int(count as int, old(self)@.cursor) > 0 ==> final(self)@.surface == convert_spec(
                tables@,
                final(self)@.input,
            ),
    {
        let ghost v = self@;
        let count = if count < self.cursor {
            count
        } else {
            self.cursor
        };
        if count == 0 {
            return;
        }
        let mut target = self.force_input_cursor(self.cursor - count, tables);
        let ghost input1 = self@.input;
        let mut current = self.force_input_cursor(self.cursor, tables);
        let ghost input2 = self@.input;
        let ghost t1 = target as int;
        if target > 0 && is_frozen_separator(&self.input[target - 1]) {
            assert(self@.input[target - 1] == self.input@[target - 1]@);
            self.input.remove(target - 1);
            assert(self@.input == input2.remove(t1 - 1));
            target = target - 1;
            current = current - 1;
        } else {
            proof {
                if target > 0 {
                    assert(self@.input[target - 1] == self.input@[target - 1]@);
                }
            }
        }
        assert((self@.input, target as int, current as int) == delete_positions(tables@, v, count as int));
        let input = if target == 0 || current == self.input.len() {
            let none: Vec<InputElement> = Vec::new();
            assert(elements_view(none@) == Seq::<ElementV>::empty());
            let r = splice_elements(&self.input, target, current, none);
            assert(elements_view(self.input@).take(target as int) + Seq::<ElementV>::empty()
                + elements_view(self.input@).skip(current as int) == elements_view(self.input@).take(
                target as int,
            ) + elements_view(self.input@).skip(current as int));
            r
        } else {
            let mut middle: Vec<InputElement> = Vec::new();
            middle.push(InputElement::new(InputPiece::CompositionSeparator, InputStyle::frozen()));
            assert(elements_view(middle@) == seq![separator_element()]);
            splice_elements(&self.input, target, current, middle)
        };
        self.input = input;
        self.cursor = self.cursor - count;
        self.surface = convert_elements(self.input.as_slice(), tables);
    }

    /// Deletes up to `count` graphemes after the cursor.
    pub fn delete_forward(&mut self, count: usize, tables: &InputTableRegistry)
        requires
            old(self)@.wf(),
            delete_in_order(
                tables@,
                ComposingV {
                    cursor: old(self)@.cursor + forward_count(old(self)@, count as int),
                    ..old(self)@
                },
                forward_count(old(self)@, count as int),
            ),
        ensures
            forward_count(old(self)@, count as int) == 0 ==> final(self)@ == old(self)@,
            forward_count(old(self)@, count as int) > 0 ==> final(self)@ == delete_backward_spec(
                tables@,
                ComposingV {
                    cursor: old(self)@.cursor + forward_count(old(self)@, count as int),
                    ..old(self)@
                },
                forward_count(old(self)@, count as int),
            ),
    {
        let room = self.surface.len() - self.cursor;
        let count = if count < room {
            count
        } else {
            room
        };
        if count == 0 {
            return;
        }
        self.cursor = self.cursor + count;
        self.delete_backward(count, tables);
    }

    /// Moves the cursor by `count` graphemes, clamped to the surface, and returns how far it
    /// moved.
    pub fn move_cursor(&mut self, count: isize) -> (moved: isize)
        requires
            old(self)@.wf(),
            old(self)@.surface.len() <= isize::MAX,
        ensures
            moved == clamp(count as int, -old(self)@.cursor, old(self)@.surface.len() - old(self)@.cursor),
            final(self)@ == (ComposingV { cursor: old(self)@.cursor + moved, ..old(self)@ }),
            final(self)@.wf(),
    {
        let minimum = -(self.cursor as isize);
        let maximum = (self.surface.len() - self.cursor) as isize;
        let moved = if count < minimum {
            minimum
        } else if count > maximum {
            maximum
        } else {
            count
        };
        if moved < 0 {
            let back = (-moved) as usize;
            self.cursor = self.cursor - back;
        } else {
            self.cursor = self.cursor + moved as usize;
        }
        moved
    }

    /// Removes the typed input and the surface.
    pub fn stop(&mut self)
        ensures
            final(self)@ == (ComposingV {
                cursor: 0,
                input: Seq::<ElementV>::empty(),
                surface: Seq::<Seq<char>>::empty(),
            }),
    {
        self.input.clear();
        self.surface.clear();
        self.cursor = 0;
        assert(self@.input == Seq::<ElementV>::empty());
        assert(self@.surface == Seq::<Seq<char>>::empty());
    }
}


/// The pairs `(i, i)` for `i` in `0..=n`.
pub open spec fn identity_pairs(n: int) -> Seq<(int, int)> {
    Seq::new((n + 1) as nat, |i: int| (i, i))
}

impl ComposingText {
    /// Completes a prefix of the text: the completed input and surface are removed.
    pub fn complete_prefix(&mut self, count: ComposingCount, tables: &InputTableRegistry)
        requires
            complete_spec(tables@, old(self)@, count) is Some,
        ensures
            complete_spec(tables@, old(self)@, count) == Some(final(self)@),
            old(self)@.wf() ==> final(self)@.wf(),
        decreases count,
    {
        proof {
            if self@.wf() {
                lemma_complete_keeps_cursor(tables@, self@, count);
            }
        }
        match count {
            ComposingCount::Input(count) => {
                let count = if count < self.input.len() {
                    count
                } else {
                    self.input.len()
                };
                let none: Vec<InputElement> = Vec::new();
                assert(elements_view(none@) == Seq::<ElementV>::empty());
                let input = splice_elements(&self.input, 0, count, none);
                assert(elements_view(self.input@).take(0) + Seq::<ElementV>::empty()
                    + elements_view(self.input@).skip(count as int) == elements_view(self.input@).skip(
                    count as int,
                ));
                let new_surface = convert_elements(input.as_slice(), tables);
                let cursor_delta = self.surface.len() - new_surface.len();
                self.input = input;
                self.surface = new_surface;
                self.cursor = self.cursor.saturating_sub(cursor_delta);
                if self.cursor == 0 {
                    self.cursor = self.surface.len();
                }
            },
            ComposingCount::Surface(count) => {
                let count = if count < self.surface.len() {
                    count
                } else {
                    self.surface.len()
                };
                let input_index = self.force_input_cursor(count, tables);
                let none: Vec<InputElement> = Vec::new();
                assert(elements_view(none@) == Seq::<ElementV>::empty());
                let input = splice_elements(&self.input, 0, input_index, none);
                assert(elements_view(self.input@).take(0) + Seq::<ElementV>::empty()
                    + elements_view(self.input@).skip(input_index as int) == elements_view(
                    self.input@,
                ).skip(input_index as int));
                let nothing: Vec<String> = Vec::new();
                assert(views(nothing@) + views(self.surface@).skip(count as int) == views(
                    self.surface@,
                ).skip(count as int));
                let surface = append_suffix(nothing, &self.surface, count);
                self.input = input;
                self.surface = surface;
                self.cursor = self.cursor.saturating_sub(count);
                if self.cursor == 0 {
                    self.cursor = self.surface.len();
                }
            },
            ComposingCount::Composite(left, right) => {
                self.complete_prefix(*left, tables);
                self.complete_prefix(*right, tables);
            },
        }
    }

    /// The text up to the cursor: the input is cut at the (forced) input position of the
    /// cursor and the surface at the cursor.
    pub fn prefix_to_cursor(&self, tables: &InputTableRegistry) -> (t: Self)
        ensures
            ({
                let (input, i) = force_spec(tables@, self@.input, self@.surface, self@.cursor);
                t@ == ComposingV {
                    cursor: self@.cursor,
                    input: input.take(i),
                    surface: if self@.cursor <= self@.surface.len() {
                        self@.surface.take(self@.cursor)
                    } else {
                        self@.surface
                    },
                }
            }),
    {
        let mut text = self.duplicate();
        let input_index = text.force_input_cursor(text.cursor, tables);
        let ghost before = text@;
        text.input.truncate(input_index);
        assert(text@.input == before.input.take(input_index as int));
        let cursor = text.cursor;
        text.surface.truncate(cursor);
        proof {
            if cursor <= before.surface.len() {
                assert(text@.surface == before.surface.take(cursor as int));
            }
        }
        text
    }

    /// Whether every element is a directly typed character, one per surface grapheme.
    fn has_identity_mapping(&self) -> (r: bool)
        ensures
            r == identity_mapping(self@),
    {
        if self.input.len() != self.surface.len() {
            return false;
        }
        let mut i: usize = 0;
        while i < self.input.len()
            invariant
                i <= self.input@.len(),
                self@.input.len() == self.input@.len(),
                forall|j: int|
                    0 <= j < i ==> (#[trigger] self@.input[j]).style == StyleV::Direct
                        && self@.input[j].piece is Character,
            decreases self.input@.len() - i,
        {
            assert(self@.input[i as int] == self.input@[i as int]@);
            let direct = match &self.input[i].input_style {
                InputStyle::Direct => true,
                _ => false,
            };
            let character = match &self.input[i].piece {
                InputPiece::Character(_) => true,
                _ => false,
            };
            if !(direct && character) {
                return false;
            }
            i = i + 1;
        }
        true
    }

    /// Which input positions are also surface positions, and which surface positions they
    /// are.
    pub fn input_to_surface_map(&self, tables: &InputTableRegistry) -> (m: HashMap<usize, usize>)
        ensures
            m@ == surface_map_spec(tables@, self@),
    {
        let mut map: HashMap<usize, usize> = HashMap::new();
        if self.has_identity_mapping() {
            let n = self.input.len();
            let ghost pairs = identity_pairs(n as int);
            map.insert(0, 0);
            assert(pairs.take(1).drop_last() == Seq::<(int, int)>::empty());
            assert(pairs.take(1).last() == (0int, 0int));
            assert(pairs_map(Seq::<(int, int)>::empty()) == Map::<usize, usize>::empty());
            assert(map@ == Map::<usize, usize>::empty().insert(0usize, 0usize));
            assert(map@ == pairs_map(pairs.take(1)));
            let mut i: usize = 0;
            while i < n
                invariant
                    i <= n,
                    n == self@.input.len(),
                    pairs == identity_pairs(n as int),
                    map@ == pairs_map(pairs.take(i + 1)),
                decreases n - i,
            {
                i = i + 1;
                map.insert(i, i);
                assert(pairs.take(i + 1).drop_last() == pairs.take(i as int));
                assert(pairs.take(i + 1).last() == (i as int, i as int));
            }
            assert(pairs.take(n + 1) == pairs);
            return map;
        }
        let boundaries = self.independent_boundaries(tables);
        let ghost bv = pairs_view(boundaries@);
        let mut k: usize = 0;
        assert(bv.take(0) == Seq::<(int, int)>::empty());
        while k < boundaries.len()
            invariant
                k <= boundaries@.len(),
                bv == pairs_view(boundaries@),
                map@ == pairs_map(bv.take(k as int)),
            decreases boundaries@.len() - k,
        {
            let pair = boundaries[k];
            map.insert(pair.input, pair.surface);
            assert(bv.take(k + 1).drop_last() == bv.take(k as int));
            assert(bv.take(k + 1).last() == (pair.input as int, pair.surface as int));
            k = k + 1;
        }
        assert(bv.take(k as int) == bv);
        map
    }

    /// How this text differs from `previous` after their common prefixes.
    pub fn difference_suffix(&self, previous: &Self) -> (d: DifferenceSuffix)
        ensures
            d.deleted_input == previous@.input.len() - common_prefix_len(self@.input, previous@.input),
            d.added_input == self@.input.len() - common_prefix_len(self@.input, previous@.input),
            d.deleted_surface == previous@.surface.len() - common_prefix_len(
                self@.surface,
                previous@.surface,
            ),
            d.added_surface == self@.surface.len() - common_prefix_len(self@.surface, previous@.surface),
    {
        let input_common = common_elements_len(&self.input, &previous.input);
        let surface_common = common_graphemes_len(&self.surface, &previous.surface);
        proof {
            lemma_common_prefix_len(self@.input, previous@.input);
            lemma_common_prefix_len(self@.surface, previous@.surface);
        }
        DifferenceSuffix {
            deleted_input: previous.input.len() - input_common,
            added_input: self.input.len() - input_common,
            deleted_surface: previous.surface.len() - surface_common,
            added_surface: self.surface.len() - surface_common,
        }
    }

    /// Whether the input of `suffix` is a suffix of this input.
    pub fn input_has_suffix(&self, suffix: &Self) -> (r: bool)
        ensures
            r == (suffix@.input.len() <= self@.input.len() && self@.input.skip(
                self@.input.len() - suffix@.input.len(),
            ) == suffix@.input),
    {
        let n = self.input.len();
        let m = suffix.input.len();
        if m > n {
            return false;
        }
        let offset = n - m;
        let ghost tail = self@.input.skip(offset as int);
        let mut i: usize = 0;
        while i < m
            invariant
                i <= m,
                m == suffix@.input.len(),
                offset + m == self@.input.len(),
                n == self@.input.len(),
                tail == self@.input.skip(offset as int),
                forall|j: int| 0 <= j < i ==> tail[j] == suffix@.input[j],
            decreases m - i,
        {
            assert(tail[i as int] == self.input@[offset + i]@);
            assert(suffix@.input[i as int] == suffix.input@[i as int]@);
            if !self.input[offset + i].same_as(&suffix.input[i]) {
                return false;
            }
            i = i + 1;
        }
        assert(tail == suffix@.input);
        true
    }
}


/// Typing at the end of the text composes the whole input: after the insertion the surface
/// is the conversion of the whole input and the cursor is at its end.
pub proof fn lemma_insert_at_end(reg: RegistryV, v: ComposingV, es: Seq<ElementV>)
    requires
        v.wf(),
        v.cursor == v.surface.len(),
        v.surface.len() > 0 || v.input.len() == 0,
        es.len() > 0,
    ensures
        insert_spec(reg, v, es).surface == convert_spec(reg, insert_spec(reg, v, es).input),
        insert_spec(reg, v, es).cursor == insert_spec(reg, v, es).surface.len(),
{
    let (input1, ic1) = force_spec(reg, v.input, v.surface, v.cursor);
    assert(ic1 == input1.len());
    let drop_sep = ic1 > 0 && input1[ic1 - 1] == separator_element();
    let input2 = if drop_sep {
        input1.remove(ic1 - 1)
    } else {
        input1
    };
    let ic = if drop_sep {
        ic1 - 1
    } else {
        ic1
    };
    assert(ic == input2.len());
    assert(input2.take(ic) == input2);
    assert(input2.skip(ic) == Seq::<ElementV>::empty());
    let input3 = input2.take(ic) + es + input2.skip(ic);
    assert(input3.take(ic + es.len()) == input3);
    assert(v.surface.skip(v.cursor) == Seq::<Seq<char>>::empty());
    let prefix = convert_spec(reg, input3);
    assert(prefix + Seq::<Seq<char>>::empty() == prefix);
}

/// The sequence that registering a table builds holds it under its name.
proof fn lemma_register_position(
    custom: Seq<(Seq<char>, Seq<MappingV>)>,
    name: Seq<char>,
    table: Seq<MappingV>,
)
    ensures
        ({
            let updated = register_spec(custom, name, table);
            match custom_position(updated, name) {
                Some(i) => 0 <= i < updated.len() && updated[i] == (name, table),
                None => false,
            }
        }),
{
    let updated = register_spec(custom, name, table);
    lemma_custom_position(custom, name);
    lemma_custom_position(updated, name);
    match custom_position(custom, name) {
        Some(i) => {
            assert(updated[i] == (name, table));
            assert forall|j: int| 0 <= j < i implies (#[trigger] updated[j]).0 != name by {
                assert(updated[j] == custom[j]);
            }
            if custom_position(updated, name) != Some(i) {
                match custom_position(updated, name) {
                    Some(k) => {
                        if k < i {
                            assert(updated[k] == custom[k]);
                        }
                    },
                    None => {
                        assert(updated[i].0 == name);
                    },
                }
            }
        },
        None => {
            let i = custom.len() as int;
            assert(updated[i] == (name, table));
            assert forall|j: int| 0 <= j < i implies (#[trigger] updated[j]).0 != name by {
                assert(updated[j] == custom[j]);
            }
            if custom_position(updated, name) != Some(i) {
                match custom_position(updated, name) {
                    Some(k) => {
                        assert(updated[k] == custom[k]);
                    },
                    None => {
                        assert(updated[i].0 == name);
                    },
                }
            }
        },
    }
}

/// A table registered under a name is the one that elements mapped to that name use.
pub proof fn lemma_register_then_resolve(reg: RegistryV, name: Seq<char>, table: Seq<MappingV>)
    ensures
        resolve_spec(
            RegistryV { custom: register_spec(reg.custom, name, table), ..reg },
            StyleV::Mapped(TableIdV::Named(name)),
        ) == Some(table),
{
    lemma_register_position(reg.custom, name, table);
}

/// A text differs from itself in nothing.
pub proof fn lemma_difference_with_itself(v: ComposingV)
    ensures
        common_prefix_len(v.input, v.input) == v.input.len(),
        common_prefix_len(v.surface, v.surface) == v.surface.len(),
{
    lemma_common_prefix_first_difference(v.input, v.input, v.input.len() as int);
    lemma_common_prefix_first_difference(v.surface, v.surface, v.surface.len() as int);
}

/// Moving the cursor by an amount that keeps it within the surface moves it by exactly that
/// amount, and moving back returns it to where it was.
pub proof fn lemma_move_within(v: ComposingV, count: int)
    requires
        v.wf(),
        0 <= v.cursor + count <= v.surface.len(),
    ensures
        clamp(count, -v.cursor, v.surface.len() - v.cursor) == count,
        clamp(-count, -(v.cursor + count), v.surface.len() - (v.cursor + count)) == -count,
{
}

} // verus!
