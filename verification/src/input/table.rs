//! Input tables: rules that rewrite the tail of a grapheme buffer when a new piece is typed.
use std::collections::BTreeSet;

use vstd::prelude::*;

use crate::input::rules::{AZIK_RULES, KANA_JIS_RULES, KANA_US_RULES, ROMAN_TO_KANA_RULES};
use crate::kana::{katakana_seq, to_katakana};
use crate::text::{
    chars_of, concat_strings, find_char, graphemes, lines_of, lines_spec, slice_chars, spec_graphemes,
    split_once_spec, string_from_chars, views,
};

verus! {

/// A modifier key held while a key is pressed.
#[derive(Clone, Copy, Debug, Eq, Hash, Ord, PartialEq, PartialOrd)]
pub enum InputModifier {
    Shift,
}

/// One typed unit: a grapheme, a composition separator, or a physical key.
#[derive(Clone, Debug, Eq, Hash, PartialEq)]
pub enum InputPiece {
    Character(String),
    CompositionSeparator,
    Key { intention: Option<String>, input: String, modifiers: BTreeSet<InputModifier> },
}

/// Mathematical view of an [`InputPiece`]; `shifted` records whether the modifier set
/// (whose only possible member is `Shift`) is non-empty.
pub enum PieceV {
    Character(Seq<char>),
    Separator,
    Key { intention: Option<Seq<char>>, input: Seq<char>, shifted: bool },
}

pub open spec fn opt_view(o: Option<String>) -> Option<Seq<char>> {
    match o {
        Some(s) => Some(s@),
        None => None,
    }
}

impl View for InputPiece {
    type V = PieceV;

    open spec fn view(&self) -> PieceV {
        match self {
            InputPiece::Character(s) => PieceV::Character(s@),
            InputPiece::CompositionSeparator => PieceV::Separator,
            InputPiece::Key { intention, input, modifiers } => PieceV::Key {
                intention: opt_view(*intention),
                input: input@,
                shifted: !modifiers@.is_empty(),
            },
        }
    }
}

/// One element of a rule's key.
#[derive(Clone, Debug, Eq, Hash, PartialEq)]
pub enum KeyElement {
    Piece(InputPiece),
    Any,
}

pub enum KeyV {
    Piece(PieceV),
    Any,
}

impl View for KeyElement {
    type V = KeyV;

    open spec fn view(&self) -> KeyV {
        match self {
            KeyElement::Piece(p) => KeyV::Piece(p@),
            KeyElement::Any => KeyV::Any,
        }
    }
}

/// One element of a rule's output.
#[derive(Clone, Debug, Eq, Hash, PartialEq)]
pub enum ValueElement {
    Character(String),
    Any,
}

pub enum ValueV {
    Character(Seq<char>),
    Any,
}

impl View for ValueElement {
    type V = ValueV;

    open spec fn view(&self) -> ValueV {
        match self {
            ValueElement::Character(s) => ValueV::Character(s@),
            ValueElement::Any => ValueV::Any,
        }
    }
}

pub open spec fn key_view(key: Seq<KeyElement>) -> Seq<KeyV> {
    key.map_values(|k: KeyElement| k@)
}

pub open spec fn value_view(value: Seq<ValueElement>) -> Seq<ValueV> {
    value.map_values(|v: ValueElement| v@)
}

/// A rule of an input table.
pub struct MappingV {
    pub key: Seq<KeyV>,
    pub value: Seq<ValueV>,
}

#[derive(Clone, Debug)]
struct Mapping {
    key: Vec<KeyElement>,
    value: Vec<ValueElement>,
}

impl View for Mapping {
    type V = MappingV;

    closed spec fn view(&self) -> MappingV {
        MappingV { key: key_view(self.key@), value: value_view(self.value@) }
    }
}

/// An ordered list of rewrite rules with pairwise distinct keys.
#[derive(Clone, Debug)]
pub struct InputTable {
    mappings: Vec<Mapping>,
}

impl View for InputTable {
    type V = Seq<MappingV>;

    closed spec fn view(&self) -> Seq<MappingV> {
        self.mappings@.map_values(|m: Mapping| m@)
    }
}

/// The text shown for a piece: a character itself, a key's intention (or its input), and
/// nothing for a composition separator.
pub open spec fn displayed(p: PieceV) -> Option<Seq<char>> {
    match p {
        PieceV::Character(v) => Some(v),
        PieceV::Separator => None,
        PieceV::Key { intention, input, .. } => match intention {
            Some(i) => Some(i),
            None => Some(input),
        },
    }
}

/// Whether a typed piece satisfies a key element that is a concrete piece.
pub open spec fn piece_matches(expected: PieceV, current: PieceV) -> bool {
    match expected {
        PieceV::Character(e) => displayed(current) == Some(e),
        PieceV::Separator => current is Separator,
        PieceV::Key { input: ei, shifted: es, .. } => match current {
            PieceV::Key { shifted, .. } => displayed(current) == Some(ei) && shifted == es,
            _ => false,
        },
    }
}

/// The piece compared with position `p` of a key of length `n`: the last position sees the
/// newly added piece, earlier positions see the buffer's trailing graphemes.
pub open spec fn current_piece(n: int, buffer: Seq<Seq<char>>, added: PieceV, p: int) -> PieceV {
    let depth = n - 1 - p;
    if depth == 0 {
        added
    } else {
        PieceV::Character(buffer[buffer.len() - depth])
    }
}

/// Whether the key of a rule matches the buffer's tail followed by `added`.
pub open spec fn key_matches(key: Seq<KeyV>, buffer: Seq<Seq<char>>, added: PieceV) -> bool {
    &&& key.len() > 0
    &&& key.len() - 1 <= buffer.len()
    &&& forall|p: int|
        0 <= p < key.len() && (#[trigger] key[p]) is Piece ==> piece_matches(
            key[p]->0,
            current_piece(key.len() as int, buffer, added, p),
        )
    &&& forall|p: int, q: int|
        0 <= p < key.len() && 0 <= q < key.len() && (#[trigger] key[p]) is Any
            && (#[trigger] key[q]) is Any ==> current_piece(key.len() as int, buffer, added, p)
            == current_piece(key.len() as int, buffer, added, q)
}

/// Number of wildcard elements in a key.
pub open spec fn count_any(key: Seq<KeyV>) -> nat
    decreases key.len(),
{
    if key.len() == 0 {
        0
    } else {
        (if key[0] is Any { 1nat } else { 0nat }) + count_any(key.drop_first())
    }
}

pub open spec fn is_key_piece(k: KeyV) -> bool {
    match k {
        KeyV::Piece(PieceV::Key { .. }) => true,
        _ => false,
    }
}

/// Number of physical-key elements in a key.
pub open spec fn count_keys(key: Seq<KeyV>) -> nat
    decreases key.len(),
{
    if key.len() == 0 {
        0
    } else {
        (if is_key_piece(key[0]) { 1nat } else { 0nat }) + count_keys(key.drop_first())
    }
}

/// Position of the last wildcard of a key, if any.
pub open spec fn last_any(key: Seq<KeyV>) -> Option<int>
    decreases key.len(),
{
    if key.len() == 0 {
        None
    } else if key.last() is Any {
        Some(key.len() - 1)
    } else {
        last_any(key.drop_last())
    }
}

/// A successful rule match.
pub struct MatchV {
    pub index: int,
    pub depth: int,
    pub wildcards: int,
    pub exact: int,
    pub resolved: Option<PieceV>,
}

/// The match of rule `i`, if its key matches.
pub open spec fn match_spec(
    mappings: Seq<MappingV>,
    i: int,
    buffer: Seq<Seq<char>>,
    added: PieceV,
) -> Option<MatchV> {
    let key = mappings[i].key;
    if key_matches(key, buffer, added) {
        Some(
            MatchV {
                index: i,
                depth: key.len() as int,
                wildcards: count_any(key) as int,
                exact: count_keys(key) as int,
                resolved: match last_any(key) {
                    Some(p) => Some(current_piece(key.len() as int, buffer, added, p)),
                    None => None,
                },
            },
        )
    } else {
        None
    }
}

/// Rule preference: longer keys first, then fewer wildcards, then more physical keys,
/// then earlier rules.
pub open spec fn better(a: MatchV, b: MatchV) -> bool {
    ||| a.depth > b.depth
    ||| a.depth == b.depth && a.wildcards < b.wildcards
    ||| a.depth == b.depth && a.wildcards == b.wildcards && a.exact > b.exact
    ||| a.depth == b.depth && a.wildcards == b.wildcards && a.exact == b.exact && a.index < b.index
}

/// The preferred match among the first `n` rules.
pub open spec fn best_upto(
    mappings: Seq<MappingV>,
    buffer: Seq<Seq<char>>,
    added: PieceV,
    n: int,
) -> Option<MatchV>
    decreases n,
{
    if n <= 0 {
        None
    } else {
        let prev = best_upto(mappings, buffer, added, n - 1);
        match match_spec(mappings, n - 1, buffer, added) {
            None => prev,
            Some(m) => match prev {
                None => Some(m),
                Some(p) => if better(p, m) {
                    Some(p)
                } else {
                    Some(m)
                },
            },
        }
    }
}

pub open spec fn resolved_display(resolved: Option<PieceV>) -> Option<Seq<char>> {
    match resolved {
        Some(p) => displayed(p),
        None => None,
    }
}

/// Graphemes produced by a rule's value, with wildcards replaced by the matched text.
pub open spec fn value_output(values: Seq<ValueV>, resolved: Option<PieceV>) -> Seq<Seq<char>>
    decreases values.len(),
{
    if values.len() == 0 {
        Seq::empty()
    } else {
        value_output(values.drop_last(), resolved) + match values.last() {
            ValueV::Character(v) => seq![v],
            ValueV::Any => match resolved_display(resolved) {
                Some(d) => seq![d],
                None => Seq::empty(),
            },
        }
    }
}

pub open spec fn option_seq(o: Option<Seq<char>>) -> Seq<Seq<char>> {
    match o {
        Some(v) => seq![v],
        None => Seq::empty(),
    }
}

/// Buffer after typing `added`, and the number of trailing graphemes the rule consumed.
pub open spec fn apply_spec(mappings: Seq<MappingV>, buffer: Seq<Seq<char>>, added: PieceV) -> (
    Seq<Seq<char>>,
    int,
) {
    match best_upto(mappings, buffer, added, mappings.len() as int) {
        Some(m) => {
            let deleted = m.depth - 1;
            (
                buffer.take(buffer.len() - deleted) + value_output(
                    mappings[m.index].value,
                    m.resolved,
                ),
                deleted,
            )
        },
        None => (buffer + option_seq(displayed(added)), 0),
    }
}

struct Match {
    mapping_index: usize,
    depth: usize,
    wildcard_count: usize,
    exact_key_count: usize,
    resolved_wildcard: Option<InputPiece>,
}

pub open spec fn opt_piece_view(o: Option<InputPiece>) -> Option<PieceV> {
    match o {
        Some(p) => Some(p@),
        None => None,
    }
}

impl View for Match {
    type V = MatchV;

    closed spec fn view(&self) -> MatchV {
        MatchV {
            index: self.mapping_index as int,
            depth: self.depth as int,
            wildcards: self.wildcard_count as int,
            exact: self.exact_key_count as int,
            resolved: opt_piece_view(self.resolved_wildcard),
        }
    }
}

pub fn clone_string_option(o: &Option<String>) -> (r: Option<String>)
    ensures
        opt_view(r) == opt_view(*o),
{
    match o {
        Some(s) => Some(s.clone()),
        None => None,
    }
}

fn clone_modifiers(m: &BTreeSet<InputModifier>) -> (r: BTreeSet<InputModifier>)
    ensures
        r@ == m@,
{
    m.clone()
}

impl InputPiece {
    /// A character piece.
    pub fn character(value: String) -> (p: Self)
        ensures
            p@ == PieceV::Character(value@),
    {
        InputPiece::Character(value)
    }

    /// A copy with the same view.
    pub fn duplicate(&self) -> (p: Self)
        ensures
            p@ == self@,
    {
        match self {
            InputPiece::Character(s) => InputPiece::Character(s.clone()),
            InputPiece::CompositionSeparator => InputPiece::CompositionSeparator,
            InputPiece::Key { intention, input, modifiers } => InputPiece::Key {
                intention: clone_string_option(intention),
                input: input.clone(),
                modifiers: clone_modifiers(modifiers),
            },
        }
    }

    /// The displayed text of the piece.
    pub fn displayed(&self) -> (d: Option<String>)
        ensures
            opt_view(d) == displayed(self@),
    {
        match self {
            InputPiece::Character(s) => Some(s.clone()),
            InputPiece::CompositionSeparator => None,
            InputPiece::Key { intention, input, .. } => match intention {
                Some(i) => Some(i.clone()),
                None => Some(input.clone()),
            },
        }
    }

    /// Whether two pieces have the same view.
    pub fn same_as(&self, other: &Self) -> (r: bool)
        ensures
            r == (self@ == other@),
    {
        match (self, other) {
            (InputPiece::Character(a), InputPiece::Character(b)) => *a == *b,
            (InputPiece::CompositionSeparator, InputPiece::CompositionSeparator) => true,
            (
                InputPiece::Key { intention: ia, input: na, modifiers: ma },
                InputPiece::Key { intention: ib, input: nb, modifiers: mb },
            ) => {
                let same_intention = match (ia, ib) {
                    (Some(x), Some(y)) => *x == *y,
                    (None, None) => true,
                    _ => false,
                };
                same_intention && *na == *nb && ma.is_empty() == mb.is_empty()
            },
            _ => false,
        }
    }
}

impl KeyElement {
    pub fn duplicate(&self) -> (k: Self)
        ensures
            k@ == self@,
    {
        match self {
            KeyElement::Piece(p) => KeyElement::Piece(p.duplicate()),
            KeyElement::Any => KeyElement::Any,
        }
    }

    pub fn same_as(&self, other: &Self) -> (r: bool)
        ensures
            r == (self@ == other@),
    {
        match (self, other) {
            (KeyElement::Piece(a), KeyElement::Piece(b)) => a.same_as(b),
            (KeyElement::Any, KeyElement::Any) => true,
            _ => false,
        }
    }
}

impl ValueElement {
    pub fn duplicate(&self) -> (v: Self)
        ensures
            v@ == self@,
    {
        match self {
            ValueElement::Character(s) => ValueElement::Character(s.clone()),
            ValueElement::Any => ValueElement::Any,
        }
    }
}

fn piece_matches_exec(expected: &InputPiece, current: &InputPiece) -> (r: bool)
    ensures
        r == piece_matches(expected@, current@),
{
    match expected {
        InputPiece::Character(e) => match current.displayed() {
            Some(d) => d == *e,
            None => false,
        },
        InputPiece::CompositionSeparator => match current {
            InputPiece::CompositionSeparator => true,
            _ => false,
        },
        InputPiece::Key { input: ei, modifiers: em, .. } => match current {
            InputPiece::Key { modifiers, .. } => {
                let d = current.displayed();
                match d {
                    Some(d) => d == *ei && modifiers.is_empty() == em.is_empty(),
                    None => false,
                }
            },
            _ => false,
        },
    }
}

proof fn lemma_last_any(key: Seq<KeyV>)
    ensures
        match last_any(key) {
            Some(p) => 0 <= p < key.len() && key[p] is Any && forall|q: int|
                p < q < key.len() ==> !(#[trigger] key[q] is Any),
            None => forall|q: int| 0 <= q < key.len() ==> !(#[trigger] key[q] is Any),
        },
    decreases key.len(),
{
    if key.len() > 0 && !(key.last() is Any) {
        lemma_last_any(key.drop_last());
        assert forall|q: int| 0 <= q < key.len() - 1 implies key[q] == key.drop_last()[q] by {}
    }
}

proof fn lemma_counts_front(key: Seq<KeyV>, j: int)
    requires
        0 <= j < key.len(),
    ensures
        count_any(key.subrange(j, key.len() as int)) == (if key[j] is Any { 1nat } else { 0nat })
            + count_any(key.subrange(j + 1, key.len() as int)),
        count_keys(key.subrange(j, key.len() as int)) == (if is_key_piece(key[j]) { 1nat } else { 0nat })
            + count_keys(key.subrange(j + 1, key.len() as int)),
{
    assert(key.subrange(j, key.len() as int).drop_first() == key.subrange(j + 1, key.len() as int));
}

impl InputTable {
    proof fn lemma_view(&self, i: int)
        requires
            0 <= i < self.mappings@.len(),
        ensures
            self@.len() == self.mappings@.len(),
            self@[i] == self.mappings@[i]@,
    {
    }

    /// Tests one rule against the buffer and the added piece.
    fn match_mapping(
        &self,
        mapping_index: usize,
        buffer: &Vec<String>,
        added: &InputPiece,
    ) -> (r: Option<Match>)
        requires
            mapping_index < self.mappings@.len(),
        ensures
            match r {
                Some(m) => match_spec(self@, mapping_index as int, views(buffer@), added@) == Some(m@),
                None => match_spec(self@, mapping_index as int, views(buffer@), added@) is None,
            },
    {
        let mapping = &self.mappings[mapping_index];
        let ghost key = mapping@.key;
        let ghost buf = views(buffer@);
        let ghost n = key.len() as int;
        proof {
            self.lemma_view(mapping_index as int);
            lemma_last_any(key);
        }
        let k = mapping.key.len();
        if k == 0 {
            return None;
        }
        let mut resolved: Option<InputPiece> = None;
        let mut wildcard_count: usize = 0;
        let mut exact_key_count: usize = 0;
        let mut depth: usize = 0;
        while depth < k
            invariant
                key == mapping@.key,
                key == self@[mapping_index as int].key,
                buf == views(buffer@),
                n == k,
                k == mapping.key@.len(),
                0 < k,
                depth <= k,
                depth > 0 ==> depth - 1 <= buffer@.len(),
                forall|p: int|
                    k - depth <= p < k && (#[trigger] key[p]) is Piece ==> piece_matches(
                        key[p]->0,
                        current_piece(n, buf, added@, p),
                    ),
                forall|p: int, q: int|
                    k - depth <= p < k && k - depth <= q < k && (#[trigger] key[p]) is Any
                        && (#[trigger] key[q]) is Any ==> current_piece(n, buf, added@, p)
                        == current_piece(n, buf, added@, q),
                opt_piece_view(resolved) == (match last_any(key) {
                    Some(p) => if p >= k - depth {
                        Some(current_piece(n, buf, added@, p))
                    } else {
                        None
                    },
                    None => None,
                }),
                wildcard_count == count_any(key.subrange(k - depth, n)),
                exact_key_count == count_keys(key.subrange(k - depth, n)),
                wildcard_count <= depth,
                exact_key_count <= depth,
            decreases k - depth,
        {
            let p: usize = k - 1 - depth;
            let current = if depth == 0 {
                added.duplicate()
            } else {
                if buffer.len() < depth {
                    proof {
                        assert(!key_matches(key, buf, added@));
                    }
                    return None;
                }
                InputPiece::Character(buffer[buffer.len() - depth].clone())
            };
            assert(current@ == current_piece(n, buf, added@, p as int));
            proof {
                lemma_counts_front(key, p as int);
                lemma_last_any(key);
            }
            match &mapping.key[p] {
                KeyElement::Any => {
                    assert(key[p as int] is Any);
                    match &resolved {
                        Some(previous) => {
                            let ghost lp = last_any(key)->0;
                            assert(last_any(key) is Some);
                            assert(lp >= k - depth);
                            assert(previous@ == current_piece(n, buf, added@, lp));
                            if !previous.same_as(&current) {
                                proof {
                                    assert(key[lp] is Any);
                                    assert(key[p as int] is Any);
                                    assert(!key_matches(key, buf, added@));
                                }
                                return None;
                            }
                            proof {
                                assert forall|a: int, b: int|
                                    k - depth - 1 <= a < k && k - depth - 1 <= b < k && (#[trigger] key[a]) is Any
                                        && (#[trigger] key[b]) is Any implies current_piece(n, buf, added@, a)
                                        == current_piece(n, buf, added@, b) by {
                                    assert(key[lp] is Any);
                                }
                            }
                        },
                        None => {
                            proof {
                                assert(last_any(key) is Some);
                                let lp = last_any(key)->0;
                                assert(lp == p);
                                assert forall|a: int, b: int|
                                    k - depth - 1 <= a < k && k - depth - 1 <= b < k && (#[trigger] key[a]) is Any
                                        && (#[trigger] key[b]) is Any implies current_piece(n, buf, added@, a)
                                        == current_piece(n, buf, added@, b) by {
                                    assert(a == p && b == p);
                                }
                            }
                            resolved = Some(current);
                        },
                    }
                    wildcard_count = wildcard_count + 1;
                },
                KeyElement::Piece(expected) => {
                    assert(key[p as int] is Piece);
                    assert(key[p as int]->0 == expected@);
                    if !piece_matches_exec(expected, &current) {
                        proof {
                            assert(!key_matches(key, buf, added@));
                        }
                        return None;
                    }
                    match expected {
                        InputPiece::Key { .. } => {
                            exact_key_count = exact_key_count + 1;
                        },
                        _ => {},
                    }
                },
            }
            depth = depth + 1;
        }
        proof {
            assert(key.subrange(0, n) == key);
        }
        Some(
            Match {
                mapping_index,
                depth: k,
                wildcard_count,
                exact_key_count,
                resolved_wildcard: resolved,
            },
        )
    }
}

spec fn opt_match_view(o: Option<Match>) -> Option<MatchV> {
    match o {
        Some(m) => Some(m@),
        None => None,
    }
}

proof fn lemma_best_upto(mappings: Seq<MappingV>, buffer: Seq<Seq<char>>, added: PieceV, n: int)
    ensures
        match best_upto(mappings, buffer, added, n) {
            Some(m) => 0 <= m.index < n && match_spec(mappings, m.index, buffer, added) == Some(m),
            None => true,
        },
    decreases n,
{
    if n > 0 {
        lemma_best_upto(mappings, buffer, added, n - 1);
    }
}

fn better_exec(a: &Match, b: &Match) -> (r: bool)
    ensures
        r == better(a@, b@),
{
    a.depth > b.depth || (a.depth == b.depth && a.wildcard_count < b.wildcard_count) || (a.depth
        == b.depth && a.wildcard_count == b.wildcard_count && a.exact_key_count
        > b.exact_key_count) || (a.depth == b.depth && a.wildcard_count == b.wildcard_count
        && a.exact_key_count == b.exact_key_count && a.mapping_index < b.mapping_index)
}

impl InputTable {
    proof fn lemma_views(&self)
        ensures
            self@.len() == self.mappings@.len(),
            forall|i: int| 0 <= i < self@.len() ==> #[trigger] self@[i] == self.mappings@[i]@,
    {
    }

    /// Types `added` at the end of `buffer`: the preferred matching rule replaces the
    /// buffer's matched tail by its value; without a match the piece's displayed text is
    /// appended. Returns the number of graphemes the rule removed from the buffer.
    pub fn apply(&self, buffer: &mut Vec<String>, added: InputPiece) -> (deleted: usize)
        ensures
            views(final(buffer)@) == apply_spec(self@, views(old(buffer)@), added@).0,
            deleted == apply_spec(self@, views(old(buffer)@), added@).1,
    {
        let ghost buf = views(buffer@);
        let mut best: Option<Match> = None;
        let mut i: usize = 0;
        while i < self.mappings.len()
            invariant
                i <= self.mappings@.len(),
                buf == views(buffer@),
                opt_match_view(best) == best_upto(self@, buf, added@, i as int),
            decreases self.mappings@.len() - i,
        {
            proof {
                self.lemma_views();
            }
            let found = self.match_mapping(i, buffer, &added);
            match found {
                Some(m) => {
                    best = match best {
                        None => Some(m),
                        Some(b) => if better_exec(&b, &m) {
                            Some(b)
                        } else {
                            Some(m)
                        },
                    };
                },
                None => {},
            }
            i = i + 1;
        }
        proof {
            self.lemma_views();
            lemma_best_upto(self@, buf, added@, self@.len() as int);
        }
        match best {
            Some(best) => {
                let mapping = &self.mappings[best.mapping_index];
                let delete_count = best.depth - 1;
                let keep = buffer.len() - delete_count;
                buffer.truncate(keep);
                let ghost kept = views(buffer@);
                assert(kept == buf.take(buf.len() - delete_count));
                let resolved = match &best.resolved_wildcard {
                    Some(p) => p.displayed(),
                    None => None,
                };
                assert(opt_view(resolved) == resolved_display(best@.resolved));
                let ghost values = mapping@.value;
                assert(values == self@[best.mapping_index as int].value);
                let mut j: usize = 0;
                while j < mapping.value.len()
                    invariant
                        j <= mapping.value@.len(),
                        values == mapping@.value,
                        values.len() == mapping.value@.len(),
                        opt_view(resolved) == resolved_display(best@.resolved),
                        views(buffer@) == kept + value_output(values.take(j as int), best@.resolved),
                    decreases mapping.value@.len() - j,
                {
                    proof {
                        assert(values.take(j + 1).drop_last() == values.take(j as int));
                        assert(values.take(j + 1).last() == mapping.value@[j as int]@);
                    }
                    let ghost before = buffer@;
                    match &mapping.value[j] {
                        ValueElement::Character(v) => {
                            buffer.push(v.clone());
                            assert(views(buffer@) == views(before).push(v@));
                        },
                        ValueElement::Any => {
                            match &resolved {
                                Some(d) => {
                                    buffer.push(d.clone());
                                    assert(views(buffer@) == views(before).push(d@));
                                },
                                None => {},
                            }
                        },
                    }
                    j = j + 1;
                }
                assert(values.take(j as int) == values);
                delete_count
            },
            None => {
                match added.displayed() {
                    Some(d) => {
                        buffer.push(d);
                        assert(views(buffer@) == buf + seq![d@]);
                    },
                    None => {
                        assert(buf + Seq::<Seq<char>>::empty() == buf);
                    },
                }
                0
            },
        }
    }
}

/// The rule an `(key, value)` entry describes.
pub open spec fn entry_view(e: (Vec<KeyElement>, Vec<ValueElement>)) -> MappingV {
    MappingV { key: key_view(e.0@), value: value_view(e.1@) }
}

pub open spec fn entries_view(es: Seq<(Vec<KeyElement>, Vec<ValueElement>)>) -> Seq<MappingV> {
    es.map_values(|e: (Vec<KeyElement>, Vec<ValueElement>)| entry_view(e))
}

/// The first rule whose key equals `key`.
pub open spec fn key_position(table: Seq<MappingV>, key: Seq<KeyV>) -> Option<int>
    decreases table.len(),
{
    if table.len() == 0 {
        None
    } else {
        match key_position(table.drop_last(), key) {
            Some(i) => Some(i),
            None => if table.last().key == key {
                Some(table.len() - 1)
            } else {
                None
            },
        }
    }
}

pub proof fn lemma_key_position(table: Seq<MappingV>, key: Seq<KeyV>)
    ensures
        match key_position(table, key) {
            Some(i) => 0 <= i < table.len() && table[i].key == key && forall|j: int|
                0 <= j < i ==> (#[trigger] table[j]).key != key,
            None => forall|j: int| 0 <= j < table.len() ==> (#[trigger] table[j]).key != key,
        },
    decreases table.len(),
{
    if table.len() > 0 {
        lemma_key_position(table.drop_last(), key);
        assert forall|j: int| 0 <= j < table.len() - 1 implies table.drop_last()[j] == table[j] by {}
    }
}

/// Adds a rule: a rule with the same key keeps its position and takes the new value,
/// otherwise the rule is appended.
pub open spec fn insert_rule(table: Seq<MappingV>, rule: MappingV) -> Seq<MappingV> {
    match key_position(table, rule.key) {
        Some(i) => table.update(i, rule),
        None => table.push(rule),
    }
}

/// The table built from rules in order; later rules replace earlier ones with the same key.
pub open spec fn table_from(rules: Seq<MappingV>) -> Seq<MappingV>
    decreases rules.len(),
{
    if rules.len() == 0 {
        Seq::empty()
    } else {
        insert_rule(table_from(rules.drop_last()), rules.last())
    }
}

/// No two rules share a key.
pub open spec fn distinct_keys(table: Seq<MappingV>) -> bool {
    forall|i: int, j: int|
        0 <= i < table.len() && 0 <= j < table.len() && i != j ==> (#[trigger] table[i]).key
            != (#[trigger] table[j]).key
}

pub proof fn lemma_insert_rule_distinct(table: Seq<MappingV>, rule: MappingV)
    requires
        distinct_keys(table),
    ensures
        distinct_keys(insert_rule(table, rule)),
{
    lemma_key_position(table, rule.key);
}

pub proof fn lemma_table_from_distinct(rules: Seq<MappingV>)
    ensures
        distinct_keys(table_from(rules)),
    decreases rules.len(),
{
    if rules.len() > 0 {
        lemma_table_from_distinct(rules.drop_last());
        lemma_insert_rule_distinct(table_from(rules.drop_last()), rules.last());
    }
}

fn dup_key(key: &Vec<KeyElement>) -> (r: Vec<KeyElement>)
    ensures
        key_view(r@) == key_view(key@),
{
    let mut r: Vec<KeyElement> = Vec::new();
    let mut i: usize = 0;
    while i < key.len()
        invariant
            i <= key@.len(),
            key_view(r@) == key_view(key@.take(i as int)),
        decreases key@.len() - i,
    {
        let ghost before = r@;
        r.push(key[i].duplicate());
        assert(key_view(r@) == key_view(before).push(key@[i as int]@));
        assert(key@.take(i + 1) == key@.take(i as int).push(key@[i as int]));
        i = i + 1;
    }
    assert(key@.take(i as int) == key@);
    r
}

fn dup_value(value: &Vec<ValueElement>) -> (r: Vec<ValueElement>)
    ensures
        value_view(r@) == value_view(value@),
{
    let mut r: Vec<ValueElement> = Vec::new();
    let mut i: usize = 0;
    while i < value.len()
        invariant
            i <= value@.len(),
            value_view(r@) == value_view(value@.take(i as int)),
        decreases value@.len() - i,
    {
        let ghost before = r@;
        r.push(value[i].duplicate());
        assert(value_view(r@) == value_view(before).push(value@[i as int]@));
        assert(value@.take(i + 1) == value@.take(i as int).push(value@[i as int]));
        i = i + 1;
    }
    assert(value@.take(i as int) == value@);
    r
}

/// Whether two keys have the same view.
pub fn same_key(a: &Vec<KeyElement>, b: &Vec<KeyElement>) -> (r: bool)
    ensures
        r == (key_view(a@) == key_view(b@)),
{
    if a.len() != b.len() {
        assert(key_view(a@).len() != key_view(b@).len());
        return false;
    }
    let mut i: usize = 0;
    while i < a.len()
        invariant
            i <= a@.len(),
            a@.len() == b@.len(),
            forall|j: int| 0 <= j < i ==> a@[j]@ == b@[j]@,
        decreases a@.len() - i,
    {
        if !a[i].same_as(&b[i]) {
            assert(key_view(a@)[i as int] != key_view(b@)[i as int]);
            return false;
        }
        i = i + 1;
    }
    assert(key_view(a@) == key_view(b@));
    true
}

impl InputTable {
    /// The table without rules.
    pub fn empty() -> (t: Self)
        ensures
            t@ == Seq::<MappingV>::empty(),
    {
        InputTable { mappings: Vec::new() }
    }

    /// The position of the first rule whose key equals `key`.
    fn position_of(&self, key: &Vec<KeyElement>) -> (r: Option<usize>)
        ensures
            match r {
                Some(i) => key_position(self@, key_view(key@)) == Some(i as int),
                None => key_position(self@, key_view(key@)) is None,
            },
    {
        proof {
            lemma_key_position(self@, key_view(key@));
        }
        let mut i: usize = 0;
        while i < self.mappings.len()
            invariant
                i <= self.mappings@.len(),
                self@.len() == self.mappings@.len(),
                forall|j: int| 0 <= j < i ==> (#[trigger] self@[j]).key != key_view(key@),
            decreases self.mappings@.len() - i,
        {
            assert(self@[i as int] == self.mappings@[i as int]@);
            if same_key(&self.mappings[i].key, key) {
                proof {
                    lemma_key_position(self@, key_view(key@));
                }
                return Some(i);
            }
            i = i + 1;
        }
        None
    }

    /// Adds one rule, replacing the value of an existing rule with the same key.
    fn insert_mapping(&mut self, key: Vec<KeyElement>, value: Vec<ValueElement>)
        ensures
            final(self)@ == insert_rule(old(self)@, MappingV { key: key_view(key@), value: value_view(value@) }),
    {
        let ghost rule = MappingV { key: key_view(key@), value: value_view(value@) };
        proof {
            lemma_key_position(self@, key_view(key@));
            self.lemma_views();
        }
        match self.position_of(&key) {
            Some(i) => {
                self.mappings.set(i, Mapping { key, value });
                assert(self@ == old(self)@.update(i as int, rule));
            },
            None => {
                self.mappings.push(Mapping { key, value });
                assert(self@ == old(self)@.push(rule));
            },
        }
    }

    /// Builds a table from `(key, value)` entries in order; an entry whose key was seen
    /// before replaces that rule's value in place.
    pub fn new(entries: Vec<(Vec<KeyElement>, Vec<ValueElement>)>) -> (t: Self)
        ensures
            t@ == table_from(entries_view(entries@)),
    {
        let mut table = InputTable::empty();
        let mut i: usize = 0;
        while i < entries.len()
            invariant
                i <= entries@.len(),
                table@ == table_from(entries_view(entries@.take(i as int))),
            decreases entries@.len() - i,
        {
            let key = dup_key(&entries[i].0);
            let value = dup_value(&entries[i].1);
            table.insert_mapping(key, value);
            proof {
                let ev = entries_view(entries@.take(i + 1));
                assert(ev.drop_last() == entries_view(entries@.take(i as int)));
                assert(ev.last() == entry_view(entries@[i as int]));
            }
            i = i + 1;
        }
        assert(entries@.take(i as int) == entries@);
        table
    }

    /// The table built from all rules of `tables`, in order; later tables replace rules
    /// with the same key.
    pub fn combined(tables: Vec<InputTable>) -> (t: Self)
        ensures
            t@ == table_from(tables@.map_values(|x: InputTable| x@).flatten()),
    {
        let mut table = InputTable::empty();
        let ghost all = tables@.map_values(|x: InputTable| x@);
        let mut i: usize = 0;
        while i < tables.len()
            invariant
                i <= tables@.len(),
                all == tables@.map_values(|x: InputTable| x@),
                table@ == table_from(all.take(i as int).flatten()),
            decreases tables@.len() - i,
        {
            let source = &tables[i];
            let ghost before = all.take(i as int).flatten();
            let mut j: usize = 0;
            while j < source.mappings.len()
                invariant
                    j <= source.mappings@.len(),
                    source@ == all[i as int],
                    table@ == table_from(before + source@.take(j as int)),
                decreases source.mappings@.len() - j,
            {
                let key = dup_key(&source.mappings[j].key);
                let value = dup_value(&source.mappings[j].value);
                table.insert_mapping(key, value);
                proof {
                    let r = before + source@.take(j + 1);
                    assert(r.drop_last() == before + source@.take(j as int));
                    assert(r.last() == source@[j as int]);
                    assert(source@[j as int] == source.mappings@[j as int]@);
                }
                j = j + 1;
            }
            proof {
                assert(source@.take(j as int) == source@);
                assert(all.take(i + 1) == all.take(i as int).push(all[i as int]));
                all.take(i as int).lemma_flatten_push(all[i as int]);
            }
            i = i + 1;
        }
        assert(all.take(i as int) == all);
        table
    }

    /// Copies the rules of the table as `(key, value)` pairs, in order.
    pub fn entries(&self) -> (es: Vec<(Vec<KeyElement>, Vec<ValueElement>)>)
        ensures
            entries_view(es@) == self@,
    {
        let mut es: Vec<(Vec<KeyElement>, Vec<ValueElement>)> = Vec::new();
        let mut i: usize = 0;
        while i < self.mappings.len()
            invariant
                i <= self.mappings@.len(),
                entries_view(es@) == self@.take(i as int),
            decreases self.mappings@.len() - i,
        {
            es.push((dup_key(&self.mappings[i].key), dup_value(&self.mappings[i].value)));
            assert(self@.take(i + 1) == self@.take(i as int).push(self.mappings@[i as int]@));
            i = i + 1;
        }
        assert(self@.take(i as int) == self@);
        es
    }
}

/// The text of a key made only of characters.
pub open spec fn key_text(key: Seq<KeyV>) -> Option<Seq<char>>
    decreases key.len(),
{
    if key.len() == 0 {
        Some(Seq::empty())
    } else {
        match (key_text(key.drop_last()), key.last()) {
            (Some(t), KeyV::Piece(PieceV::Character(v))) => Some(t + v),
            _ => None,
        }
    }
}

/// The text of a value made only of characters.
pub open spec fn value_text(value: Seq<ValueV>) -> Option<Seq<char>>
    decreases value.len(),
{
    if value.len() == 0 {
        Some(Seq::empty())
    } else {
        match (value_text(value.drop_last()), value.last()) {
            (Some(t), ValueV::Character(v)) => Some(t + v),
            _ => None,
        }
    }
}

/// The katakana output a rule offers for a typed prefix that its key strictly extends.
pub open spec fn next_of(m: MappingV, prefix: Seq<char>) -> Option<Seq<char>> {
    match key_text(m.key) {
        Some(k) => if prefix.len() == 0 || prefix.len() >= k.len() || !prefix.is_prefix_of(k) {
            None
        } else {
            match value_text(m.value) {
                Some(v) => Some(katakana_seq(v)),
                None => None,
            }
        },
        None => None,
    }
}

/// The katakana outputs of the character rules that strictly extend `prefix`, in rule order.
pub open spec fn nexts_spec(table: Seq<MappingV>, prefix: Seq<char>) -> Seq<Seq<char>> {
    table.filter_map(|m: MappingV| next_of(m, prefix))
}

fn key_text_exec(key: &Vec<KeyElement>) -> (r: Option<String>)
    ensures
        match r {
            Some(t) => key_text(key_view(key@)) == Some(t@),
            None => key_text(key_view(key@)) is None,
        },
{
    let mut text = String::new();
    let mut i: usize = 0;
    while i < key.len()
        invariant
            i <= key@.len(),
            key_text(key_view(key@.take(i as int))) == Some(text@),
        decreases key@.len() - i,
    {
        let ghost kv = key_view(key@.take(i + 1));
        assert(kv.drop_last() == key_view(key@.take(i as int)));
        assert(kv.last() == key@[i as int]@);
        match &key[i] {
            KeyElement::Piece(InputPiece::Character(v)) => {
                text.append(v.as_str());
            },
            _ => {
                proof {
                    lemma_key_text_prefix(key_view(key@), i as int + 1);
                    assert(key_view(key@).take(i + 1) == kv);
                }
                return None;
            },
        }
        i = i + 1;
    }
    assert(key@.take(i as int) == key@);
    Some(text)
}

proof fn lemma_key_text_prefix(key: Seq<KeyV>, j: int)
    requires
        0 <= j <= key.len(),
        key_text(key.take(j)) is None,
    ensures
        key_text(key) is None,
    decreases key.len() - j,
{
    if j < key.len() {
        assert(key.take(j + 1).drop_last() == key.take(j));
        lemma_key_text_prefix(key, j + 1);
    } else {
        assert(key.take(j) == key);
    }
}

proof fn lemma_value_text_prefix(value: Seq<ValueV>, j: int)
    requires
        0 <= j <= value.len(),
        value_text(value.take(j)) is None,
    ensures
        value_text(value) is None,
    decreases value.len() - j,
{
    if j < value.len() {
        assert(value.take(j + 1).drop_last() == value.take(j));
        lemma_value_text_prefix(value, j + 1);
    } else {
        assert(value.take(j) == value);
    }
}

fn value_text_exec(value: &Vec<ValueElement>) -> (r: Option<String>)
    ensures
        match r {
            Some(t) => value_text(value_view(value@)) == Some(t@),
            None => value_text(value_view(value@)) is None,
        },
{
    let mut text = String::new();
    let mut i: usize = 0;
    while i < value.len()
        invariant
            i <= value@.len(),
            value_text(value_view(value@.take(i as int))) == Some(text@),
        decreases value@.len() - i,
    {
        let ghost vv = value_view(value@.take(i + 1));
        assert(vv.drop_last() == value_view(value@.take(i as int)));
        assert(vv.last() == value@[i as int]@);
        match &value[i] {
            ValueElement::Character(v) => {
                text.append(v.as_str());
            },
            ValueElement::Any => {
                proof {
                    lemma_value_text_prefix(value_view(value@), i as int + 1);
                    assert(value_view(value@).take(i + 1) == vv);
                }
                return None;
            },
        }
        i = i + 1;
    }
    assert(value@.take(i as int) == value@);
    Some(text)
}

/// Whether `prefix` is a prefix of `text`.
pub fn is_prefix_chars(prefix: &[char], text: &[char]) -> (r: bool)
    ensures
        r == prefix@.is_prefix_of(text@),
{
    if prefix.len() > text.len() {
        return false;
    }
    let mut i: usize = 0;
    while i < prefix.len()
        invariant
            i <= prefix@.len(),
            prefix@.len() <= text@.len(),
            forall|j: int| 0 <= j < i ==> prefix@[j] == text@[j],
        decreases prefix@.len() - i,
    {
        if prefix[i] != text[i] {
            return false;
        }
        i = i + 1;
    }
    assert(prefix@ == text@.take(prefix@.len() as int));
    true
}

/// A key of character pieces, one per grapheme of `text`.
pub open spec fn character_key(gs: Seq<Seq<char>>) -> Seq<KeyV> {
    gs.map_values(|g: Seq<char>| KeyV::Piece(PieceV::Character(g)))
}

/// A value of characters, one per grapheme of `text`.
pub open spec fn character_value(gs: Seq<Seq<char>>) -> Seq<ValueV> {
    gs.map_values(|g: Seq<char>| ValueV::Character(g))
}

/// The rules of a tab-separated text: each line with a tab maps the graphemes before the
/// first tab to the graphemes after it.
pub open spec fn tsv_rule(line: Seq<char>) -> Option<MappingV> {
    match split_once_spec(line, '\t') {
        Some((k, v)) => Some(
            MappingV {
                key: character_key(spec_graphemes(k)),
                value: character_value(spec_graphemes(v)),
            },
        ),
        None => None,
    }
}

pub open spec fn tsv_rules(source: Seq<char>) -> Seq<MappingV> {
    lines_spec(source).filter_map(|l: Seq<char>| tsv_rule(l))
}

fn character_key_of(text: &str) -> (key: Vec<KeyElement>)
    ensures
        key_view(key@) == character_key(spec_graphemes(text@)),
{
    let gs = graphemes(text);
    let mut key: Vec<KeyElement> = Vec::new();
    let mut i: usize = 0;
    while i < gs.len()
        invariant
            i <= gs@.len(),
            key_view(key@) == character_key(views(gs@.take(i as int))),
        decreases gs@.len() - i,
    {
        let ghost before = key@;
        key.push(KeyElement::Piece(InputPiece::Character(gs[i].clone())));
        assert(key_view(key@) == key_view(before).push(KeyV::Piece(PieceV::Character(gs@[i as int]@))));
        assert(views(gs@.take(i + 1)) == views(gs@.take(i as int)).push(gs@[i as int]@));
        i = i + 1;
    }
    assert(gs@.take(i as int) == gs@);
    key
}

fn character_value_of(text: &str) -> (value: Vec<ValueElement>)
    ensures
        value_view(value@) == character_value(spec_graphemes(text@)),
{
    let gs = graphemes(text);
    let mut value: Vec<ValueElement> = Vec::new();
    let mut i: usize = 0;
    while i < gs.len()
        invariant
            i <= gs@.len(),
            value_view(value@) == character_value(views(gs@.take(i as int))),
        decreases gs@.len() - i,
    {
        let ghost before = value@;
        value.push(ValueElement::Character(gs[i].clone()));
        assert(value_view(value@) == value_view(before).push(ValueV::Character(gs@[i as int]@)));
        assert(views(gs@.take(i + 1)) == views(gs@.take(i as int)).push(gs@[i as int]@));
        i = i + 1;
    }
    assert(gs@.take(i as int) == gs@);
    value
}

/// The entries of a tab-separated rule text.
pub fn simple_tsv_entries(source: &str) -> (es: Vec<(Vec<KeyElement>, Vec<ValueElement>)>)
    ensures
        entries_view(es@) == tsv_rules(source@),
{
    let lines = lines_of(source);
    let ghost ls = lines@.map_values(|v: Vec<char>| v@);
    let mut es: Vec<(Vec<KeyElement>, Vec<ValueElement>)> = Vec::new();
    let mut i: usize = 0;
    while i < lines.len()
        invariant
            i <= lines@.len(),
            ls == lines@.map_values(|v: Vec<char>| v@),
            ls == lines_spec(source@),
            entries_view(es@) == ls.take(i as int).filter_map(|l: Seq<char>| tsv_rule(l)),
        decreases lines@.len() - i,
    {
        let line = &lines[i];
        proof {
            ls.lemma_filter_map_take_succ(|l: Seq<char>| tsv_rule(l), i as int);
            assert(ls[i as int] == line@);
        }
        let n = line.len();
        match find_char(line, '\t') {
            Some(t) => {
                assert(t < n);
                let key = string_from_chars(&slice_chars(line, 0, t));
                let value = string_from_chars(&slice_chars(line, t + 1, n));
                assert(line@.take(t as int) == line@.subrange(0, t as int));
                assert(line@.skip(t + 1) == line@.subrange(t + 1, line@.len() as int));
                let ghost before = entries_view(es@);
                es.push((character_key_of(key.as_str()), character_value_of(value.as_str())));
                assert(entries_view(es@) == before.push(tsv_rule(line@)->0));
            },
            None => {},
        }
        i = i + 1;
    }
    assert(ls.take(i as int) == ls);
    es
}

impl InputTable {
    /// Types `added` after the graphemes of `current_text` and returns the new text.
    pub fn applied(&self, current_text: &str, added: InputPiece) -> (out: String)
        ensures
            out@ == apply_spec(self@, spec_graphemes(current_text@), added@).0.flatten(),
    {
        let mut buffer = graphemes(current_text);
        self.apply(&mut buffer, added);
        concat_strings(&buffer)
    }

    /// Katakana outputs of the character rules whose key text strictly extends `prefix`,
    /// in rule order.
    pub fn possible_nexts(&self, prefix: &str) -> (out: Vec<String>)
        ensures
            views(out@) == nexts_spec(self@, prefix@),
    {
        let prefix_chars = chars_of(prefix);
        let mut out: Vec<String> = Vec::new();
        let mut i: usize = 0;
        while i < self.mappings.len()
            invariant
                i <= self.mappings@.len(),
                prefix_chars@ == prefix@,
                self@.len() == self.mappings@.len(),
                views(out@) == self@.take(i as int).filter_map(|m: MappingV| next_of(m, prefix@)),
            decreases self.mappings@.len() - i,
        {
            proof {
                self@.lemma_filter_map_take_succ(|m: MappingV| next_of(m, prefix@), i as int);
                assert(self@[i as int] == self.mappings@[i as int]@);
            }
            let mapping = &self.mappings[i];
            match key_text_exec(&mapping.key) {
                Some(k) => {
                    let key_chars = chars_of(k.as_str());
                    if prefix_chars.len() > 0 && prefix_chars.len() < key_chars.len()
                        && is_prefix_chars(&prefix_chars, &key_chars) {
                        match value_text_exec(&mapping.value) {
                            Some(v) => {
                                let ghost before = views(out@);
                                out.push(to_katakana(v.as_str()));
                                assert(views(out@) == before.push(katakana_seq(v@)));
                            },
                            None => {},
                        }
                    }
                },
                None => {},
            }
            i = i + 1;
        }
        assert(self@.take(i as int) == self@);
        out
    }
}

/// The rule whose key is a lone composition separator and whose value is empty.
pub open spec fn separator_rule() -> MappingV {
    MappingV { key: seq![KeyV::Piece(PieceV::Separator)], value: Seq::empty() }
}

pub open spec fn n_view() -> Seq<char> {
    seq!['n']
}

pub open spec fn hatsuon_view() -> Seq<char> {
    seq!['ん']
}

/// Single-grapheme strings used by the built-in tables.
fn text_n() -> (s: String)
    ensures
        s@ == n_view(),
{
    let mut s = String::new();
    crate::text::push_char(&mut s, 'n');
    s
}

fn text_hatsuon() -> (s: String)
    ensures
        s@ == hatsuon_view(),
{
    let mut s = String::new();
    crate::text::push_char(&mut s, 'ん');
    s
}

fn text_of_char(c: char) -> (s: String)
    ensures
        s@ == seq![c],
{
    let mut s = String::new();
    crate::text::push_char(&mut s, c);
    s
}

fn separator_entry() -> (e: (Vec<KeyElement>, Vec<ValueElement>))
    ensures
        entry_view(e) == separator_rule(),
{
    let key = vec![KeyElement::Piece(InputPiece::CompositionSeparator)];
    let value: Vec<ValueElement> = Vec::new();
    assert(key_view(key@) == seq![KeyV::Piece(PieceV::Separator)]);
    assert(value_view(value@) == Seq::<ValueV>::empty());
    (key, value)
}

/// The extra romaji rules: `n` before a separator is `ん`, and `n` before any other piece is
/// `ん` followed by that piece.
pub open spec fn roman_extra_rules() -> Seq<MappingV> {
    seq![
        separator_rule(),
        MappingV {
            key: seq![KeyV::Piece(PieceV::Character(n_view())), KeyV::Piece(PieceV::Separator)],
            value: seq![ValueV::Character(hatsuon_view())],
        },
        MappingV {
            key: seq![KeyV::Piece(PieceV::Character(n_view())), KeyV::Any],
            value: seq![ValueV::Character(hatsuon_view()), ValueV::Any],
        },
    ]
}

/// The shifted `0` key of a JIS keyboard types `を`.
pub open spec fn shifted_zero_rule() -> MappingV {
    MappingV {
        key: seq![KeyV::Piece(PieceV::Key { intention: Some(seq!['0']), input: seq!['0'], shifted: true })],
        value: seq![ValueV::Character(seq!['を'])],
    }
}

/// A key piece with the Shift modifier (`BTreeSet::from([InputModifier::Shift])`).
#[verifier::external_body]
fn shift_set() -> (m: BTreeSet<InputModifier>)
    ensures
        m@ == set![InputModifier::Shift],
{
    BTreeSet::from([InputModifier::Shift])
}

/// A shifted key whose intention and input are `value`.
pub fn shifted_key(value: String) -> (p: InputPiece)
    ensures
        p@ == (PieceV::Key { intention: Some(value@), input: value@, shifted: true }),
{
    let m = shift_set();
    assert(m@.contains(InputModifier::Shift));
    InputPiece::Key { intention: Some(value.clone()), input: value, modifiers: m }
}

fn append_entries(
    es: &mut Vec<(Vec<KeyElement>, Vec<ValueElement>)>,
    more: Vec<(Vec<KeyElement>, Vec<ValueElement>)>,
)
    ensures
        entries_view(final(es)@) == entries_view(old(es)@) + entries_view(more@),
{
    let mut more = more;
    let ghost m = more@;
    let ghost e = es@;
    es.append(&mut more);
    assert(es@ == e + m);
    assert(entries_view(e + m) == entries_view(e) + entries_view(m));
}

impl InputTable {
    pub open spec fn default_roman_to_kana_view() -> Seq<MappingV> {
        table_from(tsv_rules(ROMAN_TO_KANA_RULES@) + roman_extra_rules())
    }

    pub open spec fn default_azik_view() -> Seq<MappingV> {
        table_from(tsv_rules(AZIK_RULES@).push(separator_rule()))
    }

    pub open spec fn default_kana_jis_view() -> Seq<MappingV> {
        table_from(tsv_rules(KANA_JIS_RULES@).push(separator_rule()).push(shifted_zero_rule()))
    }

    pub open spec fn default_kana_us_view() -> Seq<MappingV> {
        table_from(tsv_rules(KANA_US_RULES@).push(separator_rule()))
    }

    /// The default romaji table.
    pub fn default_roman_to_kana() -> (t: Self)
        ensures
            t@ == Self::default_roman_to_kana_view(),
    {
        let mut entries = simple_tsv_entries(ROMAN_TO_KANA_RULES);
        let n_separator = (
            vec![
                KeyElement::Piece(InputPiece::Character(text_n())),
                KeyElement::Piece(InputPiece::CompositionSeparator),
            ],
            vec![ValueElement::Character(text_hatsuon())],
        );
        let n_any = (
            vec![KeyElement::Piece(InputPiece::Character(text_n())), KeyElement::Any],
            vec![ValueElement::Character(text_hatsuon()), ValueElement::Any],
        );
        assert(key_view(n_separator.0@) == roman_extra_rules()[1].key);
        assert(value_view(n_separator.1@) == roman_extra_rules()[1].value);
        assert(key_view(n_any.0@) == roman_extra_rules()[2].key);
        assert(value_view(n_any.1@) == roman_extra_rules()[2].value);
        let extra = vec![separator_entry(), n_separator, n_any];
        assert(entries_view(extra@) == roman_extra_rules());
        append_entries(&mut entries, extra);
        Self::new(entries)
    }

    /// The default AZIK table.
    pub fn default_azik() -> (t: Self)
        ensures
            t@ == Self::default_azik_view(),
    {
        let mut entries = simple_tsv_entries(AZIK_RULES);
        let ghost before = entries@;
        entries.push(separator_entry());
        assert(entries_view(entries@) == entries_view(before).push(separator_rule()));
        Self::new(entries)
    }

    /// The default JIS kana-key table.
    pub fn default_kana_jis() -> (t: Self)
        ensures
            t@ == Self::default_kana_jis_view(),
    {
        let mut entries = simple_tsv_entries(KANA_JIS_RULES);
        let ghost before = entries@;
        entries.push(separator_entry());
        assert(entries_view(entries@) == entries_view(before).push(separator_rule()));
        let key = vec![KeyElement::Piece(shifted_key(text_of_char('0')))];
        let value = vec![ValueElement::Character(text_of_char('を'))];
        assert(key_view(key@) == shifted_zero_rule().key);
        assert(value_view(value@) == shifted_zero_rule().value);
        let ghost before2 = entries@;
        entries.push((key, value));
        assert(entries_view(entries@) == entries_view(before2).push(shifted_zero_rule()));
        Self::new(entries)
    }

    /// The default US kana-key table.
    pub fn default_kana_us() -> (t: Self)
        ensures
            t@ == Self::default_kana_us_view(),
    {
        let mut entries = simple_tsv_entries(KANA_US_RULES);
        let ghost before = entries@;
        entries.push(separator_entry());
        assert(entries_view(entries@) == entries_view(before).push(separator_rule()));
        Self::new(entries)
    }
}

} // verus!
