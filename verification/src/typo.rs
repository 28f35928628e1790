//! Typing slips: the readings a prefix of the input could have been meant as, with the
//! penalty of the slips that lead there.
use vstd::prelude::*;

use crate::input::composing::{
    ComposingText, ComposingV, ElementV, InputElement, InputStyle, InputTableId, InputTableRegistry,
    RegistryV, StyleV, TableIdV, elements_view, insert_spec,
};
use crate::input::table::{InputPiece, PieceV};
use crate::kana::{katakana_seq, to_katakana};
use crate::text::{chars_of, graphemes, spec_graphemes, spells, views};

verus! {

/// The penalty, in half points, at which no further slip is tried.
pub const MAXIMUM_PENALTY_HALVES: u32 = 21;

pub open spec fn replacements_view(r: Seq<(String, u32)>) -> Seq<(Seq<char>, int)> {
    r.map_values(|e: (String, u32)| (e.0@, e.1 as int))
}

/// The voicing and size slips of a directly typed kana: the kana meant instead and the
/// penalty of the slip, in half points.
pub open spec fn direct_table(k: Seq<char>) -> Seq<(Seq<char>, int)> {
    if k == "カ"@ {
        seq![("ガ"@, 14int)]
    } else if k == "キ"@ {
        seq![("ギ"@, 7int)]
    } else if k == "ク"@ {
        seq![("グ"@, 7int)]
    } else if k == "ケ"@ {
        seq![("ゲ"@, 7int)]
    } else if k == "コ"@ {
        seq![("ゴ"@, 7int)]
    } else if k == "サ"@ {
        seq![("ザ"@, 7int)]
    } else if k == "シ"@ {
        seq![("ジ"@, 7int)]
    } else if k == "ス"@ {
        seq![("ズ"@, 7int)]
    } else if k == "セ"@ {
        seq![("ゼ"@, 7int)]
    } else if k == "ソ"@ {
        seq![("ゾ"@, 7int)]
    } else if k == "タ"@ {
        seq![("ダ"@, 12int)]
    } else if k == "チ"@ {
        seq![("ヂ"@, 7int)]
    } else if k == "ツ"@ {
        seq![("ッ"@, 12int), ("ヅ"@, 9int)]
    } else if k == "テ"@ {
        seq![("デ"@, 12int)]
    } else if k == "ト"@ {
        seq![("ド"@, 9int)]
    } else if k == "ハ"@ {
        seq![("バ"@, 9int), ("パ"@, 12int)]
    } else if k == "ヒ"@ {
        seq![("ビ"@, 7int), ("ピ"@, 9int)]
    } else if k == "フ"@ {
        seq![("ブ"@, 7int), ("プ"@, 9int)]
    } else if k == "ヘ"@ {
        seq![("ベ"@, 7int), ("ペ"@, 9int)]
    } else if k == "ホ"@ {
        seq![("ボ"@, 7int), ("ポ"@, 9int)]
    } else if k == "バ"@ {
        seq![("パ"@, 7int)]
    } else if k == "ビ"@ {
        seq![("ピ"@, 7int)]
    } else if k == "ブ"@ {
        seq![("プ"@, 7int)]
    } else if k == "ベ"@ {
        seq![("ペ"@, 7int)]
    } else if k == "ボ"@ {
        seq![("ポ"@, 7int)]
    } else if k == "ヤ"@ {
        seq![("ャ"@, 7int)]
    } else if k == "ユ"@ {
        seq![("ュ"@, 7int)]
    } else if k == "ヨ"@ {
        seq![("ョ"@, 7int)]
    } else {
        Seq::empty()
    }
}

fn direct_table_exec(k: &[char]) -> (r: Vec<(String, u32)>)
    ensures
        replacements_view(r@) == direct_table(k@),
{
    let mut r: Vec<(String, u32)> = Vec::new();
    if spells(k, "カ") {
        r.push(("ガ".to_owned(), 14));
    } else if spells(k, "キ") {
        r.push(("ギ".to_owned(), 7));
    } else if spells(k, "ク") {
        r.push(("グ".to_owned(), 7));
    } else if spells(k, "ケ") {
        r.push(("ゲ".to_owned(), 7));
    } else if spells(k, "コ") {
        r.push(("ゴ".to_owned(), 7));
    } else if spells(k, "サ") {
        r.push(("ザ".to_owned(), 7));
    } else if spells(k, "シ") {
        r.push(("ジ".to_owned(), 7));
    } else if spells(k, "ス") {
        r.push(("ズ".to_owned(), 7));
    } else if spells(k, "セ") {
        r.push(("ゼ".to_owned(), 7));
    } else if spells(k, "ソ") {
        r.push(("ゾ".to_owned(), 7));
    } else if spells(k, "タ") {
        r.push(("ダ".to_owned(), 12));
    } else if spells(k, "チ") {
        r.push(("ヂ".to_owned(), 7));
    } else if spells(k, "ツ") {
        r.push(("ッ".to_owned(), 12));
        r.push(("ヅ".to_owned(), 9));
    } else if spells(k, "テ") {
        r.push(("デ".to_owned(), 12));
    } else if spells(k, "ト") {
        r.push(("ド".to_owned(), 9));
    } else if spells(k, "ハ") {
        r.push(("バ".to_owned(), 9));
        r.push(("パ".to_owned(), 12));
    } else if spells(k, "ヒ") {
        r.push(("ビ".to_owned(), 7));
        r.push(("ピ".to_owned(), 9));
    } else if spells(k, "フ") {
        r.push(("ブ".to_owned(), 7));
        r.push(("プ".to_owned(), 9));
    } else if spells(k, "ヘ") {
        r.push(("ベ".to_owned(), 7));
        r.push(("ペ".to_owned(), 9));
    } else if spells(k, "ホ") {
        r.push(("ボ".to_owned(), 7));
        r.push(("ポ".to_owned(), 9));
    } else if spells(k, "バ") {
        r.push(("パ".to_owned(), 7));
    } else if spells(k, "ビ") {
        r.push(("ピ".to_owned(), 7));
    } else if spells(k, "ブ") {
        r.push(("プ".to_owned(), 7));
    } else if spells(k, "ベ") {
        r.push(("ペ".to_owned(), 7));
    } else if spells(k, "ボ") {
        r.push(("ポ".to_owned(), 7));
    } else if spells(k, "ヤ") {
        r.push(("ャ".to_owned(), 7));
    } else if spells(k, "ユ") {
        r.push(("ュ".to_owned(), 7));
    } else if spells(k, "ヨ") {
        r.push(("ョ".to_owned(), 7));
    }
    assert(replacements_view(r@) =~= direct_table(k@));
    r
}

/// The roman typing slips on two keys and the keys meant instead.
pub open spec fn roman_table(k: Seq<char>) -> Option<Seq<char>> {
    if k == "bs"@ {
        Some("ba"@)
    } else if k == "no"@ {
        Some("bo"@)
    } else if k == "li"@ {
        Some("ki"@)
    } else if k == "lo"@ {
        Some("ko"@)
    } else if k == "lu"@ {
        Some("ku"@)
    } else if k == "my"@ {
        Some("mu"@)
    } else if k == "tp"@ {
        Some("to"@)
    } else if k == "ts"@ {
        Some("ta"@)
    } else if k == "wi"@ {
        Some("wo"@)
    } else if k == "pu"@ {
        Some("ou"@)
    } else {
        None
    }
}

fn roman_table_exec(k: &[char]) -> (r: Option<&'static str>)
    ensures
        match r {
            Some(s) => roman_table(k@) == Some(s@),
            None => roman_table(k@) is None,
        },
{
    if spells(k, "bs") {
        Some("ba")
    } else if spells(k, "no") {
        Some("bo")
    } else if spells(k, "li") {
        Some("ki")
    } else if spells(k, "lo") {
        Some("ko")
    } else if spells(k, "lu") {
        Some("ku")
    } else if spells(k, "my") {
        Some("mu")
    } else if spells(k, "tp") {
        Some("to")
    } else if spells(k, "ts") {
        Some("ta")
    } else if spells(k, "wi") {
        Some("wo")
    } else if spells(k, "pu") {
        Some("ou")
    } else {
        None
    }
}

/// The slips of one typed element: only directly typed characters have them.
pub open spec fn direct_spec(e: ElementV) -> Seq<(Seq<char>, int)> {
    match e.style {
        StyleV::Direct => match e.piece {
            PieceV::Character(v) => direct_table(katakana_seq(v)),
            _ => Seq::empty(),
        },
        _ => Seq::empty(),
    }
}

/// The slips of one typed element, with their penalties in half points.
pub fn direct_replacements(element: &InputElement) -> (r: Vec<(String, u32)>)
    ensures
        replacements_view(r@) == direct_spec(element@),
{
    match (&element.input_style, &element.piece) {
        (InputStyle::Direct, InputPiece::Character(value)) => {
            let k = chars_of(to_katakana(value.as_str()).as_str());
            direct_table_exec(k.as_slice())
        },
        _ => {
            let r: Vec<(String, u32)> = Vec::new();
            assert(replacements_view(r@) =~= Seq::<(Seq<char>, int)>::empty());
            r
        },
    }
}

/// Whether an element was typed with the roman table.
pub open spec fn roman_typed(e: ElementV) -> bool {
    e.style == StyleV::RomanToKana || e.style == StyleV::Mapped(TableIdV::DefaultRomanToKana)
}

/// The characters typed by the elements, if all are characters.
pub open spec fn typed_key(es: Seq<ElementV>) -> Option<Seq<char>>
    decreases es.len(),
{
    if es.len() == 0 {
        Some(Seq::empty())
    } else {
        match (typed_key(es.drop_last()), es.last().piece) {
            (Some(k), PieceV::Character(v)) => Some(k + v),
            _ => None,
        }
    }
}

/// The keys meant instead of elements typed with the roman table.
pub open spec fn roman_spec(es: Seq<ElementV>) -> Option<Seq<char>> {
    if !(forall|i: int| 0 <= i < es.len() ==> roman_typed(#[trigger] es[i])) {
        None
    } else {
        match typed_key(es) {
            Some(k) => roman_table(k),
            None => None,
        }
    }
}

proof fn lemma_typed_key_prefix(es: Seq<ElementV>, j: int)
    requires
        0 <= j <= es.len(),
        typed_key(es.take(j)) is None,
    ensures
        typed_key(es) is None,
    decreases es.len() - j,
{
    if j < es.len() {
        assert(es.take(j + 1).drop_last() =~= es.take(j));
        lemma_typed_key_prefix(es, j + 1);
    } else {
        assert(es.take(j) =~= es);
    }
}

/// The keys meant instead of elements typed with the roman table.
pub fn roman_replacement(elements: &[InputElement]) -> (r: Option<&'static str>)
    ensures
        match r {
            Some(s) => roman_spec(elements_view(elements@)) == Some(s@),
            None => roman_spec(elements_view(elements@)) is None,
        },
{
    let ghost ev = elements_view(elements@);
    let mut i: usize = 0;
    while i < elements.len()
        invariant
            i <= elements@.len(),
            ev == elements_view(elements@),
            forall|j: int| 0 <= j < i ==> roman_typed(#[trigger] ev[j]),
        decreases elements@.len() - i,
    {
        assert(ev[i as int] == elements@[i as int]@);
        let ok = match &elements[i].input_style {
            InputStyle::RomanToKana => true,
            InputStyle::Mapped(InputTableId::DefaultRomanToKana) => true,
            _ => false,
        };
        if !ok {
            assert(!roman_typed(ev[i as int]));
            return None;
        }
        i = i + 1;
    }
    let mut key: Vec<char> = Vec::new();
    let mut k: usize = 0;
    assert(ev.take(0) =~= Seq::<ElementV>::empty());
    while k < elements.len()
        invariant
            k <= elements@.len(),
            ev == elements_view(elements@),
            typed_key(ev.take(k as int)) == Some(key@),
        decreases elements@.len() - k,
    {
        assert(ev.take(k + 1).drop_last() =~= ev.take(k as int));
        assert(ev[k as int] == elements@[k as int]@);
        match &elements[k].piece {
            InputPiece::Character(v) => {
                let vc = chars_of(v.as_str());
                let mut m: usize = 0;
                let ghost start = key@;
                while m < vc.len()
                    invariant
                        m <= vc@.len(),
                        key@ == start + vc@.take(m as int),
                    decreases vc@.len() - m,
                {
                    key.push(vc[m]);
                    assert(vc@.take(m + 1) =~= vc@.take(m as int).push(vc@[m as int]));
                    m = m + 1;
                }
                assert(vc@.take(m as int) =~= vc@);
            },
            _ => {
                proof {
                    lemma_typed_key_prefix(ev, k + 1);
                }
                return None;
            },
        }
        k = k + 1;
    }
    assert(ev.take(k as int) =~= ev);
    roman_table_exec(key.as_slice())
}

/// The surface that typing the elements into an empty composition gives.
pub open spec fn render_spec(reg: RegistryV, es: Seq<ElementV>) -> Seq<char> {
    insert_spec(
        reg,
        ComposingV { cursor: 0, input: Seq::empty(), surface: Seq::empty() },
        es,
    ).surface.flatten()
}

fn copy_elements(elements: &Vec<InputElement>) -> (r: Vec<InputElement>)
    ensures
        elements_view(r@) == elements_view(elements@),
{
    let mut copy: Vec<InputElement> = Vec::new();
    let mut i: usize = 0;
    assert(elements_view(copy@) =~= elements_view(elements@).take(0));
    while i < elements.len()
        invariant
            i <= elements@.len(),
            elements_view(copy@) == elements_view(elements@).take(i as int),
        decreases elements@.len() - i,
    {
        let d = elements[i].duplicate();
        let ghost prev = elements_view(copy@);
        copy.push(d);
        assert(elements_view(copy@) =~= prev.push(d@));
        assert(elements_view(elements@).take(i + 1) =~= elements_view(elements@).take(i as int).push(
            elements@[i as int]@,
        ));
        i = i + 1;
    }
    assert(elements_view(elements@).take(i as int) =~= elements_view(elements@));
    copy
}

/// The surface that typing the elements into an empty composition gives.
pub fn render(elements: &Vec<InputElement>, tables: &InputTableRegistry) -> (s: String)
    ensures
        s@ == render_spec(tables@, elements_view(elements@)),
{
    let mut composing = ComposingText::new();
    let copy = copy_elements(elements);
    composing.insert(copy, tables);
    composing.surface()
}

/// Whether typing the next element keeps the surface of the prefix as its beginning.
pub open spec fn stable_spec(
    reg: RegistryV,
    input: Seq<ElementV>,
    consumed: int,
    elements: Seq<ElementV>,
) -> bool {
    consumed >= input.len() || render_spec(reg, elements).is_prefix_of(
        render_spec(reg, elements.push(input[consumed])),
    )
}

fn starts_with_chars(s: &Vec<char>, prefix: &Vec<char>) -> (r: bool)
    ensures
        r == prefix@.is_prefix_of(s@),
{
    if prefix.len() > s.len() {
        return false;
    }
    let mut i: usize = 0;
    while i < prefix.len()
        invariant
            i <= prefix@.len() <= s@.len(),
            forall|j: int| 0 <= j < i ==> prefix@[j] == s@[j],
        decreases prefix@.len() - i,
    {
        if prefix[i] != s[i] {
            return false;
        }
        i = i + 1;
    }
    true
}

/// Whether the typed prefix is stable: typing the next input element does not change it.
pub fn is_stable_prefix(
    input: &Vec<InputElement>,
    consumed: usize,
    elements: &Vec<InputElement>,
    tables: &InputTableRegistry,
) -> (r: bool)
    ensures
        r == stable_spec(tables@, elements_view(input@), consumed as int, elements_view(elements@)),
{
    if consumed >= input.len() {
        return true;
    }
    let surface = render(elements, tables);
    let mut extended = copy_elements(elements);
    let next = input[consumed].duplicate();
    let ghost prev = elements_view(extended@);
    extended.push(next);
    assert(elements_view(extended@) =~= prev.push(next@));
    assert(next@ == elements_view(input@)[consumed as int]);
    let longer = render(&extended, tables);
    starts_with_chars(&chars_of(longer.as_str()), &chars_of(surface.as_str()))
}

/// The elements that type the characters of `keys` with the roman table.
pub open spec fn roman_elements(keys: Seq<char>) -> Seq<ElementV> {
    Seq::new(
        keys.len(),
        |i: int| ElementV { piece: PieceV::Character(seq![keys[i]]), style: StyleV::RomanToKana },
    )
}

/// A prefix met during the search: its reading in katakana, how many input elements it
/// consumes and its penalty in half points.
pub open spec fn here_spec(
    reg: RegistryV,
    input: Seq<ElementV>,
    maximum_length: int,
    consumed: int,
    penalty: int,
    changed: bool,
    elements: Seq<ElementV>,
) -> Seq<(Seq<char>, int, int)> {
    let ruby = katakana_seq(render_spec(reg, elements));
    if consumed > 0 && changed && spec_graphemes(ruby).len() <= maximum_length && stable_spec(
        reg,
        input,
        consumed,
        elements,
    ) {
        seq![(ruby, consumed, penalty)]
    } else {
        Seq::empty()
    }
}

/// The prefixes met after the `j`-th direct slip of the next element.
pub open spec fn slip_visits(
    reg: RegistryV,
    input: Seq<ElementV>,
    maximum_length: int,
    consumed: int,
    penalty: int,
    elements: Seq<ElementV>,
    j: int,
) -> Seq<(Seq<char>, int, int)>
{
    let slips = direct_spec(input[consumed]);
    if 0 <= consumed < input.len() && 0 <= j < slips.len() {
        visits(
            reg,
            input,
            maximum_length,
            consumed + 1,
            penalty + slips[j].1,
            true,
            elements.push(ElementV { piece: PieceV::Character(slips[j].0), style: StyleV::Direct }),
        )
    } else {
        Seq::empty()
    }
}

/// The prefixes met after the roman slip on the next two elements.
pub open spec fn roman_visits(
    reg: RegistryV,
    input: Seq<ElementV>,
    maximum_length: int,
    consumed: int,
    penalty: int,
    elements: Seq<ElementV>,
) -> Seq<(Seq<char>, int, int)>
{
    if 0 <= consumed && consumed + 1 < input.len() {
        match roman_spec(input.subrange(consumed, consumed + 2)) {
            Some(keys) => visits(
                reg,
                input,
                maximum_length,
                consumed + 2,
                penalty + 7,
                true,
                elements + roman_elements(keys),
            ),
            None => Seq::empty(),
        }
    } else {
        Seq::empty()
    }
}

/// The prefixes the search meets from a state, depth first: the state itself when it holds
/// a slip, then the input typed as it is, then each direct slip of the next element, then
/// the roman slip of the next two. A reading as long as the limit, a penalty at the maximum
/// or the end of the input stops the search there.
#[verifier::opaque]
pub open spec fn visits(
    reg: RegistryV,
    input: Seq<ElementV>,
    maximum_length: int,
    consumed: int,
    penalty: int,
    changed: bool,
    elements: Seq<ElementV>,
) -> Seq<(Seq<char>, int, int)>
    decreases input.len() - consumed,
{
    let here = here_spec(reg, input, maximum_length, consumed, penalty, changed, elements);
    let ruby = katakana_seq(render_spec(reg, elements));
    if consumed > 0 && changed && spec_graphemes(ruby).len() >= maximum_length {
        here
    } else if consumed < 0 || consumed >= input.len() || consumed >= maximum_length {
        here
    } else {
        let keep = visits(
            reg,
            input,
            maximum_length,
            consumed + 1,
            penalty,
            changed,
            elements.push(input[consumed]),
        );
        if penalty >= MAXIMUM_PENALTY_HALVES {
            here + keep
        } else {
            let slips = direct_spec(input[consumed]);
            let first = if slips.len() >= 1 {
                visits(
                    reg,
                    input,
                    maximum_length,
                    consumed + 1,
                    penalty + slips[0].1,
                    true,
                    elements.push(
                        ElementV { piece: PieceV::Character(slips[0].0), style: StyleV::Direct },
                    ),
                )
            } else {
                Seq::empty()
            };
            let second = if slips.len() >= 2 {
                visits(
                    reg,
                    input,
                    maximum_length,
                    consumed + 1,
                    penalty + slips[1].1,
                    true,
                    elements.push(
                        ElementV { piece: PieceV::Character(slips[1].0), style: StyleV::Direct },
                    ),
                )
            } else {
                Seq::empty()
            };
            let roman = if consumed + 1 < input.len() {
                match roman_spec(input.subrange(consumed, consumed + 2)) {
                    Some(keys) => visits(
                        reg,
                        input,
                        maximum_length,
                        consumed + 2,
                        penalty + 7,
                        true,
                        elements + roman_elements(keys),
                    ),
                    None => Seq::empty(),
                }
            } else {
                Seq::empty()
            };
            here + keep + first + second + roman
        }
    }
}

/// One step of the search, as `visits` defines it.
proof fn lemma_visits_step(
    reg: RegistryV,
    input: Seq<ElementV>,
    maximum_length: int,
    consumed: int,
    penalty: int,
    changed: bool,
    elements: Seq<ElementV>,
)
    ensures
        ({
            let here = here_spec(reg, input, maximum_length, consumed, penalty, changed, elements);
            let ruby = katakana_seq(render_spec(reg, elements));
            let v = visits(reg, input, maximum_length, consumed, penalty, changed, elements);
            let stop = (consumed > 0 && changed && spec_graphemes(ruby).len() >= maximum_length)
                || consumed < 0 || consumed >= input.len() || consumed >= maximum_length;
            let keep = visits(
                reg,
                input,
                maximum_length,
                consumed + 1,
                penalty,
                changed,
                elements.push(input[consumed]),
            );
            &&& stop ==> v == here
            &&& (!stop && penalty >= MAXIMUM_PENALTY_HALVES) ==> v == here + keep
            &&& (!stop && penalty < MAXIMUM_PENALTY_HALVES) ==> v == here + keep + slip_visits(
                reg,
                input,
                maximum_length,
                consumed,
                penalty,
                elements,
                0,
            ) + slip_visits(reg, input, maximum_length, consumed, penalty, elements, 1)
                + roman_visits(reg, input, maximum_length, consumed, penalty, elements)
        }),
{
    reveal(visits);
    lemma_direct_small(input[consumed]);
}

pub open spec fn found_view(v: Seq<(String, usize, u32)>) -> Seq<(Seq<char>, int, int)> {
    v.map_values(|e: (String, usize, u32)| (e.0@, e.1 as int, e.2 as int))
}

proof fn lemma_direct_small(e: ElementV)
    ensures
        direct_spec(e).len() <= 2,
        forall|j: int| 0 <= j < direct_spec(e).len() ==> 0 <= (#[trigger] direct_spec(e)[j]).1 <= 14,
{
}

fn push_roman_elements(elements: &mut Vec<InputElement>, keys: &str)
    ensures
        elements_view(final(elements)@) == elements_view(old(elements)@) + roman_elements(keys@),
        final(elements)@.subrange(0, old(elements)@.len() as int) == old(elements)@,
        final(elements)@.len() == old(elements)@.len() + keys@.len(),
{
    let kc = chars_of(keys);
    let ghost ev = elements_view(elements@);
    let mut m: usize = 0;
    assert(ev + roman_elements(kc@).take(0) =~= ev);
    while m < kc.len()
        invariant
            m <= kc@.len(),
            kc@ == keys@,
            elements@.len() == old(elements)@.len() + m,
            elements@.subrange(0, old(elements)@.len() as int) == old(elements)@,
            ev == elements_view(old(elements)@),
            elements_view(elements@) == ev + roman_elements(kc@).take(m as int),
        decreases kc@.len() - m,
    {
        let mut one = String::new();
        crate::text::push_char(&mut one, kc[m]);
        let e = InputElement::character(one, InputStyle::RomanToKana);
        let ghost prev = elements_view(elements@);
        elements.push(e);
        assert(elements_view(elements@) =~= prev.push(e@));
        assert(e@ == roman_elements(kc@)[m as int]);
        assert(roman_elements(kc@).take(m + 1) =~= roman_elements(kc@).take(m as int).push(
            roman_elements(kc@)[m as int],
        ));
        assert(elements_view(elements@) =~= ev + roman_elements(kc@).take(m + 1));
        m = m + 1;
    }
    assert(roman_elements(kc@).take(m as int) =~= roman_elements(kc@));
}

/// Records the state itself when it holds a slip; tells whether the reading reached the
/// limit.
fn record_here(
    input: &Vec<InputElement>,
    tables: &InputTableRegistry,
    maximum_length: usize,
    consumed: usize,
    penalty: u32,
    changed: bool,
    elements: &Vec<InputElement>,
    output: &mut Vec<(String, usize, u32)>,
) -> (full: bool)
    ensures
        found_view(final(output)@) == found_view(old(output)@) + here_spec(
            tables@,
            elements_view(input@),
            maximum_length as int,
            consumed as int,
            penalty as int,
            changed,
            elements_view(elements@),
        ),
        full == (consumed > 0 && changed && spec_graphemes(
            katakana_seq(render_spec(tables@, elements_view(elements@))),
        ).len() >= maximum_length),
{
    let ghost start = found_view(output@);
    let surface = render(elements, tables);
    let ruby = to_katakana(surface.as_str());
    let gs = graphemes(ruby.as_str());
    let ruby_count = gs.len();
    assert(views(gs@).len() == gs@.len());
    if consumed > 0 && changed {
        if ruby_count <= maximum_length && is_stable_prefix(input, consumed, elements, tables) {
            output.push((ruby, consumed, penalty));
            assert(found_view(output@) =~= start.push((ruby@, consumed as int, penalty as int)));
        } else {
            assert(found_view(output@) =~= start + Seq::<(Seq<char>, int, int)>::empty());
        }
        ruby_count >= maximum_length
    } else {
        assert(found_view(output@) =~= start + Seq::<(Seq<char>, int, int)>::empty());
        false
    }
}

/// Explores the `j`-th direct slip of the next element.
fn explore_slip(
    input: &Vec<InputElement>,
    tables: &InputTableRegistry,
    maximum_length: usize,
    consumed: usize,
    penalty: u32,
    slips: &Vec<(String, u32)>,
    j: usize,
    elements: &mut Vec<InputElement>,
    output: &mut Vec<(String, usize, u32)>,
)
    requires
        consumed < input@.len(),
        penalty < MAXIMUM_PENALTY_HALVES,
        j < slips@.len(),
        replacements_view(slips@) == direct_spec(elements_view(input@)[consumed as int]),
    ensures
        final(elements)@ == old(elements)@,
        found_view(final(output)@) == found_view(old(output)@) + slip_visits(
            tables@,
            elements_view(input@),
            maximum_length as int,
            consumed as int,
            penalty as int,
            elements_view(old(elements)@),
            j as int,
        ),
    decreases input@.len() - consumed, 0int,
{
    proof {
        lemma_direct_small(elements_view(input@)[consumed as int]);
    }
    assert(replacements_view(slips@)[j as int] == (slips@[j as int].0@, slips@[j as int].1 as int));
    let text = slips[j].0.clone();
    let weight = slips[j].1;
    let e = InputElement::character(text, InputStyle::Direct);
    let ghost ev = elements_view(elements@);
    assert(consumed < input.len());
    elements.push(e);
    assert(elements_view(elements@) =~= ev.push(e@));
    let ghost pushed = elements_view(elements@);
    let ghost before = found_view(output@);
    enumerate(input, tables, maximum_length, consumed + 1, penalty + weight, true, elements, output);
    assert(found_view(output@) == before + visits(
        tables@,
        elements_view(input@),
        maximum_length as int,
        consumed + 1,
        penalty + weight,
        true,
        pushed,
    ));
    assert(direct_spec(elements_view(input@)[consumed as int])[j as int] == (text@, weight as int));
    assert(e@ == ElementV { piece: PieceV::Character(text@), style: StyleV::Direct });
    assert(slip_visits(tables@, elements_view(input@), maximum_length as int, consumed as int, penalty as int, ev, j as int) == visits(
        tables@,
        elements_view(input@),
        maximum_length as int,
        consumed + 1,
        penalty + weight,
        true,
        pushed,
    ));
    elements.pop();
    assert(elements@ =~= old(elements)@);
}

/// Explores the roman slip on the next two elements.
fn explore_roman(
    input: &Vec<InputElement>,
    tables: &InputTableRegistry,
    maximum_length: usize,
    consumed: usize,
    penalty: u32,
    keys: &str,
    elements: &mut Vec<InputElement>,
    output: &mut Vec<(String, usize, u32)>,
)
    requires
        consumed + 1 < input@.len(),
        penalty < MAXIMUM_PENALTY_HALVES,
        roman_spec(elements_view(input@).subrange(consumed as int, consumed + 2)) == Some(keys@),
    ensures
        final(elements)@ == old(elements)@,
        found_view(final(output)@) == found_view(old(output)@) + roman_visits(
            tables@,
            elements_view(input@),
            maximum_length as int,
            consumed as int,
            penalty as int,
            elements_view(old(elements)@),
        ),
    decreases input@.len() - consumed, 0int,
{
    let previous = elements.len();
    assert(consumed + 1 < input.len());
    push_roman_elements(elements, keys);
    enumerate(input, tables, maximum_length, consumed + 2, penalty + 7, true, elements, output);
    elements.truncate(previous);
    assert(elements@ =~= old(elements)@);
}

#[verifier::rlimit(80)]
fn enumerate(
    input: &Vec<InputElement>,
    tables: &InputTableRegistry,
    maximum_length: usize,
    consumed: usize,
    penalty: u32,
    changed: bool,
    elements: &mut Vec<InputElement>,
    output: &mut Vec<(String, usize, u32)>,
)
    requires
        consumed <= input@.len(),
        penalty <= 40,
    ensures
        final(elements)@ == old(elements)@,
        found_view(final(output)@) == found_view(old(output)@) + visits(
            tables@,
            elements_view(input@),
            maximum_length as int,
            consumed as int,
            penalty as int,
            changed,
            elements_view(old(elements)@),
        ),
    decreases input@.len() - consumed, 1int,
{
    let ghost iv = elements_view(input@);
    let ghost ev = elements_view(elements@);
    let ghost start = found_view(output@);
    let ghost here = here_spec(tables@, iv, maximum_length as int, consumed as int, penalty as int, changed, ev);
    proof {
        lemma_visits_step(tables@, iv, maximum_length as int, consumed as int, penalty as int, changed, ev);
    }
    let full = record_here(input, tables, maximum_length, consumed, penalty, changed, elements, output);
    if full || consumed >= input.len() || consumed >= maximum_length {
        return;
    }
    let next = input[consumed].duplicate();
    elements.push(next);
    assert(elements_view(elements@) =~= ev.push(iv[consumed as int]));
    enumerate(input, tables, maximum_length, consumed + 1, penalty, changed, elements, output);
    elements.pop();
    assert(elements@ =~= old(elements)@);
    if penalty >= MAXIMUM_PENALTY_HALVES {
        return;
    }
    let slips = direct_replacements(&input[consumed]);
    proof {
        lemma_direct_small(iv[consumed as int]);
    }
    let ghost after_keep = found_view(output@);
    if slips.len() >= 1 {
        explore_slip(input, tables, maximum_length, consumed, penalty, &slips, 0, elements, output);
    } else {
        assert(found_view(output@) =~= after_keep + slip_visits(tables@, iv, maximum_length as int, consumed as int, penalty as int, ev, 0));
    }
    let ghost after_first = found_view(output@);
    if slips.len() >= 2 {
        explore_slip(input, tables, maximum_length, consumed, penalty, &slips, 1, elements, output);
    } else {
        assert(found_view(output@) =~= after_first + slip_visits(tables@, iv, maximum_length as int, consumed as int, penalty as int, ev, 1));
    }
    let ghost after_second = found_view(output@);
    let mut roman: Option<&'static str> = None;
    if consumed + 1 < input.len() {
        let pair = &input.as_slice()[consumed..consumed + 2];
        assert(elements_view(pair@) =~= iv.subrange(consumed as int, consumed + 2));
        roman = roman_replacement(pair);
    }
    match roman {
        Some(keys) => {
            explore_roman(input, tables, maximum_length, consumed, penalty, keys, elements, output);
        },
        None => {
            assert(found_view(output@) =~= after_second + roman_visits(tables@, iv, maximum_length as int, consumed as int, penalty as int, ev));
        },
    }
}

/// A prefix the input could have been meant as.
#[derive(Clone, Debug, Eq, PartialEq)]
pub struct TypoPrefix {
    pub ruby: String,
    pub consumed: usize,
    /// The penalty of its slips, in half points.
    pub penalty_halves: u32,
}

/// The first entry for a reading and a consumed count.
pub open spec fn key_index(acc: Seq<(Seq<char>, int, int)>, ruby: Seq<char>, consumed: int) -> Option<int>
    decreases acc.len(),
{
    if acc.len() == 0 {
        None
    } else {
        match key_index(acc.drop_last(), ruby, consumed) {
            Some(j) => Some(j),
            None => if acc.last().0 == ruby && acc.last().1 == consumed {
                Some(acc.len() - 1)
            } else {
                None
            },
        }
    }
}

/// The distinct prefixes met, in the order first met, each with its least penalty.
pub open spec fn least_penalties(vs: Seq<(Seq<char>, int, int)>) -> Seq<(Seq<char>, int, int)>
    decreases vs.len(),
{
    if vs.len() == 0 {
        Seq::empty()
    } else {
        let acc = least_penalties(vs.drop_last());
        let v = vs.last();
        match key_index(acc, v.0, v.1) {
            Some(j) => acc.update(j, (v.0, v.1, if v.2 < acc[j].2 {
                v.2
            } else {
                acc[j].2
            })),
            None => acc.push(v),
        }
    }
}

pub open spec fn prefixes_view(v: Seq<TypoPrefix>) -> Seq<(Seq<char>, int, int)> {
    v.map_values(|p: TypoPrefix| (p.ruby@, p.consumed as int, p.penalty_halves as int))
}

proof fn lemma_key_index(acc: Seq<(Seq<char>, int, int)>, ruby: Seq<char>, consumed: int)
    ensures
        match key_index(acc, ruby, consumed) {
            Some(j) => 0 <= j < acc.len() && acc[j].0 == ruby && acc[j].1 == consumed && forall|i: int|
                0 <= i < j ==> !(#[trigger] acc[i].0 == ruby && acc[i].1 == consumed),
            None => forall|i: int| 0 <= i < acc.len() ==> !(#[trigger] acc[i].0 == ruby && acc[i].1 == consumed),
        },
    decreases acc.len(),
{
    if acc.len() > 0 {
        lemma_key_index(acc.drop_last(), ruby, consumed);
        assert forall|i: int| 0 <= i < acc.len() - 1 implies acc.drop_last()[i] == acc[i] by {}
    }
}

fn find_key(acc: &Vec<TypoPrefix>, ruby: &String, consumed: usize) -> (r: Option<usize>)
    ensures
        match r {
            Some(j) => key_index(prefixes_view(acc@), ruby@, consumed as int) == Some(j as int) && j
                < acc@.len(),
            None => key_index(prefixes_view(acc@), ruby@, consumed as int) is None,
        },
{
    let ghost pv = prefixes_view(acc@);
    proof {
        lemma_key_index(pv, ruby@, consumed as int);
    }
    let mut j: usize = 0;
    while j < acc.len()
        invariant
            j <= acc@.len(),
            pv == prefixes_view(acc@),
            forall|i: int| 0 <= i < j ==> !(#[trigger] pv[i].0 == ruby@ && pv[i].1 == consumed),
        decreases acc@.len() - j,
    {
        assert(pv[j as int] == (acc@[j as int].ruby@, acc@[j as int].consumed as int, acc@[j as int].penalty_halves as int));
        if acc[j].ruby == *ruby && acc[j].consumed == consumed {
            assert(pv[j as int].0 == ruby@ && pv[j as int].1 == consumed);
            proof {
                lemma_key_index(pv, ruby@, consumed as int);
                match key_index(pv, ruby@, consumed as int) {
                    Some(k) => {
                        if k < j {
                            assert(pv[k].0 == ruby@ && pv[k].1 == consumed);
                        } else if k > j {
                            assert(!(pv[j as int].0 == ruby@ && pv[j as int].1 == consumed));
                        }
                    },
                    None => {
                        assert(!(pv[j as int].0 == ruby@ && pv[j as int].1 == consumed));
                    },
                }
            }
            return Some(j);
        }
        j = j + 1;
    }
    None
}

/// The prefixes of the input that a slip could have typed, each with its least penalty.
pub fn typo_prefixes(input: &Vec<InputElement>, tables: &InputTableRegistry, maximum_length: usize) -> (out: Vec<TypoPrefix>)
    ensures
        prefixes_view(out@) == least_penalties(
            visits(tables@, elements_view(input@), maximum_length as int, 0, 0, false, Seq::empty()),
        ),
{
    let mut found: Vec<(String, usize, u32)> = Vec::new();
    let mut elements: Vec<InputElement> = Vec::new();
    enumerate(input, tables, maximum_length, 0, 0, false, &mut elements, &mut found);
    let ghost vs = found_view(found@);
    assert(vs =~= visits(tables@, elements_view(input@), maximum_length as int, 0, 0, false, elements_view(Seq::<InputElement>::empty())));
    assert(elements_view(Seq::<InputElement>::empty()) =~= Seq::<ElementV>::empty());
    let mut out: Vec<TypoPrefix> = Vec::new();
    let mut i: usize = 0;
    assert(vs.take(0) =~= Seq::<(Seq<char>, int, int)>::empty());
    assert(prefixes_view(out@) =~= Seq::<(Seq<char>, int, int)>::empty());
    while i < found.len()
        invariant
            i <= found@.len(),
            vs == found_view(found@),
            prefixes_view(out@) == least_penalties(vs.take(i as int)),
        decreases found@.len() - i,
    {
        let (ruby, consumed, penalty) = (found[i].0.clone(), found[i].1, found[i].2);
        assert(vs[i as int] == (ruby@, consumed as int, penalty as int));
        assert(vs.take(i + 1).drop_last() =~= vs.take(i as int));
        let ghost acc = prefixes_view(out@);
        match find_key(&out, &ruby, consumed) {
            Some(j) => {
                let least = if penalty < out[j].penalty_halves {
                    penalty
                } else {
                    out[j].penalty_halves
                };
                let entry = TypoPrefix { ruby, consumed, penalty_halves: least };
                out.set(j, entry);
                assert(prefixes_view(out@) =~= least_penalties(vs.take(i + 1)));
            },
            None => {
                out.push(TypoPrefix { ruby, consumed, penalty_halves: penalty });
                assert(prefixes_view(out@) =~= least_penalties(vs.take(i + 1)));
            },
        }
        i = i + 1;
    }
    assert(vs.take(i as int) =~= vs);
    out
}

} // verus!
