//! Foreign-language completion: which languages a typed text is completed in, and how
//! completions are matched against it.
use vstd::prelude::*;

use crate::input::composing::{ElementV, InputElement, elements_view};
use crate::input::table::{InputPiece, PieceV};
use crate::text::chars_of;
use crate::text_replacer::{lowercase, spec_lowercase};

verus! {

/// The layout of the keyboard the text is typed on.
#[derive(Clone, Copy, Debug, Eq, PartialEq, Structural)]
pub enum KeyboardLanguage {
    /// No particular layout.
    Unspecified,
    Japanese,
    EnglishUs,
    Greek,
}

impl Default for KeyboardLanguage {
    fn default() -> (k: Self)
        ensures
            k == KeyboardLanguage::Unspecified,
    {
        KeyboardLanguage::Unspecified
    }
}

/// A language that completions are offered in.
#[derive(Clone, Copy, Debug, Eq, PartialEq, Structural)]
pub enum ForeignLanguage {
    EnglishUs,
    Greek,
}

/// Offers completions of a typed text in a language.
pub trait ForeignCompletionProvider {
    fn completions(&self, language: ForeignLanguage, input: &str) -> Vec<String>;
}

/// The characters typed as character pieces, in order.
pub open spec fn typed_text_spec(es: Seq<ElementV>) -> Seq<char>
    decreases es.len(),
{
    if es.len() == 0 {
        Seq::empty()
    } else {
        typed_text_spec(es.drop_last()) + match es.last().piece {
            PieceV::Character(v) => v,
            _ => Seq::empty(),
        }
    }
}

/// The characters typed as character pieces, in order.
pub fn typed_text(elements: &Vec<InputElement>) -> (out: String)
    ensures
        out@ == typed_text_spec(elements_view(elements@)),
{
    let ghost ev = elements_view(elements@);
    let mut out: Vec<char> = Vec::new();
    let mut i: usize = 0;
    assert(ev.take(0) =~= Seq::<ElementV>::empty());
    while i < elements.len()
        invariant
            i <= elements@.len(),
            ev == elements_view(elements@),
            out@ == typed_text_spec(ev.take(i as int)),
        decreases elements@.len() - i,
    {
        assert(ev.take(i + 1).drop_last() =~= ev.take(i as int));
        assert(ev[i as int] == elements@[i as int]@);
        match &elements[i].piece {
            InputPiece::Character(v) => {
                let vc = chars_of(v.as_str());
                let ghost before = out@;
                let mut k: usize = 0;
                while k < vc.len()
                    invariant
                        k <= vc@.len(),
                        out@ == before + vc@.take(k as int),
                    decreases vc@.len() - k,
                {
                    out.push(vc[k]);
                    assert(vc@.take(k + 1) =~= vc@.take(k as int).push(vc@[k as int]));
                    k = k + 1;
                }
                assert(vc@.take(k as int) =~= vc@);
            },
            _ => {
                assert(out@ =~= out@ + Seq::<char>::empty());
            },
        }
        i = i + 1;
    }
    assert(ev.take(i as int) =~= ev);
    crate::text::string_from_chars(out.as_slice())
}

pub open spec fn is_ascii_alphabetic(c: char) -> bool {
    ('a' <= c && c <= 'z') || ('A' <= c && c <= 'Z')
}

/// The languages a typed text is completed in: English when it is ASCII letters only,
/// Greek on a Greek keyboard; none for an empty text.
pub open spec fn languages_spec(input: Seq<char>, keyboard: KeyboardLanguage) -> Seq<ForeignLanguage> {
    if input.len() == 0 {
        Seq::empty()
    } else {
        (if forall|i: int| 0 <= i < input.len() ==> is_ascii_alphabetic(#[trigger] input[i]) {
            seq![ForeignLanguage::EnglishUs]
        } else {
            Seq::empty()
        }) + (if keyboard == KeyboardLanguage::Greek {
            seq![ForeignLanguage::Greek]
        } else {
            Seq::empty()
        })
    }
}

/// The languages a typed text is completed in, in the order they are asked.
pub fn completion_languages(input: &str, keyboard: KeyboardLanguage) -> (out: Vec<ForeignLanguage>)
    ensures
        out@ == languages_spec(input@, keyboard),
{
    let v = chars_of(input);
    let mut out: Vec<ForeignLanguage> = Vec::new();
    if v.len() == 0 {
        return out;
    }
    let mut letters = true;
    let mut i: usize = 0;
    while i < v.len()
        invariant
            i <= v@.len(),
            letters == (forall|j: int| 0 <= j < i ==> is_ascii_alphabetic(#[trigger] v@[j])),
        decreases v@.len() - i,
    {
        let c = v[i];
        if !(('a' <= c && c <= 'z') || ('A' <= c && c <= 'Z')) {
            letters = false;
        }
        i = i + 1;
    }
    if letters {
        out.push(ForeignLanguage::EnglishUs);
    }
    if keyboard == KeyboardLanguage::Greek {
        out.push(ForeignLanguage::Greek);
    }
    assert(out@ =~= languages_spec(input@, keyboard));
    out
}

/// Whether a completion starts with the typed text, both in lower case.
pub fn starts_with_ignoring_case(candidate: &str, input: &str) -> (r: bool)
    ensures
        r == spec_lowercase(input@).is_prefix_of(spec_lowercase(candidate@)),
{
    let c = chars_of(lowercase(candidate).as_str());
    let p = chars_of(lowercase(input).as_str());
    if p.len() > c.len() {
        return false;
    }
    let mut i: usize = 0;
    while i < p.len()
        invariant
            i <= p@.len() <= c@.len(),
            p@ == spec_lowercase(input@),
            c@ == spec_lowercase(candidate@),
            forall|j: int| 0 <= j < i ==> p@[j] == c@[j],
        decreases p@.len() - i,
    {
        if p[i] != c[i] {
            return false;
        }
        i = i + 1;
    }
    true
}

/// The completions a provider offers for a typed text, per language asked, in order: each
/// list is what the provider returned when asked to complete `input` in that language.
pub fn foreign_completions<P: ForeignCompletionProvider>(
    input: &str,
    keyboard: KeyboardLanguage,
    provider: &P,
) -> (out: Vec<(ForeignLanguage, Vec<String>)>)
    ensures
        out@.map_values(|e: (ForeignLanguage, Vec<String>)| e.0) == languages_spec(input@, keyboard),
        forall|j: int|
            0 <= j < out@.len() ==> call_ensures(
                P::completions,
                (provider, #[trigger] out@[j].0, input),
                out@[j].1,
            ),
{
    let languages = completion_languages(input, keyboard);
    let mut out: Vec<(ForeignLanguage, Vec<String>)> = Vec::new();
    let mut i: usize = 0;
    while i < languages.len()
        invariant
            i <= languages@.len(),
            languages@ == languages_spec(input@, keyboard),
            out@.map_values(|e: (ForeignLanguage, Vec<String>)| e.0) == languages@.take(i as int),
            forall|j: int|
                0 <= j < out@.len() ==> call_ensures(
                    P::completions,
                    (provider, #[trigger] out@[j].0, input),
                    out@[j].1,
                ),
        decreases languages@.len() - i,
    {
        let language = languages[i];
        let found = provider.completions(language, input);
        let ghost before = out@.map_values(|e: (ForeignLanguage, Vec<String>)| e.0);
        out.push((language, found));
        assert(out@.map_values(|e: (ForeignLanguage, Vec<String>)| e.0) =~= before.push(language));
        assert(languages@.take(i + 1) =~= languages@.take(i as int).push(language));
        i = i + 1;
    }
    assert(languages@.take(i as int) =~= languages@);
    out
}

} // verus!
