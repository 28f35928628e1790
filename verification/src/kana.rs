//! Hiragana / katakana conversion over the fixed kana ranges.
use vstd::prelude::*;

use crate::text::{chars_of, push_char, scalar_to_char};

verus! {

/// Maps one hiragana scalar (U+3041..=U+3096) to katakana (+0x60); other characters are unchanged.
pub open spec fn katakana_char(c: char) -> char {
    if 0x3041 <= (c as u32) && (c as u32) <= 0x3096 {
        ((c as u32) + 96) as char
    } else {
        c
    }
}

/// Maps one katakana scalar (U+30A1..=U+30F6) to hiragana (-0x60); other characters are unchanged.
pub open spec fn hiragana_char(c: char) -> char {
    if 0x30A1 <= (c as u32) && (c as u32) <= 0x30F6 {
        ((c as u32) - 96) as char
    } else {
        c
    }
}

pub open spec fn katakana_seq(s: Seq<char>) -> Seq<char> {
    s.map_values(|c: char| katakana_char(c))
}

pub open spec fn hiragana_seq(s: Seq<char>) -> Seq<char> {
    s.map_values(|c: char| hiragana_char(c))
}

pub fn katakana_of(c: char) -> (r: char)
    ensures
        r == katakana_char(c),
{
    let v = c as u32;
    if 0x3041 <= v && v <= 0x3096 {
        let r = scalar_to_char(v + 96);
        assert(r == ((c as u32) + 96) as char);
        r
    } else {
        c
    }
}

pub fn hiragana_of(c: char) -> (r: char)
    ensures
        r == hiragana_char(c),
{
    let v = c as u32;
    if 0x30A1 <= v && v <= 0x30F6 {
        scalar_to_char(v - 96)
    } else {
        c
    }
}

/// Converts every hiragana character of `value` to katakana.
pub fn to_katakana(value: &str) -> (out: String)
    ensures
        out@ == katakana_seq(value@),
{
    let chars = chars_of(value);
    let mut out = String::new();
    let mut i: usize = 0;
    while i < chars.len()
        invariant
            i <= chars@.len(),
            chars@ == value@,
            out@ == katakana_seq(chars@.take(i as int)),
        decreases chars@.len() - i,
    {
        push_char(&mut out, katakana_of(chars[i]));
        assert(chars@.take(i + 1) == chars@.take(i as int).push(chars@[i as int]));
        i = i + 1;
    }
    assert(chars@.take(i as int) == chars@);
    out
}

/// Converts every katakana character of `value` to hiragana.
pub fn to_hiragana(value: &str) -> (out: String)
    ensures
        out@ == hiragana_seq(value@),
{
    let chars = chars_of(value);
    let mut out = String::new();
    let mut i: usize = 0;
    while i < chars.len()
        invariant
            i <= chars@.len(),
            chars@ == value@,
            out@ == hiragana_seq(chars@.take(i as int)),
        decreases chars@.len() - i,
    {
        push_char(&mut out, hiragana_of(chars[i]));
        assert(chars@.take(i + 1) == chars@.take(i as int).push(chars@[i as int]));
        i = i + 1;
    }
    assert(chars@.take(i as int) == chars@);
    out
}


/// Converting to katakana and back restores a text that held no katakana of the converted
/// range.
pub proof fn lemma_katakana_round_trip(s: Seq<char>)
    requires
        forall|i: int| 0 <= i < s.len() ==> !(0x30A1 <= (#[trigger] s[i] as u32) && (s[i] as u32) <= 0x30F6),
    ensures
        hiragana_seq(katakana_seq(s)) == s,
{
    assert forall|i: int| 0 <= i < s.len() implies #[trigger] hiragana_char(katakana_char(s[i])) == s[i] by {
        let c = s[i];
        if 0x3041 <= (c as u32) && (c as u32) <= 0x3096 {
            let k = ((c as u32) + 96) as char;
            assert((k as u32) == (c as u32) + 96);
            vstd::utf8::char_u32_cast(c, ((k as u32) - 96) as u32);
        }
    }
    assert(hiragana_seq(katakana_seq(s)) =~= s);
}

/// Converting to hiragana and back restores a text that held no hiragana of the converted
/// range.
pub proof fn lemma_hiragana_round_trip(s: Seq<char>)
    requires
        forall|i: int| 0 <= i < s.len() ==> !(0x3041 <= (#[trigger] s[i] as u32) && (s[i] as u32) <= 0x3096),
    ensures
        katakana_seq(hiragana_seq(s)) == s,
{
    assert forall|i: int| 0 <= i < s.len() implies #[trigger] katakana_char(hiragana_char(s[i])) == s[i] by {
        let c = s[i];
        if 0x30A1 <= (c as u32) && (c as u32) <= 0x30F6 {
            let h = ((c as u32) - 96) as char;
            assert((h as u32) == (c as u32) - 96);
            vstd::utf8::char_u32_cast(c, ((h as u32) + 96) as u32);
        }
    }
    assert(katakana_seq(hiragana_seq(s)) =~= s);
}


/// Every hiragana letter (U+3041 to U+3096) becomes the katakana letter 0x60 above it, and
/// every katakana letter (U+30A1 to U+30F6) becomes the hiragana letter 0x60 below it.
pub proof fn lemma_kana_offsets(c: char)
    ensures
        0x3041 <= (c as u32) <= 0x3096 ==> katakana_seq(seq![c]).len() == 1 && katakana_seq(
            seq![c],
        )[0] as u32 == (c as u32) + 0x60,
        0x30A1 <= (c as u32) <= 0x30F6 ==> hiragana_seq(seq![c]).len() == 1 && hiragana_seq(
            seq![c],
        )[0] as u32 == (c as u32) - 0x60,
{
}

} // verus!
