//! The text around the cursor that the input context reports, and the conversion context
//! taken from it.
use vstd::prelude::*;

use crate::text::{chars_of, push_char, string_from_chars};
use crate::zenz::{ZenzV2Config, ZenzV3Config, ZenzVersionConfig};

verus! {

/// The text around the cursor as the input context reports it: positions are counted in
/// characters, and the selection runs between the cursor and the anchor.
#[derive(Clone, Debug, Eq, PartialEq)]
pub struct SurroundingText {
    pub available: bool,
    pub text: String,
    pub cursor: u32,
    pub anchor: u32,
}

/// The text before and after the selection.
#[derive(Clone, Debug, Eq, PartialEq)]
pub struct SurroundingContext {
    pub left: Option<String>,
    pub right: Option<String>,
}

pub open spec fn opt_text(o: Option<String>) -> Option<Seq<char>> {
    match o {
        Some(s) => Some(s@),
        None => None,
    }
}

/// The decimal digits of a number.
pub open spec fn decimal_spec(n: nat) -> Seq<char>
    decreases n,
{
    if n < 10 {
        seq![(('0' as u32) + n) as char]
    } else {
        decimal_spec(n / 10).push((('0' as u32) + n % 10) as char)
    }
}

fn digit_char(d: u32) -> (c: char)
    requires
        d < 10,
    ensures
        c == (('0' as u32) + d) as char,
{
    crate::text::scalar_to_char(('0' as u32) + d)
}

/// Writes a number in decimal.
pub fn decimal(n: usize) -> (s: String)
    ensures
        s@ == decimal_spec(n as nat),
    decreases n,
{
    if n < 10 {
        let mut s = String::new();
        push_char(&mut s, digit_char(n as u32));
        s
    } else {
        let mut s = decimal(n / 10);
        push_char(&mut s, digit_char((n % 10) as u32));
        s
    }
}

/// The message of a position beyond the text.
pub open spec fn range_message(cursor: nat, anchor: nat, count: nat) -> Seq<char> {
    "surrounding text cursor "@ + decimal_spec(cursor) + " and anchor "@ + decimal_spec(anchor)
        + " exceed "@ + decimal_spec(count) + " characters"@
}

pub open spec fn surrounding_spec(surrounding: Option<SurroundingText>) -> Result<
    (Option<Seq<char>>, Option<Seq<char>>),
    Seq<char>,
> {
    match surrounding {
        Some(s) => if s.available {
            let count = s.text@.len();
            if s.cursor > count || s.anchor > count {
                Err(range_message(s.cursor as nat, s.anchor as nat, count))
            } else {
                let start = if s.cursor < s.anchor {
                    s.cursor
                } else {
                    s.anchor
                };
                let end = if s.cursor < s.anchor {
                    s.anchor
                } else {
                    s.cursor
                };
                Ok((Some(s.text@.take(start as int)), Some(s.text@.skip(end as int))))
            }
        } else {
            Ok((None, None))
        },
        None => Ok((None, None)),
    }
}

fn push_text(out: &mut String, s: &str)
    ensures
        final(out)@ == old(out)@ + s@,
{
    out.append(s);
}

/// The text before and after the selection; positions beyond the text are refused.
pub fn surrounding_context(surrounding: Option<&SurroundingText>) -> (r: Result<
    SurroundingContext,
    String,
>)
    ensures
        match r {
            Ok(c) => surrounding_spec(
                match surrounding {
                    Some(s) => Some(*s),
                    None => None,
                },
            ) == Ok::<(Option<Seq<char>>, Option<Seq<char>>), Seq<char>>(
                (opt_text(c.left), opt_text(c.right)),
            ),
            Err(m) => surrounding_spec(
                match surrounding {
                    Some(s) => Some(*s),
                    None => None,
                },
            ) == Err::<(Option<Seq<char>>, Option<Seq<char>>), Seq<char>>(m@),
        },
{
    let s = match surrounding {
        Some(s) => s,
        None => {
            return Ok(SurroundingContext { left: None, right: None });
        },
    };
    if !s.available {
        return Ok(SurroundingContext { left: None, right: None });
    }
    let chars = chars_of(s.text.as_str());
    let count = chars.len();
    let cursor = s.cursor as usize;
    let anchor = s.anchor as usize;
    if cursor > count || anchor > count {
        let mut m = String::new();
        push_text(&mut m, "surrounding text cursor ");
        push_text(&mut m, decimal(cursor).as_str());
        push_text(&mut m, " and anchor ");
        push_text(&mut m, decimal(anchor).as_str());
        push_text(&mut m, " exceed ");
        push_text(&mut m, decimal(count).as_str());
        push_text(&mut m, " characters");
        return Err(m);
    }
    let start = if cursor < anchor {
        cursor
    } else {
        anchor
    };
    let end = if cursor < anchor {
        anchor
    } else {
        cursor
    };
    let mut left: Vec<char> = Vec::new();
    let mut i: usize = 0;
    while i < start
        invariant
            i <= start <= chars@.len(),
            left@ == chars@.take(i as int),
        decreases start - i,
    {
        left.push(chars[i]);
        assert(chars@.take(i + 1) == chars@.take(i as int).push(chars@[i as int]));
        i = i + 1;
    }
    let mut right: Vec<char> = Vec::new();
    let mut j: usize = end;
    while j < count
        invariant
            end <= j <= count,
            count == chars@.len(),
            right@ == chars@.subrange(end as int, j as int),
        decreases count - j,
    {
        right.push(chars[j]);
        assert(chars@.subrange(end as int, j + 1) == chars@.subrange(end as int, j as int).push(
            chars@[j as int],
        ));
        j = j + 1;
    }
    assert(chars@.subrange(end as int, count as int) == chars@.skip(end as int));
    Ok(
        SurroundingContext {
            left: Some(string_from_chars(left.as_slice())),
            right: Some(string_from_chars(right.as_slice())),
        },
    )
}

fn clone_opt(o: &Option<String>) -> (r: Option<String>)
    ensures
        opt_text(r) == opt_text(*o),
{
    match o {
        Some(s) => Some(s.clone()),
        None => None,
    }
}

fn clone_opt_usize(o: &Option<usize>) -> (r: Option<usize>)
    ensures
        r == *o,
{
    match o {
        Some(v) => Some(*v),
        None => None,
    }
}

/// The model settings with the contexts of the surrounding text: the left context for both
/// formats and the right context for the third.
pub fn version_with_context(version: &ZenzVersionConfig, surrounding: &SurroundingContext) -> (v:
    ZenzVersionConfig)
    ensures
        match (version, v) {
            (ZenzVersionConfig::V2(a), ZenzVersionConfig::V2(b)) => opt_text(b.profile) == opt_text(
                a.profile,
            ) && b.max_left_context_length == a.max_left_context_length && opt_text(
                b.left_context,
            ) == opt_text(surrounding.left),
            (ZenzVersionConfig::V3(a), ZenzVersionConfig::V3(b)) => opt_text(b.profile) == opt_text(
                a.profile,
            ) && opt_text(b.topic) == opt_text(a.topic) && opt_text(b.style) == opt_text(a.style)
                && opt_text(b.preference) == opt_text(a.preference)
                && b.max_left_context_length == a.max_left_context_length
                && b.max_right_context_length == a.max_right_context_length
                && b.enable_alignment_separator == a.enable_alignment_separator && opt_text(
                b.left_context,
            ) == opt_text(surrounding.left) && opt_text(b.right_context) == opt_text(
                surrounding.right,
            ),
            _ => false,
        },
{
    match version {
        ZenzVersionConfig::V2(a) => ZenzVersionConfig::V2(
            ZenzV2Config {
                profile: clone_opt(&a.profile),
                left_context: clone_opt(&surrounding.left),
                max_left_context_length: clone_opt_usize(&a.max_left_context_length),
            },
        ),
        ZenzVersionConfig::V3(a) => ZenzVersionConfig::V3(
            ZenzV3Config {
                profile: clone_opt(&a.profile),
                topic: clone_opt(&a.topic),
                style: clone_opt(&a.style),
                preference: clone_opt(&a.preference),
                left_context: clone_opt(&surrounding.left),
                right_context: clone_opt(&surrounding.right),
                max_left_context_length: clone_opt_usize(&a.max_left_context_length),
                max_right_context_length: clone_opt_usize(&a.max_right_context_length),
                enable_alignment_separator: a.enable_alignment_separator,
            },
        ),
    }
}

} // verus!
