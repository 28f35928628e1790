//! Prompts for the zenz conversion model and the byte constraints on its output.
use vstd::prelude::*;

use crate::dictionary::entry::{DictionaryEntry, EntryV, entry_views};
use crate::kana::{hiragana_seq, katakana_seq, to_hiragana, to_katakana};
use crate::text::chars_of;
use crate::text::{graphemes, push_char, spec_graphemes, views};

verus! {

pub const INPUT_TAG: char = '\u{EE00}';

pub const OUTPUT_TAG: char = '\u{EE01}';

pub const CONTEXT_TAG: char = '\u{EE02}';

pub const PROFILE_TAG: char = '\u{EE03}';

pub const TOPIC_TAG: char = '\u{EE04}';

pub const STYLE_TAG: char = '\u{EE05}';

pub const PREFERENCE_TAG: char = '\u{EE06}';

pub const RIGHT_CONTEXT_TAG: char = '\u{EE07}';

/// Marks the cursor inside the input, and the end of the text before it in the output.
pub const ALIGNMENT_SEPARATOR: char = '\u{EE08}';

/// The UTF-8 encoding of [`ALIGNMENT_SEPARATOR`].
pub open spec fn separator_bytes() -> Seq<u8> {
    seq![0xEEu8, 0xB8u8, 0x88u8]
}

/// Whether the alignment separator's encoding starts at byte `j`.
pub open spec fn separator_at(bytes: Seq<u8>, j: int) -> bool {
    0 <= j && j + 3 <= bytes.len() && bytes.subrange(j, j + 3) == separator_bytes()
}

/// The first position at or after `j` where the alignment separator's encoding starts.
pub open spec fn separator_from(bytes: Seq<u8>, j: int) -> Option<int>
    decreases bytes.len() - j,
{
    if j < 0 || j + 3 > bytes.len() {
        None
    } else if separator_at(bytes, j) {
        Some(j)
    } else {
        separator_from(bytes, j + 1)
    }
}

/// A constraint on the bytes of generated text: they must start with `bytes`, and with
/// `has_eos` they must be exactly `bytes`.
#[derive(Clone, Debug, Eq, Hash, PartialEq)]
pub struct PrefixConstraint {
    pub bytes: Vec<u8>,
    pub has_eos: bool,
    pub ignore_memory_and_user_dictionary: bool,
}

impl PrefixConstraint {
    pub fn new(bytes: Vec<u8>) -> (c: Self)
        ensures
            c.bytes@ == bytes@,
            !c.has_eos,
            !c.ignore_memory_and_user_dictionary,
    {
        PrefixConstraint { bytes, has_eos: false, ignore_memory_and_user_dictionary: false }
    }

    /// A constraint from text that may hold the alignment separator: the text before the
    /// separator must then be generated exactly.
    pub fn normalized(bytes: Vec<u8>, default_has_eos: bool, ignore_memory_and_user_dictionary: bool) -> (c:
        Self)
        ensures
            c.ignore_memory_and_user_dictionary == ignore_memory_and_user_dictionary,
            match separator_from(bytes@, 0) {
                Some(i) => c.bytes@ == bytes@.take(i) && c.has_eos,
                None => c.bytes@ == bytes@ && c.has_eos == default_has_eos,
            },
    {
        let mut i: usize = 0;
        let n = bytes.len();
        while i < n && n - i >= 3
            invariant
                n == bytes@.len(),
                i <= n,
                separator_from(bytes@, i as int) == separator_from(bytes@, 0),
            decreases n - i,
        {
            if bytes[i] == 0xEE && bytes[i + 1] == 0xB8 && bytes[i + 2] == 0x88 {
                assert(bytes@.subrange(i as int, i + 3) =~= separator_bytes());
                let mut kept: Vec<u8> = Vec::new();
                let mut k: usize = 0;
                while k < i
                    invariant
                        k <= i,
                        i + 3 <= n,
                        n == bytes@.len(),
                        kept@ == bytes@.take(k as int),
                    decreases i - k,
                {
                    kept.push(bytes[k]);
                    assert(bytes@.take(k + 1) == bytes@.take(k as int).push(bytes@[k as int]));
                    k = k + 1;
                }
                return PrefixConstraint { bytes: kept, has_eos: true, ignore_memory_and_user_dictionary };
            }
            assert(!separator_at(bytes@, i as int)) by {
                if bytes@.subrange(i as int, i + 3) == separator_bytes() {
                    assert(bytes@.subrange(i as int, i + 3)[0] == bytes@[i as int]);
                    assert(bytes@.subrange(i as int, i + 3)[1] == bytes@[i + 1]);
                    assert(bytes@.subrange(i as int, i + 3)[2] == bytes@[i + 2]);
                }
            }
            i = i + 1;
        }
        PrefixConstraint { bytes, has_eos: default_has_eos, ignore_memory_and_user_dictionary }
    }

    /// Whether the constraint allows any text.
    pub fn is_empty(&self) -> (r: bool)
        ensures
            r == (self.bytes@.len() == 0 && !self.has_eos),
    {
        self.bytes.len() == 0 && !self.has_eos
    }

    /// Whether text beginning with `candidate` can still meet the constraint.
    pub fn can_continue(&self, candidate: &[u8]) -> (r: bool)
        ensures
            r == if self.has_eos {
                candidate@.len() <= self.bytes@.len() && candidate@.is_prefix_of(self.bytes@)
            } else {
                candidate@.is_prefix_of(self.bytes@) || self.bytes@.is_prefix_of(candidate@)
            },
    {
        if self.has_eos {
            candidate.len() <= self.bytes.len() && starts_with(self.bytes.as_slice(), candidate)
        } else {
            starts_with(self.bytes.as_slice(), candidate) || starts_with(
                candidate,
                self.bytes.as_slice(),
            )
        }
    }

    /// Whether `candidate` meets the constraint.
    pub fn is_satisfied_by(&self, candidate: &[u8]) -> (r: bool)
        ensures
            r == if self.has_eos {
                candidate@ == self.bytes@
            } else {
                self.bytes@.is_prefix_of(candidate@)
            },
    {
        if self.has_eos {
            let r = candidate.len() == self.bytes.len() && starts_with(candidate, self.bytes.as_slice());
            proof {
                if r {
                    assert(candidate@ =~= self.bytes@);
                }
            }
            r
        } else {
            starts_with(candidate, self.bytes.as_slice())
        }
    }
}

/// Whether `value` starts with `prefix`.
fn starts_with(value: &[u8], prefix: &[u8]) -> (r: bool)
    ensures
        r == prefix@.is_prefix_of(value@),
{
    if prefix.len() > value.len() {
        return false;
    }
    let mut i: usize = 0;
    while i < prefix.len()
        invariant
            i <= prefix@.len() <= value@.len(),
            forall|j: int| 0 <= j < i ==> prefix@[j] == value@[j],
        decreases prefix@.len() - i,
    {
        if prefix[i] != value[i] {
            return false;
        }
        i = i + 1;
    }
    assert(prefix@ == value@.take(prefix@.len() as int));
    true
}

/// Settings of the second prompt format.
#[derive(Clone, Debug, Eq, Hash, PartialEq)]
pub struct ZenzV2Config {
    pub profile: Option<String>,
    pub left_context: Option<String>,
    pub max_left_context_length: Option<usize>,
}

/// Settings of the third prompt format.
#[derive(Clone, Debug, Eq, Hash, PartialEq)]
pub struct ZenzV3Config {
    pub profile: Option<String>,
    pub topic: Option<String>,
    pub style: Option<String>,
    pub preference: Option<String>,
    pub left_context: Option<String>,
    pub right_context: Option<String>,
    pub max_left_context_length: Option<usize>,
    pub max_right_context_length: Option<usize>,
    pub enable_alignment_separator: bool,
}

impl Default for ZenzV2Config {
    fn default() -> (c: Self)
        ensures
            c.profile is None && c.left_context is None && c.max_left_context_length is None,
    {
        ZenzV2Config { profile: None, left_context: None, max_left_context_length: None }
    }
}

impl Default for ZenzV3Config {
    fn default() -> (c: Self)
        ensures
            c.profile is None && c.topic is None && c.style is None && c.preference is None
                && c.left_context is None && c.right_context is None
                && c.max_left_context_length is None && c.max_right_context_length is None
                && !c.enable_alignment_separator,
    {
        ZenzV3Config {
            profile: None,
            topic: None,
            style: None,
            preference: None,
            left_context: None,
            right_context: None,
            max_left_context_length: None,
            max_right_context_length: None,
            enable_alignment_separator: false,
        }
    }
}

/// Which prompt format the model expects.
#[derive(Clone, Debug, Eq, Hash, PartialEq)]
pub enum ZenzVersionConfig {
    V2(ZenzV2Config),
    V3(ZenzV3Config),
}

impl Default for ZenzVersionConfig {
    fn default() -> (c: Self)
        ensures
            c matches ZenzVersionConfig::V3(v3) && v3.profile is None && v3.topic is None
                && v3.style is None && v3.preference is None && v3.left_context is None
                && v3.right_context is None && v3.max_left_context_length is None
                && v3.max_right_context_length is None && !v3.enable_alignment_separator,
    {
        ZenzVersionConfig::V3(ZenzV3Config::default())
    }
}

pub open spec fn opt_text(o: Option<String>) -> Seq<char> {
    match o {
        Some(s) => s@,
        None => Seq::empty(),
    }
}

pub open spec fn or_default(o: Option<usize>, d: int) -> int {
    match o {
        Some(v) => v as int,
        None => d,
    }
}

pub open spec fn min_int(a: int, b: int) -> int {
    if a <= b {
        a
    } else {
        b
    }
}

/// The first `n` grapheme clusters of a text.
pub open spec fn first_graphemes(s: Seq<char>, n: int) -> Seq<char> {
    let g = spec_graphemes(s);
    g.take(min_int(n, g.len() as int)).flatten()
}

/// The last `n` grapheme clusters of a text.
pub open spec fn last_graphemes(s: Seq<char>, n: int) -> Seq<char> {
    let g = spec_graphemes(s);
    g.skip(g.len() - min_int(n, g.len() as int)).flatten()
}

/// A tagged condition, when its value is present and not empty.
pub open spec fn condition(tag: char, value: Option<String>) -> Seq<Seq<char>> {
    match value {
        Some(v) => if v@.len() > 0 {
            seq![seq![tag] + last_graphemes(v@, 25)]
        } else {
            Seq::empty()
        },
        None => Seq::empty(),
    }
}

/// The profile, topic, style and preference conditions of the third format.
pub open spec fn v3_conditions_spec(c: ZenzV3Config) -> Seq<Seq<char>> {
    condition(PROFILE_TAG, c.profile) + condition(TOPIC_TAG, c.topic) + condition(STYLE_TAG, c.style)
        + condition(PREFERENCE_TAG, c.preference)
}

/// A tagged context, when it is not empty.
pub open spec fn context_part(tag: char, text: Seq<char>) -> Seq<char> {
    if text.len() > 0 {
        seq![tag] + text
    } else {
        Seq::empty()
    }
}

/// The left and right contexts of the third format.
pub open spec fn v3_contexts(left: Seq<char>, c: ZenzV3Config) -> Seq<char> {
    context_part(CONTEXT_TAG, last_graphemes(left, or_default(c.max_left_context_length, 40)))
        + context_part(
        RIGHT_CONTEXT_TAG,
        first_graphemes(opt_text(c.right_context), or_default(c.max_right_context_length, 40)),
    )
}

pub open spec fn input_prediction_spec(left: Seq<char>, composing: Seq<char>, c: ZenzV3Config) -> Seq<
    char,
> {
    v3_conditions_spec(c).flatten() + v3_contexts(left, c) + seq![INPUT_TAG] + katakana_seq(
        composing,
    )
}

/// Whether the cursor lies inside the input, before its last grapheme cluster.
pub open spec fn separator_wanted(input: Seq<char>, cursor: Option<usize>) -> bool {
    match cursor {
        Some(p) => p < spec_graphemes(input).len(),
        None => false,
    }
}

/// The input with the alignment separator at the cursor, when enabled and inside.
pub open spec fn aligned_spec(input: Seq<char>, cursor: Option<usize>, enabled: bool) -> Seq<char> {
    if enabled && separator_wanted(input, cursor) {
        let p = cursor->0 as int;
        first_graphemes(input, p) + seq![ALIGNMENT_SEPARATOR] + spec_graphemes(input).skip(
            p,
        ).flatten()
    } else {
        input
    }
}

/// Parts joined with `sep` between them.
pub open spec fn join_with(parts: Seq<Seq<char>>, sep: Seq<char>) -> Seq<char>
    decreases parts.len(),
{
    if parts.len() == 0 {
        Seq::empty()
    } else if parts.len() == 1 {
        parts[0]
    } else {
        join_with(parts.drop_last(), sep) + sep + parts.last()
    }
}

pub open spec fn dictionary_condition(prompt: Seq<char>) -> Seq<Seq<char>> {
    if prompt.len() > 0 {
        seq!["辞書:"@ + prompt]
    } else {
        Seq::empty()
    }
}

pub open spec fn profile_condition(profile: Option<String>) -> Seq<Seq<char>> {
    match profile {
        Some(p) => if p@.len() > 0 {
            seq!["プロフィール:"@ + last_graphemes(p@, 25)]
        } else {
            Seq::empty()
        },
        None => Seq::empty(),
    }
}

/// The evaluation prompt of the second format.
pub open spec fn v2_evaluation_spec(input: Seq<char>, dictionary: Seq<char>, c: ZenzV2Config) -> Seq<
    char,
> {
    let conditions = dictionary_condition(dictionary) + profile_condition(c.profile);
    let left = last_graphemes(opt_text(c.left_context), or_default(c.max_left_context_length, 40));
    if conditions.len() > 0 {
        seq![INPUT_TAG] + input + seq![CONTEXT_TAG] + join_with(conditions, "・"@) + "・発言:"@ + left
            + seq![OUTPUT_TAG]
    } else if left.len() > 0 {
        seq![INPUT_TAG] + input + seq![CONTEXT_TAG] + left + seq![OUTPUT_TAG]
    } else {
        seq![INPUT_TAG] + input + seq![OUTPUT_TAG]
    }
}

/// The evaluation prompt of the third format.
pub open spec fn v3_evaluation_spec(
    input: Seq<char>,
    cursor: Option<usize>,
    dictionary: Seq<char>,
    c: ZenzV3Config,
) -> Seq<char> {
    dictionary_condition(dictionary).flatten() + v3_conditions_spec(c).flatten() + v3_contexts(
        opt_text(c.left_context),
        c,
    ) + seq![INPUT_TAG] + aligned_spec(input, cursor, c.enable_alignment_separator) + seq![
        OUTPUT_TAG,
    ]
}

/// Builds the prompts of the zenz model.
pub struct ZenzPromptBuilder;

fn push_text(out: &mut String, s: &str)
    ensures
        final(out)@ == old(out)@ + s@,
{
    out.append(s);
}

/// The concatenation of `gs[from..to]`.
pub(crate) fn concat_range(gs: &Vec<String>, from: usize, to: usize) -> (out: String)
    requires
        from <= to <= gs@.len(),
    ensures
        out@ == views(gs@).subrange(from as int, to as int).flatten(),
{
    let ghost gv = views(gs@);
    let mut out = String::new();
    let mut i = from;
    while i < to
        invariant
            from <= i <= to <= gs@.len(),
            gv == views(gs@),
            out@ == gv.subrange(from as int, i as int).flatten(),
        decreases to - i,
    {
        push_text(&mut out, gs[i].as_str());
        proof {
            assert(gv.subrange(from as int, i + 1) == gv.subrange(from as int, i as int).push(
                gv[i as int],
            ));
            gv.subrange(from as int, i as int).lemma_flatten_push(gv[i as int]);
        }
        i = i + 1;
    }
    out
}

/// The first `count` grapheme clusters of `value`.
fn prefix_of(value: &str, count: usize) -> (out: String)
    ensures
        out@ == first_graphemes(value@, count as int),
{
    let gs = graphemes(value);
    let n = if count < gs.len() {
        count
    } else {
        gs.len()
    };
    assert(views(gs@).subrange(0, n as int) == views(gs@).take(n as int));
    concat_range(&gs, 0, n)
}

/// The last `count` grapheme clusters of `value`.
fn suffix_of(value: &str, count: usize) -> (out: String)
    ensures
        out@ == last_graphemes(value@, count as int),
{
    let gs = graphemes(value);
    let n = if count < gs.len() {
        count
    } else {
        gs.len()
    };
    let start = gs.len() - n;
    assert(views(gs@).subrange(start as int, gs@.len() as int) == views(gs@).skip(start as int));
    concat_range(&gs, start, gs.len())
}

fn opt_str(o: &Option<String>) -> (s: &str)
    ensures
        s@ == opt_text(*o),
{
    proof {
        reveal_strlit("");
    }
    match o {
        Some(v) => v.as_str(),
        None => "",
    }
}

fn unwrap_or(o: Option<usize>, d: usize) -> (v: usize)
    ensures
        v == or_default(o, d as int),
{
    match o {
        Some(v) => v,
        None => d,
    }
}

/// Appends `tag` and the last 25 clusters of the value, when present and not empty.
fn push_condition(out: &mut String, tag: char, value: &Option<String>)
    ensures
        final(out)@ == old(out)@ + condition(tag, *value).flatten(),
{
    match value {
        Some(v) => {
            if !v.as_str().is_empty() {
                let ghost before = out@;
                push_char(out, tag);
                let tail = suffix_of(v.as_str(), 25);
                push_text(out, tail.as_str());
                proof {
                    let part = seq![tag] + last_graphemes(v@, 25);
                    seq![part].lemma_flatten_one_element();
                    assert(out@ =~= before + part);
                }
            } else {
                assert(v@.len() == 0);
                assert(condition(tag, *value) == Seq::<Seq<char>>::empty());
                assert(out@ =~= old(out)@ + Seq::<char>::empty());
            }
        },
        None => {
            assert(out@ =~= old(out)@ + Seq::<char>::empty());
        },
    }
}

proof fn lemma_flatten_add(a: Seq<Seq<char>>, b: Seq<Seq<char>>)
    ensures
        (a + b).flatten() == a.flatten() + b.flatten(),
    decreases a.len(),
{
    if a.len() == 0 {
        assert(a + b == b);
    } else {
        lemma_flatten_add(a.drop_first(), b);
        assert((a + b).drop_first() == a.drop_first() + b);
        assert((a + b).first() == a.first());
    }
}

/// Appends the four conditions of the third format.
fn push_v3_conditions(out: &mut String, config: &ZenzV3Config)
    ensures
        final(out)@ == old(out)@ + v3_conditions_spec(*config).flatten(),
{
    push_condition(out, PROFILE_TAG, &config.profile);
    push_condition(out, TOPIC_TAG, &config.topic);
    push_condition(out, STYLE_TAG, &config.style);
    push_condition(out, PREFERENCE_TAG, &config.preference);
    proof {
        let a = condition(PROFILE_TAG, config.profile);
        let b = condition(TOPIC_TAG, config.topic);
        let c = condition(STYLE_TAG, config.style);
        let d = condition(PREFERENCE_TAG, config.preference);
        lemma_flatten_add(a, b);
        lemma_flatten_add(a + b, c);
        lemma_flatten_add(a + b + c, d);
    }
}

/// Appends a tag and a text, when the text is not empty.
fn push_context(out: &mut String, tag: char, text: &String)
    ensures
        final(out)@ == old(out)@ + context_part(tag, text@),
{
    if !text.as_str().is_empty() {
        push_char(out, tag);
        push_text(out, text.as_str());
        assert(final(out)@ =~= old(out)@ + context_part(tag, text@));
    } else {
        assert(text@.len() == 0);
        assert(out@ =~= old(out)@ + Seq::<char>::empty());
    }
}

/// Appends the left and right contexts of the third format.
fn push_v3_contexts(out: &mut String, left_context: &str, config: &ZenzV3Config)
    ensures
        final(out)@ == old(out)@ + v3_contexts(left_context@, *config),
{
    let left = suffix_of(left_context, unwrap_or(config.max_left_context_length, 40));
    let right = prefix_of(opt_str(&config.right_context), unwrap_or(config.max_right_context_length, 40));
    push_context(out, CONTEXT_TAG, &left);
    push_context(out, RIGHT_CONTEXT_TAG, &right);
    assert(final(out)@ =~= old(out)@ + v3_contexts(left_context@, *config));
}

fn should_insert_separator(input: &str, cursor: Option<usize>) -> (r: bool)
    ensures
        r == separator_wanted(input@, cursor),
{
    match cursor {
        Some(p) => p < graphemes(input).len(),
        None => false,
    }
}

fn aligned_input(input: &str, cursor: Option<usize>, enabled: bool) -> (out: String)
    ensures
        out@ == aligned_spec(input@, cursor, enabled),
{
    if !enabled || !should_insert_separator(input, cursor) {
        return input.to_owned();
    }
    let p = match cursor {
        Some(p) => p,
        None => 0,
    };
    let gs = graphemes(input);
    assert(views(gs@).subrange(0, p as int) == views(gs@).take(p as int));
    assert(views(gs@).subrange(p as int, gs@.len() as int) == views(gs@).skip(p as int));
    let mut out = concat_range(&gs, 0, p);
    push_char(&mut out, ALIGNMENT_SEPARATOR);
    let rest = concat_range(&gs, p, gs.len());
    push_text(&mut out, rest.as_str());
    out
}

impl ZenzPromptBuilder {
    /// The prompt that asks the third format to predict the input after `composing_text`;
    /// the second format has none.
    pub fn input_prediction(left_context: &str, composing_text: &str, version: &ZenzVersionConfig) -> (r:
        Option<String>)
        ensures
            match version {
                ZenzVersionConfig::V3(c) => r matches Some(s) && s@ == input_prediction_spec(
                    left_context@,
                    composing_text@,
                    *c,
                ),
                ZenzVersionConfig::V2(_) => r is None,
            },
    {
        match version {
            ZenzVersionConfig::V2(_) => None,
            ZenzVersionConfig::V3(config) => {
                let mut prompt = String::new();
                push_v3_conditions(&mut prompt, config);
                push_v3_contexts(&mut prompt, left_context, config);
                push_char(&mut prompt, INPUT_TAG);
                let kana = to_katakana(composing_text);
                push_text(&mut prompt, kana.as_str());
                assert(prompt@ =~= input_prediction_spec(left_context@, composing_text@, *config));
                Some(prompt)
            },
        }
    }

    /// The prompt prefix for typo correction: the context (if any) and the input tag.
    pub fn typo_correction_prefix(left_context: &str) -> (s: String)
        ensures
            s@ == if left_context@.len() == 0 {
                seq![INPUT_TAG]
            } else {
                seq![CONTEXT_TAG] + left_context@ + seq![INPUT_TAG]
            },
    {
        let mut s = String::new();
        if !left_context.is_empty() {
            push_char(&mut s, CONTEXT_TAG);
            push_text(&mut s, left_context);
        }
        push_char(&mut s, INPUT_TAG);
        s
    }

    /// The prompt that asks the model to convert `input`.
    pub fn candidate_evaluation(
        input: &str,
        input_cursor_position: Option<usize>,
        user_dictionary_prompt: &str,
        version: &ZenzVersionConfig,
    ) -> (s: String)
        ensures
            s@ == match version {
                ZenzVersionConfig::V2(c) => v2_evaluation_spec(input@, user_dictionary_prompt@, *c),
                ZenzVersionConfig::V3(c) => v3_evaluation_spec(
                    input@,
                    input_cursor_position,
                    user_dictionary_prompt@,
                    *c,
                ),
            },
    {
        match version {
            ZenzVersionConfig::V2(config) => {
                let ghost dict = dictionary_condition(user_dictionary_prompt@);
                let ghost prof = profile_condition(config.profile);
                let mut joined = String::new();
                let mut count: usize = 0;
                if !user_dictionary_prompt.is_empty() {
                    push_text(&mut joined, "辞書:");
                    push_text(&mut joined, user_dictionary_prompt);
                    count = 1;
                }
                assert(joined@ == join_with(dict, "・"@) && count == dict.len());
                let profile_text = opt_str(&config.profile);
                if !profile_text.is_empty() {
                    let ghost before = joined@;
                    if count > 0 {
                        push_text(&mut joined, "・");
                    }
                    push_text(&mut joined, "プロフィール:");
                    let tail = suffix_of(profile_text, 25);
                    push_text(&mut joined, tail.as_str());
                    count = count + 1;
                    proof {
                        let conds = dict + prof;
                        if dict.len() == 0 {
                            assert(conds =~= prof);
                        } else {
                            assert(conds.drop_last() =~= dict);
                        }
                        assert(joined@ =~= join_with(conds, "・"@));
                    }
                } else {
                    assert(prof =~= Seq::<Seq<char>>::empty());
                    assert(dict + prof =~= dict);
                }
                let ghost conds = dict + prof;
                assert(joined@ == join_with(conds, "・"@) && count == conds.len());
                let left = suffix_of(
                    opt_str(&config.left_context),
                    unwrap_or(config.max_left_context_length, 40),
                );
                let mut s = String::new();
                push_char(&mut s, INPUT_TAG);
                push_text(&mut s, input);
                if count > 0 {
                    push_char(&mut s, CONTEXT_TAG);
                    push_text(&mut s, joined.as_str());
                    push_text(&mut s, "・発言:");
                    push_text(&mut s, left.as_str());
                } else if !left.as_str().is_empty() {
                    push_char(&mut s, CONTEXT_TAG);
                    push_text(&mut s, left.as_str());
                }
                push_char(&mut s, OUTPUT_TAG);
                assert(s@ =~= v2_evaluation_spec(input@, user_dictionary_prompt@, *config));
                s
            },
            ZenzVersionConfig::V3(config) => {
                let mut s = String::new();
                if !user_dictionary_prompt.is_empty() {
                    push_text(&mut s, "辞書:");
                    push_text(&mut s, user_dictionary_prompt);
                    proof {
                        let d = dictionary_condition(user_dictionary_prompt@);
                        d.lemma_flatten_one_element();
                    }
                }
                assert(s@ == dictionary_condition(user_dictionary_prompt@).flatten());
                push_v3_conditions(&mut s, config);
                push_v3_contexts(&mut s, opt_str(&config.left_context), config);
                push_char(&mut s, INPUT_TAG);
                let aligned = aligned_input(input, input_cursor_position, config.enable_alignment_separator);
                push_text(&mut s, aligned.as_str());
                push_char(&mut s, OUTPUT_TAG);
                assert(s@ =~= v3_evaluation_spec(
                    input@,
                    input_cursor_position,
                    user_dictionary_prompt@,
                    *config,
                ));
                s
            },
        }
    }

    /// The candidate as the model should produce it: with the alignment separator after it
    /// when the third format marks the cursor inside the input.
    pub fn candidate_text_for_evaluation(
        candidate_text: &str,
        input: &str,
        input_cursor_position: Option<usize>,
        version: &ZenzVersionConfig,
    ) -> (s: String)
        ensures
            s@ == if version matches ZenzVersionConfig::V3(c) && c.enable_alignment_separator
                && separator_wanted(input@, input_cursor_position) {
                candidate_text@.push(ALIGNMENT_SEPARATOR)
            } else {
                candidate_text@
            },
    {
        let enabled = match version {
            ZenzVersionConfig::V3(config) => config.enable_alignment_separator,
            ZenzVersionConfig::V2(_) => false,
        };
        let mut s = candidate_text.to_owned();
        if enabled && should_insert_separator(input, input_cursor_position) {
            push_char(&mut s, ALIGNMENT_SEPARATOR);
        }
        s
    }
}


/// Whether a predicted text may be offered: with no (non-empty) possible next input every
/// text may, otherwise its katakana must begin one of them.
pub open spec fn nonempty_text() -> spec_fn(Seq<char>) -> bool {
    |p: Seq<char>| p.len() > 0
}

pub open spec fn input_allowed_spec(possible_nexts: Seq<Seq<char>>, candidate: Seq<char>) -> bool {
    let allowed = possible_nexts.filter(nonempty_text());
    allowed.len() == 0 || exists|i: int|
        0 <= i < allowed.len() && katakana_seq(candidate).is_prefix_of(#[trigger] allowed[i])
}

/// Whether a predicted text may be offered after the possible next inputs.
pub fn input_allowed(possible_nexts: &Vec<String>, candidate: &str) -> (r: bool)
    ensures
        r == input_allowed_spec(views(possible_nexts@), candidate@),
{
    let k = crate::text::chars_of(crate::kana::to_katakana(candidate).as_str());
    let ghost pv = views(possible_nexts@);
    let ghost nonempty = nonempty_text();
    let mut any_nonempty = false;
    let mut i: usize = 0;
    assert(pv.take(0).filter(nonempty) =~= Seq::<Seq<char>>::empty()) by {
        reveal(Seq::filter);
    }
    while i < possible_nexts.len()
        invariant
            i <= possible_nexts@.len(),
            pv == views(possible_nexts@),
            k@ == katakana_seq(candidate@),
            nonempty == nonempty_text(),
            any_nonempty == (pv.take(i as int).filter(nonempty).len() > 0),
            forall|j: int|
                0 <= j < pv.take(i as int).filter(nonempty).len() ==> !katakana_seq(candidate@).is_prefix_of(
                    #[trigger] pv.take(i as int).filter(nonempty)[j],
                ),
        decreases possible_nexts@.len() - i,
    {
        let ghost before = pv.take(i as int).filter(nonempty);
        proof {
            assert(pv.take(i + 1) =~= pv.take(i as int).push(pv[i as int]));
            pv.take(i as int).lemma_filter_push(pv[i as int], nonempty);
        }
        let p = crate::text::chars_of(possible_nexts[i].as_str());
        assert(p@ == pv[i as int]);
        if p.len() > 0 {
            assert(nonempty(pv[i as int]));
            assert(pv.take(i + 1).filter(nonempty) == before.push(p@));
            any_nonempty = true;
            let mut prefix = k.len() <= p.len();
            let mut m: usize = 0;
            while prefix && m < k.len()
                invariant
                    m <= k@.len(),
                    prefix ==> k@.len() <= p@.len(),
                    prefix == (k@.len() <= p@.len() && forall|t: int| 0 <= t < m ==> k@[t] == p@[t]),
                decreases k@.len() - m,
            {
                if k[m] != p[m] {
                    prefix = false;
                }
                m = m + 1;
            }
            if prefix {
                assert(k@.is_prefix_of(p@));
                assert(pv.take(i + 1).filter(nonempty)[before.len() as int] == p@);
                proof {
                    let a = pv.take(i + 1);
                    let b = pv.skip(i + 1);
                    assert(a + b =~= pv);
                    Seq::filter_distributes_over_add(a, b, nonempty);
                    let full = pv.filter(nonempty);
                    assert(full[before.len() as int] == p@);
                    assert(katakana_seq(candidate@).is_prefix_of(full[before.len() as int]));
                }
                return true;
            }
            assert(!k@.is_prefix_of(p@));
        } else {
            assert(!nonempty(pv[i as int]));
            assert(pv.take(i + 1).filter(nonempty) == before);
        }
        i = i + 1;
    }
    assert(pv.take(i as int) =~= pv);
    !any_nonempty
}


/// What a character becomes in the text the model reads: a space becomes an ideographic
/// space and a line break is dropped.
pub open spec fn model_char(c: char) -> Seq<char> {
    if c == ' ' {
        seq!['\u{3000}']
    } else if c == '\n' || c == '\r' {
        Seq::empty()
    } else {
        seq![c]
    }
}

/// The text the model reads for `s`.
pub open spec fn model_text(s: Seq<char>) -> Seq<char>
    decreases s.len(),
{
    if s.len() == 0 {
        Seq::empty()
    } else {
        model_text(s.drop_last()) + model_char(s.last())
    }
}

/// Replaces each space by an ideographic space and drops line breaks.
pub fn normalize_for_model(value: &str) -> (out: String)
    ensures
        out@ == model_text(value@),
{
    let chars = chars_of(value);
    let mut out = String::new();
    let mut i: usize = 0;
    while i < chars.len()
        invariant
            i <= chars@.len(),
            chars@ == value@,
            out@ == model_text(value@.take(i as int)),
        decreases chars@.len() - i,
    {
        let c = chars[i];
        assert(value@.take(i + 1).drop_last() == value@.take(i as int));
        if c == ' ' {
            push_char(&mut out, '\u{3000}');
        } else if c != '\n' && c != '\r' {
            push_char(&mut out, c);
        }
        assert(out@ =~= model_text(value@.take(i + 1)));
        i = i + 1;
    }
    assert(value@.take(chars@.len() as int) == value@);
    out
}

/// What an entry adds to the dictionary condition: `word(reading)` with the reading in
/// hiragana for an entry of the user dictionary, nothing for any other.
pub open spec fn user_dictionary_part(e: EntryV) -> Seq<char> {
    if e.metadata & 2u32 == 2u32 {
        e.word + seq!['('] + hiragana_seq(e.ruby) + seq![')']
    } else {
        Seq::empty()
    }
}

/// The dictionary condition of a candidate made of `entries`.
pub open spec fn user_dictionary_text(entries: Seq<EntryV>) -> Seq<char>
    decreases entries.len(),
{
    if entries.len() == 0 {
        Seq::empty()
    } else {
        user_dictionary_text(entries.drop_last()) + user_dictionary_part(entries.last())
    }
}

/// The words of the candidate that come from the user dictionary, each followed by its
/// reading in hiragana within brackets.
pub fn user_dictionary_prompt(entries: &[DictionaryEntry]) -> (s: String)
    ensures
        s@ == user_dictionary_text(entry_views(entries@)),
{
    let mut s = String::new();
    let mut i: usize = 0;
    while i < entries.len()
        invariant
            i <= entries@.len(),
            s@ == user_dictionary_text(entry_views(entries@).take(i as int)),
        decreases entries@.len() - i,
    {
        let ghost es = entry_views(entries@);
        assert(es.take(i + 1).drop_last() == es.take(i as int));
        assert(es.take(i + 1).last() == entries@[i as int]@);
        let entry = &entries[i];
        if entry.metadata.contains(crate::dictionary::entry::DictionaryMetadata::user_dictionary()) {
            push_text(&mut s, entry.word.as_str());
            push_char(&mut s, '(');
            let reading = to_hiragana(entry.ruby.as_str());
            push_text(&mut s, reading.as_str());
            push_char(&mut s, ')');
        }
        assert(s@ =~= user_dictionary_text(es.take(i + 1)));
        i = i + 1;
    }
    assert(entry_views(entries@).take(entries@.len() as int) == entry_views(entries@));
    s
}

/// The prompt, as the model reads it, that asks it to convert `input` into a candidate made
/// of `entries`.
pub fn evaluation_prompt(
    input: &str,
    input_cursor_position: Option<usize>,
    entries: &[DictionaryEntry],
    version: &ZenzVersionConfig,
) -> (s: String)
    ensures
        s@ == model_text(
            match version {
                ZenzVersionConfig::V2(c) => v2_evaluation_spec(
                    input@,
                    user_dictionary_text(entry_views(entries@)),
                    *c,
                ),
                ZenzVersionConfig::V3(c) => v3_evaluation_spec(
                    input@,
                    input_cursor_position,
                    user_dictionary_text(entry_views(entries@)),
                    *c,
                ),
            },
        ),
{
    let dictionary = user_dictionary_prompt(entries);
    let prompt = ZenzPromptBuilder::candidate_evaluation(
        input,
        input_cursor_position,
        dictionary.as_str(),
        version,
    );
    normalize_for_model(prompt.as_str())
}

} // verus!
