//! Predictions offered after a commit, and the candidate that accepting one makes.
use vstd::prelude::*;

use crate::dictionary::entry::{DictionaryEntry, EntryV, entry_views};
use crate::input::composing::ComposingCount;
use crate::lattice::{includes_meaning, includes_meaning_spec};
use crate::text::{graphemes, spec_graphemes};

verus! {

/// The meaning class that stands for the beginning of a sentence.
pub const BOS_MEANING_ID: u16 = 500;

/// What a prediction does to the committed candidate.
#[derive(Clone, Debug, PartialEq)]
pub enum PostPredictionKind {
    /// Appends entries after the candidate.
    Additional { entries: Vec<DictionaryEntry> },
    /// Replaces the candidate's last entries (`target_entries`) by others.
    Replacement { target_entries: Vec<DictionaryEntry>, replacement_entries: Vec<DictionaryEntry> },
}

/// A prediction after a commit: the text it adds, its value as `f32` bits, what it does, and
/// whether it ends a sentence.
#[derive(Clone, Debug, PartialEq)]
pub struct PostCompositionPrediction {
    pub text: String,
    pub value_bits: u32,
    pub kind: PostPredictionKind,
    pub is_terminal: bool,
}

/// A conversion candidate: its text, its value as `f32` bits, how much of the composing text
/// it covers, the meaning class it ends on, its entries and the grapheme clusters of their
/// readings.
pub struct Candidate {
    pub text: String,
    pub value_bits: u32,
    pub composing_count: ComposingCount,
    pub last_meaning_id: u16,
    pub entries: Vec<DictionaryEntry>,
    pub ruby_count: usize,
    pub is_learning_target: bool,
}

/// Whether a prediction's text ends a sentence.
pub open spec fn terminal_text(text: Seq<char>) -> bool {
    text == seq!['。'] || text == seq!['.'] || text == seq!['．']
}

/// The entries of the candidate after the prediction, and where the predicted part starts.
pub open spec fn joined_spec(entries: Seq<EntryV>, kind: PostPredictionKind) -> (Seq<EntryV>, int) {
    match kind {
        PostPredictionKind::Additional { entries: added } => (
            entries + entry_views(added@),
            entries.len() as int,
        ),
        PostPredictionKind::Replacement { target_entries, replacement_entries } => {
            let keep = if entries.len() >= target_entries@.len() {
                entries.len() - target_entries@.len()
            } else {
                0
            };
            (entries.take(keep) + entry_views(replacement_entries@), keep)
        },
    }
}

/// The meaning class of the last entry that carries a meaning, or the sentence beginning.
pub open spec fn last_meaning_spec(entries: Seq<EntryV>) -> u16
    decreases entries.len(),
{
    if entries.len() == 0 {
        BOS_MEANING_ID
    } else if includes_meaning_spec(entries.last().left_id as int, entries.last().right_id as int) {
        entries.last().meaning_id
    } else {
        last_meaning_spec(entries.drop_last())
    }
}

/// The words of the entries, concatenated.
pub open spec fn words_spec(entries: Seq<EntryV>) -> Seq<char>
    decreases entries.len(),
{
    if entries.len() == 0 {
        Seq::empty()
    } else {
        words_spec(entries.drop_last()) + entries.last().word
    }
}

/// The number of grapheme clusters in the readings of the entries.
pub open spec fn ruby_count_spec(entries: Seq<EntryV>) -> int
    decreases entries.len(),
{
    if entries.len() == 0 {
        0
    } else {
        ruby_count_spec(entries.drop_last()) + spec_graphemes(entries.last().ruby).len()
    }
}

fn copy_entry(e: &DictionaryEntry) -> (r: DictionaryEntry)
    ensures
        r@ == e@,
{
    DictionaryEntry {
        word: e.word.clone(),
        ruby: e.ruby.clone(),
        left_id: e.left_id,
        right_id: e.right_id,
        meaning_id: e.meaning_id,
        base_value_bits: e.base_value_bits,
        adjustment_bits: e.adjustment_bits,
        metadata: e.metadata,
    }
}

/// Appends copies of `src[..count]` to `out`.
fn extend_entries(out: &mut Vec<DictionaryEntry>, src: &[DictionaryEntry], count: usize)
    requires
        count <= src@.len(),
    ensures
        entry_views(final(out)@) == entry_views(old(out)@) + entry_views(src@).take(count as int),
{
    let mut i: usize = 0;
    while i < count
        invariant
            i <= count <= src@.len(),
            entry_views(out@) == entry_views(old(out)@) + entry_views(src@).take(i as int),
        decreases count - i,
    {
        let ghost before = entry_views(out@);
        out.push(copy_entry(&src[i]));
        assert(entry_views(out@) =~= before.push(entry_views(src@)[i as int]));
        assert(entry_views(src@).take(i + 1) =~= entry_views(src@).take(i as int).push(
            entry_views(src@)[i as int],
        ));
        i = i + 1;
    }
}

/// Whether the text ends a sentence.
fn is_terminal_text(text: &str) -> (r: bool)
    ensures
        r == terminal_text(text@),
{
    let chars = crate::text::chars_of(text);
    if chars.len() != 1 {
        return false;
    }
    assert(text@ =~= seq![chars[0]]);
    chars[0] == '。' || chars[0] == '.' || chars[0] == '．'
}

impl PostCompositionPrediction {
    /// A prediction that adds `text`; it ends a sentence when the text is a full stop.
    pub fn new(text: String, value_bits: u32, kind: PostPredictionKind) -> (p: Self)
        ensures
            p.text@ == text@,
            p.value_bits == value_bits,
            p.kind == kind,
            p.is_terminal == terminal_text(text@),
    {
        let is_terminal = is_terminal_text(text.as_str());
        PostCompositionPrediction { text, value_bits, kind, is_terminal }
    }

    /// The entries of `entries` after this prediction, and the position where the
    /// predicted part starts.
    pub fn joined_entries(&self, entries: &[DictionaryEntry]) -> (r: (Vec<DictionaryEntry>, usize))
        ensures
            (entry_views(r.0@), r.1 as int) == joined_spec(entry_views(entries@), self.kind),
    {
        let mut out: Vec<DictionaryEntry> = Vec::new();
        assert(entry_views(out@) =~= Seq::<EntryV>::empty());
        match &self.kind {
            PostPredictionKind::Additional { entries: added } => {
                extend_entries(&mut out, entries, entries.len());
                let start = out.len();
                extend_entries(&mut out, added.as_slice(), added.len());
                assert(entry_views(entries@).take(entries@.len() as int) =~= entry_views(entries@));
                assert(entry_views(added@).take(added@.len() as int) =~= entry_views(added@));
                assert(entry_views(out@) =~= entry_views(entries@) + entry_views(added@));
                (out, start)
            },
            PostPredictionKind::Replacement { target_entries, replacement_entries } => {
                let keep = if entries.len() >= target_entries.len() {
                    entries.len() - target_entries.len()
                } else {
                    0
                };
                extend_entries(&mut out, entries, keep);
                extend_entries(&mut out, replacement_entries.as_slice(), replacement_entries.len());
                assert(entry_views(replacement_entries@).take(replacement_entries@.len() as int)
                    =~= entry_views(replacement_entries@));
                assert(entry_views(out@) =~= entry_views(entries@).take(keep as int) + entry_views(
                    replacement_entries@,
                ));
                (out, keep)
            },
        }
    }

    /// The candidate that accepting this prediction after `candidate` makes: the joined
    /// entries, their words as its text, the prediction's value, and the meaning class of
    /// its last entry with a meaning. The count of reading clusters stops at `usize::MAX`.
    pub fn join(&self, candidate: &Candidate) -> (c: Candidate)
        ensures
            entry_views(c.entries@) == joined_spec(entry_views(candidate.entries@), self.kind).0,
            c.text@ == words_spec(entry_views(c.entries@)),
            c.value_bits == self.value_bits,
            c.last_meaning_id == last_meaning_spec(entry_views(c.entries@)),
            c.ruby_count == if ruby_count_spec(entry_views(c.entries@)) > usize::MAX {
                usize::MAX as int
            } else {
                ruby_count_spec(entry_views(c.entries@))
            },
            c.composing_count == ComposingCount::Surface(c.ruby_count),
            c.is_learning_target,
    {
        let (entries, _) = self.joined_entries(candidate.entries.as_slice());
        let ghost es = entry_views(entries@);
        let ghost joined = joined_spec(entry_views(candidate.entries@), self.kind).0;
        assert(es == joined);
        let mut text = String::new();
        let mut count: usize = 0;
        let mut i: usize = 0;
        while i < entries.len()
            invariant
                i <= entries@.len(),
                es == entry_views(entries@),
                text@ == words_spec(es.take(i as int)),
                count == if ruby_count_spec(es.take(i as int)) > usize::MAX {
                    usize::MAX as int
                } else {
                    ruby_count_spec(es.take(i as int))
                },
                ruby_count_spec(es.take(i as int)) >= 0,
            decreases entries@.len() - i,
        {
            let ghost t = es.take(i + 1);
            assert(t.drop_last() =~= es.take(i as int));
            assert(t.last() == entries@[i as int]@);
            text.append(entries[i].word.as_str());
            let gs = graphemes(entries[i].ruby.as_str());
            count = count.saturating_add(gs.len());
            i = i + 1;
        }
        assert(es.take(i as int) =~= es);
        let ghost total = ruby_count_spec(es);
        let mut last_meaning = BOS_MEANING_ID;
        let mut j: usize = entries.len();
        assert(es.take(j as int) =~= es);
        while j > 0
            invariant
                j <= entries@.len(),
                es == entry_views(entries@),
                last_meaning_spec(es) == last_meaning_spec(es.take(j as int)),
                es == joined,
                joined == joined_spec(entry_views(candidate.entries@), self.kind).0,
                last_meaning == BOS_MEANING_ID,
                text@ == words_spec(es),
                total == ruby_count_spec(es),
                count == if total > usize::MAX {
                    usize::MAX as int
                } else {
                    total
                },
            decreases j,
        {
            let ghost t = es.take(j as int);
            assert(t.drop_last() =~= es.take(j - 1));
            assert(t.last() == entries@[j - 1]@);
            if includes_meaning(entries[j - 1].left_id, entries[j - 1].right_id) {
                last_meaning = entries[j - 1].meaning_id;
                assert(last_meaning_spec(es) == last_meaning);
                return Candidate {
                    text,
                    value_bits: self.value_bits,
                    composing_count: ComposingCount::Surface(count),
                    last_meaning_id: last_meaning,
                    entries,
                    ruby_count: count,
                    is_learning_target: true,
                };
            }
            j = j - 1;
        }
        assert(es.take(0) =~= Seq::<EntryV>::empty());
        Candidate {
            text,
            value_bits: self.value_bits,
            composing_count: ComposingCount::Surface(count),
            last_meaning_id: last_meaning,
            entries,
            ruby_count: count,
            is_learning_target: true,
        }
    }
}

} // verus!
