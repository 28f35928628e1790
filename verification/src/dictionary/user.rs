//! The user dictionary: entries and shortcuts that the user supplied, each flagged as such.
use vstd::prelude::*;

use crate::dictionary::entry::{DictionaryEntry, DictionaryMetadata, EntryV, entry_views};
use crate::kana::{katakana_seq, to_katakana};

verus! {

/// The entries of a user dictionary trie are read shard by shard, this many nodes each.
pub const SHARD_SIZE: usize = 2048;

/// The connection class of an entry that a user dictionary item becomes.
pub const USER_CLASS_ID: u16 = 1288;

/// The meaning class of an entry that a user dictionary item becomes.
pub const USER_MEANING_ID: u16 = 501;

/// The bits of `-10.0_f32`, the value of an entry that a user dictionary item becomes.
pub const USER_VALUE_BITS: u32 = 0xC120_0000;

/// The entry with the user dictionary flag added to its metadata.
pub open spec fn flagged(e: EntryV) -> EntryV {
    EntryV { metadata: e.metadata | 2u32, ..e }
}

fn flag_entry(e: &DictionaryEntry) -> (r: DictionaryEntry)
    ensures
        r@ == flagged(e@),
{
    DictionaryEntry {
        word: e.word.clone(),
        ruby: e.ruby.clone(),
        left_id: e.left_id,
        right_id: e.right_id,
        meaning_id: e.meaning_id,
        base_value_bits: e.base_value_bits,
        adjustment_bits: e.adjustment_bits,
        metadata: DictionaryMetadata(e.metadata.0 | 2),
    }
}

/// The entries, in order, each with the user dictionary flag set.
pub fn mark_user_dictionary(entries: &[DictionaryEntry]) -> (out: Vec<DictionaryEntry>)
    ensures
        entry_views(out@) == entry_views(entries@).map_values(|e: EntryV| flagged(e)),
{
    let mut out: Vec<DictionaryEntry> = Vec::new();
    let mut i: usize = 0;
    while i < entries.len()
        invariant
            i <= entries@.len(),
            out@.len() == i,
            entry_views(out@) == entry_views(entries@).take(i as int).map_values(
                |e: EntryV| flagged(e),
            ),
        decreases entries@.len() - i,
    {
        let e = flag_entry(&entries[i]);
        let ghost before = out@;
        out.push(e);
        assert(entry_views(out@)[i as int] == flagged(entry_views(entries@)[i as int]));
        assert forall|k: int| 0 <= k < i implies entry_views(out@)[k] == flagged(
            entry_views(entries@)[k],
        ) by {
            assert(entry_views(out@)[k] == entry_views(before)[k]);
            assert(entry_views(before)[k] == entry_views(entries@).take(i as int).map_values(
                |e: EntryV| flagged(e),
            )[k]);
        }
        assert(entry_views(out@) =~= entry_views(entries@).take(i + 1).map_values(
            |e: EntryV| flagged(e),
        ));
        i = i + 1;
    }
    assert(entry_views(entries@).take(i as int) == entry_views(entries@));
    out
}

/// The number of nodes read from each shard of a trie with `node_count` nodes: a full shard
/// for every shard but the last.
pub open spec fn shard_node_counts_spec(node_count: int) -> Seq<int> {
    Seq::new(
        ((node_count + 2047) / 2048) as nat,
        |s: int|
            if node_count - 2048 * s < 2048 {
                node_count - 2048 * s
            } else {
                2048
            },
    )
}

/// How many nodes each shard of a trie with `node_count` nodes holds, shard by shard.
pub fn shard_node_counts(node_count: usize) -> (out: Vec<usize>)
    ensures
        out@.map_values(|n: usize| n as int) == shard_node_counts_spec(node_count as int),
{
    let ghost spec = shard_node_counts_spec(node_count as int);
    let shards = node_count / SHARD_SIZE + if node_count % SHARD_SIZE == 0 {
        0
    } else {
        1
    };
    assert(shards == (node_count + 2047) / 2048) by (nonlinear_arith)
        requires
            shards == node_count / 2048 + if node_count % 2048 == 0 {
                0int
            } else {
                1int
            },
    ;
    let mut out: Vec<usize> = Vec::new();
    let mut first: usize = 0;
    let mut s: usize = 0;
    while s < shards
        invariant
            s <= shards,
            out@.len() == s,
            shards == (node_count + 2047) / 2048,
            s < shards ==> first == 2048 * s,
            spec == shard_node_counts_spec(node_count as int),
            out@.map_values(|n: usize| n as int) == spec.take(s as int),
        decreases shards - s,
    {
        assert(first < node_count) by (nonlinear_arith)
            requires
                s < shards,
                shards == (node_count + 2047) / 2048,
                first == 2048 * s,
        ;
        let remaining = node_count - first;
        let count = if remaining < SHARD_SIZE {
            remaining
        } else {
            SHARD_SIZE
        };
        let ghost before = out@;
        out.push(count);
        assert(spec.len() == shards);
        assert(spec[s as int] == count as int);
        assert(forall|k: int| 0 <= k < s ==> out@[k] == before[k]);
        assert(out@.map_values(|n: usize| n as int) =~= spec.take(s + 1));
        first = first + count;
        s = s + 1;
    }
    assert(spec.take(s as int) == spec);
    out
}

/// The entry that a user dictionary item with `word` read as `reading` becomes: its reading
/// in katakana, the user classes and value, and the user dictionary flag.
pub fn user_dictionary_entry(word: String, reading: &str) -> (e: DictionaryEntry)
    ensures
        e@ == (EntryV {
            word: word@,
            ruby: katakana_seq(reading@),
            left_id: USER_CLASS_ID,
            right_id: USER_CLASS_ID,
            meaning_id: USER_MEANING_ID,
            base_value_bits: USER_VALUE_BITS,
            adjustment_bits: 0,
            metadata: 2,
        }),
{
    DictionaryEntry {
        word,
        ruby: to_katakana(reading),
        left_id: USER_CLASS_ID,
        right_id: USER_CLASS_ID,
        meaning_id: USER_MEANING_ID,
        base_value_bits: USER_VALUE_BITS,
        adjustment_bits: 0,
        metadata: DictionaryMetadata::user_dictionary(),
    }
}

/// The entries and shortcuts of a user dictionary, all flagged as coming from it.
#[derive(Debug)]
pub struct UserDictionary {
    entries: Vec<DictionaryEntry>,
    shortcuts: Vec<DictionaryEntry>,
}

impl View for UserDictionary {
    type V = (Seq<EntryV>, Seq<EntryV>);

    closed spec fn view(&self) -> (Seq<EntryV>, Seq<EntryV>) {
        (entry_views(self.entries@), entry_views(self.shortcuts@))
    }
}

impl UserDictionary {
    /// A user dictionary of the entries and shortcuts, each with the user dictionary flag set.
    pub fn from_entries(entries: &[DictionaryEntry], shortcuts: &[DictionaryEntry]) -> (r: Self)
        ensures
            r@.0 == entry_views(entries@).map_values(|e: EntryV| flagged(e)),
            r@.1 == entry_views(shortcuts@).map_values(|e: EntryV| flagged(e)),
    {
        UserDictionary {
            entries: mark_user_dictionary(entries),
            shortcuts: mark_user_dictionary(shortcuts),
        }
    }

    pub fn entries(&self) -> (r: &[DictionaryEntry])
        ensures
            entry_views(r@) == self@.0,
    {
        self.entries.as_slice()
    }

    pub fn shortcuts(&self) -> (r: &[DictionaryEntry])
        ensures
            entry_views(r@) == self@.1,
    {
        self.shortcuts.as_slice()
    }

    /// Whether there are neither entries nor shortcuts.
    pub fn is_empty(&self) -> (r: bool)
        ensures
            r == (self@.0.len() == 0 && self@.1.len() == 0),
    {
        self.entries.len() == 0 && self.shortcuts.len() == 0
    }
}

} // verus!
