//! Dictionary entry flags and the errors of the binary dictionary format.
use vstd::prelude::*;

verus! {

/// Flags of a dictionary entry, as a bit set.
#[derive(Clone, Copy, Debug, Eq, Hash, PartialEq)]
pub struct DictionaryMetadata(pub u32);

impl DictionaryMetadata {
    /// The flag of a learned entry.
    pub fn learned() -> (m: Self)
        ensures
            m.0 == 1,
    {
        DictionaryMetadata(1)
    }

    /// The flag of an entry from the user dictionary.
    pub fn user_dictionary() -> (m: Self)
        ensures
            m.0 == 2,
    {
        DictionaryMetadata(2)
    }

    /// Whether every flag of `value` is set here.
    pub fn contains(self, value: Self) -> (r: bool)
        ensures
            r == (self.0 & value.0 == value.0),
    {
        self.0 & value.0 == value.0
    }
}

impl Default for DictionaryMetadata {
    fn default() -> (m: Self)
        ensures
            m.0 == 0,
    {
        DictionaryMetadata(0)
    }
}

/// A word of the dictionary with its reading, connection classes, meaning and value. The
/// value and the learned adjustment are `f32` numbers, held here by their bits.
#[derive(Clone, Debug, Eq, PartialEq)]
pub struct DictionaryEntry {
    pub word: String,
    pub ruby: String,
    pub left_id: u16,
    pub right_id: u16,
    pub meaning_id: u16,
    pub base_value_bits: u32,
    pub adjustment_bits: u32,
    pub metadata: DictionaryMetadata,
}

/// A dictionary entry with its texts as character sequences.
pub struct EntryV {
    pub word: Seq<char>,
    pub ruby: Seq<char>,
    pub left_id: u16,
    pub right_id: u16,
    pub meaning_id: u16,
    pub base_value_bits: u32,
    pub adjustment_bits: u32,
    pub metadata: u32,
}

impl View for DictionaryEntry {
    type V = EntryV;

    open spec fn view(&self) -> EntryV {
        EntryV {
            word: self.word@,
            ruby: self.ruby@,
            left_id: self.left_id,
            right_id: self.right_id,
            meaning_id: self.meaning_id,
            base_value_bits: self.base_value_bits,
            adjustment_bits: self.adjustment_bits,
            metadata: self.metadata.0,
        }
    }
}

/// The views of a sequence of entries.
pub open spec fn entry_views(entries: Seq<DictionaryEntry>) -> Seq<EntryV> {
    entries.map_values(|e: DictionaryEntry| e@)
}

/// Every flag set contains the empty set and itself.
pub proof fn lemma_contains_empty_and_self(m: DictionaryMetadata)
    ensures
        m.0 & 0u32 == 0u32,
        m.0 & m.0 == m.0,
{
    let x = m.0;
    assert(x & 0u32 == 0u32) by (bit_vector);
    assert(x & x == x) by (bit_vector);
}

/// What is wrong with a binary dictionary block.
#[derive(Clone, Debug, Eq, PartialEq)]
pub enum DictionaryBinaryError {
    Truncated { context: &'static str, needed: usize, available: usize },
    InvalidShardIndex { index: usize, slot_count: usize },
    InvalidOffset { start: usize, end: usize, length: usize },
    MissingEntryFields { expected: usize, found: usize },
    InvalidConnectionId(i32),
    InvalidMeaningMatrixLength { expected: usize, found: usize },
}

} // verus!
