//! The learning memory's records: how they age, how a learned entry merges into them, and
//! the encodings of their persistence files.
use vstd::prelude::*;

use crate::dictionary::entry::{DictionaryEntry, EntryV, entry_views};
use crate::dictionary::louds::{CharacterIdMap, bit_at};
use crate::keys::{has_no_control, no_control};
use crate::lattice::{is_clause, is_clause_spec};
use crate::text::spec_graphemes;
use vstd::arithmetic::div_mod::lemma_div_denominator;
use vstd::arithmetic::power2::{lemma2_to64, lemma_pow2_pos, lemma_pow2_unfold, pow2};
use crate::special::{chars_ends_with, ends_with};
use crate::text::{chars_of, spells};

verus! {

/// Which learning the memory does.
#[derive(Clone, Copy, Debug, Eq, PartialEq, Structural)]
pub enum LearningMode {
    /// Reads and records what is learned.
    InputAndOutput,
    /// Reads what was learned, records nothing.
    OnlyOutput,
    /// Neither reads nor records.
    Nothing,
}

impl LearningMode {
    /// Whether learned entries are read.
    pub fn uses_memory(self) -> (r: bool)
        ensures
            r == (self != LearningMode::Nothing),
    {
        !matches!(self, LearningMode::Nothing)
    }

    /// Whether what is learned is recorded.
    pub fn updates_memory(self) -> (r: bool)
        ensures
            r == (self == LearningMode::InputAndOutput),
    {
        matches!(self, LearningMode::InputAndOutput)
    }
}

impl Default for LearningMode {
    fn default() -> (m: Self)
        ensures
            m == LearningMode::Nothing,
    {
        LearningMode::Nothing
    }
}

/// Why the persisted memory cannot be read.
#[derive(Clone, Copy, Debug, Eq, PartialEq)]
pub enum LearningError {
    InvalidData(&'static str),
    Poisoned,
}

/// A learned entry with the days it was last used and last updated (counted from the
/// memory's epoch) and how often it was learned.
#[derive(Clone, Debug, Eq, PartialEq)]
pub struct LearningRecord {
    pub entry: DictionaryEntry,
    pub last_used_day: u16,
    pub last_updated_day: u16,
    pub count: u8,
}

pub struct RecordV {
    pub entry: EntryV,
    pub last_used_day: u16,
    pub last_updated_day: u16,
    pub count: u8,
}

impl View for LearningRecord {
    type V = RecordV;

    open spec fn view(&self) -> RecordV {
        RecordV {
            entry: self.entry@,
            last_used_day: self.last_used_day,
            last_updated_day: self.last_updated_day,
            count: self.count,
        }
    }
}

pub open spec fn records_view(v: Seq<LearningRecord>) -> Seq<RecordV> {
    v.map_values(|r: LearningRecord| r@)
}

/// The count halves for each complete period of 32 days since the last update, which moves
/// forward by those periods.
pub open spec fn halved(count: u8, updated: u16, today: u16) -> (u8, u16)
    decreases today - updated,
{
    if today - updated > 32 {
        halved(count / 2, (updated + 32) as u16, today)
    } else {
        (count, updated)
    }
}

/// A record aged to `today`: a record from the future restarts at today with a count of
/// one; one unused for 128 days or more is dropped, as is one whose count halves to zero.
pub open spec fn aged(r: RecordV, today: u16) -> Option<RecordV> {
    let (used, updated, count) = if today < r.last_used_day || today < r.last_updated_day {
        (today, today, 1u8)
    } else {
        (r.last_used_day, r.last_updated_day, r.count)
    };
    if today - used >= 128 {
        None
    } else {
        let (c, u) = halved(count, updated, today);
        if c > 0 {
            Some(RecordV { entry: r.entry, last_used_day: used, last_updated_day: u, count: c })
        } else {
            None
        }
    }
}

pub open spec fn aged_on(today: u16) -> spec_fn(RecordV) -> Option<RecordV> {
    |r: RecordV| aged(r, today)
}

fn halve(count: u8, updated: u16, today: u16) -> (r: (u8, u16))
    requires
        updated <= today,
    ensures
        r == halved(count, updated, today),
{
    let mut c = count;
    let mut u = updated;
    while today - u > 32
        invariant
            u <= today,
            halved(c, u, today) == halved(count, updated, today),
        decreases today - u,
    {
        c = c / 2;
        u = u + 32;
    }
    (c, u)
}

/// Ages the records to `today`, keeping the survivors in order.
pub fn decay(records: &mut Vec<LearningRecord>, today: u16)
    ensures
        records_view(final(records)@) == records_view(old(records)@).filter_map(aged_on(today)),
{
    let ghost initial = records_view(records@);
    let mut kept: Vec<LearningRecord> = Vec::new();
    let ghost mut taken: int = 0;
    assert(records_view(records@) == initial.skip(0));
    assert(initial.take(0) =~= Seq::<RecordV>::empty());
    assert(records_view(kept@) =~= Seq::<RecordV>::empty());
    while records.len() > 0
        invariant
            0 <= taken <= initial.len(),
            records_view(records@) == initial.skip(taken),
            records_view(kept@) == initial.take(taken).filter_map(aged_on(today)),
        decreases records@.len(),
    {
        assert(records_view(records@).len() == records@.len());
        assert(taken < initial.len());
        assert(records@[0]@ == records_view(records@)[0]);
        assert(initial.skip(taken)[0] == initial[taken]);
        let ghost rest = records_view(records@);
        let r = records.remove(0);
        assert(r@ == initial[taken]);
        proof {
            initial.lemma_filter_map_take_succ(aged_on(today), taken);
        }
        let (used, updated, count) = if today < r.last_used_day || today < r.last_updated_day {
            (today, today, 1u8)
        } else {
            (r.last_used_day, r.last_updated_day, r.count)
        };
        if today - used < 128 {
            let (c, u) = halve(count, updated, today);
            if c > 0 {
                let ghost before = records_view(kept@);
                kept.push(
                    LearningRecord { entry: r.entry, last_used_day: used, last_updated_day: u, count: c },
                );
                assert(records_view(kept@) =~= before + seq![aged(initial[taken], today)->0]);
            }
        }
        assert(records_view(records@) =~= rest.skip(1));
        assert(rest.skip(1) =~= initial.skip(taken + 1));
        proof {
            taken = taken + 1;
        }
    }
    assert(initial.take(taken) =~= initial);
    *records = kept;
}

/// Two entries are the same word when their reading, word and connection classes agree.
pub open spec fn same_entry_spec(a: EntryV, b: EntryV) -> bool {
    a.ruby == b.ruby && a.word == b.word && a.left_id == b.left_id && a.right_id == b.right_id
}

/// Whether two entries are the same word.
pub fn same_entry(left: &DictionaryEntry, right: &DictionaryEntry) -> (r: bool)
    ensures
        r == same_entry_spec(left@, right@),
{
    left.ruby == right.ruby && left.word == right.word && left.left_id == right.left_id
        && left.right_id == right.right_id
}

/// The first record of the same word as `entry`.
pub open spec fn first_same(records: Seq<RecordV>, entry: EntryV) -> Option<int>
    decreases records.len(),
{
    if records.len() == 0 {
        None
    } else {
        match first_same(records.drop_last(), entry) {
            Some(j) => Some(j),
            None => if same_entry_spec(records.last().entry, entry) {
                Some(records.len() - 1)
            } else {
                None
            },
        }
    }
}

/// The records after learning `incoming`: the record of the same word adds its count
/// (saturating), keeps the later days and takes the new entry; a new word is appended.
pub open spec fn merged(records: Seq<RecordV>, incoming: RecordV) -> Seq<RecordV> {
    match first_same(records, incoming.entry) {
        Some(j) => {
            let r = records[j];
            records.update(
                j,
                RecordV {
                    entry: incoming.entry,
                    last_used_day: if r.last_used_day >= incoming.last_used_day {
                        r.last_used_day
                    } else {
                        incoming.last_used_day
                    },
                    last_updated_day: if r.last_updated_day >= incoming.last_updated_day {
                        r.last_updated_day
                    } else {
                        incoming.last_updated_day
                    },
                    count: if r.count + incoming.count > 255 {
                        255u8
                    } else {
                        (r.count + incoming.count) as u8
                    },
                },
            )
        },
        None => records.push(incoming),
    }
}

proof fn lemma_first_same_prefix(records: Seq<RecordV>, entry: EntryV, k: int)
    requires
        0 <= k < records.len(),
        first_same(records.take(k), entry) is None,
    ensures
        first_same(records.take(k + 1), entry) == (if same_entry_spec(records[k].entry, entry) {
            Some(k)
        } else {
            None::<int>
        }),
{
    assert(records.take(k + 1).drop_last() == records.take(k));
}

proof fn lemma_first_same_extends(records: Seq<RecordV>, entry: EntryV, k: int)
    requires
        0 <= k <= records.len(),
        first_same(records.take(k), entry) is Some,
    ensures
        first_same(records, entry) == first_same(records.take(k), entry),
    decreases records.len() - k,
{
    if k < records.len() {
        assert(records.take(k + 1).drop_last() == records.take(k));
        lemma_first_same_extends(records, entry, k + 1);
    } else {
        assert(records.take(k) == records);
    }
}

/// Learns a record: merges it into the record of the same word, or appends it.
pub fn merge_record(records: &mut Vec<LearningRecord>, incoming: LearningRecord)
    ensures
        records_view(final(records)@) == merged(records_view(old(records)@), incoming@),
{
    let ghost rv = records_view(records@);
    let mut j: usize = 0;
    assert(rv.take(0) =~= Seq::<RecordV>::empty());
    while j < records.len()
        invariant
            j <= records@.len(),
            rv == records_view(records@),
            rv == records_view(old(records)@),
            first_same(rv.take(j as int), incoming@.entry) is None,
        decreases records@.len() - j,
    {
        proof {
            lemma_first_same_prefix(rv, incoming@.entry, j as int);
        }
        assert(rv[j as int] == records@[j as int]@);
        if same_entry(&records[j].entry, &incoming.entry) {
            proof {
                lemma_first_same_extends(rv, incoming@.entry, j as int + 1);
            }
            let used = if records[j].last_used_day >= incoming.last_used_day {
                records[j].last_used_day
            } else {
                incoming.last_used_day
            };
            let updated = if records[j].last_updated_day >= incoming.last_updated_day {
                records[j].last_updated_day
            } else {
                incoming.last_updated_day
            };
            let count = records[j].count.saturating_add(incoming.count);
            let record = LearningRecord {
                entry: incoming.entry,
                last_used_day: used,
                last_updated_day: updated,
                count,
            };
            records.set(j, record);
            assert(records_view(records@) =~= merged(rv, incoming@));
            return;
        }
        j = j + 1;
    }
    assert(rv.take(j as int) == rv);
    records.push(incoming);
    assert(records_view(records@) =~= rv.push(incoming@));
}

/// Whether a word of this left class is learned on its own; particles, auxiliaries, symbols
/// and the sentence boundaries are not.
pub open spec fn learns_word_spec(left_id: u16) -> bool {
    !(147 <= left_id <= 554) && !(557 <= left_id <= 560) && !(1297 <= left_id <= 1305) && !(6
        <= left_id <= 9) && left_id != 0 && left_id != 1316
}

/// Whether the entry is learned as a word of its own.
pub fn learns_individual_word(entry: &DictionaryEntry) -> (r: bool)
    ensures
        r == learns_word_spec(entry.left_id),
{
    let left = entry.left_id;
    !(147 <= left && left <= 554) && !(557 <= left && left <= 560) && !(1297 <= left && left
        <= 1305) && !(6 <= left && left <= 9) && left != 0 && left != 1316
}

/// Whether entry `i` begins a clause: the first does, and so does one that a clause boundary
/// separates from the entry before it.
pub open spec fn starts_clause(es: Seq<EntryV>, i: int) -> bool {
    i == 0 || is_clause_spec(es[i - 1].right_id as int, es[i].left_id as int)
}

/// The clauses of the first `k` entries, as ranges of entry positions.
pub open spec fn clause_ranges(es: Seq<EntryV>, k: int) -> Seq<(int, int)>
    decreases k,
{
    if k <= 0 {
        Seq::empty()
    } else {
        let p = clause_ranges(es, k - 1);
        if starts_clause(es, k - 1) {
            p.push((k - 1, k))
        } else {
            p.update(p.len() - 1, (p.last().0, k))
        }
    }
}

/// The clauses of a candidate cover its entries in order, without gaps or overlaps, and
/// none is empty.
pub proof fn lemma_clause_ranges_partition(es: Seq<EntryV>, k: int)
    requires
        0 < k <= es.len(),
    ensures
        clause_ranges(es, k).len() > 0,
        clause_ranges(es, k)[0].0 == 0,
        clause_ranges(es, k).last().1 == k,
        forall|i: int|
            0 <= i < clause_ranges(es, k).len() ==> (#[trigger] clause_ranges(es, k)[i]).0
                < clause_ranges(es, k)[i].1,
        forall|i: int|
            0 <= i < clause_ranges(es, k).len() - 1 ==> (#[trigger] clause_ranges(es, k)[i]).1
                == clause_ranges(es, k)[i + 1].0,
    decreases k,
{
    if k > 1 {
        lemma_clause_ranges_partition(es, k - 1);
        let p = clause_ranges(es, k - 1);
        let r = clause_ranges(es, k);
        if starts_clause(es, k - 1) {
            assert(r == p.push((k - 1, k)));
            assert(r[0] == p[0]);
            assert forall|i: int| 0 <= i < r.len() implies (#[trigger] r[i]).0 < r[i].1 by {
                if i < p.len() {
                    assert(r[i] == p[i]);
                }
            }
            assert forall|i: int| 0 <= i < r.len() - 1 implies (#[trigger] r[i]).1 == r[i + 1].0 by {
                assert(r[i] == p[i]);
                if i < p.len() - 1 {
                    assert(r[i + 1] == p[i + 1]);
                }
            }
        } else {
            assert(r == p.update(p.len() - 1, (p.last().0, k)));
            assert(r[0].0 == p[0].0);
            assert forall|i: int| 0 <= i < r.len() implies (#[trigger] r[i]).0 < r[i].1 by {
                if i < p.len() - 1 {
                    assert(r[i] == p[i]);
                } else {
                    assert(p[i].0 < p[i].1);
                }
            }
            assert forall|i: int| 0 <= i < r.len() - 1 implies (#[trigger] r[i]).1 == r[i + 1].0 by {
                assert(r[i] == p[i]);
                if i + 1 < p.len() - 1 {
                    assert(r[i + 1] == p[i + 1]);
                } else {
                    assert(r[i + 1].0 == p[i + 1].0);
                }
            }
        }
    } else {
        assert(starts_clause(es, 0));
        assert(clause_ranges(es, 0) == Seq::<(int, int)>::empty());
        assert(clause_ranges(es, 1) == Seq::<(int, int)>::empty().push((0int, 1int)));
        assert(clause_ranges(es, 1)[0] == (0int, 1int));
    }
}

pub open spec fn ranges_view(v: Seq<(usize, usize)>) -> Seq<(int, int)> {
    v.map_values(|p: (usize, usize)| (p.0 as int, p.1 as int))
}

/// Splits entries into clauses, as ranges of positions.
pub fn learned_clause_ranges(entries: &[DictionaryEntry]) -> (out: Vec<(usize, usize)>)
    ensures
        ranges_view(out@) == clause_ranges(entry_views(entries@), entries@.len() as int),
{
    let ghost es = entry_views(entries@);
    let mut out: Vec<(usize, usize)> = Vec::new();
    let mut i: usize = 0;
    while i < entries.len()
        invariant
            i <= entries@.len(),
            es == entry_views(entries@),
            i > 0 ==> out@.len() > 0,
            ranges_view(out@) == clause_ranges(es, i as int),
        decreases entries@.len() - i,
    {
        let starts = i == 0 || is_clause(entries[i - 1].right_id as usize, entries[i].left_id as usize);
        assert(starts == starts_clause(es, i as int));
        if starts {
            out.push((i, i + 1));
        } else {
            let last = out.len() - 1;
            let (start, _) = out[last];
            out.set(last, (start, i + 1));
        }
        assert(ranges_view(out@) =~= clause_ranges(es, i + 1));
        i = i + 1;
    }
    out
}

/// The spans of each two neighbouring clauses whose second ends after `update_start`.
pub open spec fn clause_spans_spec(ranges: Seq<(int, int)>, update_start: int, k: int) -> Seq<
    (int, int),
>
    decreases k,
{
    if k <= 0 {
        Seq::empty()
    } else {
        let p = clause_spans_spec(ranges, update_start, k - 1);
        if ranges[k].1 > update_start {
            p.push((ranges[k - 1].0, ranges[k].1))
        } else {
            p
        }
    }
}

/// The entry ranges that are learned as phrases: each two neighbouring clauses together,
/// when the second ends after `update_start`.
pub fn clause_spans(entries: &[DictionaryEntry], update_start: usize) -> (out: Vec<(usize, usize)>)
    ensures
        ranges_view(out@) == clause_spans_spec(
            clause_ranges(entry_views(entries@), entries@.len() as int),
            update_start as int,
            clause_ranges(entry_views(entries@), entries@.len() as int).len() - 1,
        ),
{
    let ranges = learned_clause_ranges(entries);
    let ghost rv = ranges_view(ranges@);
    let mut out: Vec<(usize, usize)> = Vec::new();
    let mut k: usize = 1;
    assert(ranges_view(out@) =~= clause_spans_spec(rv, update_start as int, 0));
    while k < ranges.len()
        invariant
            1 <= k,
            k <= ranges@.len() || ranges@.len() == 0,
            ranges@.len() == 0 ==> k == 1,
            rv == ranges_view(ranges@),
            ranges_view(out@) == clause_spans_spec(rv, update_start as int, k - 1),
        decreases ranges@.len() - k,
    {
        if ranges[k].1 > update_start {
            out.push((ranges[k - 1].0, ranges[k].1));
        }
        assert(ranges_view(out@) =~= clause_spans_spec(rv, update_start as int, k as int));
        k = k + 1;
    }
    assert(rv.len() == ranges@.len());
    assert(ranges_view(out@) == clause_spans_spec(rv, update_start as int, rv.len() - 1));
    out
}

/// Whether an entry may be learned: its word and reading hold no control character, the
/// reading is not empty and each of its grapheme clusters has a character identifier.
pub open spec fn learnable(entry: EntryV, ids: Map<Seq<char>, u8>) -> bool {
    &&& no_control(entry.word)
    &&& entry.ruby.len() > 0
    &&& no_control(entry.ruby)
    &&& forall|i: int|
        0 <= i < spec_graphemes(entry.ruby).len() ==> ids.contains_key(
            #[trigger] spec_graphemes(entry.ruby)[i],
        )
}

/// Whether the entry may be learned.
pub fn valid_learning_entry(entry: &DictionaryEntry, character_ids: &CharacterIdMap) -> (r: bool)
    ensures
        r == learnable(entry@, character_ids@),
{
    has_no_control(entry.word.as_str()) && !entry.ruby.as_str().is_empty() && has_no_control(
        entry.ruby.as_str(),
    ) && character_ids.encode(entry.ruby.as_str()).is_some()
}

/// The records after using `entry` on `today`: the record of the same word counts one more
/// use (saturating), is marked used today and takes the entry; a new word starts a record.
pub open spec fn memorized(records: Seq<RecordV>, entry: EntryV, today: u16) -> Seq<RecordV> {
    match first_same(records, entry) {
        Some(j) => records.update(
            j,
            RecordV {
                entry,
                last_used_day: today,
                last_updated_day: records[j].last_updated_day,
                count: if records[j].count == 255 {
                    255u8
                } else {
                    (records[j].count + 1) as u8
                },
            },
        ),
        None => records.push(
            RecordV { entry, last_used_day: today, last_updated_day: today, count: 1 },
        ),
    }
}

/// Records a use of `entry` on `today`, when the entry may be learned.
pub fn memorize(
    records: &mut Vec<LearningRecord>,
    entry: DictionaryEntry,
    today: u16,
    character_ids: &CharacterIdMap,
)
    ensures
        learnable(entry@, character_ids@) ==> records_view(final(records)@) == memorized(
            records_view(old(records)@),
            entry@,
            today,
        ),
        !learnable(entry@, character_ids@) ==> final(records)@ == old(records)@,
{
    if !valid_learning_entry(&entry, character_ids) {
        return;
    }
    let ghost rv = records_view(records@);
    let mut j: usize = 0;
    assert(rv.take(0) =~= Seq::<RecordV>::empty());
    while j < records.len()
        invariant
            j <= records@.len(),
            rv == records_view(records@),
            rv == records_view(old(records)@),
            first_same(rv.take(j as int), entry@) is None,
            learnable(entry@, character_ids@),
        decreases records@.len() - j,
    {
        proof {
            lemma_first_same_prefix(rv, entry@, j as int);
        }
        assert(rv[j as int] == records@[j as int]@);
        if same_entry(&records[j].entry, &entry) {
            proof {
                lemma_first_same_extends(rv, entry@, j as int + 1);
            }
            let count = records[j].count.saturating_add(1);
            let record = LearningRecord {
                entry,
                last_used_day: today,
                last_updated_day: records[j].last_updated_day,
                count,
            };
            records.set(j, record);
            assert(records_view(records@) =~= memorized(rv, record@.entry, today));
            return;
        }
        j = j + 1;
    }
    assert(rv.take(j as int) == rv);
    let record = LearningRecord { entry, last_used_day: today, last_updated_day: today, count: 1 };
    records.push(record);
    assert(records_view(records@) =~= memorized(rv, record@.entry, today));
}

/// A temporary record survives forgetting unless one of `targets` has its reading and word.
pub open spec fn keeps_temporary(targets: Seq<EntryV>) -> spec_fn(RecordV) -> bool {
    |r: RecordV|
        !exists|t: int|
            0 <= t < targets.len() && (#[trigger] targets[t]).ruby == r.entry.ruby
                && targets[t].word == r.entry.word
}

/// A persisted record survives forgetting unless one of `targets` has its word.
pub open spec fn keeps_persisted(targets: Seq<EntryV>) -> spec_fn(RecordV) -> bool {
    |r: RecordV| !exists|t: int| 0 <= t < targets.len() && (#[trigger] targets[t]).word == r.entry.word
}

fn matches_target(record: &LearningRecord, targets: &[DictionaryEntry], by_reading: bool) -> (r: bool)
    ensures
        by_reading ==> r == !keeps_temporary(entry_views(targets@))(record@),
        !by_reading ==> r == !keeps_persisted(entry_views(targets@))(record@),
{
    let ghost tv = entry_views(targets@);
    let mut t: usize = 0;
    while t < targets.len()
        invariant
            t <= targets@.len(),
            tv == entry_views(targets@),
            forall|k: int|
                0 <= k < t ==> !((#[trigger] tv[k]).word == record@.entry.word && (!by_reading
                    || tv[k].ruby == record@.entry.ruby)),
        decreases targets@.len() - t,
    {
        assert(tv[t as int] == targets@[t as int]@);
        if targets[t].word == record.entry.word && (!by_reading || targets[t].ruby
            == record.entry.ruby) {
            return true;
        }
        t = t + 1;
    }
    false
}

fn retain_unmatched(records: &mut Vec<LearningRecord>, targets: &[DictionaryEntry], by_reading: bool)
    ensures
        by_reading ==> records_view(final(records)@) == records_view(old(records)@).filter(
            keeps_temporary(entry_views(targets@)),
        ),
        !by_reading ==> records_view(final(records)@) == records_view(old(records)@).filter(
            keeps_persisted(entry_views(targets@)),
        ),
{
    let ghost initial = records_view(records@);
    let ghost pred = if by_reading {
        keeps_temporary(entry_views(targets@))
    } else {
        keeps_persisted(entry_views(targets@))
    };
    let mut kept: Vec<LearningRecord> = Vec::new();
    let ghost mut taken: int = 0;
    assert(records_view(records@) == initial.skip(0));
    assert(records_view(kept@) =~= initial.take(0).filter(pred));
    while records.len() > 0
        invariant
            0 <= taken <= initial.len(),
            records_view(records@) == initial.skip(taken),
            records_view(kept@) == initial.take(taken).filter(pred),
            pred == if by_reading {
                keeps_temporary(entry_views(targets@))
            } else {
                keeps_persisted(entry_views(targets@))
            },
        decreases records@.len(),
    {
        assert(records_view(records@).len() == records@.len());
        assert(records@[0]@ == records_view(records@)[0]);
        assert(initial.skip(taken)[0] == initial[taken]);
        let ghost rest = records_view(records@);
        let r = records.remove(0);
        proof {
            assert(initial.take(taken + 1) == initial.take(taken).push(initial[taken]));
            initial.take(taken).lemma_filter_push(initial[taken], pred);
        }
        if !matches_target(&r, targets, by_reading) {
            let ghost before = records_view(kept@);
            kept.push(r);
            assert(records_view(kept@) =~= before.push(initial[taken]));
        }
        assert(records_view(records@) =~= rest.skip(1));
        assert(rest.skip(1) =~= initial.skip(taken + 1));
        proof {
            taken = taken + 1;
        }
    }
    assert(initial.take(taken) =~= initial);
    *records = kept;
}

/// Forgets the words of a candidate: a temporary record goes when an entry has its reading
/// and word, a persisted record when an entry has its word.
pub fn forget_records(
    temporary: &mut Vec<LearningRecord>,
    persisted: &mut Vec<LearningRecord>,
    entries: &[DictionaryEntry],
)
    ensures
        records_view(final(temporary)@) == records_view(old(temporary)@).filter(
            keeps_temporary(entry_views(entries@)),
        ),
        records_view(final(persisted)@) == records_view(old(persisted)@).filter(
            keeps_persisted(entry_views(entries@)),
        ),
{
    retain_unmatched(temporary, entries, true);
    retain_unmatched(persisted, entries, false);
}

/// The names of the files the learning memory writes (and their temporary copies).
pub open spec fn memory_file_spec(name: Seq<char>) -> bool {
    name == ".pause"@ || name == "memory.bin"@ || name == "memory.bin.2"@ || ends_with(
        name,
        ".loudstxt3"@,
    ) || ends_with(name, ".loudstxt3.2"@) || ends_with(name, ".loudschars2"@) || ends_with(
        name,
        ".loudschars2.2"@,
    ) || ends_with(name, ".memorymetadata"@) || ends_with(name, ".memorymetadata.2"@)
        || ends_with(name, ".louds"@) || ends_with(name, ".louds.2"@) || ends_with(
        name,
        "learningMemory.txt"@,
    )
}

/// Whether a file belongs to the learning memory.
pub fn is_memory_file(name: &str) -> (r: bool)
    ensures
        r == memory_file_spec(name@),
{
    let v = chars_of(name);
    spells(v.as_slice(), ".pause") || spells(v.as_slice(), "memory.bin") || spells(
        v.as_slice(),
        "memory.bin.2",
    ) || chars_ends_with(&v, ".loudstxt3") || chars_ends_with(&v, ".loudstxt3.2")
        || chars_ends_with(&v, ".loudschars2") || chars_ends_with(&v, ".loudschars2.2")
        || chars_ends_with(&v, ".memorymetadata") || chars_ends_with(&v, ".memorymetadata.2")
        || chars_ends_with(&v, ".louds") || chars_ends_with(&v, ".louds.2") || chars_ends_with(
        &v,
        "learningMemory.txt",
    )
}


/// Bit `p` of the LOUDS topology: the given bits, then ones up to a whole 64-bit word.
pub open spec fn louds_bit(bits: Seq<bool>, p: int) -> u8 {
    if p < bits.len() {
        if bits[p] {
            1
        } else {
            0
        }
    } else {
        1
    }
}

/// The number of 64-bit words the bits fill.
pub open spec fn word_count(n: int) -> int {
    n / 64 + if n % 64 != 0 {
        1int
    } else {
        0int
    }
}

/// Eight bits, the first the most significant.
pub open spec fn pack8(a: u8, b: u8, c: u8, d: u8, e: u8, f: u8, g: u8, h: u8) -> u8 {
    ((a << 7u8) | (b << 6u8) | (c << 5u8) | (d << 4u8) | (e << 3u8) | (f << 2u8) | (g << 1u8) | h)
}

proof fn lemma_pack8(a: u8, b: u8, c: u8, d: u8, e: u8, f: u8, g: u8, h: u8)
    requires
        a <= 1,
        b <= 1,
        c <= 1,
        d <= 1,
        e <= 1,
        f <= 1,
        g <= 1,
        h <= 1,
    ensures
        (pack8(a, b, c, d, e, f, g, h) >> 7u8) & 1u8 == a,
        (pack8(a, b, c, d, e, f, g, h) >> 6u8) & 1u8 == b,
        (pack8(a, b, c, d, e, f, g, h) >> 5u8) & 1u8 == c,
        (pack8(a, b, c, d, e, f, g, h) >> 4u8) & 1u8 == d,
        (pack8(a, b, c, d, e, f, g, h) >> 3u8) & 1u8 == e,
        (pack8(a, b, c, d, e, f, g, h) >> 2u8) & 1u8 == f,
        (pack8(a, b, c, d, e, f, g, h) >> 1u8) & 1u8 == g,
        (pack8(a, b, c, d, e, f, g, h) >> 0u8) & 1u8 == h,
{
    assert((pack8(a, b, c, d, e, f, g, h) >> 7u8) & 1u8 == a) by (bit_vector)
        requires
            a <= 1 && b <= 1 && c <= 1 && d <= 1 && e <= 1 && f <= 1 && g <= 1 && h <= 1,
    ;
    assert((pack8(a, b, c, d, e, f, g, h) >> 6u8) & 1u8 == b) by (bit_vector)
        requires
            a <= 1 && b <= 1 && c <= 1 && d <= 1 && e <= 1 && f <= 1 && g <= 1 && h <= 1,
    ;
    assert((pack8(a, b, c, d, e, f, g, h) >> 5u8) & 1u8 == c) by (bit_vector)
        requires
            a <= 1 && b <= 1 && c <= 1 && d <= 1 && e <= 1 && f <= 1 && g <= 1 && h <= 1,
    ;
    assert((pack8(a, b, c, d, e, f, g, h) >> 4u8) & 1u8 == d) by (bit_vector)
        requires
            a <= 1 && b <= 1 && c <= 1 && d <= 1 && e <= 1 && f <= 1 && g <= 1 && h <= 1,
    ;
    assert((pack8(a, b, c, d, e, f, g, h) >> 3u8) & 1u8 == e) by (bit_vector)
        requires
            a <= 1 && b <= 1 && c <= 1 && d <= 1 && e <= 1 && f <= 1 && g <= 1 && h <= 1,
    ;
    assert((pack8(a, b, c, d, e, f, g, h) >> 2u8) & 1u8 == f) by (bit_vector)
        requires
            a <= 1 && b <= 1 && c <= 1 && d <= 1 && e <= 1 && f <= 1 && g <= 1 && h <= 1,
    ;
    assert((pack8(a, b, c, d, e, f, g, h) >> 1u8) & 1u8 == g) by (bit_vector)
        requires
            a <= 1 && b <= 1 && c <= 1 && d <= 1 && e <= 1 && f <= 1 && g <= 1 && h <= 1,
    ;
    assert((pack8(a, b, c, d, e, f, g, h) >> 0u8) & 1u8 == h) by (bit_vector)
        requires
            a <= 1 && b <= 1 && c <= 1 && d <= 1 && e <= 1 && f <= 1 && g <= 1 && h <= 1,
    ;
}

fn louds_bit_exec(bits: &[bool], p: usize) -> (r: u8)
    ensures
        r == louds_bit(bits@, p as int),
        r <= 1,
{
    if p < bits.len() {
        if bits[p] {
            1
        } else {
            0
        }
    } else {
        1
    }
}

/// Byte `j` of the encoding holds, most significant first, the eight bits that `bit_at`
/// reads from it.
pub open spec fn byte_holds(byte: u8, bits: Seq<bool>, j: int) -> bool {
    forall|t: int|
        0 <= t < 8 ==> #[trigger] ((byte >> ((7 - t) as u8)) & 1u8) == louds_bit(
            bits,
            64 * (j / 8) + 8 * (7 - j % 8) + t,
        )
}

/// Encodes LOUDS bits as little-endian 64-bit words, the first bit the most significant,
/// the last word filled with ones.
#[verifier::spinoff_prover]
#[verifier::rlimit(40)]
pub fn encode_louds(bits: &[bool]) -> (out: Vec<u8>)
    requires
        bits@.len() <= isize::MAX,
    ensures
        out@.len() == 8 * word_count(bits@.len() as int),
        forall|p: int| 0 <= p < 8 * out@.len() ==> #[trigger] bit_at(out@, p) == louds_bit(bits@, p),
{
    let n = bits.len();
    let words = n / 64 + if n % 64 != 0 {
        1
    } else {
        0
    };
    let mut out: Vec<u8> = Vec::new();
    let mut j: usize = 0;
    while j < 8 * words
        invariant
            words == word_count(n as int),
            n == bits@.len(),
            n <= isize::MAX,
            j <= 8 * words,
            out@.len() == j,
            forall|k: int| 0 <= k < j ==> byte_holds(#[trigger] out@[k], bits@, k),
        decreases 8 * words - j,
    {
        let base = 64 * (j / 8) + 8 * (7 - j % 8);
        let a = louds_bit_exec(bits, base);
        let b = louds_bit_exec(bits, base + 1);
        let c = louds_bit_exec(bits, base + 2);
        let d = louds_bit_exec(bits, base + 3);
        let e = louds_bit_exec(bits, base + 4);
        let f = louds_bit_exec(bits, base + 5);
        let g = louds_bit_exec(bits, base + 6);
        let h = louds_bit_exec(bits, base + 7);
        let byte = (a << 7u8) | (b << 6u8) | (c << 5u8) | (d << 4u8) | (e << 3u8) | (f << 2u8) | (g
            << 1u8) | h;
        proof {
            lemma_pack8(a, b, c, d, e, f, g, h);
            assert(byte == pack8(a, b, c, d, e, f, g, h));
            assert forall|t: int| 0 <= t < 8 implies #[trigger] ((byte >> ((7 - t) as u8)) & 1u8)
                == louds_bit(bits@, 64 * (j / 8) + 8 * (7 - j % 8) + t) by {
                if t == 0 {
                } else if t == 1 {
                } else if t == 2 {
                } else if t == 3 {
                } else if t == 4 {
                } else if t == 5 {
                } else if t == 6 {
                } else {
                }
            }
        }
        out.push(byte);
        j = j + 1;
    }
    assert forall|p: int| 0 <= p < 8 * out@.len() implies #[trigger] bit_at(out@, p) == louds_bit(
        bits@,
        p,
    ) by {
        let k = 8 * (p / 64) + 7 - (p % 64) / 8;
        let t = p % 8;
        assert(0 <= k < out@.len());
        assert(k / 8 == p / 64 && k % 8 == 7 - (p % 64) / 8);
        assert(64 * (k / 8) + 8 * (7 - k % 8) + t == p);
        assert(byte_holds(out@[k], bits@, k));
        assert(((out@[k] >> ((7 - t) as u8)) & 1u8) == louds_bit(bits@, 64 * (k / 8) + 8 * (7 - k % 8) + t));
    }
    out
}


/// The bytes an element of metadata takes: when it was last used and last updated (two
/// little-endian `u16`), its count and a padding byte.
pub open spec fn element_bytes(e: (u16, u16, u8)) -> Seq<u8> {
    seq![(e.0 % 256) as u8, (e.0 / 256) as u8, (e.1 % 256) as u8, (e.1 / 256) as u8, e.2, 0u8]
}

pub open spec fn elements_bytes(es: Seq<(u16, u16, u8)>) -> Seq<u8>
    decreases es.len(),
{
    if es.len() == 0 {
        Seq::empty()
    } else {
        element_bytes(es[0]) + elements_bytes(es.skip(1))
    }
}

/// A block: its element count as a byte (at most 255), then its elements.
pub open spec fn block_bytes(b: Seq<(u16, u16, u8)>) -> Seq<u8> {
    seq![(if b.len() > 255 {
        255
    } else {
        b.len()
    }) as u8] + elements_bytes(b)
}

pub open spec fn blocks_bytes(bs: Seq<Seq<(u16, u16, u8)>>) -> Seq<u8>
    decreases bs.len(),
{
    if bs.len() == 0 {
        Seq::empty()
    } else {
        block_bytes(bs[0]) + blocks_bytes(bs.skip(1))
    }
}

/// The metadata file: the node count as a little-endian `u32` (saturating), then a block
/// per node.
pub open spec fn metadata_bytes(bs: Seq<Seq<(u16, u16, u8)>>) -> Seq<u8> {
    let n: int = if bs.len() > u32::MAX {
        u32::MAX as int
    } else {
        bs.len() as int
    };
    seq![(n % 256) as u8, ((n / 256) % 256) as u8, ((n / 65536) % 256) as u8, (n / 16777216) as u8]
        + blocks_bytes(bs)
}

pub open spec fn le16(b: Seq<u8>, at: int) -> u16 {
    (b[at] + 256 * b[at + 1]) as u16
}

/// The elements from `cur` on: each needs its two days, and its count before the end.
pub open spec fn decode_elements(b: Seq<u8>, cur: int, k: int) -> Result<
    (Seq<(u16, u16, u8)>, int),
    LearningError,
>
    decreases k,
{
    if k <= 0 {
        Ok((Seq::empty(), cur))
    } else if cur + 4 > b.len() {
        Err(LearningError::InvalidData("truncated numeric field"))
    } else if cur + 4 >= b.len() {
        Err(LearningError::InvalidData("truncated metadata count"))
    } else {
        match decode_elements(b, cur + 6, k - 1) {
            Err(e) => Err(e),
            Ok((rest, end)) => Ok((seq![(le16(b, cur), le16(b, cur + 2), b[cur + 4])] + rest, end)),
        }
    }
}

/// The blocks from `cur` on.
pub open spec fn decode_blocks(b: Seq<u8>, cur: int, k: int) -> Result<
    (Seq<Seq<(u16, u16, u8)>>, int),
    LearningError,
>
    decreases k,
{
    if k <= 0 {
        Ok((Seq::empty(), cur))
    } else if cur >= b.len() {
        Err(LearningError::InvalidData("truncated metadata block"))
    } else {
        match decode_elements(b, cur + 1, b[cur] as int) {
            Err(e) => Err(e),
            Ok((block, next)) => match decode_blocks(b, next, k - 1) {
                Err(e) => Err(e),
                Ok((rest, end)) => Ok((seq![block] + rest, end)),
            },
        }
    }
}

/// The blocks of a metadata file whose node count must agree with the character table and
/// the trie; no byte may follow the last block.
pub open spec fn decode_metadata_spec(b: Seq<u8>, character_count: int, node_count: int) -> Result<
    Seq<Seq<(u16, u16, u8)>>,
    LearningError,
> {
    if b.len() < 4 {
        Err(LearningError::InvalidData("truncated numeric field"))
    } else {
        let n = b[0] + 256 * b[1] + 65536 * b[2] + 16777216 * b[3];
        if n != character_count || n != node_count {
            Err(LearningError::InvalidData("inconsistent node counts"))
        } else {
            match decode_blocks(b, 4, n) {
                Err(e) => Err(e),
                Ok((blocks, end)) => if end != b.len() {
                    Err(LearningError::InvalidData("trailing metadata bytes"))
                } else {
                    Ok(blocks)
                },
            }
        }
    }
}

fn push_u16_le(out: &mut Vec<u8>, v: u16)
    ensures
        final(out)@ == old(out)@ + seq![(v % 256) as u8, (v / 256) as u8],
{
    out.push((v % 256) as u8);
    out.push((v / 256) as u8);
    assert(out@ =~= old(out)@ + seq![(v % 256) as u8, (v / 256) as u8]);
}

proof fn lemma_elements_bytes_push(es: Seq<(u16, u16, u8)>, e: (u16, u16, u8))
    ensures
        elements_bytes(es.push(e)) == elements_bytes(es) + element_bytes(e),
    decreases es.len(),
{
    if es.len() == 0 {
        assert(es.push(e).skip(1) =~= Seq::<(u16, u16, u8)>::empty());
        assert(es.push(e)[0] == e);
        assert(elements_bytes(Seq::<(u16, u16, u8)>::empty()) == Seq::<u8>::empty());
        assert(elements_bytes(es) == Seq::<u8>::empty());
        assert(elements_bytes(es.push(e)) =~= element_bytes(e) + Seq::<u8>::empty());
    } else {
        lemma_elements_bytes_push(es.skip(1), e);
        assert(es.push(e).skip(1) =~= es.skip(1).push(e));
        assert(elements_bytes(es.push(e)) =~= elements_bytes(es) + element_bytes(e));
    }
}

proof fn lemma_blocks_bytes_push(bs: Seq<Seq<(u16, u16, u8)>>, b: Seq<(u16, u16, u8)>)
    ensures
        blocks_bytes(bs.push(b)) == blocks_bytes(bs) + block_bytes(b),
    decreases bs.len(),
{
    if bs.len() == 0 {
        assert(bs.push(b).skip(1) =~= Seq::<Seq<(u16, u16, u8)>>::empty());
        assert(bs.push(b)[0] == b);
        assert(blocks_bytes(Seq::<Seq<(u16, u16, u8)>>::empty()) == Seq::<u8>::empty());
        assert(blocks_bytes(bs) == Seq::<u8>::empty());
        assert(blocks_bytes(bs.push(b)) =~= block_bytes(b) + Seq::<u8>::empty());
    } else {
        lemma_blocks_bytes_push(bs.skip(1), b);
        assert(bs.push(b).skip(1) =~= bs.skip(1).push(b));
        assert(blocks_bytes(bs.push(b)) =~= blocks_bytes(bs) + block_bytes(b));
    }
}

/// Encodes the metadata of the learning memory's nodes.
pub fn encode_metadata(blocks: &Vec<Vec<(u16, u16, u8)>>) -> (out: Vec<u8>)
    ensures
        out@ == metadata_bytes(blocks@.map_values(|b: Vec<(u16, u16, u8)>| b@)),
{
    let ghost bv = blocks@.map_values(|b: Vec<(u16, u16, u8)>| b@);
    let n: u32 = if blocks.len() > 0xffff_ffff {
        0xffff_ffff
    } else {
        blocks.len() as u32
    };
    let mut out: Vec<u8> = Vec::new();
    out.push((n % 256) as u8);
    out.push(((n / 256) % 256) as u8);
    out.push(((n / 65536) % 256) as u8);
    out.push((n / 16777216) as u8);
    let ghost header = out@;
    assert(bv.take(0) =~= Seq::<Seq<(u16, u16, u8)>>::empty());
    assert(out@ =~= header + blocks_bytes(bv.take(0)));
    let mut i: usize = 0;
    while i < blocks.len()
        invariant
            i <= blocks@.len(),
            bv == blocks@.map_values(|b: Vec<(u16, u16, u8)>| b@),
            out@ == header + blocks_bytes(bv.take(i as int)),
        decreases blocks@.len() - i,
    {
        let block = &blocks[i];
        let ghost before = out@;
        let count: u8 = if block.len() > 255 {
            255
        } else {
            block.len() as u8
        };
        out.push(count);
        let ghost start = out@;
        let mut k: usize = 0;
        assert(block@.take(0) =~= Seq::<(u16, u16, u8)>::empty());
        assert(out@ =~= start + elements_bytes(block@.take(0)));
        while k < block.len()
            invariant
                k <= block@.len(),
                out@ == start + elements_bytes(block@.take(k as int)),
            decreases block@.len() - k,
        {
            let (used, updated, c) = block[k];
            push_u16_le(&mut out, used);
            push_u16_le(&mut out, updated);
            out.push(c);
            out.push(0u8);
            proof {
                lemma_elements_bytes_push(block@.take(k as int), block@[k as int]);
                assert(block@.take(k + 1) =~= block@.take(k as int).push(block@[k as int]));
            }
            assert(out@ =~= start + elements_bytes(block@.take(k + 1)));
            k = k + 1;
        }
        assert(block@.take(k as int) =~= block@);
        assert(bv[i as int] == block@);
        proof {
            lemma_blocks_bytes_push(bv.take(i as int), bv[i as int]);
            assert(bv.take(i + 1) =~= bv.take(i as int).push(bv[i as int]));
        }
        assert(out@ =~= header + blocks_bytes(bv.take(i + 1)));
        i = i + 1;
    }
    assert(bv.take(i as int) =~= bv);
    assert(out@ =~= metadata_bytes(bv));
    out
}


/// What follows a decoded prefix: the prefix before the rest, or the failure.
pub open spec fn after<T>(done: Seq<T>, r: Result<(Seq<T>, int), LearningError>) -> Result<
    (Seq<T>, int),
    LearningError,
> {
    match r {
        Err(e) => Err(e),
        Ok((rest, end)) => Ok((done + rest, end)),
    }
}

proof fn lemma_after_push<T>(done: Seq<T>, x: T, r: Result<(Seq<T>, int), LearningError>)
    ensures
        after(done, after(seq![x], r)) == after(done.push(x), r),
{
    match r {
        Err(e) => {},
        Ok((rest, end)) => {
            assert(done + (seq![x] + rest) =~= done.push(x) + rest);
        },
    }
}

fn decode_block(metadata: &[u8], start: usize, count: u8) -> (r: Result<
    (Vec<(u16, u16, u8)>, usize),
    LearningError,
>)
    requires
        start <= metadata@.len() + 1,
        metadata@.len() <= isize::MAX,
    ensures
        match r {
            Ok((es, end)) => decode_elements(metadata@, start as int, count as int) == Ok::<
                (Seq<(u16, u16, u8)>, int),
                LearningError,
            >((es@, end as int)) && end <= metadata@.len() + 1,
            Err(e) => decode_elements(metadata@, start as int, count as int) == Err::<
                (Seq<(u16, u16, u8)>, int),
                LearningError,
            >(e),
        },
{
    let mut es: Vec<(u16, u16, u8)> = Vec::new();
    let mut cursor = start;
    let mut k: u8 = 0;
    while k < count
        invariant
            k <= count,
            cursor <= metadata@.len() + 1,
            metadata@.len() <= isize::MAX,
            decode_elements(metadata@, start as int, count as int) == after(
                es@,
                decode_elements(metadata@, cursor as int, count - k),
            ),
        decreases count - k,
    {
        if cursor + 4 > metadata.len() {
            return Err(LearningError::InvalidData("truncated numeric field"));
        }
        if cursor + 4 >= metadata.len() {
            return Err(LearningError::InvalidData("truncated metadata count"));
        }
        let used = (metadata[cursor] as u16) + (metadata[cursor + 1] as u16) * 256;
        let updated = (metadata[cursor + 2] as u16) + (metadata[cursor + 3] as u16) * 256;
        let element = (used, updated, metadata[cursor + 4]);
        proof {
            lemma_after_push(es@, element, decode_elements(metadata@, cursor + 6, count - k - 1));
        }
        es.push(element);
        cursor = cursor + 6;
        k = k + 1;
    }
    assert(es@ + Seq::<(u16, u16, u8)>::empty() =~= es@);
    Ok((es, cursor))
}

/// Decodes the metadata file, given the node counts of the character table and the trie.
pub fn decode_metadata(metadata: &[u8], character_count: usize, node_count: usize) -> (r: Result<
    Vec<Vec<(u16, u16, u8)>>,
    LearningError,
>)
    requires
        metadata@.len() <= isize::MAX,
    ensures
        match r {
            Ok(bs) => decode_metadata_spec(metadata@, character_count as int, node_count as int)
                == Ok::<Seq<Seq<(u16, u16, u8)>>, LearningError>(
                bs@.map_values(|b: Vec<(u16, u16, u8)>| b@),
            ),
            Err(e) => decode_metadata_spec(metadata@, character_count as int, node_count as int)
                == Err::<Seq<Seq<(u16, u16, u8)>>, LearningError>(e),
        },
{
    if metadata.len() < 4 {
        return Err(LearningError::InvalidData("truncated numeric field"));
    }
    let n = ((metadata[0] as u32) + (metadata[1] as u32) * 256 + (metadata[2] as u32) * 65536
        + (metadata[3] as u32) * 16777216) as usize;
    if n != character_count || n != node_count {
        return Err(LearningError::InvalidData("inconsistent node counts"));
    }
    let mut blocks: Vec<Vec<(u16, u16, u8)>> = Vec::new();
    let mut cursor: usize = 4;
    let mut i: usize = 0;
    assert(blocks@.map_values(|b: Vec<(u16, u16, u8)>| b@) =~= Seq::<Seq<(u16, u16, u8)>>::empty());
    while i < n
        invariant
            i <= n,
            cursor <= metadata@.len() + 1,
            metadata@.len() <= isize::MAX,
            metadata@.len() >= 4,
            n == character_count,
            n == node_count,
            n == metadata@[0] + 256 * metadata@[1] + 65536 * metadata@[2] + 16777216 * metadata@[3],
            decode_blocks(metadata@, 4, n as int) == after(
                blocks@.map_values(|b: Vec<(u16, u16, u8)>| b@),
                decode_blocks(metadata@, cursor as int, n - i),
            ),
        decreases n - i,
    {
        if cursor >= metadata.len() {
            return Err(LearningError::InvalidData("truncated metadata block"));
        }
        let count = metadata[cursor];
        match decode_block(metadata, cursor + 1, count) {
            Err(e) => {
                return Err(e);
            },
            Ok((block, next)) => {
                let ghost done = blocks@.map_values(|b: Vec<(u16, u16, u8)>| b@);
                proof {
                    lemma_after_push(done, block@, decode_blocks(metadata@, next as int, n - i - 1));
                }
                blocks.push(block);
                assert(blocks@.map_values(|b: Vec<(u16, u16, u8)>| b@) =~= done.push(block@));
                cursor = next;
            },
        }
        i = i + 1;
    }
    assert(blocks@.map_values(|b: Vec<(u16, u16, u8)>| b@) + Seq::<Seq<(u16, u16, u8)>>::empty()
        =~= blocks@.map_values(|b: Vec<(u16, u16, u8)>| b@));
    if cursor != metadata.len() {
        return Err(LearningError::InvalidData("trailing metadata bytes"));
    }
    Ok(blocks)
}

proof fn lemma_decode_elements_of(p: Seq<u8>, es: Seq<(u16, u16, u8)>, s: Seq<u8>)
    ensures
        decode_elements(p + elements_bytes(es) + s, p.len() as int, es.len() as int) == Ok::<
            (Seq<(u16, u16, u8)>, int),
            LearningError,
        >((es, (p.len() + elements_bytes(es).len()) as int)),
    decreases es.len(),
{
    let b = p + elements_bytes(es) + s;
    if es.len() == 0 {
        assert(es =~= Seq::<(u16, u16, u8)>::empty());
    } else {
        let e = es[0];
        let q = p + element_bytes(e);
        lemma_decode_elements_of(q, es.skip(1), s);
        assert(q + elements_bytes(es.skip(1)) + s =~= b);
        let c = p.len() as int;
        assert(b[c] == (e.0 % 256) as u8);
        assert(b[c + 1] == (e.0 / 256) as u8);
        assert(b[c + 2] == (e.1 % 256) as u8);
        assert(b[c + 3] == (e.1 / 256) as u8);
        assert(b[c + 4] == e.2);
        assert(le16(b, c) == e.0);
        assert(le16(b, c + 2) == e.1);
        assert(seq![e] + es.skip(1) =~= es);
    }
}

proof fn lemma_decode_blocks_of(p: Seq<u8>, bs: Seq<Seq<(u16, u16, u8)>>, s: Seq<u8>)
    requires
        forall|i: int| 0 <= i < bs.len() ==> (#[trigger] bs[i]).len() <= 255,
    ensures
        decode_blocks(p + blocks_bytes(bs) + s, p.len() as int, bs.len() as int) == Ok::<
            (Seq<Seq<(u16, u16, u8)>>, int),
            LearningError,
        >((bs, (p.len() + blocks_bytes(bs).len()) as int)),
    decreases bs.len(),
{
    let b = p + blocks_bytes(bs) + s;
    if bs.len() == 0 {
        assert(bs =~= Seq::<Seq<(u16, u16, u8)>>::empty());
    } else {
        let first = bs[0];
        let rest = bs.skip(1);
        let q = p + block_bytes(first);
        assert forall|i: int| 0 <= i < rest.len() implies (#[trigger] rest[i]).len() <= 255 by {
            assert(rest[i] == bs[i + 1]);
        }
        lemma_decode_blocks_of(q, rest, s);
        assert(q + blocks_bytes(rest) + s =~= b);
        let c = p.len() as int;
        assert(b[c] == first.len() as u8);
        lemma_decode_elements_of(p + seq![first.len() as u8], first, blocks_bytes(rest) + s);
        assert(p + seq![first.len() as u8] + elements_bytes(first) + (blocks_bytes(rest) + s) =~= b);
        assert(seq![first] + rest =~= bs);
    }
}

/// Decoding the encoded metadata gives back its blocks, for blocks of at most 255 elements
/// and a node count that fits the header.
#[verifier::spinoff_prover]
#[verifier::rlimit(40)]
pub proof fn lemma_metadata_round_trip(bs: Seq<Seq<(u16, u16, u8)>>)
    requires
        bs.len() <= u32::MAX,
        forall|i: int| 0 <= i < bs.len() ==> (#[trigger] bs[i]).len() <= 255,
    ensures
        decode_metadata_spec(metadata_bytes(bs), bs.len() as int, bs.len() as int) == Ok::<
            Seq<Seq<(u16, u16, u8)>>,
            LearningError,
        >(bs),
{
    let n = bs.len() as int;
    let header = seq![(n % 256) as u8, ((n / 256) % 256) as u8, ((n / 65536) % 256) as u8, (n
        / 16777216) as u8];
    let b = metadata_bytes(bs);
    assert(b == header + blocks_bytes(bs));
    lemma_decode_blocks_of(header, bs, Seq::empty());
    assert(header + blocks_bytes(bs) + Seq::<u8>::empty() =~= b);
    assert(b[0] + 256 * b[1] + 65536 * b[2] + 16777216 * b[3] == n);
}


/// The records of one node: its entries, in order, with the days and counts of its
/// metadata block; the two must be as many.
pub fn node_records(entries: Vec<DictionaryEntry>, block: &Vec<(u16, u16, u8)>) -> (r: Result<
    Vec<LearningRecord>,
    LearningError,
>)
    ensures
        match r {
            Ok(rs) => entries@.len() == block@.len() && rs@.len() == block@.len() && forall|i: int|
                0 <= i < rs@.len() ==> (#[trigger] rs@[i])@ == (RecordV {
                    entry: entries@[i]@,
                    last_used_day: block@[i].0,
                    last_updated_day: block@[i].1,
                    count: block@[i].2,
                }),
            Err(e) => entries@.len() != block@.len() && e == LearningError::InvalidData(
                "entry and metadata counts differ",
            ),
        },
{
    if entries.len() != block.len() {
        return Err(LearningError::InvalidData("entry and metadata counts differ"));
    }
    let ghost initial = entries@;
    let mut rest = entries;
    let mut out: Vec<LearningRecord> = Vec::new();
    let mut i: usize = 0;
    while rest.len() > 0
        invariant
            initial.len() == block@.len(),
            i + rest@.len() == initial.len(),
            rest@ == initial.skip(i as int),
            out@.len() == i,
            forall|k: int| 0 <= k < i ==> (#[trigger] out@[k])@ == (RecordV {
                entry: initial[k]@,
                last_used_day: block@[k].0,
                last_updated_day: block@[k].1,
                count: block@[k].2,
            }),
        decreases rest@.len(),
    {
        let entry = rest.remove(0);
        assert(entry == initial[i as int]);
        assert(rest@ =~= initial.skip(i + 1));
        assert(i < block.len());
        let (used, updated, count) = block[i];
        out.push(LearningRecord { entry, last_used_day: used, last_updated_day: updated, count });
        i = i + 1;
    }
    Ok(out)
}


proof fn lemma_halved(count: u8, updated: u16, today: u16)
    requires
        updated <= today,
    ensures
        updated <= halved(count, updated, today).1 <= today,
        today - halved(count, updated, today).1 <= 32,
        (halved(count, updated, today).1 - updated) % 32 == 0,
        halved(count, updated, today).0 as int == count as int / (pow2(
            ((halved(count, updated, today).1 - updated) / 32) as nat,
        ) as int),
    decreases today - updated,
{
    if today - updated > 32 {
        let u1 = (updated + 32) as u16;
        lemma_halved(count / 2, u1, today);
        let (c, u) = halved(count / 2, u1, today);
        let p = ((u - u1) / 32) as nat;
        assert((u - updated) / 32 == p + 1);
        lemma_pow2_unfold(p + 1);
        lemma_pow2_pos(p);
        lemma_div_denominator(count as int, 2, pow2(p) as int);
        assert(halved(count, updated, today) == (c, u));
        assert((count / 2) as int == count as int / 2);
        assert(c as int == (count as int / 2) / (pow2(p) as int));
        assert(pow2(p + 1) as int == 2 * (pow2(p) as int));
        assert(c as int == count as int / (pow2(p + 1) as int));
        assert(((u - updated) / 32) as nat == p + 1);
    } else {
        lemma2_to64();
        assert(halved(count, updated, today) == (count, updated));
        assert(((updated - updated) / 32) as nat == 0);
        assert(count as int / (pow2(0) as int) == count as int);
    }
}

/// Ageing settles a record: a surviving record was used and updated no later than today,
/// its update day is moved forward by every halved 32-day period so that today is at most 32
/// days after it, its count is halved once for each such period, and ageing it again on the
/// same day changes nothing.
pub proof fn lemma_aged_settles(r: RecordV, today: u16)
    ensures
        aged(r, today) matches Some(a) ==> {
            &&& a.last_used_day <= today
            &&& a.last_updated_day <= today
            &&& today - a.last_updated_day <= 32
            &&& a.entry == r.entry
            &&& aged(a, today) == Some(a)
            &&& r.last_used_day <= today && r.last_updated_day <= today ==> {
                &&& a.last_used_day == r.last_used_day
                &&& r.last_updated_day <= a.last_updated_day
                &&& (a.last_updated_day - r.last_updated_day) % 32 == 0
                &&& a.count as int == r.count as int / (pow2(
                    ((a.last_updated_day - r.last_updated_day) / 32) as nat,
                ) as int)
            }
        },
{
    let (used, updated, count) = if today < r.last_used_day || today < r.last_updated_day {
        (today, today, 1u8)
    } else {
        (r.last_used_day, r.last_updated_day, r.count)
    };
    if today - used < 128 {
        lemma_halved(count, updated, today);
        if let Some(a) = aged(r, today) {
            let (c, u) = halved(a.count, a.last_updated_day, today);
            assert(c == a.count && u == a.last_updated_day);
        }
    }
}

/// Decaying twice on the same day keeps the same records as decaying once.
pub proof fn lemma_decay_idempotent(records: Seq<RecordV>, today: u16)
    ensures
        records.filter_map(aged_on(today)).filter_map(aged_on(today)) == records.filter_map(
            aged_on(today),
        ),
    decreases records.len(),
{
    let once = records.filter_map(aged_on(today));
    assert forall|k: int| 0 <= k <= records.len() implies #[trigger] records.take(k).filter_map(
        aged_on(today),
    ).filter_map(aged_on(today)) == records.take(k).filter_map(aged_on(today)) by {
        lemma_decay_prefix(records, today, k);
    }
    assert(records.take(records.len() as int) == records);
}

proof fn lemma_decay_prefix(records: Seq<RecordV>, today: u16, k: int)
    requires
        0 <= k <= records.len(),
    ensures
        records.take(k).filter_map(aged_on(today)).filter_map(aged_on(today)) == records.take(
            k,
        ).filter_map(aged_on(today)),
    decreases k,
{
    if k == 0 {
        assert(records.take(0).filter_map(aged_on(today)) =~= Seq::<RecordV>::empty());
        assert(Seq::<RecordV>::empty().filter_map(aged_on(today)) =~= Seq::<RecordV>::empty());
    } else {
        lemma_decay_prefix(records, today, k - 1);
        records.lemma_filter_map_take_succ(aged_on(today), k - 1);
        let p = records.take(k - 1).filter_map(aged_on(today));
        lemma_aged_settles(records[k - 1], today);
        match aged(records[k - 1], today) {
            Some(a) => {
                let q = p.push(a);
                assert(records.take(k).filter_map(aged_on(today)) =~= q);
                q.lemma_filter_map_take_succ(aged_on(today), p.len() as int);
                assert(q.take(p.len() as int) =~= p);
                assert(q.take(q.len() as int) =~= q);
                assert(q.filter_map(aged_on(today)) =~= p.filter_map(aged_on(today)) + seq![a]);
            },
            None => {
                assert(records.take(k).filter_map(aged_on(today)) =~= p);
            },
        }
    }
}


proof fn lemma_first_same_props(records: Seq<RecordV>, entry: EntryV)
    ensures
        first_same(records, entry) matches Some(j) ==> 0 <= j < records.len() && same_entry_spec(
            records[j].entry,
            entry,
        ) && forall|k: int| 0 <= k < j ==> !same_entry_spec(#[trigger] records[k].entry, entry),
        first_same(records, entry) is None ==> forall|k: int|
            0 <= k < records.len() ==> !same_entry_spec(#[trigger] records[k].entry, entry),
    decreases records.len(),
{
    if records.len() > 0 {
        let d = records.drop_last();
        lemma_first_same_props(d, entry);
        assert forall|k: int| 0 <= k < d.len() implies d[k] == records[k] by {}
    }
}

/// Learning a record merges it into the first record of the same word, whose count becomes
/// the sum of both counts (at most 255), whose days become the later of each, and whose
/// entry becomes the new one, leaving every other record as it was; a word not yet recorded
/// is appended.
pub proof fn lemma_merge_adds_counts(records: Seq<RecordV>, incoming: RecordV)
    ensures
        first_same(records, incoming.entry) matches Some(j) ==> {
            let m = merged(records, incoming);
            &&& m.len() == records.len()
            &&& 0 <= j < records.len()
            &&& same_entry_spec(records[j].entry, incoming.entry)
            &&& m[j].count as int == if records[j].count + incoming.count > 255 {
                255
            } else {
                records[j].count + incoming.count
            }
            &&& m[j].last_used_day >= records[j].last_used_day
            &&& m[j].last_used_day >= incoming.last_used_day
            &&& (m[j].last_used_day == records[j].last_used_day || m[j].last_used_day
                == incoming.last_used_day)
            &&& m[j].last_updated_day >= records[j].last_updated_day
            &&& m[j].last_updated_day >= incoming.last_updated_day
            &&& (m[j].last_updated_day == records[j].last_updated_day || m[j].last_updated_day
                == incoming.last_updated_day)
            &&& m[j].entry == incoming.entry
            &&& forall|k: int| 0 <= k < records.len() && k != j ==> #[trigger] m[k] == records[k]
        },
        first_same(records, incoming.entry) is None ==> {
            &&& merged(records, incoming) == records.push(incoming)
            &&& forall|k: int|
                0 <= k < records.len() ==> !same_entry_spec(#[trigger] records[k].entry, incoming.entry)
        },
{
    lemma_first_same_props(records, incoming.entry);
}


/// Using a word on `today` counts one more use of its first record (at most 255), marks it
/// used today, keeps its update day and takes the new entry, leaving every other record as it
/// was; a word not yet recorded starts a record used and updated today with a count of one.
pub proof fn lemma_memorize_counts_use(records: Seq<RecordV>, entry: EntryV, today: u16)
    ensures
        first_same(records, entry) matches Some(j) ==> {
            let m = memorized(records, entry, today);
            &&& m.len() == records.len()
            &&& 0 <= j < records.len()
            &&& m[j].count as int == if records[j].count == 255 {
                255
            } else {
                records[j].count + 1
            }
            &&& m[j].last_used_day == today
            &&& m[j].last_updated_day == records[j].last_updated_day
            &&& m[j].entry == entry
            &&& forall|k: int| 0 <= k < records.len() && k != j ==> #[trigger] m[k] == records[k]
        },
        first_same(records, entry) is None ==> {
            let m = memorized(records, entry, today);
            &&& m.len() == records.len() + 1
            &&& m.last() == (RecordV { entry, last_used_day: today, last_updated_day: today, count: 1 })
            &&& forall|k: int| 0 <= k < records.len() ==> #[trigger] m[k] == records[k]
        },
{
    lemma_first_same_props(records, entry);
}

} // verus!
