//! The learning memory's state: what learning, committing, forgetting and resetting do to
//! its persisted and temporary records, and which records are kept when it is saved.
use vstd::prelude::*;

use crate::dictionary::entry::{DictionaryEntry, EntryV, entry_views};
use crate::dictionary::louds::CharacterIdMap;
use crate::learning::{
    LearningMode, LearningRecord, RecordV, aged, aged_on, decay, forget_records, keeps_persisted,
    keeps_temporary, learnable, memorize, memorized, merge_record, merged, records_view,
    valid_learning_entry,
};

verus! {

/// Inserts `x` into records ordered by most recent use, after every record used on the same
/// day or later.
pub open spec fn insert_by_use(s: Seq<RecordV>, x: RecordV) -> Seq<RecordV>
    decreases s.len(),
{
    if s.len() == 0 {
        seq![x]
    } else if s.last().last_used_day >= x.last_used_day {
        s.push(x)
    } else {
        insert_by_use(s.drop_last(), x).push(s.last())
    }
}

/// The records ordered by most recent use; records used on the same day keep their order.
pub open spec fn by_recent_use(s: Seq<RecordV>) -> Seq<RecordV>
    decreases s.len(),
{
    if s.len() == 0 {
        Seq::empty()
    } else {
        insert_by_use(by_recent_use(s.drop_last()), s.last())
    }
}

/// No record is used later than one before it.
pub open spec fn recent_first(s: Seq<RecordV>) -> bool {
    forall|i: int, j: int|
        0 <= i < j < s.len() ==> (#[trigger] s[i]).last_used_day >= (#[trigger] s[j]).last_used_day
}

/// The records a memory keeps when it is saved on `today`: the aged survivors, most recently
/// used first, at most `max_count` of them.
pub open spec fn saved(records: Seq<RecordV>, today: u16, max_count: int) -> Seq<RecordV> {
    let s = by_recent_use(records.filter_map(aged_on(today)));
    if s.len() > max_count {
        s.take(max_count)
    } else {
        s
    }
}

proof fn lemma_insert_at(s: Seq<RecordV>, x: RecordV, j: int)
    requires
        0 <= j <= s.len(),
        j == 0 || s[j - 1].last_used_day >= x.last_used_day,
        forall|k: int| j <= k < s.len() ==> (#[trigger] s[k]).last_used_day < x.last_used_day,
    ensures
        insert_by_use(s, x) == s.take(j).push(x) + s.skip(j),
    decreases s.len(),
{
    if s.len() == 0 {
        assert(s.take(j).push(x) + s.skip(j) =~= seq![x]);
    } else if j == s.len() {
        assert(s.last().last_used_day >= x.last_used_day);
        assert(s.take(j).push(x) + s.skip(j) =~= s.push(x));
    } else {
        let d = s.drop_last();
        assert(s.last() == s[s.len() - 1]);
        assert forall|k: int| j <= k < d.len() implies (#[trigger] d[k]).last_used_day
            < x.last_used_day by {
            assert(d[k] == s[k]);
        }
        if j > 0 {
            assert(d[j - 1] == s[j - 1]);
        }
        lemma_insert_at(d, x, j);
        assert(d.take(j).push(x) + d.skip(j) + seq![s.last()] =~= s.take(j).push(x) + s.skip(j));
        assert(insert_by_use(d, x).push(s.last()) =~= insert_by_use(d, x) + seq![s.last()]);
    }
}

/// Sorts records by most recent use, keeping the order of records used on the same day.
fn sort_by_recent_use(records: Vec<LearningRecord>) -> (out: Vec<LearningRecord>)
    ensures
        records_view(out@) == by_recent_use(records_view(records@)),
        recent_first(records_view(out@)),
{
    let ghost initial = records_view(records@);
    let mut rest = records;
    let mut out: Vec<LearningRecord> = Vec::new();
    let ghost mut taken: int = 0;
    assert(initial.take(0) =~= Seq::<RecordV>::empty());
    while rest.len() > 0
        invariant
            0 <= taken <= initial.len(),
            records_view(rest@) == initial.skip(taken),
            records_view(out@) == by_recent_use(initial.take(taken)),
            recent_first(records_view(out@)),
        decreases rest@.len(),
    {
        assert(records_view(rest@).len() == rest@.len());
        assert(initial.skip(taken)[0] == initial[taken]);
        let ghost remaining = records_view(rest@);
        let x = rest.remove(0);
        assert(x@ == initial[taken]);
        let ghost s = records_view(out@);
        let mut j: usize = out.len();
        while j > 0 && out[j - 1].last_used_day < x.last_used_day
            invariant
                j <= out@.len(),
                s == records_view(out@),
                forall|k: int| j <= k < s.len() ==> (#[trigger] s[k]).last_used_day
                    < x.last_used_day,
            decreases j,
        {
            assert(s[j - 1] == out@[j - 1]@);
            j = j - 1;
        }
        proof {
            if j > 0 {
                assert(s[j - 1] == out@[j - 1]@);
            }
            lemma_insert_at(s, x@, j as int);
            let t = initial.take(taken + 1);
            assert(t.drop_last() =~= initial.take(taken));
            assert(t.last() == initial[taken]);
        }
        out.insert(j, x);
        proof {
            let r = records_view(out@);
            assert(r =~= s.take(j as int).push(initial[taken]) + s.skip(j as int));
            assert forall|a: int, b: int| 0 <= a < b < r.len() implies (#[trigger] r[a]).last_used_day
                >= (#[trigger] r[b]).last_used_day by {
                if b < j {
                    assert(r[a] == s[a] && r[b] == s[b]);
                } else if b == j {
                    assert(r[a] == s[a]);
                    assert(s[j - 1].last_used_day >= x.last_used_day);
                    if a < j - 1 {
                        assert(s[a].last_used_day >= s[j - 1].last_used_day);
                    }
                } else if a == j {
                    assert(r[b] == s[b - 1]);
                } else if a < j {
                    assert(r[a] == s[a] && r[b] == s[b - 1]);
                } else {
                    assert(r[a] == s[a - 1] && r[b] == s[b - 1]);
                }
            }
            assert(records_view(rest@) =~= remaining.skip(1));
            assert(remaining.skip(1) =~= initial.skip(taken + 1));
            taken = taken + 1;
        }
    }
    assert(initial.take(taken) =~= initial);
    out
}

/// Keeps what a save keeps: ages the records to `today`, orders them by most recent use and
/// keeps at most `max_count`.
pub fn prune_for_save(records: &mut Vec<LearningRecord>, today: u16, max_count: usize)
    ensures
        records_view(final(records)@) == saved(records_view(old(records)@), today, max_count as int),
        recent_first(records_view(final(records)@)),
        final(records)@.len() <= max_count,
{
    decay(records, today);
    let mut current: Vec<LearningRecord> = Vec::new();
    std::mem::swap(&mut current, records);
    let mut sorted = sort_by_recent_use(current);
    let ghost s = records_view(sorted@);
    if sorted.len() > max_count {
        sorted.truncate(max_count);
        assert(records_view(sorted@) =~= s.take(max_count as int));
    }
    *records = sorted;
}

/// Every record's entry satisfies `pred`.
pub open spec fn all_entries(s: Seq<RecordV>, pred: spec_fn(EntryV) -> bool) -> bool {
    forall|i: int| 0 <= i < s.len() ==> pred(#[trigger] s[i].entry)
}

proof fn lemma_aged_entries(s: Seq<RecordV>, today: u16, pred: spec_fn(EntryV) -> bool, k: int)
    requires
        0 <= k <= s.len(),
        all_entries(s, pred),
    ensures
        all_entries(s.take(k).filter_map(aged_on(today)), pred),
    decreases k,
{
    if k == 0 {
        assert(s.take(0).filter_map(aged_on(today)) =~= Seq::<RecordV>::empty());
    } else {
        lemma_aged_entries(s, today, pred, k - 1);
        s.lemma_filter_map_take_succ(aged_on(today), k - 1);
        let p = s.take(k - 1).filter_map(aged_on(today));
        let q = s.take(k).filter_map(aged_on(today));
        assert(pred(s[k - 1].entry));
        assert forall|i: int| 0 <= i < q.len() implies pred(#[trigger] q[i].entry) by {
            if i < p.len() {
                assert(q[i] == p[i]);
            }
        }
    }
}

proof fn lemma_insert_entries(s: Seq<RecordV>, x: RecordV, pred: spec_fn(EntryV) -> bool)
    requires
        all_entries(s, pred),
        pred(x.entry),
    ensures
        all_entries(insert_by_use(s, x), pred),
        insert_by_use(s, x).len() == s.len() + 1,
    decreases s.len(),
{
    if s.len() > 0 && s.last().last_used_day < x.last_used_day {
        let d = s.drop_last();
        assert forall|i: int| 0 <= i < d.len() implies pred(#[trigger] d[i].entry) by {
            assert(d[i] == s[i]);
        }
        lemma_insert_entries(d, x, pred);
        let r = insert_by_use(d, x).push(s.last());
        assert forall|i: int| 0 <= i < r.len() implies pred(#[trigger] r[i].entry) by {
            if i < r.len() - 1 {
                assert(r[i] == insert_by_use(d, x)[i]);
            } else {
                assert(s.last() == s[s.len() - 1]);
            }
        }
    } else if s.len() > 0 {
        let r = s.push(x);
        assert forall|i: int| 0 <= i < r.len() implies pred(#[trigger] r[i].entry) by {
            if i < s.len() {
                assert(r[i] == s[i]);
            }
        }
    }
}

proof fn lemma_sorted_entries(s: Seq<RecordV>, pred: spec_fn(EntryV) -> bool)
    requires
        all_entries(s, pred),
    ensures
        all_entries(by_recent_use(s), pred),
    decreases s.len(),
{
    if s.len() > 0 {
        let d = s.drop_last();
        assert forall|i: int| 0 <= i < d.len() implies pred(#[trigger] d[i].entry) by {
            assert(d[i] == s[i]);
        }
        lemma_sorted_entries(d, pred);
        assert(s.last() == s[s.len() - 1]);
        lemma_insert_entries(by_recent_use(d), s.last(), pred);
    }
}

/// What holds of the entry of every record holds of every record a save keeps.
pub proof fn lemma_saved_entries(
    records: Seq<RecordV>,
    today: u16,
    max_count: int,
    pred: spec_fn(EntryV) -> bool,
)
    requires
        0 <= max_count,
        all_entries(records, pred),
    ensures
        all_entries(saved(records, today, max_count), pred),
{
    lemma_aged_entries(records, today, pred, records.len() as int);
    assert(records.take(records.len() as int) == records);
    let a = records.filter_map(aged_on(today));
    lemma_sorted_entries(a, pred);
    let b = by_recent_use(a);
    if b.len() > max_count {
        assert forall|i: int| 0 <= i < b.take(max_count).len() implies pred(
            #[trigger] b.take(max_count)[i].entry,
        ) by {
            assert(b.take(max_count).len() == max_count);
            assert(b.take(max_count)[i] == b[i]);
        }
    }
}

/// The records after learning each entry in turn; an entry that may not be learned is
/// skipped.
pub open spec fn memorized_all(
    records: Seq<RecordV>,
    entries: Seq<EntryV>,
    today: u16,
    ids: Map<Seq<char>, u8>,
) -> Seq<RecordV>
    decreases entries.len(),
{
    if entries.len() == 0 {
        records
    } else {
        let r = memorized_all(records, entries.drop_last(), today, ids);
        if learnable(entries.last(), ids) {
            memorized(r, entries.last(), today)
        } else {
            r
        }
    }
}

/// The records after merging each incoming record in turn.
pub open spec fn merged_all(records: Seq<RecordV>, incoming: Seq<RecordV>) -> Seq<RecordV>
    decreases incoming.len(),
{
    if incoming.len() == 0 {
        records
    } else {
        merged(merged_all(records, incoming.drop_last()), incoming.last())
    }
}

/// Whether the record's entry may be learned.
pub open spec fn learnable_record(ids: Map<Seq<char>, u8>) -> spec_fn(RecordV) -> bool {
    |r: RecordV| learnable(r.entry, ids)
}

/// The records of a learning memory: those persisted, and those learned since the last
/// commit.
pub struct LearningState {
    pub mode: LearningMode,
    pub today: u16,
    pub max_count: usize,
    pub persisted: Vec<LearningRecord>,
    pub temporary: Vec<LearningRecord>,
}

fn retain_learnable(records: &mut Vec<LearningRecord>, character_ids: &CharacterIdMap)
    ensures
        records_view(final(records)@) == records_view(old(records)@).filter(
            learnable_record(character_ids@),
        ),
{
    let ghost initial = records_view(records@);
    let ghost pred = learnable_record(character_ids@);
    let mut kept: Vec<LearningRecord> = Vec::new();
    let ghost mut taken: int = 0;
    assert(records_view(records@) == initial.skip(0));
    assert(records_view(kept@) =~= initial.take(0).filter(pred));
    while records.len() > 0
        invariant
            0 <= taken <= initial.len(),
            records_view(records@) == initial.skip(taken),
            records_view(kept@) == initial.take(taken).filter(pred),
            pred == learnable_record(character_ids@),
        decreases records@.len(),
    {
        assert(records_view(records@).len() == records@.len());
        assert(records@[0]@ == records_view(records@)[0]);
        assert(initial.skip(taken)[0] == initial[taken]);
        let ghost rest = records_view(records@);
        let r = records.remove(0);
        proof {
            assert(initial.take(taken + 1) == initial.take(taken).push(initial[taken]));
            initial.take(taken).lemma_filter_push(initial[taken], pred);
        }
        if valid_learning_entry(&r.entry, character_ids) {
            let ghost before = records_view(kept@);
            kept.push(r);
            assert(records_view(kept@) =~= before.push(initial[taken]));
        }
        assert(records_view(records@) =~= rest.skip(1));
        assert(rest.skip(1) =~= initial.skip(taken + 1));
        proof {
            taken = taken + 1;
        }
    }
    assert(initial.take(taken) =~= initial);
    *records = kept;
}

impl LearningState {
    /// The state of a memory opened on `today` with the records decoded from its files: a
    /// memory that is used keeps the learnable ones, aged to today; one that is not used
    /// keeps none.
    pub fn open(
        mode: LearningMode,
        today: u16,
        max_count: usize,
        decoded: Vec<LearningRecord>,
        character_ids: &CharacterIdMap,
    ) -> (s: Self)
        ensures
            s.mode == mode,
            s.today == today,
            s.max_count == max_count,
            s.temporary@.len() == 0,
            records_view(s.persisted@) == if mode != LearningMode::Nothing {
                records_view(decoded@).filter(learnable_record(character_ids@)).filter_map(
                    aged_on(today),
                )
            } else {
                Seq::<RecordV>::empty()
            },
    {
        let mut persisted = decoded;
        if mode.uses_memory() {
            retain_learnable(&mut persisted, character_ids);
            decay(&mut persisted, today);
        } else {
            persisted = Vec::new();
            assert(records_view(persisted@) =~= Seq::<RecordV>::empty());
        }
        LearningState { mode, today, max_count, persisted, temporary: Vec::new() }
    }

    /// Learns each entry in turn into the temporary records, when the memory records what is
    /// learned.
    pub fn learn(&mut self, entries: &[DictionaryEntry], character_ids: &CharacterIdMap)
        ensures
            final(self).mode == old(self).mode,
            final(self).today == old(self).today,
            final(self).max_count == old(self).max_count,
            final(self).persisted@ == old(self).persisted@,
            old(self).mode == LearningMode::InputAndOutput ==> records_view(final(self).temporary@)
                == memorized_all(
                records_view(old(self).temporary@),
                entry_views(entries@),
                old(self).today,
                character_ids@,
            ),
            old(self).mode != LearningMode::InputAndOutput ==> final(self).temporary@ == old(
                self,
            ).temporary@,
    {
        if !self.mode.updates_memory() {
            return;
        }
        let ghost initial = records_view(self.temporary@);
        let ghost es = entry_views(entries@);
        let mut i: usize = 0;
        while i < entries.len()
            invariant
                i <= entries@.len(),
                es == entry_views(entries@),
                self.mode == old(self).mode,
                self.today == old(self).today,
                self.max_count == old(self).max_count,
                self.persisted@ == old(self).persisted@,
                initial == records_view(old(self).temporary@),
                records_view(self.temporary@) == memorized_all(
                    initial,
                    es.take(i as int),
                    self.today,
                    character_ids@,
                ),
            decreases entries@.len() - i,
        {
            let entry = copy_entry(&entries[i]);
            let today = self.today;
            memorize(&mut self.temporary, entry, today, character_ids);
            proof {
                let t = es.take(i + 1);
                assert(t.drop_last() =~= es.take(i as int));
                assert(t.last() == entries@[i as int]@);
            }
            i = i + 1;
        }
        assert(es.take(i as int) =~= es);
    }

    /// Merges the temporary records into the persisted ones and keeps what a save keeps;
    /// says whether anything had been learned. A memory that does not record changes
    /// nothing.
    pub fn commit(&mut self) -> (changed: bool)
        ensures
            final(self).mode == old(self).mode,
            final(self).today == old(self).today,
            final(self).max_count == old(self).max_count,
            old(self).mode != LearningMode::InputAndOutput ==> {
                &&& !changed
                &&& final(self).persisted@ == old(self).persisted@
                &&& final(self).temporary@ == old(self).temporary@
            },
            old(self).mode == LearningMode::InputAndOutput ==> {
                &&& changed == (old(self).temporary@.len() > 0)
                &&& final(self).temporary@.len() == 0
                &&& records_view(final(self).persisted@) == saved(
                    merged_all(records_view(old(self).persisted@), records_view(old(self).temporary@)),
                    old(self).today,
                    old(self).max_count as int,
                )
            },
    {
        if !self.mode.updates_memory() {
            return false;
        }
        let changed = self.temporary.len() > 0;
        let mut temporary: Vec<LearningRecord> = Vec::new();
        std::mem::swap(&mut temporary, &mut self.temporary);
        let ghost incoming = records_view(temporary@);
        let ghost base = records_view(self.persisted@);
        let ghost mut taken: int = 0;
        assert(incoming.take(0) =~= Seq::<RecordV>::empty());
        while temporary.len() > 0
            invariant
                0 <= taken <= incoming.len(),
                records_view(temporary@) == incoming.skip(taken),
                records_view(self.persisted@) == merged_all(base, incoming.take(taken)),
                self.mode == old(self).mode,
                self.today == old(self).today,
                self.max_count == old(self).max_count,
                self.temporary@.len() == 0,
            decreases temporary@.len(),
        {
            assert(records_view(temporary@).len() == temporary@.len());
            assert(incoming.skip(taken)[0] == incoming[taken]);
            let ghost rest = records_view(temporary@);
            let record = temporary.remove(0);
            assert(record@ == incoming[taken]);
            merge_record(&mut self.persisted, record);
            proof {
                let t = incoming.take(taken + 1);
                assert(t.drop_last() =~= incoming.take(taken));
                assert(t.last() == incoming[taken]);
                assert(records_view(temporary@) =~= rest.skip(1));
                assert(rest.skip(1) =~= incoming.skip(taken + 1));
                taken = taken + 1;
            }
        }
        assert(incoming.take(taken) =~= incoming);
        let today = self.today;
        let max_count = self.max_count;
        prune_for_save(&mut self.persisted, today, max_count);
        changed
    }

    /// Forgets the words of a candidate: temporary records with an entry's reading and word,
    /// and persisted records with an entry's word, then keeps what a save keeps. A memory
    /// that does not record changes nothing.
    pub fn forget(&mut self, entries: &[DictionaryEntry])
        ensures
            final(self).mode == old(self).mode,
            final(self).today == old(self).today,
            final(self).max_count == old(self).max_count,
            old(self).mode != LearningMode::InputAndOutput ==> {
                &&& final(self).persisted@ == old(self).persisted@
                &&& final(self).temporary@ == old(self).temporary@
            },
            old(self).mode == LearningMode::InputAndOutput ==> {
                &&& records_view(final(self).temporary@) == records_view(
                    old(self).temporary@,
                ).filter(keeps_temporary(entry_views(entries@)))
                &&& records_view(final(self).persisted@) == saved(
                    records_view(old(self).persisted@).filter(
                        keeps_persisted(entry_views(entries@)),
                    ),
                    old(self).today,
                    old(self).max_count as int,
                )
                &&& forall|i: int|
                    0 <= i < final(self).persisted@.len() ==> keeps_persisted(entry_views(entries@))(
                        #[trigger] final(self).persisted@[i]@,
                    )
            },
    {
        if !self.mode.updates_memory() {
            return;
        }
        forget_records(&mut self.temporary, &mut self.persisted, entries);
        let ghost kept = records_view(self.persisted@);
        let ghost targets = entry_views(entries@);
        let today = self.today;
        let max_count = self.max_count;
        prune_for_save(&mut self.persisted, today, max_count);
        proof {
            let pred = |e: EntryV|
                !exists|t: int| 0 <= t < targets.len() && (#[trigger] targets[t]).word == e.word;
            kept.filter_lemma(keeps_persisted(targets));
            assert(all_entries(kept, pred)) by {
                assert forall|i: int| 0 <= i < kept.len() implies pred(#[trigger] kept[i].entry) by {
                    assert(keeps_persisted(targets)(kept[i]));
                }
            }
            lemma_saved_entries(kept, today, max_count as int, pred);
            assert forall|i: int| 0 <= i < self.persisted@.len() implies keeps_persisted(targets)(
                #[trigger] self.persisted@[i]@,
            ) by {
                assert(records_view(self.persisted@)[i] == self.persisted@[i]@);
                assert(pred(records_view(self.persisted@)[i].entry));
            }
        }
    }

    /// Forgets every record.
    pub fn reset(&mut self)
        ensures
            final(self).mode == old(self).mode,
            final(self).today == old(self).today,
            final(self).max_count == old(self).max_count,
            final(self).persisted@.len() == 0,
            final(self).temporary@.len() == 0,
    {
        self.persisted = Vec::new();
        self.temporary = Vec::new();
    }
}

/// A copy of an entry.
fn copy_entry(e: &DictionaryEntry) -> (r: DictionaryEntry)
    ensures
        r@ == e@,
{
    DictionaryEntry {
        word: e.word.clone(),
        ruby: e.ruby.clone(),
        left_id: e.left_id,
        right_id: e.right_id,
        meaning_id: e.meaning_id,
        base_value_bits: e.base_value_bits,
        adjustment_bits: e.adjustment_bits,
        metadata: e.metadata,
    }
}

} // verus!
