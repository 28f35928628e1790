//! The binary entry format of the dictionary: blocks of entries that share a reading, and
//! shards that index blocks by slot.
use vstd::prelude::*;

use crate::dictionary::entry::{DictionaryBinaryError, DictionaryEntry, DictionaryMetadata, EntryV};
use crate::text::{lemma_split_nonempty, split_spec};

verus! {

/// The size of an entry header: three identifiers and the value.
pub const ENTRY_HEADER_SIZE: usize = 10;

/// The text that `String::from_utf8_lossy` decodes from bytes.
pub uninterp spec fn spec_utf8_lossy(bytes: Seq<u8>) -> Seq<char>;

/// `String::from_utf8_lossy`, owned. The contract names its result and states nothing more
/// of how invalid sequences are replaced.
#[verifier::external_body]
fn utf8_lossy(bytes: &[u8]) -> (s: String)
    ensures
        s@ == spec_utf8_lossy(bytes@),
{
    String::from_utf8_lossy(bytes).into_owned()
}

/// The little-endian `u16` at `offset`.
pub open spec fn le_u16(b: Seq<u8>, offset: int) -> u16 {
    (b[offset] + 256 * b[offset + 1]) as u16
}

/// The little-endian `u32` at `offset`.
pub open spec fn le_u32(b: Seq<u8>, offset: int) -> u32 {
    (b[offset] + 256 * b[offset + 1] + 65536 * b[offset + 2] + 16777216 * b[offset + 3]) as u32
}

/// The bytes are too few for what is read.
pub open spec fn truncated(context: &'static str, needed: int, available: int) -> DictionaryBinaryError {
    DictionaryBinaryError::Truncated {
        context,
        needed: needed as usize,
        available: available as usize,
    }
}

/// The entries of a block: a count, that many headers (left, right and meaning identifiers
/// and the value's bits), then the tab-separated texts: the shared reading and each word,
/// an empty word standing for the reading.
pub open spec fn parse_block_spec(b: Seq<u8>) -> Result<Seq<EntryV>, DictionaryBinaryError> {
    if b.len() < 2 {
        Err(truncated("entry count", 2, b.len() as int))
    } else {
        let count = le_u16(b, 0) as int;
        let text_offset = 2 + count * 10;
        if b.len() < text_offset {
            Err(truncated("entry headers", text_offset, b.len() as int))
        } else {
            let fields = split_spec(b.skip(text_offset), 9u8);
            if fields.len() < count + 1 {
                Err(
                    DictionaryBinaryError::MissingEntryFields {
                        expected: (count + 1) as usize,
                        found: fields.len() as usize,
                    },
                )
            } else {
                let ruby = spec_utf8_lossy(fields[0]);
                Ok(
                    Seq::new(
                        count as nat,
                        |i: int|
                            EntryV {
                                word: if fields[i + 1].len() == 0 {
                                    ruby
                                } else {
                                    spec_utf8_lossy(fields[i + 1])
                                },
                                ruby,
                                left_id: le_u16(b, 2 + 10 * i),
                                right_id: le_u16(b, 4 + 10 * i),
                                meaning_id: le_u16(b, 6 + 10 * i),
                                base_value_bits: le_u32(b, 8 + 10 * i),
                                adjustment_bits: 0,
                                metadata: 0,
                            },
                    ),
                )
            }
        }
    }
}

/// The entries of slot `index` of a shard with `slot_count` slots.
pub open spec fn slot_spec(b: Seq<u8>, slot_count: int, index: int) -> Result<
    Seq<EntryV>,
    DictionaryBinaryError,
> {
    if index >= slot_count {
        Err(
            DictionaryBinaryError::InvalidShardIndex {
                index: index as usize,
                slot_count: slot_count as usize,
            },
        )
    } else {
        let start = le_u32(b, 2 + 4 * index) as int;
        let end = if index + 1 == slot_count {
            b.len() as int
        } else {
            le_u32(b, 2 + 4 * (index + 1)) as int
        };
        if start > end || end > b.len() {
            Err(
                DictionaryBinaryError::InvalidOffset {
                    start: start as usize,
                    end: end as usize,
                    length: b.len() as usize,
                },
            )
        } else {
            parse_block_spec(b.subrange(start, end))
        }
    }
}

/// The entries of the first `k` requested slots, in order; the first failure stops.
pub open spec fn slots_upto(b: Seq<u8>, slot_count: int, indices: Seq<usize>, k: int) -> Result<
    Seq<EntryV>,
    DictionaryBinaryError,
>
    decreases k,
{
    if k <= 0 {
        Ok(Seq::empty())
    } else {
        match slots_upto(b, slot_count, indices, k - 1) {
            Err(e) => Err(e),
            Ok(acc) => match slot_spec(b, slot_count, indices[k - 1] as int) {
                Err(e) => Err(e),
                Ok(es) => Ok(acc + es),
            },
        }
    }
}

/// The entries of the requested slots of a shard: a slot count, an offset per slot, then
/// the blocks; a slot ends where the next begins, the last at the end of the shard.
pub open spec fn parse_shard_spec(b: Seq<u8>, indices: Seq<usize>) -> Result<
    Seq<EntryV>,
    DictionaryBinaryError,
> {
    if b.len() < 2 {
        Err(truncated("shard slot count", 2, b.len() as int))
    } else {
        let slot_count = le_u16(b, 0) as int;
        if b.len() < 2 + slot_count * 4 {
            Err(truncated("shard offset table", 2 + slot_count * 4, b.len() as int))
        } else {
            slots_upto(b, slot_count, indices, indices.len() as int)
        }
    }
}

proof fn lemma_slots_error_stays(b: Seq<u8>, slot_count: int, indices: Seq<usize>, k: int)
    requires
        0 <= k <= indices.len(),
        slots_upto(b, slot_count, indices, k) is Err,
    ensures
        slots_upto(b, slot_count, indices, indices.len() as int) == slots_upto(
            b,
            slot_count,
            indices,
            k,
        ),
    decreases indices.len() - k,
{
    if k < indices.len() {
        lemma_slots_error_stays(b, slot_count, indices, k + 1);
    }
}

pub open spec fn entries_view(v: Seq<DictionaryEntry>) -> Seq<EntryV> {
    v.map_values(|e: DictionaryEntry| e@)
}

fn require(binary: &[u8], needed: usize, context: &'static str) -> (r: Result<
    (),
    DictionaryBinaryError,
>)
    ensures
        match r {
            Ok(()) => binary@.len() >= needed,
            Err(e) => binary@.len() < needed && e == truncated(
                context,
                needed as int,
                binary@.len() as int,
            ),
        },
{
    if binary.len() < needed {
        Err(DictionaryBinaryError::Truncated { context, needed, available: binary.len() })
    } else {
        Ok(())
    }
}

fn read_u16(binary: &[u8], offset: usize, context: &'static str) -> (r: Result<
    u16,
    DictionaryBinaryError,
>)
    requires
        offset + 2 <= usize::MAX,
    ensures
        match r {
            Ok(v) => binary@.len() >= offset + 2 && v == le_u16(binary@, offset as int),
            Err(e) => binary@.len() < offset + 2 && e == truncated(
                context,
                offset + 2,
                binary@.len() as int,
            ),
        },
{
    match require(binary, offset + 2, context) {
        Err(e) => Err(e),
        Ok(()) => Ok((binary[offset] as u16) + (binary[offset + 1] as u16) * 256),
    }
}

fn read_u32(binary: &[u8], offset: usize, context: &'static str) -> (r: Result<
    u32,
    DictionaryBinaryError,
>)
    requires
        offset + 4 <= usize::MAX,
    ensures
        match r {
            Ok(v) => binary@.len() >= offset + 4 && v == le_u32(binary@, offset as int),
            Err(e) => binary@.len() < offset + 4 && e == truncated(
                context,
                offset + 4,
                binary@.len() as int,
            ),
        },
{
    match require(binary, offset + 4, context) {
        Err(e) => Err(e),
        Ok(()) => Ok(
            (binary[offset] as u32) + (binary[offset + 1] as u32) * 256 + (binary[offset + 2]
                as u32) * 65536 + (binary[offset + 3] as u32) * 16777216,
        ),
    }
}

/// Splits bytes at every `sep`.
fn split_bytes(s: &[u8], sep: u8) -> (out: Vec<Vec<u8>>)
    ensures
        out@.map_values(|v: Vec<u8>| v@) == split_spec(s@, sep),
{
    let mut done: Vec<Vec<u8>> = Vec::new();
    let mut current: Vec<u8> = Vec::new();
    let mut i: usize = 0;
    while i < s.len()
        invariant
            i <= s@.len(),
            done@.map_values(|v: Vec<u8>| v@).push(current@) == split_spec(s@.take(i as int), sep),
        decreases s@.len() - i,
    {
        let ghost prev_done = done@.map_values(|v: Vec<u8>| v@);
        let ghost prev_current = current@;
        assert(s@.take(i + 1).drop_last() == s@.take(i as int));
        if s[i] == sep {
            let finished = current;
            done.push(finished);
            current = Vec::new();
            assert(done@.map_values(|v: Vec<u8>| v@) == prev_done.push(prev_current));
        } else {
            current.push(s[i]);
            assert(done@.map_values(|v: Vec<u8>| v@) == prev_done);
        }
        i = i + 1;
    }
    assert(s@.take(i as int) == s@);
    let ghost prev_done = done@.map_values(|v: Vec<u8>| v@);
    done.push(current);
    assert(done@.map_values(|v: Vec<u8>| v@) == prev_done.push(current@));
    done
}

fn slice_bytes(s: &[u8], from: usize, to: usize) -> (out: Vec<u8>)
    requires
        from <= to <= s@.len(),
    ensures
        out@ == s@.subrange(from as int, to as int),
{
    let mut out: Vec<u8> = Vec::new();
    let mut i: usize = from;
    while i < to
        invariant
            from <= i <= to <= s@.len(),
            out@ == s@.subrange(from as int, i as int),
        decreases to - i,
    {
        out.push(s[i]);
        assert(s@.subrange(from as int, i + 1) == s@.subrange(from as int, i as int).push(
            s@[i as int],
        ));
        i = i + 1;
    }
    out
}

/// Parses a block of entries that share a reading.
pub fn parse_entry_block(binary: &[u8]) -> (r: Result<Vec<DictionaryEntry>, DictionaryBinaryError>)
    ensures
        match r {
            Ok(es) => parse_block_spec(binary@) == Ok::<Seq<EntryV>, DictionaryBinaryError>(
                entries_view(es@),
            ),
            Err(e) => parse_block_spec(binary@) == Err::<Seq<EntryV>, DictionaryBinaryError>(e),
        },
{
    let count = match read_u16(binary, 0, "entry count") {
        Err(e) => {
            return Err(e);
        },
        Ok(c) => c as usize,
    };
    let text_offset = 2 + count * ENTRY_HEADER_SIZE;
    match require(binary, text_offset, "entry headers") {
        Err(e) => {
            return Err(e);
        },
        Ok(()) => {},
    }
    let rest = slice_bytes(binary, text_offset, binary.len());
    assert(rest@ == binary@.skip(text_offset as int));
    let fields = split_bytes(rest.as_slice(), 9u8);
    let ghost fv = fields@.map_values(|v: Vec<u8>| v@);
    proof {
        lemma_split_nonempty(rest@, 9u8);
    }
    if fields.len() < count + 1 {
        return Err(
            DictionaryBinaryError::MissingEntryFields { expected: count + 1, found: fields.len() },
        );
    }
    assert(fv[0] == fields@[0]@);
    let ruby = utf8_lossy(fields[0].as_slice());
    let ghost expected = parse_block_spec(binary@)->Ok_0;
    assert(expected.len() == count);
    let mut entries: Vec<DictionaryEntry> = Vec::new();
    let mut index: usize = 0;
    while index < count
        invariant
            index <= count,
            count == le_u16(binary@, 0) as int,
            text_offset == 2 + count * 10,
            binary@.len() >= text_offset,
            fields@.len() >= count + 1,
            fv == fields@.map_values(|v: Vec<u8>| v@),
            fv == split_spec(binary@.skip(text_offset as int), 9u8),
            ruby@ == spec_utf8_lossy(fv[0]),
            parse_block_spec(binary@) is Ok,
            expected == parse_block_spec(binary@)->Ok_0,
            expected.len() == count,
            entries_view(entries@) == expected.take(index as int),
        decreases count - index,
    {
        let offset = 2 + index * ENTRY_HEADER_SIZE;
        let left_id = (binary[offset] as u16) + (binary[offset + 1] as u16) * 256;
        let right_id = (binary[offset + 2] as u16) + (binary[offset + 3] as u16) * 256;
        let meaning_id = (binary[offset + 4] as u16) + (binary[offset + 5] as u16) * 256;
        let bits = (binary[offset + 6] as u32) + (binary[offset + 7] as u32) * 256 + (binary[offset
            + 8] as u32) * 65536 + (binary[offset + 9] as u32) * 16777216;
        assert(fv[index + 1] == fields@[index + 1]@);
        let word = if fields[index + 1].len() == 0 {
            ruby.clone()
        } else {
            utf8_lossy(fields[index + 1].as_slice())
        };
        let entry = DictionaryEntry {
            word,
            ruby: ruby.clone(),
            left_id,
            right_id,
            meaning_id,
            base_value_bits: bits,
            adjustment_bits: 0,
            metadata: DictionaryMetadata(0),
        };
        assert(expected[index as int] == entry@);
        let ghost before = entries_view(entries@);
        entries.push(entry);
        assert(entries_view(entries@) =~= before.push(expected[index as int]));
        assert(expected.take(index + 1) =~= expected.take(index as int).push(expected[index as int]));
        index = index + 1;
    }
    assert(expected.take(count as int) =~= expected);
    Ok(entries)
}

/// Parses the blocks of the requested slots of a shard, in the order requested.
pub fn parse_entry_shard(binary: &[u8], indices: &[usize]) -> (r: Result<
    Vec<DictionaryEntry>,
    DictionaryBinaryError,
>)
    ensures
        match r {
            Ok(es) => parse_shard_spec(binary@, indices@) == Ok::<
                Seq<EntryV>,
                DictionaryBinaryError,
            >(entries_view(es@)),
            Err(e) => parse_shard_spec(binary@, indices@) == Err::<
                Seq<EntryV>,
                DictionaryBinaryError,
            >(e),
        },
{
    let slot_count = match read_u16(binary, 0, "shard slot count") {
        Err(e) => {
            return Err(e);
        },
        Ok(c) => c as usize,
    };
    match require(binary, 2 + slot_count * 4, "shard offset table") {
        Err(e) => {
            return Err(e);
        },
        Ok(()) => {},
    }
    let mut output: Vec<DictionaryEntry> = Vec::new();
    let mut k: usize = 0;
    assert(entries_view(output@) =~= Seq::<EntryV>::empty());
    while k < indices.len()
        invariant
            k <= indices@.len(),
            binary@.len() >= 2,
            slot_count == le_u16(binary@, 0) as int,
            binary@.len() >= 2 + slot_count * 4,
            slots_upto(binary@, slot_count as int, indices@, k as int) == Ok::<
                Seq<EntryV>,
                DictionaryBinaryError,
            >(entries_view(output@)),
        decreases indices@.len() - k,
    {
        let index = indices[k];
        if index >= slot_count {
            proof {
                lemma_slots_error_stays(binary@, slot_count as int, indices@, k as int + 1);
            }
            return Err(DictionaryBinaryError::InvalidShardIndex { index, slot_count });
        }
        let at = 2 + index * 4;
        let start = ((binary[at] as u32) + (binary[at + 1] as u32) * 256 + (binary[at + 2] as u32)
            * 65536 + (binary[at + 3] as u32) * 16777216) as usize;
        let end = if index + 1 == slot_count {
            binary.len()
        } else {
            let next = at + 4;
            ((binary[next] as u32) + (binary[next + 1] as u32) * 256 + (binary[next + 2] as u32)
                * 65536 + (binary[next + 3] as u32) * 16777216) as usize
        };
        if start > end || end > binary.len() {
            proof {
                lemma_slots_error_stays(binary@, slot_count as int, indices@, k as int + 1);
            }
            return Err(DictionaryBinaryError::InvalidOffset { start, end, length: binary.len() });
        }
        let block = slice_bytes(binary, start, end);
        match parse_entry_block(block.as_slice()) {
            Err(e) => {
                proof {
                    lemma_slots_error_stays(binary@, slot_count as int, indices@, k as int + 1);
                }
                return Err(e);
            },
            Ok(es) => {
                let ghost before = entries_view(output@);
                let mut more = es;
                output.append(&mut more);
                assert(entries_view(output@) =~= before + entries_view(es@));
            },
        }
        k = k + 1;
    }
    Ok(output)
}


/// The number of connection classes that a cost line covers.
pub const CONNECTION_COUNT: usize = 1319;

/// The number of meaning classes; the matrix holds a cost for each ordered pair.
pub const MEANING_COUNT: usize = 502;

/// The meaning class of the beginning and the end of a sentence, whose cost is always zero.
pub const BOUNDARY_MEANING: usize = 500;

/// The little-endian `i32` at `offset`.
pub open spec fn le_i32(b: Seq<u8>, offset: int) -> i32 {
    le_u32(b, offset) as i32
}

/// The line after the first `k` records of `b`: the first record holds the default cost for
/// every class, each later one an identifier and the cost that replaces its default.
pub open spec fn connection_records(b: Seq<u8>, k: int) -> Result<Seq<u32>, DictionaryBinaryError>
    decreases k,
{
    if k <= 1 {
        Ok(Seq::new(CONNECTION_COUNT as nat, |i: int| le_u32(b, 4)))
    } else {
        match connection_records(b, k - 1) {
            Err(e) => Err(e),
            Ok(line) => {
                let id = le_i32(b, 8 * (k - 1));
                if id < 0 || id >= CONNECTION_COUNT {
                    Err(DictionaryBinaryError::InvalidConnectionId(id))
                } else {
                    Ok(line.update(id as int, le_u32(b, 8 * (k - 1) + 4)))
                }
            },
        }
    }
}

proof fn lemma_connection_records(b: Seq<u8>, k: int, n: int)
    requires
        1 <= k <= n,
    ensures
        connection_records(b, k) is Err ==> connection_records(b, n) == connection_records(b, k),
        connection_records(b, k) matches Ok(line) ==> line.len() == CONNECTION_COUNT,
    decreases n - k,
{
    if k < n {
        lemma_connection_records(b, k + 1, n);
    }
    lemma_connection_line_length(b, k);
}

proof fn lemma_connection_line_length(b: Seq<u8>, k: int)
    ensures
        connection_records(b, k) matches Ok(line) ==> line.len() == CONNECTION_COUNT,
    decreases k,
{
    if k > 1 {
        lemma_connection_line_length(b, k - 1);
    }
}

/// The connection costs of one class, as `f32` bits, from its sparse binary line.
pub open spec fn connection_line_spec(b: Seq<u8>) -> Result<Seq<u32>, DictionaryBinaryError> {
    if b.len() < 8 {
        Err(truncated("connection cost default record", 8, b.len() as int))
    } else if b.len() % 8 != 0 {
        Err(truncated("connection cost record", (b.len() / 8 + 1) * 8 as int, b.len() as int))
    } else if le_i32(b, 0) != -1 {
        Err(DictionaryBinaryError::InvalidConnectionId(le_i32(b, 0)))
    } else {
        connection_records(b, (b.len() / 8) as int)
    }
}

/// Parses a line of connection costs: eight-byte records of an `i32` identifier and an
/// `f32` cost, the first with identifier -1 and the default cost. The costs are returned as
/// their bits.
pub fn parse_connection_cost_line(binary: &[u8]) -> (r: Result<Vec<u32>, DictionaryBinaryError>)
    requires
        binary@.len() + 8 <= usize::MAX,
    ensures
        match r {
            Ok(line) => connection_line_spec(binary@) == Ok::<Seq<u32>, DictionaryBinaryError>(
                line@,
            ),
            Err(e) => connection_line_spec(binary@) == Err::<Seq<u32>, DictionaryBinaryError>(e),
        },
{
    match require(binary, 8, "connection cost default record") {
        Err(e) => return Err(e),
        Ok(()) => {},
    }
    if binary.len() % 8 != 0 {
        return Err(
            DictionaryBinaryError::Truncated {
                context: "connection cost record",
                needed: (binary.len() / 8 + 1) * 8,
                available: binary.len(),
            },
        );
    }
    let default_id = match read_u32(binary, 0, "connection cost default record") {
        Ok(v) => v as i32,
        Err(e) => return Err(e),
    };
    if default_id != -1 {
        return Err(DictionaryBinaryError::InvalidConnectionId(default_id));
    }
    let default_value = match read_u32(binary, 4, "connection cost default record") {
        Ok(v) => v,
        Err(e) => return Err(e),
    };
    let mut line: Vec<u32> = Vec::new();
    let mut i: usize = 0;
    while i < CONNECTION_COUNT
        invariant
            i <= CONNECTION_COUNT,
            default_value == le_u32(binary@, 4),
            line@ == Seq::new(i as nat, |j: int| le_u32(binary@, 4)),
        decreases CONNECTION_COUNT - i,
    {
        line.push(default_value);
        i = i + 1;
    }
    assert(line@ =~= Seq::new(CONNECTION_COUNT as nat, |j: int| le_u32(binary@, 4)));
    let count = binary.len() / 8;
    let mut k: usize = 1;
    while k < count
        invariant
            1 <= k <= count,
            count == binary@.len() / 8,
            binary@.len() + 8 <= usize::MAX,
            connection_records(binary@, k as int) == Ok::<Seq<u32>, DictionaryBinaryError>(line@),
            line@.len() == CONNECTION_COUNT,
            binary@.len() >= 8,
            binary@.len() % 8 == 0,
            le_i32(binary@, 0) == -1,
        decreases count - k,
    {
        assert(8 * k + 8 <= binary@.len()) by (nonlinear_arith)
            requires
                k < count,
                count == binary@.len() / 8,
        ;
        proof {
            lemma_connection_records(binary@, k + 1, count as int);
        }
        let id = match read_u32(binary, 8 * k, "connection cost record") {
            Ok(v) => v as i32,
            Err(e) => return Err(e),
        };
        if id < 0 || id as usize >= CONNECTION_COUNT {
            return Err(DictionaryBinaryError::InvalidConnectionId(id));
        }
        let value = match read_u32(binary, 8 * k + 4, "connection cost record") {
            Ok(v) => v,
            Err(e) => return Err(e),
        };
        line.set(id as usize, value);
        k = k + 1;
    }
    Ok(line)
}

/// The cost of each ordered pair of meaning classes, as `f32` bits, row by row.
#[derive(Clone, Debug)]
pub struct MeaningMatrix {
    values: Vec<u32>,
}

/// The little-endian `u32` values of the whole four-byte groups of `b`.
pub open spec fn le_u32_values(b: Seq<u8>) -> Seq<u32> {
    Seq::new((b.len() / 4) as nat, |i: int| le_u32(b, 4 * i))
}

impl View for MeaningMatrix {
    type V = Seq<u32>;

    closed spec fn view(&self) -> Seq<u32> {
        self.values@
    }
}

impl MeaningMatrix {
    /// Reads the costs, as `f32` bits; the bytes must be whole four-byte values, at least one
    /// for each ordered pair of classes.
    pub fn parse(binary: &[u8]) -> (r: Result<Self, DictionaryBinaryError>)
        ensures
            match r {
                Ok(m) => binary@.len() % 4 == 0 && binary@.len() / 4 >= MEANING_COUNT
                    * MEANING_COUNT && m@ == le_u32_values(binary@),
                Err(e) => (binary@.len() % 4 != 0 || binary@.len() / 4 < MEANING_COUNT
                    * MEANING_COUNT) && e == DictionaryBinaryError::InvalidMeaningMatrixLength {
                    expected: (MEANING_COUNT * MEANING_COUNT) as usize,
                    found: (binary@.len() / 4) as usize,
                },
            },
    {
        let n = binary.len();
        let count = n / 4;
        let mut values: Vec<u32> = Vec::new();
        let mut i: usize = 0;
        while i < count
            invariant
                i <= count,
                n == binary@.len(),
                count == n / 4,
                values@ == le_u32_values(binary@).take(i as int),
            decreases count - i,
        {
            assert(4 * i + 4 <= n) by (nonlinear_arith)
                requires
                    i < count,
                    count == n / 4,
            ;
            let v = match read_u32(binary, 4 * i, "meaning cost") {
                Ok(v) => v,
                Err(_) => {
                    assert(false);
                    0
                },
            };
            values.push(v);
            assert(values@ =~= le_u32_values(binary@).take(i + 1));
            i = i + 1;
        }
        assert(values@ =~= le_u32_values(binary@));
        let expected = MEANING_COUNT * MEANING_COUNT;
        if binary.len() % 4 != 0 || count < expected {
            return Err(DictionaryBinaryError::InvalidMeaningMatrixLength { expected, found: count });
        }
        Ok(MeaningMatrix { values })
    }

    /// The cost, as `f32` bits, of class `former` followed by class `latter`: zero when either
    /// is the sentence boundary, `None` beyond the matrix.
    pub fn get(&self, former: usize, latter: usize) -> (r: Option<u32>)
        requires
            former * MEANING_COUNT + latter <= usize::MAX,
        ensures
            r == if former == BOUNDARY_MEANING || latter == BOUNDARY_MEANING {
                Some(0u32)
            } else if former * MEANING_COUNT + latter < self@.len() {
                Some(self@[former * MEANING_COUNT + latter])
            } else {
                None::<u32>
            },
    {
        if former == BOUNDARY_MEANING || latter == BOUNDARY_MEANING {
            return Some(0);
        }
        let index = former * MEANING_COUNT + latter;
        if index < self.values.len() {
            Some(self.values[index])
        } else {
            None
        }
    }
}


/// Each entry of a parsed block carries the numbers of its header: its left, right and
/// meaning classes are the little-endian pairs of bytes at `2 + 10i`, `4 + 10i` and
/// `6 + 10i`, and its value's bits the little-endian four bytes at `8 + 10i`.
pub proof fn lemma_block_headers(b: Seq<u8>)
    ensures
        parse_block_spec(b) matches Ok(es) ==> forall|i: int|
            0 <= i < es.len() ==> {
                &&& (#[trigger] es[i]).left_id as int == b[2 + 10 * i] as int + 256 * b[3 + 10
                    * i] as int
                &&& es[i].right_id as int == b[4 + 10 * i] as int + 256 * b[5 + 10 * i] as int
                &&& es[i].meaning_id as int == b[6 + 10 * i] as int + 256 * b[7 + 10 * i] as int
                &&& es[i].base_value_bits as int == b[8 + 10 * i] as int + 256 * b[9 + 10 * i] as int
                    + 65536 * b[10 + 10 * i] as int + 16777216 * b[11 + 10 * i] as int
            },
{
}


/// The little-endian four-byte number at `o`.
pub open spec fn bytes_at(b: Seq<u8>, o: int) -> int {
    b[o] as int + 256 * b[o + 1] as int + 65536 * b[o + 2] as int + 16777216 * b[o + 3] as int
}

/// The identifier of connection record `k`.
pub open spec fn record_id(b: Seq<u8>, k: int) -> int {
    bytes_at(b, 8 * k)
}

/// The cost bits of connection record `k`.
pub open spec fn record_cost(b: Seq<u8>, k: int) -> int {
    bytes_at(b, 8 * k + 4)
}

proof fn lemma_le_u32_value(b: Seq<u8>, o: int)
    ensures
        le_u32(b, o) as int == bytes_at(b, o),
{
    let x = bytes_at(b, o);
    assert(0 <= x < 0x1_0000_0000) by {
        assert(0 <= b[o] <= 255 && 0 <= b[o + 1] <= 255 && 0 <= b[o + 2] <= 255 && 0 <= b[o + 3]
            <= 255);
    }
}

proof fn lemma_signed_identifier(v: u32)
    ensures
        (v as i32) >= 0 ==> (v as i32) as int == v as int,
{
    assert((v as i32) >= 0 ==> (v as i32) as u32 == v) by (bit_vector);
}

/// Whether, after record `k`, no record among the first `m` names the same class.
pub open spec fn last_naming(b: Seq<u8>, k: int, m: int) -> bool {
    forall|j: int| k < j < m ==> #[trigger] record_id(b, j) != record_id(b, k)
}

/// Whether no record from the second to the `m`-th names class `c`.
pub open spec fn unnamed(b: Seq<u8>, c: int, m: int) -> bool {
    forall|k: int| 1 <= k < m ==> #[trigger] record_id(b, k) != c
}

proof fn lemma_connection_records_costs(b: Seq<u8>, m: int)
    requires
        1 <= m,
        8 * m <= b.len(),
        connection_records(b, m) is Ok,
    ensures
        connection_records(b, m)->Ok_0.len() == CONNECTION_COUNT,
        forall|k: int|
            1 <= k < m && #[trigger] last_naming(b, k, m) ==> record_id(b, k) < CONNECTION_COUNT
                && connection_records(b, m)->Ok_0[record_id(b, k)] as int == record_cost(b, k),
        forall|c: int|
            0 <= c < CONNECTION_COUNT && #[trigger] unnamed(b, c, m) ==> connection_records(
                b,
                m,
            )->Ok_0[c] as int == bytes_at(b, 4),
    decreases m,
{
    lemma_le_u32_value(b, 4);
    if m > 1 {
        let k0 = m - 1;
        assert(connection_records(b, m - 1) is Ok);
        lemma_connection_records_costs(b, m - 1);
        let v = le_u32(b, 8 * k0);
        lemma_signed_identifier(v);
        lemma_le_u32_value(b, 8 * k0);
        lemma_le_u32_value(b, 8 * k0 + 4);
        let line = connection_records(b, m)->Ok_0;
        let p = connection_records(b, m - 1)->Ok_0;
        let id = le_i32(b, 8 * k0);
        assert(id as int == record_id(b, k0));
        assert(line == p.update(id as int, le_u32(b, 8 * k0 + 4)));
        assert forall|k: int| 1 <= k < m && #[trigger] last_naming(b, k, m) implies record_id(b, k)
            < CONNECTION_COUNT && line[record_id(b, k)] as int == record_cost(b, k) by {
            if k < k0 {
                assert(record_id(b, k0) != record_id(b, k));
                assert(last_naming(b, k, m - 1));
            }
        }
        assert forall|c: int| 0 <= c < CONNECTION_COUNT && #[trigger] unnamed(b, c, m) implies line[c]
            as int == bytes_at(b, 4) by {
            assert(record_id(b, k0) != c);
            assert(unnamed(b, c, m - 1));
        }
    }
}

/// A parsed connection line holds, for each class, the cost of the last record naming it, or
/// the default cost of the first record when no record names it: records are eight bytes,
/// the little-endian identifier then the cost's bits.
pub proof fn lemma_connection_line_costs(b: Seq<u8>)
    ensures
        connection_line_spec(b) matches Ok(line) ==> {
            &&& line.len() == CONNECTION_COUNT
            &&& forall|k: int|
                1 <= k < b.len() / 8 && #[trigger] last_naming(b, k, (b.len() / 8) as int) ==> record_id(
                    b,
                    k,
                ) < CONNECTION_COUNT && line[record_id(b, k)] as int == record_cost(b, k)
            &&& forall|c: int|
                0 <= c < CONNECTION_COUNT && #[trigger] unnamed(b, c, (b.len() / 8) as int) ==> line[c] as int
                    == bytes_at(b, 4)
        },
{
    if connection_line_spec(b) is Ok {
        let n = b.len() as int;
        assert(8 * (n / 8) <= n && n / 8 >= 1) by (nonlinear_arith)
            requires
                n >= 8,
        ;
        lemma_connection_records_costs(b, n / 8);
    }
}

} // verus!
