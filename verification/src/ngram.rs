//! The byte encoding of n-gram keys and counts in the n-gram tries.
use vstd::prelude::*;

verus! {

/// Number of tokens of the n-gram vocabulary.
pub const VOCABULARY_SIZE: usize = 6000;

/// Radix of the encoded digits; each digit is stored plus one, so no byte is zero.
pub const ENCODING_RADIX: usize = 126;

/// What is wrong with an encoded trie entry.
#[derive(Clone, Copy, Debug, Eq, PartialEq)]
pub enum NGramError {
    InvalidTrieEntry,
    CountOverflow,
}

/// The two bytes of a token: its quotient and remainder by the radix, each plus one.
pub open spec fn token_bytes(token: int) -> Seq<u8> {
    seq![(token / 126 + 1) as u8, (token % 126 + 1) as u8]
}

/// The encoding of a key, or `None` if a token is outside the vocabulary.
pub open spec fn encode_key_spec(key: Seq<usize>) -> Option<Seq<u8>>
    decreases key.len(),
{
    if key.len() == 0 {
        Some(Seq::empty())
    } else {
        match encode_key_spec(key.drop_last()) {
            None => None,
            Some(prefix) => if key.last() >= 6000 {
                None
            } else {
                Some(prefix + token_bytes(key.last() as int))
            },
        }
    }
}

/// Encodes the tokens of a key as two bytes each.
pub fn encode_key(key: &[usize]) -> (r: Result<Vec<u8>, NGramError>)
    ensures
        match r {
            Ok(bytes) => encode_key_spec(key@) == Some(bytes@),
            Err(e) => encode_key_spec(key@) is None && e == NGramError::InvalidTrieEntry,
        },
{
    let mut output: Vec<u8> = Vec::new();
    let mut i: usize = 0;
    while i < key.len()
        invariant
            i <= key@.len(),
            encode_key_spec(key@.take(i as int)) == Some(output@),
        decreases key@.len() - i,
    {
        assert(key@.take(i + 1).drop_last() == key@.take(i as int));
        assert(key@.take(i + 1).last() == key@[i as int]);
        let token = key[i];
        if token >= VOCABULARY_SIZE {
            proof {
                lemma_encode_none_prefix(key@, i + 1);
            }
            return Err(NGramError::InvalidTrieEntry);
        }
        output.push((token / ENCODING_RADIX + 1) as u8);
        output.push((token % ENCODING_RADIX + 1) as u8);
        i = i + 1;
    }
    assert(key@.take(i as int) == key@);
    Ok(output)
}

proof fn lemma_encode_none_prefix(key: Seq<usize>, n: int)
    requires
        0 <= n <= key.len(),
        encode_key_spec(key.take(n)) is None,
    ensures
        encode_key_spec(key) is None,
    decreases key.len() - n,
{
    if n < key.len() {
        assert(key.take(n + 1).drop_last() == key.take(n));
        lemma_encode_none_prefix(key, n + 1);
    } else {
        assert(key.take(n) == key);
    }
}

/// The token of two encoded bytes, or `None` if a byte is zero or the token is outside the
/// vocabulary.
pub open spec fn decode_token_spec(high: u8, low: u8) -> Option<int> {
    if high == 0 || low == 0 {
        None
    } else {
        let token = (high - 1) * 126 + (low - 1);
        if token < 6000 {
            Some(token)
        } else {
            None
        }
    }
}

/// Decodes the two bytes of a token.
pub fn decode_token(high: u8, low: u8) -> (r: Result<usize, NGramError>)
    ensures
        match r {
            Ok(t) => decode_token_spec(high, low) == Some(t as int),
            Err(e) => decode_token_spec(high, low) is None && e == NGramError::InvalidTrieEntry,
        },
{
    if high == 0 || low == 0 {
        return Err(NGramError::InvalidTrieEntry);
    }
    let token = ((high - 1) as usize) * ENCODING_RADIX + ((low - 1) as usize);
    if token < VOCABULARY_SIZE {
        Ok(token)
    } else {
        Err(NGramError::InvalidTrieEntry)
    }
}

/// The count of the first `k` encoded digits: base-126 digits, each stored plus one,
/// most significant first; a zero byte is invalid and a count above `u32::MAX` overflows.
pub open spec fn decode_value_upto(value: Seq<u8>, k: int) -> Result<int, NGramError>
    decreases k,
{
    if k <= 0 {
        Ok(0)
    } else {
        match decode_value_upto(value, k - 1) {
            Err(e) => Err(e),
            Ok(acc) => if value[k - 1] == 0 {
                Err(NGramError::InvalidTrieEntry)
            } else if acc * 126 + (value[k - 1] - 1) > u32::MAX {
                Err(NGramError::CountOverflow)
            } else {
                Ok(acc * 126 + (value[k - 1] - 1))
            },
        }
    }
}

/// The count of an encoded value: its first five digits; shorter values are invalid.
pub open spec fn decode_value_spec(value: Seq<u8>) -> Result<int, NGramError> {
    if value.len() < 5 {
        Err(NGramError::InvalidTrieEntry)
    } else {
        decode_value_upto(value, 5)
    }
}

proof fn lemma_decode_err_prefix(value: Seq<u8>, k: int, m: int)
    requires
        1 <= k <= m,
        decode_value_upto(value, k) is Err,
    ensures
        decode_value_upto(value, m) == decode_value_upto(value, k),
    decreases m - k,
{
    if k < m {
        lemma_decode_err_prefix(value, k + 1, m);
    }
}

/// Decodes a count stored as five base-126 digits.
pub fn decode_value(value: &[u8]) -> (r: Result<u32, NGramError>)
    ensures
        match r {
            Ok(v) => decode_value_spec(value@) == Ok::<int, NGramError>(v as int),
            Err(e) => decode_value_spec(value@) == Err::<int, NGramError>(e),
        },
{
    if value.len() < 5 {
        return Err(NGramError::InvalidTrieEntry);
    }
    let mut decoded: u32 = 0;
    let mut k: usize = 0;
    while k < 5
        invariant
            k <= 5,
            value@.len() >= 5,
            decode_value_upto(value@, k as int) == Ok::<int, NGramError>(decoded as int),
        decreases 5 - k,
    {
        let byte = value[k];
        if byte == 0 {
            proof {
                lemma_decode_err_prefix(value@, k + 1, 5);
            }
            return Err(NGramError::InvalidTrieEntry);
        }
        let digit = (byte - 1) as u32;
        let next = match decoded.checked_mul(126) {
            Some(x) => x.checked_add(digit),
            None => None,
        };
        match next {
            Some(v) => {
                decoded = v;
            },
            None => {
                proof {
                    assert(decoded * 126 + digit > u32::MAX) by (nonlinear_arith)
                        requires
                            decoded * 126 > u32::MAX || decoded * 126 + digit > u32::MAX,
                            digit >= 0,
                    ;
                    lemma_decode_err_prefix(value@, k + 1, 5);
                }
                return Err(NGramError::CountOverflow);
            },
        }
        k = k + 1;
    }
    Ok(decoded)
}

/// Decoding the encoding of a token gives the token back.
pub proof fn lemma_token_round_trip(token: int)
    requires
        0 <= token < 6000,
    ensures
        decode_token_spec(token_bytes(token)[0], token_bytes(token)[1]) == Some(token),
{
    let high = token / 126;
    let low = token % 126;
    assert(0 <= high <= 47 && 0 <= low < 126) by (nonlinear_arith)
        requires
            0 <= token < 6000,
            high == token / 126,
            low == token % 126,
    ;
    assert(high * 126 + low == token) by (nonlinear_arith)
        requires
            high == token / 126,
            low == token % 126,
    ;
}


/// The byte that ends a key before its value in the trie.
pub const KEY_VALUE_DELIMITER: u8 = 128;

/// The byte that ends a context before its predicted tokens in the trie.
pub const PREDICTIVE_DELIMITER: u8 = 129;

/// The query for the value of a key: its encoding and the key-value delimiter.
pub fn value_query(key: &[usize]) -> (r: Result<Vec<u8>, NGramError>)
    ensures
        match r {
            Ok(q) => encode_key_spec(key@) matches Some(k) && q@ == k.push(KEY_VALUE_DELIMITER),
            Err(e) => encode_key_spec(key@) is None && e == NGramError::InvalidTrieEntry,
        },
{
    let mut query = encode_key(key)?;
    query.push(KEY_VALUE_DELIMITER);
    Ok(query)
}

/// The query for the continuations of a context: its encoding and the predictive delimiter.
pub fn predictive_query(prefix: &[usize]) -> (r: Result<Vec<u8>, NGramError>)
    ensures
        match r {
            Ok(q) => encode_key_spec(prefix@) matches Some(k) && q@ == k.push(PREDICTIVE_DELIMITER),
            Err(e) => encode_key_spec(prefix@) is None && e == NGramError::InvalidTrieEntry,
        },
{
    let mut query = encode_key(prefix)?;
    query.push(PREDICTIVE_DELIMITER);
    Ok(query)
}

pub open spec fn entries_bytes(v: Seq<Vec<u8>>) -> Seq<Seq<u8>> {
    v.map_values(|e: Vec<u8>| e@)
}

/// The value of the first entry a value query found, after the query; none if none was
/// found.
pub open spec fn value_spec(entries: Seq<Seq<u8>>, query_len: int) -> Result<Option<int>, NGramError> {
    if entries.len() == 0 {
        Ok(None)
    } else {
        let suffix = if query_len <= entries[0].len() {
            entries[0].skip(query_len)
        } else {
            Seq::empty()
        };
        match decode_value_spec(suffix) {
            Ok(v) => Ok(Some(v)),
            Err(e) => Err(e),
        }
    }
}

/// The value of the first entry a value query found.
pub fn value_from_entries(entries: &Vec<Vec<u8>>, query_len: usize) -> (r: Result<
    Option<u32>,
    NGramError,
>)
    ensures
        match r {
            Ok(Some(v)) => value_spec(entries_bytes(entries@), query_len as int) == Ok::<
                Option<int>,
                NGramError,
            >(Some(v as int)),
            Ok(None) => value_spec(entries_bytes(entries@), query_len as int) == Ok::<
                Option<int>,
                NGramError,
            >(None),
            Err(e) => value_spec(entries_bytes(entries@), query_len as int) == Err::<
                Option<int>,
                NGramError,
            >(e),
        },
{
    if entries.len() == 0 {
        return Ok(None);
    }
    let first = &entries[0];
    assert(entries_bytes(entries@)[0] == first@);
    let suffix: Vec<u8> = if query_len <= first.len() {
        let mut out: Vec<u8> = Vec::new();
        let mut i = query_len;
        while i < first.len()
            invariant
                query_len <= i <= first@.len(),
                out@ == first@.subrange(query_len as int, i as int),
            decreases first@.len() - i,
        {
            out.push(first[i]);
            assert(first@.subrange(query_len as int, i + 1) =~= first@.subrange(query_len as int, i as int).push(first@[i as int]));
            i = i + 1;
        }
        assert(out@ =~= first@.skip(query_len as int));
        out
    } else {
        Vec::new()
    };
    match decode_value(suffix.as_slice()) {
        Ok(v) => Ok(Some(v)),
        Err(e) => Err(e),
    }
}

/// The counts of the tokens that the entries of a predictive query continue with, and their
/// sum, after the first `k` entries; an entry shorter than the query is refused, one whose
/// rest is not a token, the delimiter and a value is skipped.
pub open spec fn bulk_upto(entries: Seq<Seq<u8>>, query_len: int, k: int) -> Result<
    (Seq<u32>, int),
    NGramError,
>
    decreases k,
{
    if k <= 0 {
        Ok((Seq::new(6000, |i: int| 0u32), 0))
    } else {
        match bulk_upto(entries, query_len, k - 1) {
            Err(e) => Err(e),
            Ok((values, sum)) => {
                let entry = entries[k - 1];
                if query_len > entry.len() {
                    Err(NGramError::InvalidTrieEntry)
                } else {
                    let s = entry.skip(query_len);
                    if s.len() < 8 || s[2] != KEY_VALUE_DELIMITER {
                        Ok((values, sum))
                    } else {
                        match decode_token_spec(s[0], s[1]) {
                            None => Err(NGramError::InvalidTrieEntry),
                            Some(t) => match decode_value_spec(s.skip(3)) {
                                Err(e) => Err(e),
                                Ok(v) => if sum + v > u32::MAX {
                                    Err(NGramError::CountOverflow)
                                } else {
                                    Ok((values.update(t, v as u32), sum + v))
                                },
                            },
                        }
                    }
                }
            },
        }
    }
}

proof fn lemma_bulk_error_stays(entries: Seq<Seq<u8>>, query_len: int, k: int)
    requires
        0 <= k <= entries.len(),
        bulk_upto(entries, query_len, k) is Err,
    ensures
        bulk_upto(entries, query_len, entries.len() as int) == bulk_upto(entries, query_len, k),
    decreases entries.len() - k,
{
    if k < entries.len() {
        lemma_bulk_error_stays(entries, query_len, k + 1);
    }
}

/// The counts of the tokens that the entries of a predictive query continue with, and their
/// sum.
pub fn bulk_from_entries(entries: &Vec<Vec<u8>>, query_len: usize) -> (r: Result<
    (Vec<u32>, u32),
    NGramError,
>)
    ensures
        match r {
            Ok((values, sum)) => bulk_upto(
                entries_bytes(entries@),
                query_len as int,
                entries@.len() as int,
            ) == Ok::<(Seq<u32>, int), NGramError>((values@, sum as int)),
            Err(e) => bulk_upto(entries_bytes(entries@), query_len as int, entries@.len() as int)
                == Err::<(Seq<u32>, int), NGramError>(e),
        },
{
    let ghost ev = entries_bytes(entries@);
    let mut values: Vec<u32> = Vec::new();
    let mut z: usize = 0;
    while z < VOCABULARY_SIZE
        invariant
            z <= 6000,
            values@ == Seq::new(z as nat, |i: int| 0u32),
        decreases 6000 - z,
    {
        values.push(0);
        assert(values@ =~= Seq::new((z + 1) as nat, |i: int| 0u32));
        z = z + 1;
    }
    let mut sum: u32 = 0;
    let mut k: usize = 0;
    while k < entries.len()
        invariant
            k <= entries@.len(),
            ev == entries_bytes(entries@),
            values@.len() == 6000,
            bulk_upto(ev, query_len as int, k as int) == Ok::<(Seq<u32>, int), NGramError>(
                (values@, sum as int),
            ),
        decreases entries@.len() - k,
    {
        let entry = &entries[k];
        assert(ev[k as int] == entry@);
        if query_len > entry.len() {
            proof {
                lemma_bulk_error_stays(ev, query_len as int, k + 1);
            }
            return Err(NGramError::InvalidTrieEntry);
        }
        let n = entry.len() - query_len;
        let ghost s = entry@.skip(query_len as int);
        if n >= 8 && entry[query_len + 2] == KEY_VALUE_DELIMITER {
            assert(s[2] == entry@[query_len + 2]);
            let token = match decode_token(entry[query_len], entry[query_len + 1]) {
                Ok(t) => t,
                Err(e) => {
                    proof {
                        lemma_bulk_error_stays(ev, query_len as int, k + 1);
                    }
                    return Err(e);
                },
            };
            let mut rest: Vec<u8> = Vec::new();
            let mut i = query_len + 3;
            while i < entry.len()
                invariant
                    query_len + 3 <= i <= entry@.len(),
                    rest@ == entry@.subrange(query_len + 3, i as int),
                decreases entry@.len() - i,
            {
                rest.push(entry[i]);
                assert(entry@.subrange(query_len + 3, i + 1) =~= entry@.subrange(query_len + 3, i as int).push(entry@[i as int]));
                i = i + 1;
            }
            assert(rest@ =~= s.skip(3));
            let value = match decode_value(rest.as_slice()) {
                Ok(v) => v,
                Err(e) => {
                    proof {
                        lemma_bulk_error_stays(ev, query_len as int, k + 1);
                    }
                    return Err(e);
                },
            };
            match sum.checked_add(value) {
                None => {
                    proof {
                        lemma_bulk_error_stays(ev, query_len as int, k + 1);
                    }
                    return Err(NGramError::CountOverflow);
                },
                Some(total) => {
                    values.set(token, value);
                    sum = total;
                },
            }
        } else {
            if n >= 3 {
                assert(s[2] == entry@[query_len + 2]);
            }
        }
        k = k + 1;
    }
    Ok((values, sum))
}

} // verus!
