use beankey::{
    NGramError, VOCABULARY_SIZE, bulk_from_entries, decode_token, decode_value, encode_key,
    predictive_query, value_from_entries, value_query,
};

#[test]
fn key_and_value_encoding_matches_the_fixed_upstream_format() {
    assert_eq!(
        encode_key(&[0, 125, 126, 5999]).unwrap(),
        [1, 1, 1, 126, 2, 1, 48, 78]
    );
    assert_eq!(decode_token(48, 78).unwrap(), 5999);
    assert_eq!(decode_value(&[1, 1, 1, 1, 43]).unwrap(), 42);
}

#[test]
fn rejects_out_of_range_tokens_and_truncated_values() {
    assert!(encode_key(&[VOCABULARY_SIZE]).is_err());
    assert!(decode_token(0, 1).is_err());
    assert!(decode_value(&[1, 2]).is_err());
}

#[test]
fn every_token_decodes_from_its_encoding() {
    for token in [0usize, 1, 125, 126, 3000, 5999] {
        let bytes = encode_key(&[token]).unwrap();
        assert_eq!(decode_token(bytes[0], bytes[1]).unwrap(), token);
    }
}

#[test]
fn large_counts_overflow_and_zero_digits_are_invalid() {
    assert_eq!(decode_value(&[126, 126, 126, 126, 126]), Err(NGramError::CountOverflow));
    assert_eq!(decode_value(&[1, 0, 1, 1, 1]), Err(NGramError::InvalidTrieEntry));
    assert_eq!(decode_value(&[1, 1, 1, 2, 1, 99]).unwrap(), 126);
    assert_eq!(decode_token(48, 79), Err(NGramError::InvalidTrieEntry));
}

#[test]
fn reads_values_and_counts_from_trie_entries() {
    assert_eq!(value_query(&[1]), Ok(vec![1, 2, 128]));
    assert_eq!(predictive_query(&[1]), Ok(vec![1, 2, 129]));
    assert_eq!(value_query(&[6000]), Err(NGramError::InvalidTrieEntry));
    assert_eq!(value_from_entries(&Vec::new(), 3), Ok(None));
    assert_eq!(value_from_entries(&vec![vec![1, 2, 128, 1, 1, 1, 1, 3]], 3), Ok(Some(2)));
    assert_eq!(value_from_entries(&vec![vec![1, 2]], 3), Err(NGramError::InvalidTrieEntry));

    let entries = vec![
        vec![5, 6, 129, 1, 4, 128, 1, 1, 1, 1, 6],
        vec![5, 6, 129, 1, 4],
        vec![5, 6, 129, 1, 5, 128, 1, 1, 1, 2, 1],
    ];
    let (values, sum) = bulk_from_entries(&entries, 3).unwrap();
    assert_eq!(values.len(), 6000);
    assert_eq!(values[3], 5);
    assert_eq!(values[4], 126);
    assert_eq!(sum, 131);
    assert_eq!(bulk_from_entries(&vec![vec![5]], 3), Err(NGramError::InvalidTrieEntry));
}
