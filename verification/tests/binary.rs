use beankey::{
    CONNECTION_COUNT, DictionaryBinaryError, MEANING_COUNT, MeaningMatrix,
    parse_connection_cost_line, parse_entry_block, parse_entry_shard,
};

fn entry_block() -> Vec<u8> {
    let mut binary = Vec::new();
    binary.extend(2_u16.to_le_bytes());
    for (left, right, meaning, value) in [
        (10_u16, 11_u16, 12_u16, -3.5_f32),
        (20_u16, 21_u16, 22_u16, -7.25_f32),
    ] {
        binary.extend(left.to_le_bytes());
        binary.extend(right.to_le_bytes());
        binary.extend(meaning.to_le_bytes());
        binary.extend(value.to_le_bytes());
    }
    binary.extend("カナ\t仮名\t".as_bytes());
    binary
}

#[test]
fn parses_entry_headers_and_shared_ruby_payload() {
    let entries = parse_entry_block(&entry_block()).unwrap();

    assert_eq!(entries.len(), 2);
    assert_eq!(entries[0].word, "仮名");
    assert_eq!(entries[0].ruby, "カナ");
    assert_eq!((entries[0].left_id, entries[0].right_id), (10, 11));
    assert_eq!(entries[0].meaning_id, 12);
    assert_eq!(f32::from_bits(entries[0].base_value_bits), -3.5);
    assert_eq!(entries[1].word, "カナ");
    assert_eq!(f32::from_bits(entries[1].base_value_bits), -7.25);
}

#[test]
fn parses_selected_shard_slots() {
    let block = entry_block();
    let empty = [0_u8, 0, b'X', b'\t'];
    let header_len = 2 + 2 * 4;
    let mut shard = Vec::new();
    shard.extend(2_u16.to_le_bytes());
    shard.extend((header_len as u32).to_le_bytes());
    shard.extend(((header_len + empty.len()) as u32).to_le_bytes());
    shard.extend(empty);
    shard.extend(block);

    let entries = parse_entry_shard(&shard, &[1]).unwrap();

    assert_eq!(entries.len(), 2);
    assert_eq!(entries[0].word, "仮名");
    assert!(parse_entry_shard(&shard, &[0]).unwrap().is_empty());
    assert_eq!(
        parse_entry_shard(&shard, &[2]),
        Err(DictionaryBinaryError::InvalidShardIndex { index: 2, slot_count: 2 })
    );
}

#[test]
fn reports_truncated_and_missing_fields() {
    assert_eq!(
        parse_entry_block(&[1]),
        Err(DictionaryBinaryError::Truncated { context: "entry count", needed: 2, available: 1 })
    );
    assert_eq!(
        parse_entry_block(&[1, 0, 0]),
        Err(DictionaryBinaryError::Truncated { context: "entry headers", needed: 12, available: 3 })
    );
    let mut block = vec![1, 0];
    block.extend([0; 10]);
    block.extend(b"only-ruby");
    assert_eq!(
        parse_entry_block(&block),
        Err(DictionaryBinaryError::MissingEntryFields { expected: 2, found: 1 })
    );
    assert_eq!(
        parse_entry_shard(&[5, 0, 0], &[]),
        Err(DictionaryBinaryError::Truncated {
            context: "shard offset table",
            needed: 22,
            available: 3
        })
    );
    let mut shard = vec![1, 0];
    shard.extend(9_u32.to_le_bytes());
    assert_eq!(
        parse_entry_shard(&shard, &[0]),
        Err(DictionaryBinaryError::InvalidOffset { start: 9, end: 6, length: 6 })
    );
}

#[test]
fn expands_sparse_connection_costs() {
    let mut binary = Vec::new();
    binary.extend((-1_i32).to_le_bytes());
    binary.extend((-25_f32).to_le_bytes());
    binary.extend(42_i32.to_le_bytes());
    binary.extend((-1.5_f32).to_le_bytes());

    let line = parse_connection_cost_line(&binary).unwrap();

    assert_eq!(line.len(), CONNECTION_COUNT);
    assert_eq!(f32::from_bits(line[0]), -25.0);
    assert_eq!(f32::from_bits(line[42]), -1.5);
}

#[test]
fn bos_and_eos_meaning_cost_is_always_zero() {
    let mut binary = Vec::new();
    for _ in 0..MEANING_COUNT * MEANING_COUNT {
        binary.extend((-1.0_f32).to_le_bytes());
    }
    let matrix = MeaningMatrix::parse(&binary).unwrap();

    assert_eq!(matrix.get(500, 1).map(f32::from_bits), Some(0.0));
    assert_eq!(matrix.get(1, 500).map(f32::from_bits), Some(0.0));
    assert_eq!(matrix.get(1, 2).map(f32::from_bits), Some(-1.0));
    assert_eq!(matrix.get(MEANING_COUNT, 0), None);
}

#[test]
fn refuses_malformed_connection_lines_and_meaning_matrices() {
    assert_eq!(
        parse_connection_cost_line(&[0; 4]),
        Err(DictionaryBinaryError::Truncated {
            context: "connection cost default record",
            needed: 8,
            available: 4
        })
    );
    assert_eq!(
        parse_connection_cost_line(&[0; 12]),
        Err(DictionaryBinaryError::Truncated {
            context: "connection cost record",
            needed: 16,
            available: 12
        })
    );
    assert_eq!(
        parse_connection_cost_line(&[0; 8]),
        Err(DictionaryBinaryError::InvalidConnectionId(0))
    );
    let mut binary = Vec::new();
    binary.extend((-1_i32).to_le_bytes());
    binary.extend(0_f32.to_le_bytes());
    binary.extend(1319_i32.to_le_bytes());
    binary.extend(0_f32.to_le_bytes());
    assert_eq!(
        parse_connection_cost_line(&binary),
        Err(DictionaryBinaryError::InvalidConnectionId(1319))
    );
    assert!(matches!(
        MeaningMatrix::parse(&[0; 6]),
        Err(DictionaryBinaryError::InvalidMeaningMatrixLength { expected: 252004, found: 1 })
    ));
}
