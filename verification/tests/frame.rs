use beankey::{
    EnvelopeHeader, FrameError, MAXIMUM_MESSAGE_SIZE, PROTOCOL_VERSION, VarintDecoder,
    VarintStep, check_frame_size, encode_varint, frame_payload, validate_envelope,
};

fn decode(bytes: &[u8]) -> VarintStep {
    let mut decoder = VarintDecoder::new();
    let mut last = VarintStep::NeedMore;
    for byte in bytes {
        last = decoder.push(*byte);
        if last != VarintStep::NeedMore {
            break;
        }
    }
    last
}

#[test]
fn round_trips_varint_frame_lengths() {
    for value in [0u64, 1, 127, 128, 300, 16384, MAXIMUM_MESSAGE_SIZE as u64 + 1] {
        let bytes = encode_varint(value);
        assert_eq!(decode(&bytes), VarintStep::Done(value as usize));
    }
    assert_eq!(encode_varint(300), vec![0xac, 0x02]);
}

#[test]
fn rejects_a_frame_before_reading_an_oversized_payload() {
    let frame = encode_varint(MAXIMUM_MESSAGE_SIZE as u64 + 1);
    let VarintStep::Done(size) = decode(&frame) else {
        panic!("expected a length");
    };
    assert_eq!(check_frame_size(size), Err(FrameError::MessageTooLarge(MAXIMUM_MESSAGE_SIZE + 1)));
    assert_eq!(check_frame_size(MAXIMUM_MESSAGE_SIZE), Ok(()));
}

#[test]
fn rejects_missing_payload_and_unknown_versions() {
    let mut envelope = EnvelopeHeader { protocol_version: PROTOCOL_VERSION, has_payload: false };
    assert_eq!(validate_envelope(&envelope), Err(FrameError::MissingPayload));
    envelope.has_payload = true;
    envelope.protocol_version = PROTOCOL_VERSION + 1;
    assert_eq!(
        validate_envelope(&envelope),
        Err(FrameError::UnsupportedVersion(PROTOCOL_VERSION + 1))
    );
}

#[test]
fn frames_a_payload_after_its_length() {
    let header = EnvelopeHeader { protocol_version: PROTOCOL_VERSION, has_payload: true };
    assert_eq!(frame_payload(&header, &[7, 8, 9]).unwrap(), vec![3, 7, 8, 9]);
    let missing = EnvelopeHeader { protocol_version: PROTOCOL_VERSION, has_payload: false };
    assert_eq!(frame_payload(&missing, &[1]), Err(FrameError::MissingPayload));
}

#[test]
fn an_unterminated_varint_is_invalid_after_ten_bytes() {
    assert_eq!(decode(&[0xff; 10]), VarintStep::Invalid);
    assert_eq!(decode(&[0xff; 3]), VarintStep::NeedMore);
}
