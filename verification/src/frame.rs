//! Length-delimited frames of the daemon protocol: varint lengths, size limits and envelope
//! checks. Reading and writing the bytes, and the protobuf payload itself, happen outside.
use vstd::arithmetic::power2::{lemma2_to64, lemma2_to64_rest, lemma_pow2_adds, lemma_pow2_pos, pow2};
use vstd::bits::{lemma_u64_pow2_no_overflow, lemma_u64_shl_is_mul};
use vstd::prelude::*;

verus! {

/// The protocol version this daemon speaks.
pub const PROTOCOL_VERSION: u32 = 1;

/// Largest payload of a frame (1 MiB).
pub const MAXIMUM_MESSAGE_SIZE: usize = 1048576;

/// What is wrong with a frame.
#[derive(Clone, Copy, Debug, Eq, PartialEq)]
pub enum FrameError {
    InvalidLength,
    MessageTooLarge(usize),
    UnsupportedVersion(u32),
    MissingPayload,
}

/// What the checks read of an envelope: its protocol version and whether it has a payload.
#[derive(Clone, Copy, Debug, Eq, PartialEq)]
pub struct EnvelopeHeader {
    pub protocol_version: u32,
    pub has_payload: bool,
}

/// An envelope is served only in this protocol version and with a payload.
pub fn validate_envelope(envelope: &EnvelopeHeader) -> (r: Result<(), FrameError>)
    ensures
        r == if envelope.protocol_version != 1 {
            Err(FrameError::UnsupportedVersion(envelope.protocol_version))
        } else if !envelope.has_payload {
            Err(FrameError::MissingPayload)
        } else {
            Ok(())
        },
{
    if envelope.protocol_version != PROTOCOL_VERSION {
        return Err(FrameError::UnsupportedVersion(envelope.protocol_version));
    }
    if !envelope.has_payload {
        return Err(FrameError::MissingPayload);
    }
    Ok(())
}

/// A frame size is accepted up to the limit.
pub fn check_frame_size(size: usize) -> (r: Result<(), FrameError>)
    ensures
        r == if size > 1048576 {
            Err(FrameError::MessageTooLarge(size))
        } else {
            Ok(())
        },
{
    if size > MAXIMUM_MESSAGE_SIZE {
        Err(FrameError::MessageTooLarge(size))
    } else {
        Ok(())
    }
}

/// The varint bytes of a value: seven bits at a time, least significant first, with the high
/// bit set on every byte but the last.
pub open spec fn varint_spec(value: u64) -> Seq<u8>
    decreases value,
{
    if value < 128 {
        seq![value as u8]
    } else {
        seq![((value % 128) + 128) as u8] + varint_spec(value / 128)
    }
}

/// Encodes a frame length as a varint.
pub fn encode_varint(value: u64) -> (bytes: Vec<u8>)
    ensures
        bytes@ == varint_spec(value),
{
    let mut bytes: Vec<u8> = Vec::new();
    let mut rest = value;
    loop
        invariant
            bytes@ + varint_spec(rest) == varint_spec(value),
        decreases rest,
    {
        let ghost before = bytes@;
        let ghost r = rest;
        let low = (rest % 128) as u8;
        rest = rest / 128;
        if rest == 0 {
            bytes.push(low);
            assert(r < 128);
            assert(bytes@ =~= before + varint_spec(r));
            return bytes;
        }
        bytes.push(low + 128);
        assert(varint_spec(r) == seq![((r % 128) + 128) as u8] + varint_spec(rest));
        assert(bytes@ + varint_spec(rest) =~= before + varint_spec(r));
    }
}

/// Frames a payload: its length as a varint, then the payload.
pub fn frame_payload(envelope: &EnvelopeHeader, payload: &[u8]) -> (r: Result<Vec<u8>, FrameError>)
    ensures
        match r {
            Ok(frame) => validate_envelope_spec(*envelope) is Ok && payload@.len() <= 1048576
                && frame@ == varint_spec(payload@.len() as u64) + payload@,
            Err(e) => match validate_envelope_spec(*envelope) {
                Err(v) => e == v,
                Ok(_) => payload@.len() > 1048576 && e == FrameError::MessageTooLarge(
                    payload@.len() as usize,
                ),
            },
        },
{
    match validate_envelope(envelope) {
        Err(e) => {
            return Err(e);
        },
        Ok(()) => {},
    }
    let size = payload.len();
    match check_frame_size(size) {
        Err(e) => {
            return Err(e);
        },
        Ok(()) => {},
    }
    let mut frame = encode_varint(size as u64);
    let ghost head = frame@;
    let mut i: usize = 0;
    while i < payload.len()
        invariant
            i <= payload@.len(),
            frame@ == head + payload@.take(i as int),
        decreases payload@.len() - i,
    {
        frame.push(payload[i]);
        assert(payload@.take(i + 1) == payload@.take(i as int).push(payload@[i as int]));
        i = i + 1;
    }
    assert(payload@.take(i as int) == payload@);
    Ok(frame)
}

pub open spec fn validate_envelope_spec(envelope: EnvelopeHeader) -> Result<(), FrameError> {
    if envelope.protocol_version != 1 {
        Err(FrameError::UnsupportedVersion(envelope.protocol_version))
    } else if !envelope.has_payload {
        Err(FrameError::MissingPayload)
    } else {
        Ok(())
    }
}

/// What a varint decoder does with the next byte.
#[derive(Clone, Copy, Debug, Eq, PartialEq)]
pub enum VarintStep {
    NeedMore,
    Done(usize),
    Invalid,
}

/// Decodes a varint frame length one byte at a time; at most ten bytes are read.
#[derive(Clone, Copy, Debug, Eq, PartialEq)]
pub struct VarintDecoder {
    value: u64,
    count: u32,
}

pub struct DecoderV {
    pub value: u64,
    pub count: int,
}

impl View for VarintDecoder {
    type V = DecoderV;

    closed spec fn view(&self) -> DecoderV {
        DecoderV { value: self.value, count: self.count as int }
    }
}

/// The value after adding the seven low bits of `byte` as digit number `count`.
pub open spec fn add_digit(value: u64, byte: u8, count: int) -> u64 {
    value | (((byte & 0x7f) as u64) << ((7 * count) as u64))
}

impl VarintDecoder {
    pub fn new() -> (d: Self)
        ensures
            d@.value == 0 && d@.count == 0,
    {
        VarintDecoder { value: 0, count: 0 }
    }

    /// Takes the next byte: the length when the byte ends the varint; an error after ten
    /// bytes without an end, or when the length does not fit in `usize`.
    pub fn push(&mut self, byte: u8) -> (step: VarintStep)
        requires
            old(self)@.count < 10,
        ensures
            (final(self)@, step) == step_spec(old(self)@, byte),
    {
        let shift = 7 * self.count;
        self.value = self.value | (((byte & 0x7f) as u64) << (shift as u64));
        self.count = self.count + 1;
        if byte & 0x80 == 0 {
            if self.value <= usize::MAX as u64 {
                VarintStep::Done(self.value as usize)
            } else {
                VarintStep::Invalid
            }
        } else if self.count == 10 {
            VarintStep::Invalid
        } else {
            VarintStep::NeedMore
        }
    }

    /// How many bytes the decoder has taken.
    pub fn count(&self) -> (n: u32)
        ensures
            n == self@.count,
    {
        self.count
    }
}


/// One decoder step: the value and count after `byte`, and what the byte ends in.
pub open spec fn step_spec(d: DecoderV, byte: u8) -> (DecoderV, VarintStep) {
    let value = add_digit(d.value, byte, d.count);
    let next = DecoderV { value, count: d.count + 1 };
    let step = if byte & 0x80 == 0 {
        if value <= usize::MAX {
            VarintStep::Done(value as usize)
        } else {
            VarintStep::Invalid
        }
    } else if d.count + 1 == 10 {
        VarintStep::Invalid
    } else {
        VarintStep::NeedMore
    };
    (next, step)
}

/// What feeding `bytes` one at a time into the decoder ends in: the first step that is not
/// `NeedMore`, or `NeedMore` when the bytes run out first.
pub open spec fn feed(d: DecoderV, bytes: Seq<u8>) -> VarintStep
    decreases bytes.len(),
{
    if bytes.len() == 0 {
        VarintStep::NeedMore
    } else {
        let (next, step) = step_spec(d, bytes[0]);
        if step == VarintStep::NeedMore {
            feed(next, bytes.drop_first())
        } else {
            step
        }
    }
}

proof fn lemma_varint_len(v: u64)
    ensures
        1 <= varint_spec(v).len(),
        v < 128 ==> varint_spec(v).len() == 1,
        v >= 128 ==> varint_spec(v).len() == 1 + varint_spec(v / 128).len(),
{
}

/// The number of bytes of a varint is at most `m` when the value is below `2^(7m)`.
proof fn lemma_varint_len_bound(v: u64, m: nat)
    requires
        m >= 1,
        v < pow2(7 * m),
    ensures
        varint_spec(v).len() <= m,
    decreases v,
{
    if v >= 128 {
        assert(pow2(7 * m) == pow2(7 * ((m - 1) as nat)) * pow2(7)) by {
            lemma_pow2_adds(7 * ((m - 1) as nat), 7);
        }
        assert(pow2(7) == 128) by {
            lemma2_to64();
        }
        if m == 1 {
            assert(false);
        }
        assert((v / 128) < pow2(7 * ((m - 1) as nat))) by (nonlinear_arith)
            requires
                v < pow2(7 * ((m - 1) as nat)) * 128,
                v >= 0,
        ;
        lemma_varint_len_bound(v / 128, (m - 1) as nat);
    }
}

proof fn lemma_or_is_add(a: u64, d: u64, s: u64)
    requires
        s < 64,
        a < (1u64 << s),
    ensures
        (a | (d << s)) == a + (d << s),
{
    assert(a < (1u64 << s) && s < 64 ==> (a | (d << s)) == a + (d << s)) by (bit_vector);
}

proof fn lemma_digit_byte(x: u64)
    ensures
        x < 128 ==> (x as u8) & 0x80 == 0 && (x as u8) & 0x7f == x,
        (((x % 128) + 128) as u8) & 0x80 != 0,
        (((x % 128) + 128) as u8) & 0x7f == x % 128,
{
    let d = x % 128;
    assert(d < 128);
    assert(x < 128 ==> (x as u8) & 0x80 == 0 && (x as u8) & 0x7f == x) by (bit_vector);
    assert(d < 128 ==> ((d + 128) as u8) & 0x80 != 0 && ((d + 128) as u8) & 0x7f == d) by (bit_vector);
}

/// Feeding the varint of `v` to a decoder that holds `acc` after `c` bytes ends with the
/// value `acc + v * 2^(7c)`.
proof fn lemma_feed_varint(v: u64, acc: u64, c: nat)
    requires
        c + varint_spec(v).len() <= 10,
        acc < pow2(7 * c),
        acc + v * pow2(7 * c) <= usize::MAX,
    ensures
        feed(DecoderV { value: acc, count: c as int }, varint_spec(v)) == VarintStep::Done(
            (acc + v * pow2(7 * c)) as usize,
        ),
    decreases v,
{
    lemma_varint_len(v);
    lemma_digit_byte(v);
    let s = (7 * c) as u64;
    assert(c <= 9);
    assert(s < 64);
    lemma_u64_pow2_no_overflow(7 * c);
    lemma_u64_shl_is_mul(1, s);
    let bytes = varint_spec(v);
    let d = if v < 128 {
        v
    } else {
        v % 128
    };
    assert(d <= v);
    assert(d * pow2(7 * c) <= v * pow2(7 * c)) by (nonlinear_arith)
        requires
            d <= v,
    ;
    lemma_u64_shl_is_mul(d, s);
    assert((bytes[0] & 0x7f) as u64 == d);
    lemma_or_is_add(acc, d, s);
    let value = add_digit(acc, bytes[0], c as int);
    assert(value == acc + d * pow2(7 * c));
    if v < 128 {
        assert(bytes[0] & 0x80 == 0);
        assert(bytes.drop_first().len() == 0);
    } else {
        assert(bytes[0] & 0x80 != 0);
        let rest = varint_spec(v / 128);
        assert(bytes.drop_first() == rest);
        assert(pow2(7 * (c + 1)) == pow2(7 * c) * pow2(7)) by {
            lemma_pow2_adds(7 * c, 7);
        }
        assert(pow2(7) == 128) by {
            lemma2_to64();
        }
        let p = pow2(7 * c) as int;
        assert(v == 128 * (v / 128) + v % 128);
        assert(v * p == (v / 128) * (128 * p) + (v % 128) * p) by (nonlinear_arith)
            requires
                v == 128 * (v / 128) + v % 128,
        ;
        assert(value < 128 * p) by (nonlinear_arith)
            requires
                value == acc + d * p,
                acc < p,
                d < 128,
        ;
        assert(c + 1 < 10);
        lemma_feed_varint(v / 128, value, c + 1);
    }
}

/// Decoding the varint of a length gives the length back: the decoder asks for more until
/// the last byte, and then returns the value.
pub proof fn lemma_varint_round_trip(v: u64)
    requires
        v <= usize::MAX,
    ensures
        feed(DecoderV { value: 0, count: 0 }, varint_spec(v)) == VarintStep::Done(v as usize),
{
    lemma2_to64();
    lemma2_to64_rest();
    assert(v < pow2(70)) by {
        lemma_pow2_adds(64, 6);
        lemma_pow2_pos(6);
    }
    lemma_varint_len_bound(v, 10);
    assert(7 * 0nat == 0nat);
    assert(pow2(0) == 1) by {
        reveal(pow2);
    }
    assert(v * pow2(7 * 0nat) == v);
    lemma_feed_varint(v, 0, 0);
}

} // verus!
