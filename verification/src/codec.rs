//! The record codec: one key-value pair as a checksummed, length-prefixed frame.
//!
//! A frame is the CRC-32 of the payload, the key's length and the value's length,
//! each as four little-endian bytes, followed by the key's and the value's bytes.

use byteorder::{ByteOrder, LittleEndian};
use vstd::prelude::*;
use vstd::slice::{slice_subrange, slice_to_vec};

verus! {

/// Number of bytes in a frame before its payload.
pub const HEADER_LEN: usize = 12;

/// The CRC-32 (IEEE polynomial) of `data`, as `crc::crc32::checksum_ieee` computes it.
pub uninterp spec fn crc32_ieee(data: Seq<u8>) -> u32;

/// The number that four bytes hold in little-endian order.
pub open spec fn le_value(b: Seq<u8>) -> int
    recommends
        b.len() == 4,
{
    b[0] as int + 256 * (b[1] as int) + 65536 * (b[2] as int) + 16777216 * (b[3] as int)
}

/// The four bytes of `n`, least significant first.
pub open spec fn le_bytes(n: u32) -> Seq<u8> {
    seq![
        (n as int % 256) as u8,
        (n as int / 256 % 256) as u8,
        (n as int / 65536 % 256) as u8,
        (n as int / 16777216 % 256) as u8,
    ]
}

/// Reading back the bytes of a number gives the number.
pub proof fn lemma_le_round_trip(n: u32)
    ensures
        le_bytes(n).len() == 4,
        le_value(le_bytes(n)) == n as int,
{
}

/// Calls `crc::crc32::checksum_ieee`, which folds the bytes through the IEEE
/// table from a zero start. The contract only names that result.
#[verifier::external_body]
fn checksum_ieee(bytes: &[u8]) -> (sum: u32)
    ensures
        sum == crc32_ieee(bytes@),
{
    crc::crc32::checksum_ieee(bytes)
}

/// Calls `byteorder::LittleEndian::read_u32`, which is `u32::from_le_bytes` on the
/// first four bytes of the buffer and panics on a shorter one.
#[verifier::external_body]
fn read_u32_le(buf: &[u8]) -> (n: u32)
    requires
        buf@.len() >= 4,
    ensures
        n as int == le_value(buf@.subrange(0, 4)),
{
    LittleEndian::read_u32(buf)
}

/// Calls `byteorder::LittleEndian::write_u32` on a buffer of four bytes, which
/// copies `n.to_le_bytes()` into it.
#[verifier::external_body]
fn write_u32_le(n: u32) -> (b: [u8; 4])
    ensures
        b@ == le_bytes(n),
{
    let mut b: [u8; 4] = [0u8; 4];
    LittleEndian::write_u32(&mut b, n);
    b
}

/// A key and a value, as mathematical byte sequences.
pub struct Record {
    pub key: Seq<u8>,
    pub value: Seq<u8>,
}

/// One key-value pair as the store hands it out.
#[derive(Debug)]
pub struct KeyValuePair {
    pub key: Vec<u8>,
    pub value: Vec<u8>,
}

impl View for KeyValuePair {
    type V = Record;

    open spec fn view(&self) -> Record {
        Record { key: self.key@, value: self.value@ }
    }
}

/// Why no record could be decoded at a position.
#[derive(Debug, Clone, Copy, PartialEq, Eq, Structural)]
pub enum RecordError {
    /// Fewer than `HEADER_LEN` bytes are left: the log ends here.
    EndOfLog,
    /// A header is there, but fewer payload bytes follow than it announces.
    TruncatedRecord,
    /// The checksum in the header (`expected`) is not that of the payload (`computed`).
    CorruptRecord { expected: u32, computed: u32 },
}

/// The frame of `key` and `value`.
pub open spec fn encode_spec(key: Seq<u8>, value: Seq<u8>) -> Seq<u8> {
    le_bytes(crc32_ieee(key + value)) + le_bytes(key.len() as u32) + le_bytes(
        value.len() as u32,
    ) + key + value
}

/// The checksum that the header at `at` holds.
pub open spec fn stored_checksum(log: Seq<u8>, at: int) -> u32 {
    le_value(log.subrange(at, at + 4)) as u32
}

/// The key length that the header at `at` holds.
pub open spec fn key_len_at(log: Seq<u8>, at: int) -> int {
    le_value(log.subrange(at + 4, at + 8))
}

/// The value length that the header at `at` holds.
pub open spec fn value_len_at(log: Seq<u8>, at: int) -> int {
    le_value(log.subrange(at + 8, at + 12))
}

/// The payload that the header at `at` announces.
pub open spec fn payload_at(log: Seq<u8>, at: int) -> Seq<u8> {
    log.subrange(at + 12, at + 12 + key_len_at(log, at) + value_len_at(log, at))
}

/// Where the frame that starts at `at` ends.
pub open spec fn frame_end(log: Seq<u8>, at: int) -> int {
    at + 12 + key_len_at(log, at) + value_len_at(log, at)
}

/// What decoding one frame of `log` at position `at` gives.
pub open spec fn decode_spec(log: Seq<u8>, at: int) -> Result<Record, RecordError> {
    if at < 0 || log.len() - at < 12 {
        Err(RecordError::EndOfLog)
    } else if frame_end(log, at) > log.len() {
        Err(RecordError::TruncatedRecord)
    } else if crc32_ieee(payload_at(log, at)) != stored_checksum(log, at) {
        Err(
            RecordError::CorruptRecord {
                expected: stored_checksum(log, at),
                computed: crc32_ieee(payload_at(log, at)),
            },
        )
    } else {
        Ok(
            Record {
                key: payload_at(log, at).subrange(0, key_len_at(log, at)),
                value: payload_at(log, at).subrange(
                    key_len_at(log, at),
                    key_len_at(log, at) + value_len_at(log, at),
                ),
            },
        )
    }
}

/// A little-endian field is a 32-bit number.
pub proof fn lemma_le_value_bounds(b: Seq<u8>)
    requires
        b.len() == 4,
    ensures
        0 <= le_value(b) <= u32::MAX,
{
}

/// A frame that decodes lies within the log, and its key and value fill its payload.
pub proof fn lemma_decoded_frame(log: Seq<u8>, at: int)
    requires
        decode_spec(log, at) is Ok,
    ensures
        0 <= at,
        frame_end(log, at) <= log.len(),
        frame_end(log, at) == at + 12 + decode_spec(log, at)->Ok_0.key.len() + decode_spec(
            log,
            at,
        )->Ok_0.value.len(),
{
    lemma_le_value_bounds(log.subrange(at + 4, at + 8));
    lemma_le_value_bounds(log.subrange(at + 8, at + 12));
}

/// A frame decodes to its key and value wherever it stands in a log.
pub proof fn lemma_decode_frame_within(
    before: Seq<u8>,
    key: Seq<u8>,
    value: Seq<u8>,
    after: Seq<u8>,
)
    requires
        key.len() <= u32::MAX,
        value.len() <= u32::MAX,
    ensures
        encode_spec(key, value).len() == 12 + key.len() + value.len(),
        decode_spec(before + encode_spec(key, value) + after, before.len() as int) == Ok::<
            Record,
            RecordError,
        >(Record { key, value }),
        frame_end(before + encode_spec(key, value) + after, before.len() as int) == before.len()
            + 12 + key.len() + value.len(),
{
    let log = before + encode_spec(key, value) + after;
    let at = before.len() as int;
    lemma_le_round_trip(crc32_ieee(key + value));
    lemma_le_round_trip(key.len() as u32);
    lemma_le_round_trip(value.len() as u32);
    assert(log.subrange(at, at + 4) =~= le_bytes(crc32_ieee(key + value)));
    assert(log.subrange(at + 4, at + 8) =~= le_bytes(key.len() as u32));
    assert(log.subrange(at + 8, at + 12) =~= le_bytes(value.len() as u32));
    assert(payload_at(log, at) =~= key + value);
    assert((key + value).subrange(0, key.len() as int) =~= key);
    assert((key + value).subrange(key.len() as int, (key.len() + value.len()) as int) =~= value);
}

/// Decoding what was encoded gives back the key and the value.
pub proof fn lemma_round_trip(key: Seq<u8>, value: Seq<u8>)
    requires
        key.len() <= u32::MAX,
        value.len() <= u32::MAX,
    ensures
        decode_spec(encode_spec(key, value), 0) == Ok::<Record, RecordError>(
            Record { key, value },
        ),
{
    lemma_decode_frame_within(Seq::empty(), key, value, Seq::empty());
    assert(Seq::<u8>::empty() + encode_spec(key, value) + Seq::<u8>::empty() =~= encode_spec(
        key,
        value,
    ));
}

/// A frame whose payload was replaced by bytes of another checksum, the header
/// left as it was, decodes as corrupt, with both checksums.
pub proof fn lemma_checksum_mismatch_is_corrupt(key: Seq<u8>, value: Seq<u8>, payload: Seq<u8>)
    requires
        key.len() <= u32::MAX,
        value.len() <= u32::MAX,
        payload.len() == key.len() + value.len(),
        crc32_ieee(payload) != crc32_ieee(key + value),
    ensures
        decode_spec(encode_spec(key, value).subrange(0, 12) + payload, 0) == Err::<
            Record,
            RecordError,
        >(
            RecordError::CorruptRecord {
                expected: crc32_ieee(key + value),
                computed: crc32_ieee(payload),
            },
        ),
{
    let log = encode_spec(key, value).subrange(0, 12) + payload;
    lemma_le_round_trip(crc32_ieee(key + value));
    lemma_le_round_trip(key.len() as u32);
    lemma_le_round_trip(value.len() as u32);
    assert(log.subrange(0, 4) =~= le_bytes(crc32_ieee(key + value)));
    assert(log.subrange(4, 8) =~= le_bytes(key.len() as u32));
    assert(log.subrange(8, 12) =~= le_bytes(value.len() as u32));
    assert(payload_at(log, 0) =~= payload);
}

/// Bytes appended to a log change nothing about a frame that lies within it.
pub proof fn lemma_decode_append(log: Seq<u8>, more: Seq<u8>, at: int)
    requires
        0 <= at,
        at + 12 <= log.len(),
        frame_end(log, at) <= log.len(),
    ensures
        frame_end(log + more, at) == frame_end(log, at),
        decode_spec(log + more, at) == decode_spec(log, at),
{
    let longer = log + more;
    assert(longer.subrange(at, at + 4) =~= log.subrange(at, at + 4));
    assert(longer.subrange(at + 4, at + 8) =~= log.subrange(at + 4, at + 8));
    assert(longer.subrange(at + 8, at + 12) =~= log.subrange(at + 8, at + 12));
    lemma_le_value_bounds(log.subrange(at + 4, at + 8));
    lemma_le_value_bounds(log.subrange(at + 8, at + 12));
    assert(payload_at(longer, at) =~= payload_at(log, at));
}

/// Appends the four little-endian bytes of `n` to `out`.
fn push_u32_le(out: &mut Vec<u8>, n: u32)
    ensures
        final(out)@ == old(out)@ + le_bytes(n),
{
    let b: [u8; 4] = write_u32_le(n);
    out.push(b[0]);
    out.push(b[1]);
    out.push(b[2]);
    out.push(b[3]);
    assert(out@ =~= old(out)@ + le_bytes(n));
}

/// Appends the bytes of `src` to `out`.
pub fn push_bytes(out: &mut Vec<u8>, src: &[u8])
    ensures
        final(out)@ == old(out)@ + src@,
{
    let mut i: usize = 0;
    while i < src.len()
        invariant
            i <= src@.len(),
            out@ == old(out)@ + src@.subrange(0, i as int),
        decreases src@.len() - i,
    {
        out.push(src[i]);
        i += 1;
        assert(out@ =~= old(out)@ + src@.subrange(0, i as int));
    }
    assert(src@.subrange(0, i as int) =~= src@);
}

/// Encodes `key` and `value` as one frame.
pub fn encode(key: &[u8], value: &[u8]) -> (out: Vec<u8>)
    requires
        key@.len() <= u32::MAX,
        value@.len() <= u32::MAX,
    ensures
        out@ == encode_spec(key@, value@),
        out@.len() == 12 + key@.len() + value@.len(),
{
    let mut payload: Vec<u8> = Vec::new();
    push_bytes(&mut payload, key);
    push_bytes(&mut payload, value);
    let checksum: u32 = checksum_ieee(payload.as_slice());
    let mut out: Vec<u8> = Vec::new();
    push_u32_le(&mut out, checksum);
    push_u32_le(&mut out, key.len() as u32);
    push_u32_le(&mut out, value.len() as u32);
    push_bytes(&mut out, payload.as_slice());
    proof {
        assert(payload@ =~= key@ + value@);
        assert(out@ =~= encode_spec(key@, value@));
    }
    out
}

/// Decodes the frame of `log` that starts at `at`.
pub fn decode(log: &[u8], at: usize) -> (r: Result<KeyValuePair, RecordError>)
    ensures
        match r {
            Ok(kv) => decode_spec(log@, at as int) == Ok::<Record, RecordError>(kv@),
            Err(e) => decode_spec(log@, at as int) == Err::<Record, RecordError>(e),
        },
{
    let n: usize = log.len();
    if at > n || n - at < HEADER_LEN {
        return Err(RecordError::EndOfLog);
    }
    let expected: u32 = read_u32_le(slice_subrange(log, at, at + 4));
    let key_len: u32 = read_u32_le(slice_subrange(log, at + 4, at + 8));
    let value_len: u32 = read_u32_le(slice_subrange(log, at + 8, at + 12));
    proof {
        assert(log@.subrange(at as int, at + 4).subrange(0, 4) =~= log@.subrange(
            at as int,
            at + 4,
        ));
        assert(log@.subrange(at + 4, at + 8).subrange(0, 4) =~= log@.subrange(at + 4, at + 8));
        assert(log@.subrange(at + 8, at + 12).subrange(0, 4) =~= log@.subrange(at + 8, at + 12));
        lemma_le_value_bounds(log@.subrange(at as int, at + 4));
    }
    let data_len: u64 = key_len as u64 + value_len as u64;
    let rest: usize = n - at - HEADER_LEN;
    if (rest as u64) < data_len {
        return Err(RecordError::TruncatedRecord);
    }
    let start: usize = at + HEADER_LEN;
    let payload: &[u8] = slice_subrange(log, start, start + data_len as usize);
    let computed: u32 = checksum_ieee(payload);
    if computed != expected {
        return Err(RecordError::CorruptRecord { expected, computed });
    }
    let key: Vec<u8> = slice_to_vec(slice_subrange(payload, 0, key_len as usize));
    let value: Vec<u8> = slice_to_vec(
        slice_subrange(payload, key_len as usize, data_len as usize),
    );
    Ok(KeyValuePair { key, value })
}

} // verus!
