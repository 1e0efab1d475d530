//! What a pass over the log computes: the index that a replay builds, and the
//! record that a linear search for one key ends on.

use crate::codec::{
    decode_spec, encode_spec, frame_end, lemma_decode_append, lemma_decode_frame_within,
    lemma_decoded_frame, lemma_le_round_trip, Record, RecordError,
};
use vstd::prelude::*;

verus! {

/// The outcome of a replay: the index built so far, where the pass stopped, and why.
pub struct Replay {
    pub index: Map<Seq<u8>, int>,
    pub end: int,
    pub stop: RecordError,
}

/// Replays `log` from position `at` into the index `acc`: every frame decoded
/// maps its key to the frame's start, and the first failure ends the pass.
pub open spec fn replay(log: Seq<u8>, at: int, acc: Map<Seq<u8>, int>) -> Replay
    decreases log.len() - at,
{
    match decode_spec(log, at) {
        Ok(r) => replay(log, frame_end(log, at), acc.insert(r.key, at)),
        Err(e) => Replay { index: acc, end: at, stop: e },
    }
}

/// The outcome of a search: the last match so far, and why the pass stopped.
pub struct Scan {
    pub found: Option<(int, Seq<u8>)>,
    pub stop: RecordError,
}

/// Searches `log` from position `at` for frames of `key`, keeping the start and
/// the value of the last one; the first failure ends the pass.
pub open spec fn scan(log: Seq<u8>, at: int, key: Seq<u8>, found: Option<(int, Seq<u8>)>) -> Scan
    decreases log.len() - at,
{
    match decode_spec(log, at) {
        Ok(r) => scan(
            log,
            frame_end(log, at),
            key,
            if r.key == key {
                Some((at, r.value))
            } else {
                found
            },
        ),
        Err(e) => Scan { found, stop: e },
    }
}

/// What loading `log` into the index `acc` returns: success where the pass
/// reaches the end of the log, and else the failure that ended it.
pub open spec fn load_spec(log: Seq<u8>, acc: Map<Seq<u8>, int>) -> Result<(), RecordError> {
    if replay(log, 0, acc).stop == RecordError::EndOfLog {
        Ok(())
    } else {
        Err(replay(log, 0, acc).stop)
    }
}

/// What a search of the whole `log` for `key` returns.
pub open spec fn find_spec(log: Seq<u8>, key: Seq<u8>) -> Result<
    Option<(int, Seq<u8>)>,
    RecordError,
> {
    if scan(log, 0, key, None).stop == RecordError::EndOfLog {
        Ok(scan(log, 0, key, None).found)
    } else {
        Err(scan(log, 0, key, None).stop)
    }
}

/// What a lookup of `key` through `index` returns: nothing for a key that the
/// index lacks, and else what decoding at the key's offset gives.
pub open spec fn get_spec(log: Seq<u8>, index: Map<Seq<u8>, int>, key: Seq<u8>) -> Result<
    Option<Seq<u8>>,
    RecordError,
> {
    if !index.contains_key(key) {
        Ok(None)
    } else {
        match decode_spec(log, index[key]) {
            Ok(r) => Ok(Some(r.value)),
            Err(e) => Err(e),
        }
    }
}

/// From position `at` on, `log` is frames that decode, one after the other, up
/// to its very end.
pub open spec fn is_frames(log: Seq<u8>, at: int) -> bool
    decreases log.len() - at,
{
    at == log.len() || (decode_spec(log, at) is Ok && is_frames(log, frame_end(log, at)))
}

/// A replay of a log of frames reaches its end. Over a longer log it goes the
/// same way up to there, and on from there with the index built so far.
pub proof fn lemma_replay_append(log: Seq<u8>, more: Seq<u8>, at: int, acc: Map<Seq<u8>, int>)
    requires
        0 <= at <= log.len(),
        is_frames(log, at),
    ensures
        replay(log, at, acc).stop == RecordError::EndOfLog,
        replay(log, at, acc).end == log.len(),
        replay(log + more, at, acc) == replay(
            log + more,
            log.len() as int,
            replay(log, at, acc).index,
        ),
    decreases log.len() - at,
{
    if at != log.len() {
        lemma_decoded_frame(log, at);
        lemma_decode_append(log, more, at);
        let r = decode_spec(log, at)->Ok_0;
        lemma_replay_append(log, more, frame_end(log, at), acc.insert(r.key, at));
    }
}

/// A log of frames with one more frame appended is a log of frames.
pub proof fn lemma_frames_append(log: Seq<u8>, at: int, key: Seq<u8>, value: Seq<u8>)
    requires
        0 <= at <= log.len(),
        is_frames(log, at),
        key.len() <= u32::MAX,
        value.len() <= u32::MAX,
    ensures
        is_frames(log + encode_spec(key, value), at),
    decreases log.len() - at,
{
    let longer = log + encode_spec(key, value);
    if at == log.len() {
        lemma_decode_frame_within(log, key, value, Seq::empty());
        assert(log + encode_spec(key, value) + Seq::<u8>::empty() =~= longer);
        assert(is_frames(longer, longer.len() as int));
    } else {
        lemma_decoded_frame(log, at);
        lemma_decode_append(log, encode_spec(key, value), at);
        lemma_frames_append(log, frame_end(log, at), key, value);
    }
}

/// Last write wins: after two frames of one key are appended to a log of
/// frames, a replay of the whole maps the key to the second, and a lookup gives
/// the second value.
pub proof fn lemma_last_write_wins(
    log: Seq<u8>,
    acc: Map<Seq<u8>, int>,
    key: Seq<u8>,
    first: Seq<u8>,
    second: Seq<u8>,
)
    requires
        is_frames(log, 0),
        key.len() <= u32::MAX,
        first.len() <= u32::MAX,
        second.len() <= u32::MAX,
    ensures
        ({
            let full = log + encode_spec(key, first) + encode_spec(key, second);
            &&& load_spec(full, acc) == Ok::<(), RecordError>(())
            &&& replay(full, 0, acc).index[key] == log.len() + encode_spec(key, first).len()
            &&& get_spec(full, replay(full, 0, acc).index, key) == Ok::<
                Option<Seq<u8>>,
                RecordError,
            >(Some(second))
        }),
{
    let one = encode_spec(key, first);
    let two = encode_spec(key, second);
    let full = log + one + two;
    let start = replay(log, 0, acc).index;
    let mid = log.len() + one.len();
    assert(full =~= log + (one + two));
    lemma_replay_append(log, one + two, 0, acc);
    lemma_decode_frame_within(log, key, first, two);
    lemma_decode_frame_within(log + one, key, second, Seq::empty());
    assert(log + one + two + Seq::<u8>::empty() =~= full);
    let after_one = start.insert(key, log.len() as int);
    let after_two = after_one.insert(key, mid as int);
    assert(replay(full, log.len() as int, start) == replay(full, mid as int, after_one));
    assert(replay(full, mid as int, after_one) == replay(full, full.len() as int, after_two));
    assert(decode_spec(full, full.len() as int) == Err::<Record, RecordError>(
        RecordError::EndOfLog,
    ));
}

/// A deletion leaves a tombstone: once the frame of `key` with an empty value
/// is appended and indexed, a lookup of `key` gives the empty value, while a
/// key that the index lacks stays absent.
pub proof fn lemma_delete_is_tombstone(
    log: Seq<u8>,
    index: Map<Seq<u8>, int>,
    key: Seq<u8>,
    other: Seq<u8>,
)
    requires
        key.len() <= u32::MAX,
        other != key,
        !index.contains_key(other),
    ensures
        ({
            let appended = log + encode_spec(key, Seq::<u8>::empty());
            let indexed = index.insert(key, log.len() as int);
            &&& get_spec(appended, indexed, key) == Ok::<Option<Seq<u8>>, RecordError>(
                Some(Seq::<u8>::empty()),
            )
            &&& get_spec(appended, indexed, other) == Ok::<Option<Seq<u8>>, RecordError>(None)
        }),
{
    lemma_decode_frame_within(log, key, Seq::empty(), Seq::empty());
    assert(log + encode_spec(key, Seq::<u8>::empty()) + Seq::<u8>::empty() =~= log + encode_spec(
        key,
        Seq::<u8>::empty(),
    ));
}

/// What a search has found so far is what the index holds for the key.
pub open spec fn agrees(
    log: Seq<u8>,
    key: Seq<u8>,
    index: Map<Seq<u8>, int>,
    found: Option<(int, Seq<u8>)>,
) -> bool {
    match found {
        None => !index.contains_key(key),
        Some((position, value)) => {
            &&& index.contains_key(key)
            &&& index[key] == position
            &&& decode_spec(log, position) == Ok::<Record, RecordError>(Record { key, value })
        },
    }
}

/// A search and a replay that agree on a key at one position of the log stop
/// for the same reason and agree on the key at the end.
pub proof fn lemma_scan_tracks_replay(
    log: Seq<u8>,
    at: int,
    key: Seq<u8>,
    acc: Map<Seq<u8>, int>,
    found: Option<(int, Seq<u8>)>,
)
    requires
        agrees(log, key, acc, found),
    ensures
        scan(log, at, key, found).stop == replay(log, at, acc).stop,
        agrees(log, key, replay(log, at, acc).index, scan(log, at, key, found).found),
    decreases log.len() - at,
{
    if decode_spec(log, at) is Ok {
        lemma_decoded_frame(log, at);
        let r = decode_spec(log, at)->Ok_0;
        let next = if r.key == key {
            Some((at, r.value))
        } else {
            found
        };
        lemma_scan_tracks_replay(log, frame_end(log, at), key, acc.insert(r.key, at), next);
    }
}

/// After a load of a whole log into an empty index that succeeded, a search
/// for any key agrees with a lookup of it: both are absent, or the search ends
/// on the offset that the index holds and both give the same value.
pub proof fn lemma_find_agrees_with_get(log: Seq<u8>, key: Seq<u8>)
    requires
        load_spec(log, Map::empty()) == Ok::<(), RecordError>(()),
    ensures
        ({
            let index = replay(log, 0, Map::empty()).index;
            match find_spec(log, key) {
                Ok(None) => get_spec(log, index, key) == Ok::<Option<Seq<u8>>, RecordError>(
                    None,
                ),
                Ok(Some((position, value))) => index.contains_key(key) && index[key] == position
                    && get_spec(log, index, key) == Ok::<Option<Seq<u8>>, RecordError>(
                    Some(value),
                ),
                Err(_) => false,
            }
        }),
{
    lemma_scan_tracks_replay(log, 0, key, Map::empty(), None);
}

/// An empty log loads into an empty index, and every key is absent from it.
pub proof fn lemma_empty_log(key: Seq<u8>)
    ensures
        load_spec(Seq::empty(), Map::empty()) == Ok::<(), RecordError>(()),
        replay(Seq::empty(), 0, Map::empty()).index == Map::<Seq<u8>, int>::empty(),
        replay(Seq::empty(), 0, Map::empty()).index.len() == 0,
        get_spec(Seq::empty(), replay(Seq::empty(), 0, Map::empty()).index, key) == Ok::<
            Option<Seq<u8>>,
            RecordError,
        >(None),
        find_spec(Seq::empty(), key) == Ok::<Option<(int, Seq<u8>)>, RecordError>(None),
{
}

/// A log of frames that ends in the start of one more frame, its header whole
/// and its payload cut short, fails to load with `TruncatedRecord`; the index then
/// holds the frames before it.
pub proof fn lemma_truncated_tail(
    log: Seq<u8>,
    acc: Map<Seq<u8>, int>,
    key: Seq<u8>,
    value: Seq<u8>,
    kept: int,
)
    requires
        is_frames(log, 0),
        key.len() <= u32::MAX,
        value.len() <= u32::MAX,
        12 <= kept < 12 + key.len() + value.len(),
    ensures
        load_spec(log + encode_spec(key, value).subrange(0, kept), acc) == Err::<
            (),
            RecordError,
        >(RecordError::TruncatedRecord),
        replay(log + encode_spec(key, value).subrange(0, kept), 0, acc).index == replay(
            log,
            0,
            acc,
        ).index,
{
    let frame = encode_spec(key, value);
    let tail = frame.subrange(0, kept);
    let cut = log + tail;
    let at = log.len() as int;
    lemma_decode_frame_within(Seq::empty(), key, value, Seq::empty());
    lemma_replay_append(log, tail, 0, acc);
    lemma_le_round_trip(key.len() as u32);
    lemma_le_round_trip(value.len() as u32);
    assert(cut.subrange(at + 4, at + 8) =~= frame.subrange(4, 8));
    assert(cut.subrange(at + 8, at + 12) =~= frame.subrange(8, 12));
    assert(frame.subrange(4, 8) =~= crate::codec::le_bytes(key.len() as u32));
    assert(frame.subrange(8, 12) =~= crate::codec::le_bytes(value.len() as u32));
    assert(decode_spec(cut, at) == Err::<Record, RecordError>(RecordError::TruncatedRecord));
}

/// A pass over `log` from position `at` decodes a frame that starts at `p`.
pub open spec fn starts_frame(log: Seq<u8>, at: int, p: int) -> bool
    decreases log.len() - at,
{
    decode_spec(log, at) is Ok && (p == at || starts_frame(log, frame_end(log, at), p))
}

/// The key of the frame of `log` that starts at `p`.
pub open spec fn key_at(log: Seq<u8>, p: int) -> Seq<u8> {
    decode_spec(log, p)->Ok_0.key
}

/// A frame that a pass from `at` decodes starts at `at` or after it, and decodes.
pub proof fn lemma_starts_frame_bounds(log: Seq<u8>, at: int, p: int)
    requires
        starts_frame(log, at, p),
    ensures
        at <= p,
        decode_spec(log, p) is Ok,
    decreases log.len() - at,
{
    if p != at {
        lemma_decoded_frame(log, at);
        lemma_starts_frame_bounds(log, frame_end(log, at), p);
    }
}

/// What a replay maps a key to is what the index held for it before, or the
/// start of a frame of that key that the pass decoded.
pub proof fn lemma_replay_entry(log: Seq<u8>, at: int, acc: Map<Seq<u8>, int>, key: Seq<u8>)
    ensures
        acc.contains_key(key) ==> replay(log, at, acc).index.contains_key(key),
        replay(log, at, acc).index.contains_key(key) ==> {
            ||| acc.contains_key(key) && replay(log, at, acc).index[key] == acc[key]
            ||| starts_frame(log, at, replay(log, at, acc).index[key]) && key_at(
                log,
                replay(log, at, acc).index[key],
            ) == key
        },
    decreases log.len() - at,
{
    if decode_spec(log, at) is Ok {
        lemma_decoded_frame(log, at);
        let r = decode_spec(log, at)->Ok_0;
        lemma_replay_entry(log, frame_end(log, at), acc.insert(r.key, at), key);
    }
}

/// The index holds the latest frame of each key: for every frame that a replay
/// decodes, the index maps the frame's key to the start of a decoded frame of
/// that key, and no decoded frame of the key starts later.
pub proof fn lemma_index_holds_latest(log: Seq<u8>, at: int, acc: Map<Seq<u8>, int>, p: int)
    requires
        starts_frame(log, at, p),
    ensures
        replay(log, at, acc).index.contains_key(key_at(log, p)),
        p <= replay(log, at, acc).index[key_at(log, p)],
        starts_frame(log, at, replay(log, at, acc).index[key_at(log, p)]),
        key_at(log, replay(log, at, acc).index[key_at(log, p)]) == key_at(log, p),
    decreases log.len() - at,
{
    lemma_decoded_frame(log, at);
    let r = decode_spec(log, at)->Ok_0;
    let next = frame_end(log, at);
    let fed = acc.insert(r.key, at);
    if p == at {
        lemma_replay_entry(log, next, fed, r.key);
        let q = replay(log, next, fed).index[r.key];
        if q != at {
            lemma_starts_frame_bounds(log, next, q);
        }
    } else {
        lemma_index_holds_latest(log, next, fed, p);
    }
}

} // verus!
