//! The log store: the bytes of the log, and the index over them.
//!
//! The store owns the log as a byte vector. Writes only ever append a frame;
//! reads decode frames of the log, through the index or by a linear pass.

use crate::codec::{
    decode, decode_spec, encode, encode_spec, lemma_decoded_frame, push_bytes, KeyValuePair, Record, RecordError,
    HEADER_LEN,
};
use crate::index::{bytes_eq, Index};
use crate::replay::{find_spec, get_spec, load_spec, replay, scan};
use vstd::prelude::*;
use vstd::slice::slice_to_vec;

verus! {

/// An append-only key-value store.
#[derive(Debug)]
pub struct ActionKV {
    log: Vec<u8>,
    index: Index,
}

impl ActionKV {
    /// The bytes of the log.
    pub closed spec fn contents(&self) -> Seq<u8> {
        self.log@
    }

    /// The map from each key of the index to its offset.
    pub closed spec fn index_view(&self) -> Map<Seq<u8>, int> {
        self.index@
    }

    /// A store over the bytes `log`, with an empty index.
    pub fn open(log: Vec<u8>) -> (store: ActionKV)
        ensures
            store.contents() == log@,
            store.index_view() == Map::<Seq<u8>, int>::empty(),
    {
        ActionKV { log, index: Index::new() }
    }

    /// The bytes of the log.
    pub fn as_bytes(&self) -> (bytes: &[u8])
        ensures
            bytes@ == self.contents(),
    {
        self.log.as_slice()
    }

    /// The index.
    pub fn index(&self) -> (index: &Index)
        ensures
            index@ == self.index_view(),
    {
        &self.index
    }

    /// The number of keys in the index.
    pub fn size(&self) -> (n: usize)
        ensures
            self.index_view().dom().finite(),
            n == self.index_view().len(),
    {
        self.index.len()
    }

    /// Replays the whole log into the index. A pass that reaches the end of
    /// the log succeeds; a truncated or corrupt frame ends it with that error,
    /// the index holding the frames before it.
    pub fn load(&mut self) -> (r: Result<(), RecordError>)
        ensures
            final(self).contents() == old(self).contents(),
            final(self).index_view() == replay(old(self).contents(), 0, old(self).index_view()).index,
            r == load_spec(old(self).contents(), old(self).index_view()),
    {
        let len: usize = self.log.len();
        let mut at: usize = 0;
        loop
            invariant
                self.log@ == old(self).log@,
                len == self.log@.len(),
                at <= len,
                replay(self.log@, at as int, self.index@) == replay(
                    old(self).log@,
                    0,
                    old(self).index@,
                ),
            decreases len - at,
        {
            match decode(self.log.as_slice(), at) {
                Ok(kv) => {
                    proof {
                        lemma_decoded_frame(self.log@, at as int);
                    }
                    let next: usize = at + HEADER_LEN + kv.key.len() + kv.value.len();
                    self.index.insert(kv.key, at as u64);
                    at = next;
                },
                Err(RecordError::EndOfLog) => {
                    return Ok(());
                },
                Err(e) => {
                    return Err(e);
                },
            }
        }
    }

    /// The position at which the next frame will be written: the log's length.
    pub fn seek_to_end(&self) -> (position: u64)
        ensures
            position == self.contents().len(),
    {
        self.log.len() as u64
    }

    /// The value of the frame that the index holds for `key`, or `None` for a
    /// key that the index lacks.
    pub fn get(&self, key: &[u8]) -> (r: Result<Option<Vec<u8>>, RecordError>)
        ensures
            match r {
                Ok(Some(value)) => get_spec(self.contents(), self.index_view(), key@) == Ok::<
                    Option<Seq<u8>>,
                    RecordError,
                >(Some(value@)),
                Ok(None) => get_spec(self.contents(), self.index_view(), key@) == Ok::<
                    Option<Seq<u8>>,
                    RecordError,
                >(None),
                Err(e) => get_spec(self.contents(), self.index_view(), key@) == Err::<
                    Option<Seq<u8>>,
                    RecordError,
                >(e),
            },
    {
        let position: u64 = match self.index.get(key) {
            None => {
                return Ok(None);
            },
            Some(position) => position,
        };
        match self.get_at(position) {
            Ok(kv) => Ok(Some(kv.value)),
            Err(e) => Err(e),
        }
    }

    /// The frame that starts at `position`.
    pub fn get_at(&self, position: u64) -> (r: Result<KeyValuePair, RecordError>)
        ensures
            match r {
                Ok(kv) => decode_spec(self.contents(), position as int) == Ok::<
                    Record,
                    RecordError,
                >(kv@),
                Err(e) => decode_spec(self.contents(), position as int) == Err::<
                    Record,
                    RecordError,
                >(e),
            },
    {
        if position > self.log.len() as u64 {
            return Err(RecordError::EndOfLog);
        }
        decode(self.log.as_slice(), position as usize)
    }

    /// Searches the whole log for `target`, without the index: the start and the
    /// value of the last frame with that key, or `None` where no frame has it.
    pub fn find(&self, target: &[u8]) -> (r: Result<Option<(u64, Vec<u8>)>, RecordError>)
        ensures
            match r {
                Ok(Some((position, value))) => find_spec(self.contents(), target@) == Ok::<
                    Option<(int, Seq<u8>)>,
                    RecordError,
                >(Some((position as int, value@))),
                Ok(None) => find_spec(self.contents(), target@) == Ok::<
                    Option<(int, Seq<u8>)>,
                    RecordError,
                >(None),
                Err(e) => find_spec(self.contents(), target@) == Err::<
                    Option<(int, Seq<u8>)>,
                    RecordError,
                >(e),
            },
    {
        let mut found: Option<(u64, Vec<u8>)> = None;
        let len: usize = self.log.len();
        let mut at: usize = 0;
        loop
            invariant
                len == self.log@.len(),
                at <= len,
                scan(
                    self.log@,
                    at as int,
                    target@,
                    match found {
                        Some((position, value)) => Some((position as int, value@)),
                        None => None,
                    },
                ) == scan(self.log@, 0, target@, None),
            decreases len - at,
        {
            match decode(self.log.as_slice(), at) {
                Ok(kv) => {
                    proof {
                        lemma_decoded_frame(self.log@, at as int);
                    }
                    let next: usize = at + HEADER_LEN + kv.key.len() + kv.value.len();
                    if bytes_eq(kv.key.as_slice(), target) {
                        found = Some((at as u64, kv.value));
                    }
                    at = next;
                },
                Err(RecordError::EndOfLog) => {
                    return Ok(found);
                },
                Err(e) => {
                    return Err(e);
                },
            }
        }
    }

    /// Appends the frame of `key` and `value` to the log and maps `key` to its start.
    pub fn insert(&mut self, key: &[u8], value: &[u8])
        requires
            key@.len() <= u32::MAX,
            value@.len() <= u32::MAX,
        ensures
            final(self).contents() == old(self).contents() + encode_spec(key@, value@),
            final(self).index_view() == old(self).index_view().insert(key@, old(self).contents().len() as int),
    {
        let position: u64 = self.insert_but_ignore_index(key, value);
        self.index.insert(slice_to_vec(key), position);
    }

    /// Appends the frame of `key` and `value` to the log, leaves the index as it
    /// is, and returns the frame's start.
    pub fn insert_but_ignore_index(&mut self, key: &[u8], value: &[u8]) -> (position: u64)
        requires
            key@.len() <= u32::MAX,
            value@.len() <= u32::MAX,
        ensures
            final(self).contents() == old(self).contents() + encode_spec(key@, value@),
            final(self).index_view() == old(self).index_view(),
            position == old(self).contents().len(),
    {
        let position: u64 = self.log.len() as u64;
        let frame: Vec<u8> = encode(key, value);
        push_bytes(&mut self.log, frame.as_slice());
        position
    }

    /// The same as `insert`: a later frame supersedes an earlier one of its key.
    pub fn update(&mut self, key: &[u8], value: &[u8])
        requires
            key@.len() <= u32::MAX,
            value@.len() <= u32::MAX,
        ensures
            final(self).contents() == old(self).contents() + encode_spec(key@, value@),
            final(self).index_view() == old(self).index_view().insert(key@, old(self).contents().len() as int),
    {
        self.insert(key, value)
    }

    /// Appends a frame of `key` with an empty value: the key stays in the index,
    /// and a lookup gives the empty value.
    pub fn delete(&mut self, key: &[u8])
        requires
            key@.len() <= u32::MAX,
        ensures
            final(self).contents() == old(self).contents() + encode_spec(key@, Seq::<u8>::empty()),
            final(self).index_view() == old(self).index_view().insert(key@, old(self).contents().len() as int),
    {
        let empty: Vec<u8> = Vec::new();
        self.insert(key, empty.as_slice())
    }
}

} // verus!
