//! The index: for each key, the offset of its latest record in the log.
//!
//! The entries are kept in a vector in which no key occurs twice; the view is
//! the finite map from keys to offsets that they spell out.

use vstd::prelude::*;

verus! {

/// One key with the offset of its latest record.
#[derive(Debug)]
pub struct IndexEntry {
    pub key: Vec<u8>,
    pub offset: u64,
}

/// The map that a sequence of entries spells out, later entries winning.
pub open spec fn entries_map(s: Seq<IndexEntry>) -> Map<Seq<u8>, int>
    decreases s.len(),
{
    if s.len() == 0 {
        Map::empty()
    } else {
        entries_map(s.drop_last()).insert(s.last().key@, s.last().offset as int)
    }
}

/// No key occurs at two positions.
pub open spec fn distinct_keys(s: Seq<IndexEntry>) -> bool {
    forall|i: int, j: int|
        #![trigger s[i], s[j]]
        0 <= i < j < s.len() ==> s[i].key@ != s[j].key@
}

/// Position `i` of `s` holds the key `k`.
pub open spec fn holds_key(s: Seq<IndexEntry>, k: Seq<u8>, i: int) -> bool {
    0 <= i < s.len() && s[i].key@ == k
}

/// With distinct keys the map has one key per entry, and each entry's offset.
pub proof fn lemma_entries_map(s: Seq<IndexEntry>)
    requires
        distinct_keys(s),
    ensures
        entries_map(s).dom().finite(),
        entries_map(s).len() == s.len(),
        forall|k: Seq<u8>|
            entries_map(s).contains_key(k) ==> exists|i: int| #[trigger] holds_key(s, k, i),
        forall|i: int|
            #![trigger s[i]]
            0 <= i < s.len() ==> entries_map(s).contains_key(s[i].key@) && entries_map(
                s,
            )[s[i].key@] == s[i].offset as int,
    decreases s.len(),
{
    if s.len() > 0 {
        let front = s.drop_last();
        let last = s.last();
        lemma_entries_map(front);
        assert forall|i: int| 0 <= i < front.len() implies front[i] == s[i] by {}
        if entries_map(front).contains_key(last.key@) {
            let i = choose|i: int| holds_key(front, last.key@, i);
            assert(holds_key(front, last.key@, i));
            assert(s[i].key@ == s[s.len() - 1].key@);
        }
        assert forall|k: Seq<u8>| entries_map(s).contains_key(k) implies exists|i: int| #[trigger]
            holds_key(s, k, i) by {
            if k == last.key@ {
                assert(holds_key(s, k, s.len() - 1));
            } else {
                let i = choose|i: int| holds_key(front, k, i);
                assert(holds_key(front, k, i));
                assert(holds_key(s, k, i));
            }
        }
        assert forall|i: int| #![trigger s[i]] 0 <= i < s.len() implies entries_map(
            s,
        ).contains_key(s[i].key@) && entries_map(s)[s[i].key@] == s[i].offset as int by {
            if i < s.len() - 1 {
                assert(front[i] == s[i]);
                assert(s[i].key@ != s[s.len() - 1].key@);
            }
        }
    }
}

/// Replacing the entry of a key by another of the same key is an insertion.
pub proof fn lemma_entries_map_update(s: Seq<IndexEntry>, i: int, e: IndexEntry)
    requires
        distinct_keys(s),
        0 <= i < s.len(),
        s[i].key@ == e.key@,
    ensures
        distinct_keys(s.update(i, e)),
        entries_map(s.update(i, e)) == entries_map(s).insert(e.key@, e.offset as int),
    decreases s.len(),
{
    let t = s.update(i, e);
    assert forall|a: int, b: int| #![trigger t[a], t[b]] 0 <= a < b < t.len() implies t[a].key@
        != t[b].key@ by {
        assert(s[a].key@ != s[b].key@);
    }
    if i == s.len() - 1 {
        assert(t.drop_last() =~= s.drop_last());
        assert(entries_map(t) =~= entries_map(s).insert(e.key@, e.offset as int));
    } else {
        let front = s.drop_last();
        assert(t.drop_last() =~= front.update(i, e));
        assert forall|a: int, b: int|
            #![trigger front[a], front[b]]
            0 <= a < b < front.len() implies front[a].key@ != front[b].key@ by {
            assert(s[a].key@ != s[b].key@);
        }
        lemma_entries_map_update(front, i, e);
        assert(s[i].key@ != s[s.len() - 1].key@);
        assert(entries_map(t) =~= entries_map(s).insert(e.key@, e.offset as int));
    }
}

/// Whether two byte strings are the same.
pub fn bytes_eq(a: &[u8], b: &[u8]) -> (same: bool)
    ensures
        same == (a@ == b@),
{
    if a.len() != b.len() {
        return false;
    }
    let mut i: usize = 0;
    while i < a.len()
        invariant
            a@.len() == b@.len(),
            i <= a@.len(),
            forall|j: int| 0 <= j < i ==> a@[j] == b@[j],
        decreases a@.len() - i,
    {
        if a[i] != b[i] {
            return false;
        }
        i += 1;
    }
    assert(a@ =~= b@);
    true
}

/// A map from keys to log offsets.
#[derive(Debug)]
pub struct Index {
    entries: Vec<IndexEntry>,
}

impl Index {
    #[verifier::type_invariant]
    spec fn well_formed(&self) -> bool {
        distinct_keys(self.entries@)
    }

    /// The map from each key to its offset.
    pub closed spec fn view(&self) -> Map<Seq<u8>, int> {
        entries_map(self.entries@)
    }

    /// An index without entries.
    pub fn new() -> (index: Index)
        ensures
            index@ == Map::<Seq<u8>, int>::empty(),
    {
        Index { entries: Vec::new() }
    }

    /// The number of keys.
    pub fn len(&self) -> (n: usize)
        ensures
            self@.dom().finite(),
            n == self@.len(),
    {
        proof {
            use_type_invariant(self);
            lemma_entries_map(self.entries@);
        }
        self.entries.len()
    }

    /// Where `key` stands among the entries, if it does.
    fn position(&self, key: &[u8]) -> (at: Option<usize>)
        ensures
            match at {
                Some(i) => holds_key(self.entries@, key@, i as int),
                None => forall|i: int| !holds_key(self.entries@, key@, i),
            },
    {
        let mut i: usize = 0;
        while i < self.entries.len()
            invariant
                i <= self.entries@.len(),
                forall|j: int| 0 <= j < i ==> !holds_key(self.entries@, key@, j),
            decreases self.entries@.len() - i,
        {
            if bytes_eq(self.entries[i].key.as_slice(), key) {
                return Some(i);
            }
            i += 1;
        }
        None
    }

    /// The offset that `key` maps to.
    pub fn get(&self, key: &[u8]) -> (offset: Option<u64>)
        ensures
            match offset {
                Some(p) => self@.contains_key(key@) && self@[key@] == p as int,
                None => !self@.contains_key(key@),
            },
    {
        proof {
            use_type_invariant(self);
            lemma_entries_map(self.entries@);
        }
        match self.position(key) {
            Some(i) => Some(self.entries[i].offset),
            None => None,
        }
    }

    /// Maps `key` to `offset`, replacing what it mapped to before.
    pub fn insert(&mut self, key: Vec<u8>, offset: u64)
        ensures
            final(self)@ == old(self)@.insert(key@, offset as int),
    {
        proof {
            use_type_invariant(&*self);
            lemma_entries_map(self.entries@);
        }
        let found: Option<usize> = self.position(key.as_slice());
        let entry = IndexEntry { key, offset };
        let ghost before = self.entries@;
        let mut entries: Vec<IndexEntry> = Vec::new();
        core::mem::swap(&mut self.entries, &mut entries);
        match found {
            Some(i) => {
                proof {
                    lemma_entries_map_update(before, i as int, entry);
                }
                entries.set(i, entry);
            },
            None => {
                entries.push(entry);
                proof {
                    assert(entries@.drop_last() =~= before);
                    assert forall|a: int, b: int|
                        #![trigger entries@[a], entries@[b]]
                        0 <= a < b < entries@.len() implies entries@[a].key@
                        != entries@[b].key@ by {
                        if b == before.len() {
                            assert(!holds_key(before, entry.key@, a));
                        } else {
                            assert(before[a].key@ != before[b].key@);
                        }
                    }
                }
            },
        }
        core::mem::swap(&mut self.entries, &mut entries);
    }
}

} // verus!
