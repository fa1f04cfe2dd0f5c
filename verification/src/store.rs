//! An append-only key-value store of record slots.
//!
//! A slot is an addressable unit of storage holding one serialized record.
//! The store offers exactly the create-once discipline the creation
//! operation relies on: `put_if_absent` commits a new slot or reports
//! `AlreadyExists`, and a committed slot is never overwritten or removed.

use vstd::prelude::*;

use crate::error::ReceiptError;

verus! {

/// One committed slot: its address and its bytes.
struct Slot {
    key: u64,
    data: Vec<u8>,
}

/// The slot store. Its model is the map from slot address to slot bytes.
pub struct SlotStore {
    entries: Vec<Slot>,
}

/// The map described by a run of slots, later entries taking precedence.
spec fn entries_map(s: Seq<Slot>) -> Map<u64, Seq<u8>>
    decreases s.len(),
{
    if s.len() == 0 {
        Map::empty()
    } else {
        entries_map(s.drop_last()).insert(s.last().key, s.last().data@)
    }
}

/// A key is in the map exactly when some slot carries it.
proof fn lemma_entries_map_domain(s: Seq<Slot>, key: u64)
    ensures
        entries_map(s).contains_key(key) <==> exists|i: int| 0 <= i < s.len() && s[i].key == key,
    decreases s.len(),
{
    if s.len() > 0 {
        lemma_entries_map_domain(s.drop_last(), key);
        if entries_map(s).contains_key(key) {
            if s.last().key == key {
                assert(s[s.len() - 1].key == key);
            } else {
                let i = choose|i: int| 0 <= i < s.drop_last().len() && s.drop_last()[i].key == key;
                assert(s[i].key == key);
            }
        }
        if exists|i: int| 0 <= i < s.len() && s[i].key == key {
            let i = choose|i: int| 0 <= i < s.len() && s[i].key == key;
            if i < s.len() - 1 {
                assert(s.drop_last()[i].key == key);
            }
        }
    }
}

/// With distinct keys, the slot carrying a key holds exactly the bytes the
/// map gives for it.
proof fn lemma_entries_map_at(s: Seq<Slot>, i: int)
    requires
        forall|p: int, q: int| 0 <= p < q < s.len() ==> s[p].key != s[q].key,
        0 <= i < s.len(),
    ensures
        entries_map(s).contains_key(s[i].key),
        entries_map(s)[s[i].key] == s[i].data@,
    decreases s.len(),
{
    if i == s.len() - 1 {
        lemma_entries_map_domain(s, s[i].key);
    } else {
        lemma_entries_map_at(s.drop_last(), i);
        assert(s.drop_last()[i] == s[i]);
        assert(s.last().key != s[i].key);
    }
}

impl SlotStore {
    /// The slots hold pairwise distinct addresses.
    pub closed spec fn wf(self) -> bool {
        forall|p: int, q: int|
            0 <= p < q < self.entries@.len() ==> self.entries@[p].key != self.entries@[q].key
    }

    /// An empty store.
    pub fn new() -> (s: SlotStore)
        ensures
            s.wf(),
            s@ == Map::<u64, Seq<u8>>::empty(),
    {
        SlotStore { entries: Vec::new() }
    }

    /// Whether a slot already exists at `key`.
    #[verifier::loop_isolation(false)]
    pub fn contains(&self, key: u64) -> (found: bool)
        ensures
            found == self@.contains_key(key),
    {
        proof {
            lemma_entries_map_domain(self.entries@, key);
        }
        let mut i: usize = 0;
        while i < self.entries.len()
            invariant
                i <= self.entries@.len(),
                forall|k: int| 0 <= k < i ==> self.entries@[k].key != key,
            decreases self.entries@.len() - i,
        {
            if self.entries[i].key == key {
                return true;
            }
            i = i + 1;
        }
        false
    }

    /// The bytes of the slot at `key`, if one was committed there.
    #[verifier::loop_isolation(false)]
    pub fn get(&self, key: u64) -> (res: Option<&Vec<u8>>)
        requires
            self.wf(),
        ensures
            match res {
                Some(data) => self@.contains_key(key) && data@ == self@[key],
                None => !self@.contains_key(key),
            },
    {
        proof {
            lemma_entries_map_domain(self.entries@, key);
        }
        let mut i: usize = 0;
        while i < self.entries.len()
            invariant
                i <= self.entries@.len(),
                forall|k: int| 0 <= k < i ==> self.entries@[k].key != key,
            decreases self.entries@.len() - i,
        {
            if self.entries[i].key == key {
                proof {
                    lemma_entries_map_at(self.entries@, i as int);
                }
                return Some(&self.entries[i].data);
            }
            i = i + 1;
        }
        None
    }

    /// Commits a new slot at `key`, or reports `AlreadyExists` and leaves
    /// the store untouched: exactly one creation at a given address can win.
    pub fn put_if_absent(&mut self, key: u64, data: Vec<u8>) -> (res: Result<(), ReceiptError>)
        requires
            old(self).wf(),
        ensures
            final(self).wf(),
            match res {
                Ok(()) => !old(self)@.contains_key(key) && final(self)@ == old(self)@.insert(
                    key,
                    data@,
                ),
                Err(e) => e == ReceiptError::AlreadyExists && old(self)@.contains_key(key)
                    && final(self)@ == old(self)@,
            },
    {
        if self.contains(key) {
            return Err(ReceiptError::AlreadyExists);
        }
        proof {
            lemma_entries_map_domain(self.entries@, key);
        }
        let ghost pre = self.entries@;
        self.entries.push(Slot { key, data });
        proof {
            assert(self.entries@.drop_last() =~= pre);
            assert(forall|p: int| 0 <= p < pre.len() ==> #[trigger] pre[p].key != key);
            assert(self.wf());
        }
        Ok(())
    }
}

impl View for SlotStore {
    type V = Map<u64, Seq<u8>>;

    closed spec fn view(&self) -> Map<u64, Seq<u8>> {
        entries_map(self.entries@)
    }
}

} // verus!
