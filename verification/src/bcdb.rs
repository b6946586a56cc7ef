//! The block store: a bounded table from byte-string keys to byte-string values.
//!
//! The ledger reads and writes its blocks and its tip pointer here. The store
//! holds a limited number of entries; a write that would need one more fails
//! and leaves the store as it was.

use crate::codec::{bytes_eq, copy_bytes, i32_of_bits, le_value};
use crate::error::ChainError;
use byteorder::ByteOrder;
use vstd::prelude::*;

verus! {

/// The value that a list of entries holds for `key`: that of the first entry
/// with the key.
pub open spec fn lookup(entries: Seq<(Vec<u8>, Vec<u8>)>, key: Seq<u8>) -> Option<Seq<u8>>
    decreases entries.len(),
{
    if entries.len() == 0 {
        None
    } else if entries[0].0@ == key {
        Some(entries[0].1@)
    } else {
        lookup(entries.drop_first(), key)
    }
}

/// Replacing the value of the first entry with a key changes what the list
/// holds for that key and for no other.
proof fn lemma_lookup_update(
    entries: Seq<(Vec<u8>, Vec<u8>)>,
    at: int,
    entry: (Vec<u8>, Vec<u8>),
    key: Seq<u8>,
)
    requires
        0 <= at < entries.len(),
        entries[at].0@ == entry.0@,
        forall|j: int| 0 <= j < at ==> entries[j].0@ != entry.0@,
    ensures
        lookup(entries.update(at, entry), key) == if key == entry.0@ {
            Some(entry.1@)
        } else {
            lookup(entries, key)
        },
    decreases at,
{
    let changed = entries.update(at, entry);
    if at > 0 {
        assert(changed.drop_first() =~= entries.drop_first().update(at - 1, entry));
        assert forall|j: int| 0 <= j < at - 1 implies entries.drop_first()[j].0@ != entry.0@ by {
            assert(entries.drop_first()[j] == entries[j + 1]);
        }
        lemma_lookup_update(entries.drop_first(), at - 1, entry, key);
        assert(entries[0].0@ != entry.0@);
    } else {
        assert(changed.drop_first() =~= entries.drop_first());
    }
}

/// Appending an entry with a key that the list does not hold adds that key and
/// changes no other.
proof fn lemma_lookup_push(
    entries: Seq<(Vec<u8>, Vec<u8>)>,
    entry: (Vec<u8>, Vec<u8>),
    key: Seq<u8>,
)
    requires
        lookup(entries, entry.0@) is None,
    ensures
        lookup(entries.push(entry), key) == if key == entry.0@ {
            Some(entry.1@)
        } else {
            lookup(entries, key)
        },
    decreases entries.len(),
{
    let longer = entries.push(entry);
    if entries.len() > 0 {
        assert(longer.drop_first() =~= entries.drop_first().push(entry));
        lemma_lookup_push(entries.drop_first(), entry, key);
    } else {
        assert(longer.drop_first() =~= entries);
    }
}

/// A store of byte strings under byte-string keys, with room for a fixed
/// number of entries.
pub struct BlockchainDb {
    entries: Vec<(Vec<u8>, Vec<u8>)>,
    capacity: usize,
}

impl View for BlockchainDb {
    type V = Map<Seq<u8>, Seq<u8>>;

    /// What the store holds: the value under each key.
    closed spec fn view(&self) -> Map<Seq<u8>, Seq<u8>> {
        Map::new(
            |key: Seq<u8>| lookup(self.entries@, key) is Some,
            |key: Seq<u8>| lookup(self.entries@, key)->0,
        )
    }
}

impl BlockchainDb {
    /// The number of entries in the store.
    pub closed spec fn spec_len(&self) -> usize {
        self.entries.len()
    }

    /// The number of entries that the store can hold.
    pub closed spec fn spec_capacity(&self) -> usize {
        self.capacity
    }

    /// An empty store with room for `capacity` entries.
    pub fn new(capacity: usize) -> (db: Self)
        ensures
            db@ == Map::<Seq<u8>, Seq<u8>>::empty(),
            db.len() == 0,
            db.capacity() == capacity,
    {
        let db = BlockchainDb { entries: Vec::new(), capacity };
        assert(db@ =~= Map::<Seq<u8>, Seq<u8>>::empty());
        db
    }

    /// The number of entries in the store.
    #[verifier::when_used_as_spec(spec_len)]
    pub fn len(&self) -> (n: usize)
        ensures
            n == self.spec_len(),
    {
        self.entries.len()
    }

    /// The number of entries that the store can hold.
    #[verifier::when_used_as_spec(spec_capacity)]
    pub fn capacity(&self) -> (n: usize)
        ensures
            n == self.spec_capacity(),
    {
        self.capacity
    }

    /// Puts `val` under `key`. A key that the store holds keeps its place and
    /// takes the new value; a new key takes a free place. Where the key is new
    /// and no place is free, the write fails and changes nothing.
    pub fn write(&mut self, key: &[u8], val: &[u8]) -> (r: Result<(), ChainError>)
        ensures
            final(self).capacity() == old(self).capacity(),
            r is Err <==> !old(self)@.contains_key(key@) && old(self).len() >= old(self).capacity(),
            match r {
                Ok(_) => {
                    &&& final(self)@ == old(self)@.insert(key@, val@)
                    &&& final(self).len() == old(self).len() + if old(self)@.contains_key(key@) {
                        0int
                    } else {
                        1int
                    }
                },
                Err(e) => {
                    &&& e == ChainError::PersistenceFailure
                    &&& final(self)@ == old(self)@
                    &&& final(self).len() == old(self).len()
                },
            },
    {
        let entry = (copy_bytes(key), copy_bytes(val));
        let ghost before = self.entries@;
        let mut i: usize = 0;
        assert(before.skip(0) =~= before);
        while i < self.entries.len()
            invariant
                i <= self.entries@.len(),
                self.entries@ == before,
                before == old(self).entries@,
                self.capacity == old(self).capacity,
                entry.0@ == key@,
                entry.1@ == val@,
                forall|j: int| 0 <= j < i ==> before[j].0@ != key@,
                lookup(before, key@) == lookup(before.skip(i as int), key@),
            decreases self.entries@.len() - i,
        {
            if bytes_eq(self.entries[i].0.as_slice(), key) {
                self.entries.set(i, entry);
                proof {
                    assert(before.skip(i as int)[0] == before[i as int]);
                    assert(lookup(before.skip(i as int), key@) == Some(before[i as int].1@));
                    assert(old(self)@.contains_key(key@));
                    assert forall|k: Seq<u8>|
                        lookup(self.entries@, k) == if k == key@ {
                            Some(val@)
                        } else {
                            lookup(before, k)
                        } by {
                        lemma_lookup_update(before, i as int, entry, k);
                    }
                    assert(self@ =~= old(self)@.insert(key@, val@));
                }
                return Ok(());
            }
            proof {
                let rest = before.skip(i as int);
                assert(rest[0] == before[i as int]);
                assert(rest.drop_first() =~= before.skip(i + 1));
            }
            i += 1;
        }
        assert(before.skip(i as int) =~= Seq::<(Vec<u8>, Vec<u8>)>::empty());
        assert(lookup(before, key@) is None);
        if self.entries.len() >= self.capacity {
            return Err(ChainError::PersistenceFailure);
        }
        self.entries.push(entry);
        proof {
            assert forall|k: Seq<u8>|
                lookup(self.entries@, k) == if k == key@ {
                    Some(val@)
                } else {
                    lookup(before, k)
                } by {
                lemma_lookup_push(before, entry, k);
            }
            assert(self@ =~= old(self)@.insert(key@, val@));
        }
        Ok(())
    }

    /// The value under `key`, where the store holds one.
    pub fn read(&self, key: &[u8]) -> (r: Option<Vec<u8>>)
        ensures
            match r {
                Some(val) => self@.contains_key(key@) && self@[key@] == val@,
                None => !self@.contains_key(key@),
            },
    {
        let mut i: usize = 0;
        assert(self.entries@.skip(0) =~= self.entries@);
        while i < self.entries.len()
            invariant
                i <= self.entries@.len(),
                lookup(self.entries@, key@) == lookup(self.entries@.skip(i as int), key@),
            decreases self.entries@.len() - i,
        {
            proof {
                let rest = self.entries@.skip(i as int);
                assert(rest[0] == self.entries@[i as int]);
                assert(rest.drop_first() =~= self.entries@.skip(i + 1));
            }
            if bytes_eq(self.entries[i].0.as_slice(), key) {
                return Some(copy_bytes(self.entries[i].1.as_slice()));
            }
            i += 1;
        }
        assert(self.entries@.skip(i as int) =~= Seq::<(Vec<u8>, Vec<u8>)>::empty());
        None
    }
}

/// The last four bytes of a key, with zero bytes in front where the key is
/// shorter.
pub open spec fn key_window(key: Seq<u8>) -> Seq<u8> {
    Seq::new(
        4,
        |i: int|
            if key.len() + i < 4 {
                0u8
            } else {
                key[key.len() - 4 + i]
            },
    )
}

/// The number under which a disk store that is keyed by 32-bit numbers files
/// a key: the key's last four bytes, read little-endian.
pub open spec fn disk_key(key: Seq<u8>) -> i32 {
    i32_of_bits(le_value(key_window(key)))
}

/// Reads the first four bytes of `buffer` as a little-endian signed number.
///
/// Calls `byteorder::LittleEndian::read_i32`, which panics on a buffer of
/// fewer than four bytes.
#[verifier::external_body]
fn read_i32_le(buffer: &[u8]) -> (value: i32)
    requires
        buffer@.len() >= 4,
    ensures
        value == i32_of_bits(le_value(buffer@.take(4))),
{
    byteorder::LittleEndian::read_i32(buffer)
}

/// Converts the last four bytes of a key, or all of a shorter key, into the
/// 32-bit number under which a disk store files it.
pub fn from_u8(key: &[u8]) -> (number: i32)
    ensures
        number == disk_key(key@),
{
    let key_end: usize = if key.len() < 4 {
        key.len()
    } else {
        4
    };
    let buffer_start: usize = 4 - key_end;
    let mut buffer: Vec<u8> = Vec::new();
    let mut i: usize = 0;
    while i < 4
        invariant
            i <= 4,
            key_end <= 4,
            key_end <= key@.len(),
            key_end == 4 || key_end == key@.len(),
            buffer_start == 4 - key_end,
            buffer@ == key_window(key@).take(i as int),
        decreases 4 - i,
    {
        let byte: u8 = if i < buffer_start {
            0
        } else {
            key[key.len() - key_end + (i - buffer_start)]
        };
        buffer.push(byte);
        i += 1;
        assert(buffer@ =~= key_window(key@).take(i as int));
    }
    assert(buffer@ =~= key_window(key@));
    assert(buffer@.take(4) =~= buffer@);
    read_i32_le(buffer.as_slice())
}

} // verus!
