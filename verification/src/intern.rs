//! The string interning table: record keys get small ids in first-seen
//! order, so that a key repeated over many records is written once.

use vstd::prelude::*;
use vstd::utf8::encode_utf8;
use ahash::AHashMap;
use ahash::AHasher;
use std::hash::Hash;
use std::hash::Hasher;
use crate::errors::{BFastError, ErrorView};
use crate::wire::{MAX_KEYS, MAX_KEY_BYTES};

verus! {

/// `ahash::RandomState`, the hasher factory of an `AHashMap`. It is never
/// looked into.
#[verifier::external_type_specification]
#[verifier::external_body]
pub struct ExRandomState(ahash::RandomState);

/// `ahash::AHashMap`. What a map holds is spoken of through `ids_of`.
#[verifier::external_type_specification]
#[verifier::external_body]
#[verifier::reject_recursive_types(K)]
#[verifier::reject_recursive_types(V)]
#[verifier::reject_recursive_types(S)]
pub struct ExAHashMap<K, V, S>(ahash::AHashMap<K, V, S>);

/// The map from interned strings to their ids.
pub type IdMap = AHashMap<String, u32>;

/// The key-to-id pairs that a map from strings to ids holds.
pub uninterp spec fn ids_of(m: IdMap) -> Map<Seq<char>, u32>;

/// `AHashMap::with_capacity`: a new map, which holds nothing. The
/// capacity asked for is kept within what a table can ever hold.
#[verifier::external_body]
fn map_with_capacity(capacity: usize) -> (m: IdMap)
    requires
        capacity <= MAX_KEYS,
    ensures
        forall|k: Seq<char>| !ids_of(m).contains_key(k),
{
    AHashMap::with_capacity(capacity)
}

/// `AHashMap::get`: the id stored under `key`, if the map holds the key.
#[verifier::external_body]
fn map_get(m: &IdMap, key: &String) -> (r: Option<u32>)
    ensures
        r == (if ids_of(*m).contains_key(key@) {
            Some(ids_of(*m)[key@])
        } else {
            None
        }),
{
    m.get(key).copied()
}

/// `AHashMap::insert`: afterwards the map holds `id` under `key`, and
/// under every other key what it held before.
#[verifier::external_body]
fn map_insert(m: &mut IdMap, key: String, id: u32)
    ensures
        ids_of(*final(m)) == ids_of(*old(m)).insert(key@, id),
{
    m.insert(key, id);
}

/// Feeds `key` to an `AHasher` made by `AHasher::default` and returns what
/// `finish` gives. The hasher's keys are chosen per process, so nothing is
/// claimed of the number.
#[verifier::external_body]
fn key_hash(key: &String) -> u64 {
    let mut hasher = AHasher::default();
    key.hash(&mut hasher);
    hasher.finish()
}

/// The number of slots of the lookup cache.
pub const CACHE_SLOTS: usize = 64;

/// What interning `key` into a table holding `keys` gives: the key's id and
/// the table afterwards. A key that is already there keeps its id; a new key
/// takes the next id, unless it is too long or the table is full.
pub open spec fn intern_spec(keys: Seq<Seq<char>>, key: Seq<char>) -> Result<
    (nat, Seq<Seq<char>>),
    ErrorView,
> {
    if keys.contains(key) {
        Ok((keys.index_of(key) as nat, keys))
    } else if encode_utf8(key).len() > MAX_KEY_BYTES {
        Err(ErrorView::StringTooLong(key))
    } else if keys.len() >= MAX_KEYS {
        Err(ErrorView::LengthOverflow)
    } else {
        Ok((keys.len(), keys.push(key)))
    }
}

/// A table's keys are distinct, short enough for a length byte, and few
/// enough for a sixteen-bit count.
pub open spec fn keys_wf(keys: Seq<Seq<char>>) -> bool {
    &&& keys.no_duplicates()
    &&& keys.len() <= MAX_KEYS
    &&& forall|i: int| 0 <= i < keys.len() ==> (#[trigger] encode_utf8(keys[i])).len() <= MAX_KEY_BYTES
}

/// Interning keeps a table well formed and only ever appends to it.
pub proof fn lemma_intern_spec(keys: Seq<Seq<char>>, key: Seq<char>)
    requires
        keys_wf(keys),
    ensures
        match intern_spec(keys, key) {
            Ok((id, after)) => {
                &&& keys_wf(after)
                &&& id < after.len()
                &&& after[id as int] == key
                &&& keys.len() <= after.len() <= keys.len() + 1
                &&& after.subrange(0, keys.len() as int) == keys
            },
            Err(_) => true,
        },
{
    if let Ok((id, after)) = intern_spec(keys, key) {
        if !keys.contains(key) {
            assert(after.subrange(0, keys.len() as int) =~= keys);
            assert forall|i: int, j: int| 0 <= i < after.len() && 0 <= j < after.len() && i != j implies after[i] != after[j] by {
                if i < keys.len() {
                    assert(keys.contains(after[i]));
                }
                if j < keys.len() {
                    assert(keys.contains(after[j]));
                }
            }
        } else {
            assert(after.subrange(0, keys.len() as int) =~= keys);
        }
    }
}

/// The interning table of one encode call.
///
/// `keys` lists the interned strings by id and is what the header is
/// written from. `ids` finds a key's id without a scan, and `cache` is a
/// direct-mapped shortcut in front of it, indexed by a truncated hash. A
/// cache hit counts only if the key stored under the cached id is the key
/// looked for, so two keys with one hash never share an id.
pub struct StringTable {
    ids: IdMap,
    keys: Vec<String>,
    cache: Vec<Option<(u32, u32)>>,
}

impl View for StringTable {
    type V = Seq<Seq<char>>;

    /// The interned strings in id order.
    closed spec fn view(&self) -> Seq<Seq<char>> {
        Seq::new(self.keys@.len(), |i: int| self.keys@[i]@)
    }
}

impl StringTable {
    /// The map and the list agree, and the list is a well-formed table.
    pub closed spec fn wf(&self) -> bool {
        &&& keys_wf(self@)
        &&& self.cache@.len() == CACHE_SLOTS
        &&& forall|k: Seq<char>| #[trigger] ids_of(self.ids).contains_key(k) <==> self@.contains(k)
        &&& forall|i: int| 0 <= i < self@.len() ==> ids_of(self.ids)[#[trigger] self@[i]] == i
    }

    /// A well-formed table has well-formed keys.
    pub proof fn lemma_wf(&self)
        requires
            self.wf(),
        ensures
            keys_wf(self@),
    {
    }

    /// An empty table.
    pub fn new() -> (t: StringTable)
        ensures
            t.wf(),
            t@ == Seq::<Seq<char>>::empty(),
    {
        let mut cache: Vec<Option<(u32, u32)>> = Vec::with_capacity(CACHE_SLOTS);
        let mut i: usize = 0;
        while i < CACHE_SLOTS
            invariant
                i <= CACHE_SLOTS,
                cache@.len() == i,
            decreases CACHE_SLOTS - i,
        {
            cache.push(None);
            i += 1;
        }
        let t = StringTable { ids: map_with_capacity(1024), keys: Vec::new(), cache };
        assert(t@ =~= Seq::<Seq<char>>::empty());
        t
    }

    /// The number of interned strings.
    pub fn len(&self) -> (n: usize)
        ensures
            n == self@.len(),
    {
        self.keys.len()
    }

    /// The string with id `id`.
    pub fn key(&self, id: usize) -> (s: &String)
        requires
            id < self@.len(),
        ensures
            s@ == self@[id as int],
    {
        &self.keys[id]
    }

    /// The id of `key`, which is interned first if the table does not hold
    /// it yet.
    pub fn intern(&mut self, key: &String) -> (r: Result<u32, BFastError>)
        requires
            old(self).wf(),
        ensures
            final(self).wf(),
            match intern_spec(old(self)@, key@) {
                Ok((id, after)) => r is Ok && r->Ok_0 == id && final(self)@ == after,
                Err(e) => r is Err && r->Err_0@ == e && final(self)@ == old(self)@,
            },
    {
        let hash: u32 = (key_hash(key) % 0x1_0000_0000) as u32;
        let slot: usize = (hash % 64) as usize;
        proof {
            lemma_intern_spec(self@, key@);
        }
        match self.cache[slot] {
            Some((cached_hash, id)) => {
                if cached_hash == hash && (id as usize) < self.keys.len() {
                    if self.keys[id as usize] == *key {
                        assert(self@[id as int] == key@);
                        assert(self@.contains(key@));
                        return Ok(id);
                    }
                }
            },
            None => {},
        }
        match map_get(&self.ids, key) {
            Some(id) => {
                proof {
                    let i = self@.index_of(key@);
                    assert(self@[i] == key@);
                }
                self.cache.set(slot, Some((hash, id)));
                Ok(id)
            },
            None => {
                if key.as_str().as_bytes().len() > MAX_KEY_BYTES {
                    return Err(BFastError::StringTooLong(key.clone()));
                }
                if self.keys.len() >= MAX_KEYS {
                    return Err(BFastError::LengthOverflow);
                }
                let id: u32 = self.keys.len() as u32;
                let ghost before = self@;
                map_insert(&mut self.ids, key.clone(), id);
                self.keys.push(key.clone());
                self.cache.set(slot, Some((hash, id)));
                proof {
                    assert(self@ =~= before.push(key@));
                    assert forall|k: Seq<char>| #[trigger] ids_of(self.ids).contains_key(k) <==> self@.contains(k) by {
                        if k == key@ {
                            assert(self@[before.len() as int] == k);
                        } else if before.contains(k) {
                            let i = before.index_of(k);
                            assert(self@[i] == k);
                        } else if self@.contains(k) {
                            let i = self@.index_of(k);
                            assert(before[i] == k);
                        }
                    }
                    assert forall|i: int| 0 <= i < self@.len() implies ids_of(self.ids)[#[trigger] self@[i]] == i by {
                        if i < before.len() {
                            assert(before[i] == self@[i]);
                            assert(before.contains(self@[i]));
                        }
                    }
                }
                Ok(id)
            },
        }
    }
}

} // verus!
