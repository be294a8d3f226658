//! Tables from byte strings to numbers, and from numbers to byte strings.

use std::collections::HashMap;

use vstd::prelude::*;

use crate::text::{same_bytes, slice_to_vec};

verus! {

/// The number under which a byte string is filed.
spec fn digest(key: Seq<u8>) -> u64
    decreases key.len(),
{
    if key.len() == 0 {
        0
    } else {
        ((digest(key.drop_last()) * 257 + key.last()) % 4294967291) as u64
    }
}

/// Computes `digest`.
fn digest_of(key: &[u8]) -> (r: u64)
    ensures
        r == digest(key@),
{
    let mut h: u64 = 0;
    let mut i: usize = 0;
    assert(key@.take(0) =~= Seq::<u8>::empty());
    while i < key.len()
        invariant
            i <= key@.len(),
            h == digest(key@.take(i as int)),
            h < 4294967291,
        decreases key@.len() - i,
    {
        assert(key@.take(i + 1).drop_last() =~= key@.take(i as int));
        h = (h * 257 + key[i] as u64) % 4294967291;
        i += 1;
    }
    assert(key@.take(i as int) =~= key@);
    h
}

/// One filed pair.
type Entry = (Vec<u8>, u32);

/// Whether `entry` files `key`.
spec fn files(entry: Entry, key: Seq<u8>) -> bool {
    entry.0@ == key
}

/// What a list of pairs under one digest keeps: its keys have that digest, occur once, and hold
/// what the table says.
spec fn sound(bucket: Seq<Entry>, h: u64, model: Map<Seq<u8>, u32>) -> bool {
    &&& forall|i: int|
        0 <= i < bucket.len() ==> {
            &&& digest((#[trigger] bucket[i]).0@) == h
            &&& model.contains_key(bucket[i].0@)
            &&& model[bucket[i].0@] == bucket[i].1
        }
    &&& forall|i: int, j: int|
        0 <= i < j < bucket.len() ==> (#[trigger] bucket[i]).0@ != (#[trigger] bucket[j]).0@
}

/// Whether `bucket` files `key`.
spec fn lists(bucket: Seq<Entry>, key: Seq<u8>) -> bool {
    exists|i: int| 0 <= i < bucket.len() && files(#[trigger] bucket[i], key)
}

/// Whether the lists under the digests make up the table `model`.
spec fn consistent(buckets: Map<u64, Vec<Entry>>, model: Map<Seq<u8>, u32>) -> bool {
    &&& forall|h: u64| #[trigger] buckets.contains_key(h) ==> sound(buckets[h]@, h, model)
    &&& forall|key: Seq<u8>| #[trigger]
        model.contains_key(key) ==> buckets.contains_key(digest(key)) && lists(
            buckets[digest(key)]@,
            key,
        )
}

/// A table from byte strings to numbers.
///
/// The pairs are kept in lists, one for each digest that occurs.
pub struct ByteTable {
    buckets: HashMap<u64, Vec<Entry>>,
    model: Ghost<Map<Seq<u8>, u32>>,
}

impl View for ByteTable {
    type V = Map<Seq<u8>, u32>;

    closed spec fn view(&self) -> Map<Seq<u8>, u32> {
        self.model@
    }
}

impl ByteTable {
    #[verifier::type_invariant]
    spec fn well_formed(self) -> bool {
        consistent(self.buckets@, self.model@)
    }

    /// The empty table.
    pub fn new() -> (r: Self)
        ensures
            r@ == Map::<Seq<u8>, u32>::empty(),
    {
        broadcast use vstd::std_specs::hash::group_hash_axioms;

        ByteTable { buckets: HashMap::new(), model: Ghost(Map::empty()) }
    }

    /// What is filed under `key`.
    pub fn get(&self, key: &[u8]) -> (r: Option<u32>)
        ensures
            r == (if self@.contains_key(key@) {
                Some(self@[key@])
            } else {
                None
            }),
    {
        broadcast use vstd::std_specs::hash::group_hash_axioms;

        proof {
            use_type_invariant(self);
        }
        let h: u64 = digest_of(key);
        match self.buckets.get(&h) {
            Some(bucket) => {
                let at: usize = Self::position(bucket, key);
                if at < bucket.len() {
                    Some(bucket[at].1)
                } else {
                    None
                }
            },
            None => None,
        }
    }

    /// Where `key` stands in a list; its length where it does not.
    fn position(bucket: &Vec<Entry>, key: &[u8]) -> (r: usize)
        ensures
            r <= bucket@.len(),
            r < bucket@.len() ==> bucket@[r as int].0@ == key@,
            r == bucket@.len() <==> !lists(bucket@, key@),
    {
        let mut i: usize = 0;
        while i < bucket.len()
            invariant
                i <= bucket@.len(),
                forall|j: int| 0 <= j < i ==> !files(#[trigger] bucket@[j], key@),
            decreases bucket@.len() - i,
        {
            if same_bytes(&bucket[i].0, key) {
                assert(files(bucket@[i as int], key@));
                return i;
            }
            i += 1;
        }
        i
    }

    /// Files `value` under `key`, in place of what stood there.
    pub fn insert(&mut self, key: &[u8], value: u32)
        ensures
            final(self)@ == old(self)@.insert(key@, value),
    {
        broadcast use vstd::std_specs::hash::group_hash_axioms;

        let mut table = ByteTable::new();
        std::mem::swap(self, &mut table);
        proof {
            use_type_invariant(&table);
        }
        let ByteTable { mut buckets, model } = table;
        let ghost before = buckets@;
        let ghost new_model = model@.insert(key@, value);
        let h: u64 = digest_of(key);
        let mut bucket: Vec<Entry> = match buckets.remove(&h) {
            Some(bucket) => bucket,
            None => Vec::new(),
        };
        let ghost old_bucket = bucket@;
        assert(sound(old_bucket, h, model@));
        let at: usize = Self::position(&bucket, key);
        if at < bucket.len() {
            bucket.set(at, (slice_to_vec(key), value));
        } else {
            bucket.push((slice_to_vec(key), value));
        }
        assert(files(bucket@[at as int], key@));
        assert(sound(bucket@, h, new_model)) by {
            assert forall|i: int| 0 <= i < bucket@.len() implies {
                &&& digest((#[trigger] bucket@[i]).0@) == h
                &&& new_model.contains_key(bucket@[i].0@)
                &&& new_model[bucket@[i].0@] == bucket@[i].1
            } by {
                if i != at {
                    assert(bucket@[i] == old_bucket[i]);
                    assert(!files(old_bucket[i], key@));
                }
            }
            assert forall|i: int, j: int| 0 <= i < j < bucket@.len() implies (
            #[trigger] bucket@[i]).0@ != (#[trigger] bucket@[j]).0@ by {
                if i != at {
                    assert(bucket@[i] == old_bucket[i]);
                    assert(!files(old_bucket[i], key@));
                }
                if j != at {
                    assert(bucket@[j] == old_bucket[j]);
                    assert(!files(old_bucket[j], key@));
                }
            }
        }
        let ghost new_bucket = bucket@;
        buckets.insert(h, bucket);
        assert(consistent(buckets@, new_model)) by {
            assert forall|g: u64| #[trigger] buckets@.contains_key(g) implies sound(
                buckets@[g]@,
                g,
                new_model,
            ) by {
                if g != h {
                    assert(before.contains_key(g));
                    assert(sound(before[g]@, g, model@));
                    assert forall|i: int| 0 <= i < before[g]@.len() implies {
                        &&& digest((#[trigger] before[g]@[i]).0@) == g
                        &&& new_model.contains_key(before[g]@[i].0@)
                        &&& new_model[before[g]@[i].0@] == before[g]@[i].1
                    } by {
                        assert(before[g]@[i].0@ != key@);
                    }
                }
            }
            assert forall|k: Seq<u8>| #[trigger]
                new_model.contains_key(k) implies buckets@.contains_key(digest(k)) && lists(
                buckets@[digest(k)]@,
                k,
            ) by {
                if k == key@ {
                    assert(files(new_bucket[at as int], k));
                } else {
                    assert(model@.contains_key(k));
                    if digest(k) == h {
                        let i = choose|i: int|
                            0 <= i < old_bucket.len() && files(#[trigger] old_bucket[i], k);
                        assert(files(new_bucket[i], k));
                    }
                }
            }
        }
        *self = ByteTable { buckets, model: Ghost(new_model) };
    }
}

/// A table from numbers to byte strings.
pub struct IdTable {
    entries: HashMap<u32, Vec<u8>>,
}

impl View for IdTable {
    type V = Map<u32, Seq<u8>>;

    closed spec fn view(&self) -> Map<u32, Seq<u8>> {
        self.entries@.map_values(|b: Vec<u8>| b@)
    }
}

impl IdTable {
    /// The empty table.
    pub fn new() -> (r: Self)
        ensures
            r@ == Map::<u32, Seq<u8>>::empty(),
    {
        let r = IdTable { entries: HashMap::new() };
        assert(r@ =~= Map::<u32, Seq<u8>>::empty());
        r
    }

    /// The number of ids that the table holds.
    pub fn len(&self) -> (r: usize)
        ensures
            r == self@.len(),
    {
        broadcast use vstd::std_specs::hash::group_hash_axioms;

        assert(self@.dom() =~= self.entries@.dom());
        self.entries.len()
    }

    /// What is filed under `id`.
    pub fn get(&self, id: u32) -> (r: Option<&Vec<u8>>)
        ensures
            match r {
                Some(bytes) => self@.contains_key(id) && self@[id] == bytes@,
                None => !self@.contains_key(id),
            },
    {
        broadcast use vstd::std_specs::hash::group_hash_axioms;

        self.entries.get(&id)
    }

    /// Files `bytes` under `id`, in place of what stood there.
    pub fn insert(&mut self, id: u32, bytes: Vec<u8>)
        ensures
            final(self)@ == old(self)@.insert(id, bytes@),
    {
        broadcast use vstd::std_specs::hash::group_hash_axioms;

        let ghost before = self.entries@;
        self.entries.insert(id, bytes);
        assert(self@ =~= before.map_values(|b: Vec<u8>| b@).insert(id, bytes@));
    }
}

} // verus!
