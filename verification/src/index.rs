//! A secondary index: for each key, the set of rows filed under it. The keys
//! are spread over buckets by a hash of theirs, so that a key is found among
//! the few keys of its bucket.

use crate::entry::{Entry, EntryView, RowId};
use crate::value::{Data, DataView};
use core::hash::Hasher;
use std::collections::hash_map::DefaultHasher;
use std::collections::{HashMap, HashSet};
use vstd::bytes::{spec_u64_to_le_bytes, u64_to_le_bytes};
use vstd::prelude::*;
use vstd::std_specs::hash::DefaultHasherAdditionalSpecFns;
use vstd::std_specs::iter::IteratorSpec;
use vstd::string::StringSliceAdditionalSpecFns;
use vstd::utf8::encode_utf8;

verus! {

broadcast use vstd::std_specs::hash::group_hash_axioms;

/// A key of an index: two keys are the same where they are the same value,
/// and the bucket of a key depends on its value alone.
pub trait IndexKey: View + Sized {
    /// The bucket in which a key of this value is filed.
    spec fn spec_bucket(key: Self::V) -> u64;

    /// Whether the two keys are the same value.
    fn same_key(&self, other: &Self) -> (r: bool)
        ensures
            r == (self@ == other@),
    ;

    /// The bucket in which the key is filed.
    fn bucket(&self) -> (r: u64)
        ensures
            r == Self::spec_bucket(self@),
    ;
}

/// A number for an integer, the same for the same integer.
pub open spec fn folded(n: int) -> u64 {
    if 0 <= n <= i64::MAX {
        n as u64
    } else if i64::MIN <= n < 0 {
        (-(n + 1)) as u64
    } else {
        0
    }
}

/// A number for an integer, the same for the same integer.
fn fold(n: i64) -> (r: u64)
    ensures
        r == folded(n as int),
{
    if n >= 0 {
        n as u64
    } else {
        (-(n + 1)) as u64
    }
}

/// The bytes that stand for a value when an entry is hashed.
pub open spec fn value_bytes(value: DataView) -> Seq<u8> {
    match value {
        DataView::Text(text) => encode_utf8(text),
        DataView::Integer(number) => spec_u64_to_le_bytes(folded(number)),
        DataView::Timestamp(secs) => spec_u64_to_le_bytes(folded(secs)),
    }
}

impl IndexKey for String {
    open spec fn spec_bucket(key: Seq<char>) -> u64 {
        DefaultHasher::spec_finish(seq![encode_utf8(key)])
    }

    fn same_key(&self, other: &String) -> (r: bool) {
        *self == *other
    }

    fn bucket(&self) -> (r: u64) {
        let mut hasher = DefaultHasher::new();
        hasher.write(self.as_str().as_bytes());
        assert(hasher@ =~= seq![encode_utf8(self@)]);
        hasher.finish()
    }
}

impl IndexKey for Entry {
    open spec fn spec_bucket(key: EntryView) -> u64 {
        DefaultHasher::spec_finish(seq![encode_utf8(key.name), value_bytes(key.value)])
    }

    fn same_key(&self, other: &Entry) -> (r: bool) {
        self.same(other)
    }

    fn bucket(&self) -> (r: u64) {
        let mut hasher = DefaultHasher::new();
        hasher.write(self.name.as_str().as_bytes());
        match &self.value {
            Data::DbString(text) => {
                hasher.write(text.as_str().as_bytes());
            },
            Data::DbI32(number) => {
                let bytes = u64_to_le_bytes(fold(*number as i64));
                hasher.write(bytes.as_slice());
            },
            Data::DbDateTime(timestamp) => {
                let bytes = u64_to_le_bytes(fold(timestamp.secs()));
                hasher.write(bytes.as_slice());
            },
        }
        assert(hasher@ =~= seq![encode_utf8(self@.name), value_bytes(self@.value)]);
        hasher.finish()
    }
}

/// One key of an index with the rows filed under it.
#[derive(Debug)]
pub struct Slot<K> {
    pub key: K,
    pub row_ids: HashSet<usize>,
}

/// The keys of one bucket, each with its rows. A key stays once it was filed;
/// the set under it may become empty.
#[derive(Debug)]
pub struct Bucket<K> {
    pub slots: Vec<Slot<K>>,
}

impl<K: IndexKey> Bucket<K> {
    /// No key stands in two slots.
    pub open spec fn wf(&self) -> bool {
        forall|i: int, j: int|
            0 <= i < j < self.slots.len() ==> (#[trigger] self.slots[i]).key@ != (
            #[trigger] self.slots[j]).key@
    }

    /// Whether the row is filed under the key.
    pub open spec fn has(&self, key: K::V, row: usize) -> bool {
        exists|i: int|
            0 <= i < self.slots.len() && (#[trigger] self.slots[i]).key@ == key
                && self.slots[i].row_ids@.contains(row)
    }

    /// Whether every key is one of the bucket `b`.
    pub open spec fn all_in(&self, b: u64) -> bool {
        forall|i: int|
            0 <= i < self.slots.len() ==> K::spec_bucket((#[trigger] self.slots[i]).key@) == b
    }

    /// A bucket with nothing filed.
    pub fn new() -> (r: Bucket<K>)
        ensures
            r.wf(),
            forall|b: u64| r.all_in(b),
            forall|key: K::V, row: usize| !r.has(key, row),
    {
        Bucket { slots: Vec::new() }
    }

    /// The slot of the key, where it has one.
    fn position(&self, key: &K) -> (r: Option<usize>)
        requires
            self.wf(),
        ensures
            r matches Some(p) ==> p < self.slots.len() && self.slots[p as int].key@ == key@,
            r is None ==> forall|i: int|
                0 <= i < self.slots.len() ==> (#[trigger] self.slots[i]).key@ != key@,
    {
        let mut i: usize = 0;
        while i < self.slots.len()
            invariant
                i <= self.slots.len(),
                forall|j: int| 0 <= j < i ==> (#[trigger] self.slots[j]).key@ != key@,
            decreases self.slots.len() - i,
        {
            if self.slots[i].key.same_key(key) {
                return Some(i);
            }
            i += 1;
        }
        None
    }

    /// Files the row under the key.
    pub fn insert(&mut self, key: K, row: usize)
        requires
            old(self).wf(),
        ensures
            final(self).wf(),
            forall|b: u64|
                old(self).all_in(b) && K::spec_bucket(key@) == b ==> final(self).all_in(b),
            forall|k: K::V, r: usize| #[trigger]
                final(self).has(k, r) <==> old(self).has(k, r) || (k == key@ && r == row),
    {
        let ghost before = *self;
        match self.position(&key) {
            Some(p) => {
                self.slots[p].row_ids.insert(row);
                proof {
                    assert(self.slots.len() == before.slots.len());
                    assert forall|i: int| 0 <= i < self.slots.len() implies (
                    #[trigger] self.slots[i]).key == before.slots[i].key by {}
                    assert forall|k: K::V, r: usize| #[trigger]
                        self.has(k, r) <==> before.has(k, r) || (k == key@ && r == row) by {
                        if self.has(k, r) {
                            let i = choose|i: int|
                                0 <= i < self.slots.len() && (#[trigger] self.slots[i]).key@ == k
                                    && self.slots[i].row_ids@.contains(r);
                            if i != p as int {
                                assert(before.slots[i].row_ids@.contains(r));
                            } else if r != row {
                                assert(before.slots[i].row_ids@.contains(r));
                            }
                        }
                        if before.has(k, r) {
                            let i = choose|i: int|
                                0 <= i < before.slots.len() && (#[trigger] before.slots[i]).key@
                                    == k && before.slots[i].row_ids@.contains(r);
                            assert(self.slots[i].row_ids@.contains(r));
                        }
                        if k == key@ && r == row {
                            assert(self.slots[p as int].row_ids@.contains(r));
                        }
                    }
                }
            },
            None => {
                let mut row_ids: HashSet<usize> = HashSet::new();
                row_ids.insert(row);
                let ghost key_view = key@;
                self.slots.push(Slot { key, row_ids });
                proof {
                    let n = before.slots.len() as int;
                    assert(self.slots[n].key@ == key_view);
                    assert forall|i: int| 0 <= i < n implies #[trigger] self.slots[i]
                        == before.slots[i] by {}
                    assert forall|k: K::V, r: usize| #[trigger]
                        self.has(k, r) <==> before.has(k, r) || (k == key_view && r == row) by {
                        if self.has(k, r) {
                            let i = choose|i: int|
                                0 <= i < self.slots.len() && (#[trigger] self.slots[i]).key@ == k
                                    && self.slots[i].row_ids@.contains(r);
                            if i < n {
                                assert(before.slots[i].row_ids@.contains(r));
                            }
                        }
                        if before.has(k, r) {
                            let i = choose|i: int|
                                0 <= i < before.slots.len() && (#[trigger] before.slots[i]).key@
                                    == k && before.slots[i].row_ids@.contains(r);
                            assert(self.slots[i].row_ids@.contains(r));
                        }
                        if k == key_view && r == row {
                            assert(self.slots[n].row_ids@.contains(r));
                        }
                    }
                }
            },
        }
    }

    /// Takes the row out from under the key. The key keeps its slot.
    pub fn remove(&mut self, key: &K, row: usize)
        requires
            old(self).wf(),
        ensures
            final(self).wf(),
            forall|b: u64| old(self).all_in(b) ==> final(self).all_in(b),
            forall|k: K::V, r: usize| #[trigger]
                final(self).has(k, r) <==> old(self).has(k, r) && !(k == key@ && r == row),
    {
        let ghost before = *self;
        match self.position(key) {
            Some(p) => {
                self.slots[p].row_ids.remove(&row);
                proof {
                    assert(self.slots.len() == before.slots.len());
                    assert forall|i: int| 0 <= i < self.slots.len() implies (
                    #[trigger] self.slots[i]).key == before.slots[i].key by {}
                    assert forall|k: K::V, r: usize| #[trigger]
                        self.has(k, r) <==> before.has(k, r) && !(k == key@ && r == row) by {
                        if self.has(k, r) {
                            let i = choose|i: int|
                                0 <= i < self.slots.len() && (#[trigger] self.slots[i]).key@ == k
                                    && self.slots[i].row_ids@.contains(r);
                            assert(before.slots[i].row_ids@.contains(r));
                        }
                        if before.has(k, r) && !(k == key@ && r == row) {
                            let i = choose|i: int|
                                0 <= i < before.slots.len() && (#[trigger] before.slots[i]).key@
                                    == k && before.slots[i].row_ids@.contains(r);
                            assert(self.slots[i].row_ids@.contains(r));
                        }
                    }
                }
            },
            None => {},
        }
    }

    /// The rows filed under the key, each once, in no particular order.
    pub fn row_ids(&self, key: &K) -> (r: Vec<RowId>)
        requires
            self.wf(),
        ensures
            r@.no_duplicates(),
            forall|row: RowId| r@.contains(row) <==> self.has(key@, row.0),
    {
        let mut found: Vec<RowId> = Vec::new();
        match self.position(key) {
            Some(p) => {
                let set = &self.slots[p].row_ids;
                for row in it: set.iter()
                    invariant
                        found@.len() == it.index(),
                        forall|j: int| 0 <= j < found@.len() ==> found@[j].0 == *it.seq()[j],
                        it.seq() == set.iter().remaining(),
                {
                    found.push(RowId(*row));
                }
                proof {
                    let seq = set.iter().remaining().unref();
                    assert(found@.len() == seq.len());
                    assert forall|i: int, j: int|
                        0 <= i < found@.len() && 0 <= j < found@.len() && i != j implies found@[i]
                        != found@[j] by {
                        assert(seq[i] != seq[j]);
                    }
                    assert forall|row: RowId| found@.contains(row) <==> self.has(key@, row.0) by {
                        if found@.contains(row) {
                            let j = choose|j: int| 0 <= j < found@.len() && found@[j] == row;
                            assert(seq[j] == row.0);
                            assert(seq.to_set().contains(row.0));
                        }
                        if self.has(key@, row.0) {
                            assert(set@.contains(row.0));
                            assert(seq.to_set().contains(row.0));
                            let j = choose|j: int| 0 <= j < seq.len() && seq[j] == row.0;
                            assert(found@[j] == row);
                        }
                    }
                }
            },
            None => {},
        }
        found
    }

    /// One of the rows filed under the key, or `None` where none is.
    pub fn first_row_id(&self, key: &K) -> (r: Option<RowId>)
        requires
            self.wf(),
        ensures
            r matches Some(row) ==> self.has(key@, row.0),
            r is None ==> forall|row: usize| !self.has(key@, row),
    {
        match self.position(key) {
            Some(p) => {
                let set = &self.slots[p].row_ids;
                for row in it: set.iter()
                    invariant
                        it.index() == 0,
                        it.seq() == set.iter().remaining(),
                        p < self.slots.len(),
                        self.slots[p as int].key@ == key@,
                        *set == self.slots[p as int].row_ids,
                {
                    proof {
                        let seq = set.iter().remaining().unref();
                        assert(seq[0] == *row);
                        assert(seq.to_set().contains(*row));
                        assert(self.slots[p as int].row_ids@.contains(*row));
                    }
                    return Some(RowId(*row));
                }
                proof {
                    let seq = set.iter().remaining().unref();
                    assert(seq.len() == 0);
                    assert forall|row: usize| !self.has(key@, row) by {
                        if self.has(key@, row) {
                            assert(set@.contains(row));
                            assert(seq.to_set().contains(row));
                        }
                    }
                }
                None
            },
            None => None,
        }
    }
}

/// An index from keys to sets of rows: the buckets by their numbers.
#[derive(Debug)]
pub struct Index<K> {
    pub buckets: HashMap<u64, Bucket<K>>,
}

impl<K: IndexKey> Index<K> {
    /// Every bucket holds keys of its own number only, and no key twice.
    pub open spec fn wf(&self) -> bool {
        forall|b: u64| #[trigger]
            self.buckets@.contains_key(b) ==> self.buckets@[b].wf() && self.buckets@[b].all_in(b)
    }

    /// Whether the row is filed under the key.
    pub open spec fn has(&self, key: K::V, row: usize) -> bool {
        self.buckets@.contains_key(K::spec_bucket(key)) && self.buckets@[K::spec_bucket(key)].has(
            key,
            row,
        )
    }

    /// An index with nothing filed.
    pub fn new() -> (r: Index<K>)
        ensures
            r.wf(),
            forall|key: K::V, row: usize| !r.has(key, row),
    {
        Index { buckets: HashMap::new() }
    }

    /// Files the row under the key.
    pub fn insert(&mut self, key: K, row: usize)
        requires
            old(self).wf(),
        ensures
            final(self).wf(),
            forall|k: K::V, r: usize| #[trigger]
                final(self).has(k, r) <==> old(self).has(k, r) || (k == key@ && r == row),
    {
        let ghost key_view = key@;
        let b = key.bucket();
        let mut bucket = match self.buckets.remove(&b) {
            Some(bucket) => bucket,
            None => Bucket::new(),
        };
        let ghost before = bucket;
        bucket.insert(key, row);
        let ghost after = bucket;
        self.buckets.insert(b, bucket);
        proof {
            assert forall|k: K::V, r: usize| #[trigger]
                self.has(k, r) <==> old(self).has(k, r) || (k == key_view && r == row) by {
                if K::spec_bucket(k) == b {
                    assert(after.has(k, r) <==> before.has(k, r) || (k == key_view && r == row));
                    assert(old(self).has(k, r) <==> before.has(k, r));
                }
            }
        }
    }

    /// Takes the row out from under the key. The key keeps its place.
    pub fn remove(&mut self, key: &K, row: usize)
        requires
            old(self).wf(),
        ensures
            final(self).wf(),
            forall|k: K::V, r: usize| #[trigger]
                final(self).has(k, r) <==> old(self).has(k, r) && !(k == key@ && r == row),
    {
        let b = key.bucket();
        match self.buckets.remove(&b) {
            Some(bucket) => {
                let ghost before = bucket;
                let mut bucket = bucket;
                bucket.remove(key, row);
                let ghost after = bucket;
                self.buckets.insert(b, bucket);
                proof {
                    assert forall|k: K::V, r: usize| #[trigger]
                        self.has(k, r) <==> old(self).has(k, r) && !(k == key@ && r == row) by {
                        if K::spec_bucket(k) == b {
                            assert(after.has(k, r) <==> before.has(k, r) && !(k == key@ && r
                                == row));
                            assert(old(self).has(k, r) <==> before.has(k, r));
                        }
                    }
                }
            },
            None => {
                proof {
                    assert(self.buckets@ =~= old(self).buckets@);
                }
            },
        }
    }

    /// The rows filed under the key, each once, in no particular order.
    pub fn row_ids(&self, key: &K) -> (r: Vec<RowId>)
        requires
            self.wf(),
        ensures
            r@.no_duplicates(),
            forall|row: RowId| r@.contains(row) <==> self.has(key@, row.0),
    {
        match self.buckets.get(&key.bucket()) {
            Some(bucket) => bucket.row_ids(key),
            None => Vec::new(),
        }
    }

    /// One of the rows filed under the key, or `None` where none is.
    pub fn first_row_id(&self, key: &K) -> (r: Option<RowId>)
        requires
            self.wf(),
        ensures
            r matches Some(row) ==> self.has(key@, row.0),
            r is None ==> forall|row: usize| !self.has(key@, row),
    {
        match self.buckets.get(&key.bucket()) {
            Some(bucket) => bucket.first_row_id(key),
            None => None,
        }
    }
}

} // verus!
