use vstd::prelude::*;
use crate::multi_dense_storage::copy_vector;
use crate::types::{OperationError, PointOffsetType};

verus! {

/// The key under which the payload of a point is stored: the offset of the
/// point as a CBOR unsigned integer, in the fewest bytes.
pub open spec fn spec_encode_key(point_id: PointOffsetType) -> Seq<u8> {
    if point_id <= 0x17 {
        seq![point_id as u8]
    } else if point_id <= 0xff {
        seq![24u8, point_id as u8]
    } else if point_id <= 0xffff {
        seq![25u8, (point_id / 0x100) as u8, (point_id % 0x100) as u8]
    } else {
        seq![
            26u8,
            (point_id / 0x100_0000) as u8,
            (point_id / 0x1_0000 % 0x100) as u8,
            (point_id / 0x100 % 0x100) as u8,
            (point_id % 0x100) as u8,
        ]
    }
}

/// Different points have different keys.
pub proof fn lemma_keys_differ(a: PointOffsetType, b: PointOffsetType)
    requires
        spec_encode_key(a) == spec_encode_key(b),
    ensures
        a == b,
{
    let ka = spec_encode_key(a);
    let kb = spec_encode_key(b);
    assert(ka.len() == kb.len());
    assert(ka[0] == kb[0]);
    if a <= 0x17 {
        assert(b <= 0x17);
    } else if a <= 0xff {
        assert(ka[1] == kb[1]);
    } else if a <= 0xffff {
        assert(ka[1] == kb[1]);
        assert(ka[2] == kb[2]);
    } else {
        assert(ka[1] == kb[1]);
        assert(ka[2] == kb[2]);
        assert(ka[3] == kb[3]);
        assert(ka[4] == kb[4]);
    }
}

/// What decoding a key gives: the offset that the bytes stand for, `None`
/// where they are no single CBOR value that fits an offset.
pub uninterp spec fn cbor_key(bytes: Seq<u8>) -> Option<PointOffsetType>;

/// Encodes the offset of a point by `serde_cbor::to_vec`: a CBOR unsigned
/// integer, which is the value itself up to 23, else a byte that tells the
/// width and the value in one, two or four bytes, the high byte first.
/// Decoding what was encoded gives the offset back.
#[verifier::external_body]
fn encode_key(point_id: PointOffsetType) -> (r: Vec<u8>)
    ensures
        r@ == spec_encode_key(point_id),
        cbor_key(r@) == Some(point_id),
{
    serde_cbor::to_vec(&point_id).unwrap_or_default()
}

/// Decodes the offset of a point by `serde_cbor::from_slice`. The result is
/// named, not described.
#[verifier::external_body]
fn decode_key(bytes: &[u8]) -> (r: Option<PointOffsetType>)
    ensures
        r == cbor_key(bytes@),
{
    serde_cbor::from_slice::<PointOffsetType>(bytes).ok()
}

fn same_bytes(a: &Vec<u8>, b: &Vec<u8>) -> (r: bool)
    ensures
        r == (a@ == b@),
{
    if a.len() != b.len() {
        return false;
    }
    let mut i: usize = 0;
    while i < a.len()
        invariant
            i <= a.len(),
            a@.len() == b@.len(),
            forall|k: int| 0 <= k < i ==> a@[k] == b@[k],
        decreases a.len() - i,
    {
        if a[i] != b[i] {
            return false;
        }
        i = i + 1;
    }
    assert(a@ =~= b@);
    true
}

/// Payloads kept under the keys of their points, as a store of byte keys
/// and byte values keeps them. A payload is held as the bytes of its
/// document.
#[derive(Debug)]
pub struct OnDiskPayloadStorage {
    entries: Vec<(Vec<u8>, Vec<u8>)>,
}

/// The key is the key of a point: it decodes to the offset of a point, of
/// which it is the encoding.
pub open spec fn key_of_point(key: Seq<u8>) -> bool {
    cbor_key(key) matches Some(point_id) && spec_encode_key(point_id) == key
}

/// A row of the point stands among the rows.
pub open spec fn has_row(rows: Seq<(PointOffsetType, Vec<u8>)>, point_id: PointOffsetType) -> bool {
    exists|a: int| 0 <= a < rows.len() && (#[trigger] rows[a]).0 == point_id
}

/// One of the first `upto` keys is the key of the point.
pub open spec fn has_key_before(
    entries: Seq<(Vec<u8>, Vec<u8>)>,
    upto: int,
    point_id: PointOffsetType,
) -> bool {
    exists|k: int| 0 <= k < upto && cbor_key((#[trigger] entries[k]).0@) == Some(point_id)
}

/// True when the entry at `i` has the key.
pub open spec fn has_key_at(entries: Seq<(Vec<u8>, Vec<u8>)>, key: Seq<u8>, i: int) -> bool {
    0 <= i < entries.len() && entries[i].0@ == key
}

impl OnDiskPayloadStorage {
    /// No key stands twice in the store.
    pub closed spec fn wf(&self) -> bool {
        &&& forall|i: int, j: int|
            #![trigger self.entries@[i], self.entries@[j]]
            0 <= i < j < self.entries@.len() ==> self.entries@[i].0@ != self.entries@[j].0@
        &&& forall|i: int|
            0 <= i < self.entries@.len() ==> key_of_point((#[trigger] self.entries@[i]).0@)
    }

    /// The value stored under a key.
    pub closed spec fn value_of(&self, key: Seq<u8>) -> Option<Seq<u8>> {
        if exists|i: int| has_key_at(self.entries@, key, i) {
            Some(self.entries@[choose|i: int| has_key_at(self.entries@, key, i)].1@)
        } else {
            None
        }
    }

    /// The payload stored for a point.
    pub open spec fn payload_of(&self, point_id: PointOffsetType) -> Option<Seq<u8>> {
        self.value_of(spec_encode_key(point_id))
    }

    /// The payload stored for a point, an empty one where none is stored.
    pub open spec fn stored_or_empty(&self, point_id: PointOffsetType) -> Seq<u8> {
        match self.payload_of(point_id) {
            Some(bytes) => bytes,
            None => Seq::<u8>::empty(),
        }
    }

    /// The keys in the order of the store.
    pub closed spec fn keys(&self) -> Seq<Seq<u8>> {
        self.entries@.map_values(|e: (Vec<u8>, Vec<u8>)| e.0@)
    }

    /// The values in the order of the store.
    pub closed spec fn values(&self) -> Seq<Seq<u8>> {
        self.entries@.map_values(|e: (Vec<u8>, Vec<u8>)| e.1@)
    }

    proof fn lemma_value_at(&self, key: Seq<u8>, i: int)
        requires
            self.wf(),
            has_key_at(self.entries@, key, i),
        ensures
            self.value_of(key) == Some(self.entries@[i].1@),
    {
        let chosen = choose|k: int| has_key_at(self.entries@, key, k);
        assert(has_key_at(self.entries@, key, chosen));
        if chosen < i {
            assert(self.entries@[chosen].0@ != self.entries@[i].0@);
        } else if chosen > i {
            assert(self.entries@[i].0@ != self.entries@[chosen].0@);
        }
    }

    /// An empty store.
    pub fn open() -> (r: Self)
        ensures
            r.wf(),
            forall|key: Seq<u8>| r.value_of(key) is None,
            r.keys().len() == 0,
    {
        OnDiskPayloadStorage { entries: Vec::new() }
    }

    fn find(&self, key: &Vec<u8>) -> (r: Option<usize>)
        requires
            self.wf(),
        ensures
            match r {
                Some(i) => has_key_at(self.entries@, key@, i as int),
                None => forall|i: int| !has_key_at(self.entries@, key@, i),
            },
    {
        let mut i: usize = 0;
        while i < self.entries.len()
            invariant
                i <= self.entries.len(),
                forall|k: int| 0 <= k < i ==> !has_key_at(self.entries@, key@, k),
            decreases self.entries.len() - i,
        {
            if same_bytes(&self.entries[i].0, key) {
                return Some(i);
            }
            i = i + 1;
        }
        None
    }

    /// Stores the payload of a point in place of the one it had.
    pub fn update_storage(&mut self, point_id: PointOffsetType, payload: &Vec<u8>)
        requires
            old(self).wf(),
        ensures
            final(self).wf(),
            final(self).payload_of(point_id) == Some(payload@),
            forall|other: PointOffsetType|
                other != point_id ==> final(self).payload_of(other) == old(self).payload_of(other),
    {
        let key: Vec<u8> = encode_key(point_id);
        let ghost before = self.entries@;
        match self.find(&key) {
            Some(i) => {
                self.entries[i].1 = copy_vector(payload);
                proof {
                    let after = self.entries@;
                    assert forall|a: int, b: int|
                        #![trigger after[a], after[b]]
                        0 <= a < b < after.len() implies after[a].0@ != after[b].0@ by {
                        assert(after[a].0@ == before[a].0@ && after[b].0@ == before[b].0@);
                        assert(before[a].0@ != before[b].0@);
                    }
                    assert forall|a: int| 0 <= a < after.len() implies key_of_point(
                        (#[trigger] after[a]).0@,
                    ) by {
                        assert(after[a].0@ == before[a].0@);
                        assert(key_of_point(before[a].0@));
                    }
                    assert(has_key_at(after, key@, i as int));
                    self.lemma_value_at(key@, i as int);
                    assert forall|other: PointOffsetType| other != point_id implies self.payload_of(
                        other,
                    ) == old(self).payload_of(other) by {
                        let k = spec_encode_key(other);
                        if k == key@ {
                            lemma_keys_differ(other, point_id);
                        }
                        assert forall|q: int| has_key_at(after, k, q) == has_key_at(before, k, q) by {
                            if 0 <= q < after.len() {
                                assert(after[q].0@ == before[q].0@);
                            }
                        }
                        if exists|q: int| has_key_at(before, k, q) {
                            let q = choose|q: int| has_key_at(before, k, q);
                            assert(has_key_at(after, k, q));
                            assert(q != i);
                            assert(after[q] == before[q]);
                            self.lemma_value_at(k, q);
                            old(self).lemma_value_at(k, q);
                        } else {
                            assert(!(exists|q: int| has_key_at(after, k, q))) by {
                                if exists|q: int| has_key_at(after, k, q) {
                                    let q = choose|q: int| has_key_at(after, k, q);
                                    assert(has_key_at(before, k, q));
                                }
                            }
                        }
                    }
                }
            },
            None => {
                self.entries.push((key, copy_vector(payload)));
                proof {
                    let after = self.entries@;
                    let n = before.len() as int;
                    assert forall|a: int, b: int|
                        #![trigger after[a], after[b]]
                        0 <= a < b < after.len() implies after[a].0@ != after[b].0@ by {
                        assert(after[a] == before[a]);
                        if b < n {
                            assert(after[b] == before[b]);
                            assert(before[a].0@ != before[b].0@);
                        } else {
                            assert(!has_key_at(before, key@, a));
                        }
                    }
                    assert forall|a: int| 0 <= a < after.len() implies key_of_point(
                        (#[trigger] after[a]).0@,
                    ) by {
                        if a < n {
                            assert(after[a] == before[a]);
                            assert(key_of_point(before[a].0@));
                        }
                    }
                    assert(has_key_at(after, key@, n));
                    self.lemma_value_at(key@, n);
                    assert forall|other: PointOffsetType| other != point_id implies self.payload_of(
                        other,
                    ) == old(self).payload_of(other) by {
                        let k = spec_encode_key(other);
                        if k == key@ {
                            lemma_keys_differ(other, point_id);
                        }
                        if exists|q: int| has_key_at(before, k, q) {
                            let q = choose|q: int| has_key_at(before, k, q);
                            assert(after[q] == before[q]);
                            assert(has_key_at(after, k, q));
                            self.lemma_value_at(k, q);
                            old(self).lemma_value_at(k, q);
                        } else {
                            assert(!(exists|q: int| has_key_at(after, k, q))) by {
                                if exists|q: int| has_key_at(after, k, q) {
                                    let q = choose|q: int| has_key_at(after, k, q);
                                    assert(q < n);
                                    assert(after[q] == before[q]);
                                    assert(has_key_at(before, k, q));
                                }
                            }
                        }
                    }
                }
            },
        }
    }

    /// The payload of a point, `None` where none is stored.
    pub fn read_payload(&self, point_id: PointOffsetType) -> (r: Option<Vec<u8>>)
        requires
            self.wf(),
        ensures
            match r {
                Some(bytes) => self.payload_of(point_id) == Some(bytes@),
                None => self.payload_of(point_id) is None,
            },
    {
        let key: Vec<u8> = encode_key(point_id);
        match self.find(&key) {
            Some(i) => {
                proof {
                    self.lemma_value_at(key@, i as int);
                }
                Some(copy_vector(&self.entries[i].1))
            },
            None => None,
        }
    }

    /// The payload of a point, an empty one where none is stored.
    pub fn payload(&self, point_id: PointOffsetType) -> (r: Vec<u8>)
        requires
            self.wf(),
        ensures
            r@ == match self.payload_of(point_id) {
                Some(bytes) => bytes,
                None => Seq::<u8>::empty(),
            },
    {
        match self.read_payload(point_id) {
            Some(bytes) => bytes,
            None => Vec::new(),
        }
    }

    /// Takes the payload of a point out of the store.
    pub fn remove_from_storage(&mut self, point_id: PointOffsetType)
        requires
            old(self).wf(),
        ensures
            final(self).wf(),
            final(self).payload_of(point_id) is None,
            forall|other: PointOffsetType|
                other != point_id ==> final(self).payload_of(other) == old(self).payload_of(other),
    {
        let key: Vec<u8> = encode_key(point_id);
        let ghost before = self.entries@;
        match self.find(&key) {
            Some(i) => {
                self.entries.remove(i);
                proof {
                    let after = self.entries@;
                    assert(after == before.remove(i as int));
                    assert forall|a: int, b: int|
                        #![trigger after[a], after[b]]
                        0 <= a < b < after.len() implies after[a].0@ != after[b].0@ by {
                        let ba = if a < i { a } else { a + 1 };
                        let bb = if b < i { b } else { b + 1 };
                        assert(after[a] == before[ba] && after[b] == before[bb]);
                        assert(before[ba].0@ != before[bb].0@);
                    }
                    assert forall|a: int| 0 <= a < after.len() implies key_of_point(
                        (#[trigger] after[a]).0@,
                    ) by {
                        let ba = if a < i { a } else { a + 1 };
                        assert(after[a] == before[ba]);
                        assert(key_of_point(before[ba].0@));
                    }
                    assert(!(exists|q: int| has_key_at(after, key@, q))) by {
                        if exists|q: int| has_key_at(after, key@, q) {
                            let q = choose|q: int| has_key_at(after, key@, q);
                            let bq = if q < i { q } else { q + 1 };
                            assert(after[q] == before[bq]);
                            if bq < i {
                                assert(before[bq].0@ != before[i as int].0@);
                            } else {
                                assert(before[i as int].0@ != before[bq].0@);
                            }
                        }
                    }
                    assert forall|other: PointOffsetType| other != point_id implies self.payload_of(
                        other,
                    ) == old(self).payload_of(other) by {
                        let k = spec_encode_key(other);
                        if k == key@ {
                            lemma_keys_differ(other, point_id);
                        }
                        if exists|q: int| has_key_at(before, k, q) {
                            let q = choose|q: int| has_key_at(before, k, q);
                            assert(q != i);
                            let aq = if q < i { q } else { q - 1 };
                            assert(after[aq] == before[q]);
                            assert(has_key_at(after, k, aq));
                            self.lemma_value_at(k, aq);
                            old(self).lemma_value_at(k, q);
                        } else {
                            assert(!(exists|q: int| has_key_at(after, k, q))) by {
                                if exists|q: int| has_key_at(after, k, q) {
                                    let q = choose|q: int| has_key_at(after, k, q);
                                    let bq = if q < i { q } else { q + 1 };
                                    assert(after[q] == before[bq]);
                                    assert(has_key_at(before, k, bq));
                                }
                            }
                        }
                    }
                }
            },
            None => {},
        }
    }

    /// Stores the payload of a point in place of the one it had.
    pub fn assign_all(&mut self, point_id: PointOffsetType, payload: &Vec<u8>)
        requires
            old(self).wf(),
        ensures
            final(self).wf(),
            final(self).payload_of(point_id) == Some(payload@),
            forall|other: PointOffsetType|
                other != point_id ==> final(self).payload_of(other) == old(self).payload_of(other),
    {
        self.update_storage(point_id, payload)
    }

    /// Adds a payload to the one stored for a point: where one is stored,
    /// `merge` makes one document of the stored and the given one, and
    /// that is stored; where none is, the given one is stored as it is.
    pub fn assign<F: Fn(Vec<u8>, Vec<u8>) -> Vec<u8>>(
        &mut self,
        point_id: PointOffsetType,
        payload: &Vec<u8>,
        merge: F,
    )
        requires
            old(self).wf(),
            forall|stored: Vec<u8>, given: Vec<u8>| call_requires(merge, (stored, given)),
        ensures
            final(self).wf(),
            forall|other: PointOffsetType|
                other != point_id ==> final(self).payload_of(other) == old(self).payload_of(other),
            match old(self).payload_of(point_id) {
                None => final(self).payload_of(point_id) == Some(payload@),
                Some(bytes) => exists|stored: Vec<u8>, given: Vec<u8>, merged: Vec<u8>|
                    stored@ == bytes && given@ == payload@ && call_ensures(
                        merge,
                        (stored, given),
                        merged,
                    ) && final(self).payload_of(point_id) == Some(merged@),
            },
    {
        match self.read_payload(point_id) {
            Some(stored) => {
                let merged: Vec<u8> = merge(stored, copy_vector(payload));
                self.update_storage(point_id, &merged);
            },
            None => {
                self.update_storage(point_id, payload);
            },
        }
    }

    /// Adds a payload under a path of the one stored for a point, which
    /// `merge_by_key` does; where none is stored, it is added to an empty
    /// one. Where `merge_by_key` fails, its error is returned and the store
    /// is as before.
    pub fn assign_by_key<F: Fn(Vec<u8>, Vec<u8>) -> Result<Vec<u8>, OperationError>>(
        &mut self,
        point_id: PointOffsetType,
        payload: &Vec<u8>,
        merge_by_key: F,
    ) -> (r: Result<(), OperationError>)
        requires
            old(self).wf(),
            forall|stored: Vec<u8>, given: Vec<u8>| call_requires(merge_by_key, (stored, given)),
        ensures
            final(self).wf(),
            forall|other: PointOffsetType|
                other != point_id ==> final(self).payload_of(other) == old(self).payload_of(other),
            exists|stored: Vec<u8>, given: Vec<u8>, merged: Result<Vec<u8>, OperationError>|
                stored@ == old(self).stored_or_empty(point_id) && given@ == payload@ && call_ensures(
                    merge_by_key,
                    (stored, given),
                    merged,
                ) && match merged {
                    Ok(bytes) => r is Ok && final(self).payload_of(point_id) == Some(bytes@),
                    Err(e) => r == Err::<(), OperationError>(e) && final(self).payload_of(point_id)
                        == old(self).payload_of(point_id),
                },
    {
        let stored: Vec<u8> = self.payload(point_id);
        match merge_by_key(stored, copy_vector(payload)) {
            Ok(merged) => {
                self.update_storage(point_id, &merged);
                Ok(())
            },
            Err(e) => Err(e),
        }
    }

    /// Takes the values under a path out of the payload stored for a
    /// point, which `remove` does: it hands back the values that it took
    /// out and what is left of the payload. What is left is stored where
    /// anything was taken out. Where none is stored, nothing is taken out.
    pub fn delete<F: Fn(Vec<u8>) -> (Vec<Vec<u8>>, Vec<u8>)>(
        &mut self,
        point_id: PointOffsetType,
        remove: F,
    ) -> (r: Vec<Vec<u8>>)
        requires
            old(self).wf(),
            forall|stored: Vec<u8>| call_requires(remove, (stored,)),
        ensures
            final(self).wf(),
            forall|other: PointOffsetType|
                other != point_id ==> final(self).payload_of(other) == old(self).payload_of(other),
            match old(self).payload_of(point_id) {
                None => r@.len() == 0 && final(self).payload_of(point_id) is None,
                Some(bytes) => exists|stored: Vec<u8>, left: Vec<u8>|
                    stored@ == bytes && call_ensures(remove, (stored,), (r, left)) && final(self).payload_of(point_id) == if r@.len() == 0 {
                        Some(bytes)
                    } else {
                        Some(left@)
                    },
            },
    {
        match self.read_payload(point_id) {
            Some(stored) => {
                let (removed, left) = remove(stored);
                if removed.len() > 0 {
                    self.update_storage(point_id, &left);
                }
                removed
            },
            None => Vec::new(),
        }
    }

    /// Takes the payload of a point out of the store and hands it over.
    pub fn drop(&mut self, point_id: PointOffsetType) -> (r: Option<Vec<u8>>)
        requires
            old(self).wf(),
        ensures
            final(self).wf(),
            match r {
                Some(bytes) => old(self).payload_of(point_id) == Some(bytes@),
                None => old(self).payload_of(point_id) is None,
            },
            final(self).payload_of(point_id) is None,
            forall|other: PointOffsetType|
                other != point_id ==> final(self).payload_of(other) == old(self).payload_of(other),
    {
        let payload: Option<Vec<u8>> = self.read_payload(point_id);
        self.remove_from_storage(point_id);
        payload
    }

    /// Empties the store.
    pub fn wipe(&mut self)
        ensures
            final(self).wf(),
            forall|key: Seq<u8>| final(self).value_of(key) is None,
            final(self).keys().len() == 0,
    {
        self.entries = Vec::new();
    }

    /// The payloads with the points they belong to, in the order of the
    /// keys, which is the order of the points: each row holds a point and
    /// the payload that is stored for it, and every point that has a
    /// payload has its row.
    pub fn iter(&self) -> (r: Result<Vec<(PointOffsetType, Vec<u8>)>, OperationError>)
        requires
            self.wf(),
        ensures
            r matches Ok(rows) && {
                &&& rows@.len() == self.keys().len()
                &&& forall|i: int, j: int| 0 <= i < j < rows@.len() ==> rows@[i].0 < rows@[j].0
                &&& forall|i: int|
                    0 <= i < rows@.len() ==> self.payload_of((#[trigger] rows@[i]).0) == Some(
                        rows@[i].1@,
                    )
                &&& forall|point_id: PointOffsetType|
                    self.payload_of(point_id) is Some ==> exists|i: int|
                        0 <= i < rows@.len() && (#[trigger] rows@[i]).0 == point_id
            },
    {
        let mut rows: Vec<(PointOffsetType, Vec<u8>)> = Vec::new();
        let mut i: usize = 0;
        while i < self.entries.len()
            invariant
                i <= self.entries.len(),
                self.wf(),
                rows@.len() == i,
                forall|a: int, b: int| 0 <= a < b < rows@.len() ==> rows@[a].0 < rows@[b].0,
                forall|k: int|
                    0 <= k < rows@.len() ==> self.payload_of((#[trigger] rows@[k]).0) == Some(
                        rows@[k].1@,
                    ),
                forall|point_id: PointOffsetType|
                    #[trigger] has_key_before(self.entries@, i as int, point_id) <==> has_row(
                        rows@,
                        point_id,
                    ),
            decreases self.entries.len() - i,
        {
            proof {
                assert(key_of_point(self.entries@[i as int].0@));
                assert(has_key_at(self.entries@, self.entries@[i as int].0@, i as int));
                self.lemma_value_at(self.entries@[i as int].0@, i as int);
            }
            match decode_key(self.entries[i].0.as_slice()) {
                Some(point_id) => {
                    let ghost before = rows@;
                    proof {
                        assert(!has_row(before, point_id)) by {
                            if has_key_before(self.entries@, i as int, point_id) {
                                let k = choose|k: int|
                                    0 <= k < i && cbor_key((#[trigger] self.entries@[k]).0@)
                                        == Some(point_id);
                                assert(key_of_point(self.entries@[k].0@));
                                assert(self.entries@[k].0@ != self.entries@[i as int].0@);
                            }
                        }
                        assert forall|a: int| 0 <= a < before.len() implies (#[trigger] before[a]).0
                            != point_id by {}
                    }
                    let mut at: usize = rows.len();
                    while at > 0 && rows[at - 1].0 > point_id
                        invariant
                            at <= rows.len(),
                            rows@ == before,
                            forall|a: int| at <= a < rows@.len() ==> rows@[a].0 > point_id,
                        decreases at,
                    {
                        at = at - 1;
                    }
                    rows.insert(at, (point_id, copy_vector(&self.entries[i].1)));
                    proof {
                        let after = rows@;
                        assert forall|a: int, b: int| 0 <= a < b < after.len() implies after[a].0
                            < after[b].0 by {
                            let ba = if a < at { a } else { a - 1 };
                            let bb = if b < at { b } else { b - 1 };
                            if a != at {
                                assert(after[a] == before[ba]);
                            }
                            if b != at {
                                assert(after[b] == before[bb]);
                            }
                            if b == at {
                                assert(before[a].0 <= before[at - 1].0 || a == at - 1);
                                assert(before[at - 1].0 != point_id);
                            }
                        }
                        assert forall|k: int| 0 <= k < after.len() implies self.payload_of(
                            (#[trigger] after[k]).0,
                        ) == Some(after[k].1@) by {
                            if k < at {
                                assert(after[k] == before[k]);
                            } else if k > at {
                                assert(after[k] == before[k - 1]);
                            }
                        }
                        assert forall|other: PointOffsetType| #[trigger]
                            has_key_before(self.entries@, i + 1, other) <==> has_row(
                                after,
                                other,
                            ) by {
                            if has_key_before(self.entries@, i + 1, other) {
                                let k = choose|k: int|
                                    0 <= k < i + 1 && cbor_key((#[trigger] self.entries@[k]).0@)
                                        == Some(other);
                                if k < i {
                                    assert(has_key_before(self.entries@, i as int, other));
                                    let a = choose|a: int|
                                        0 <= a < before.len() && (#[trigger] before[a]).0 == other;
                                    let na = if a < at { a } else { a + 1 };
                                    assert(after[na] == before[a]);
                                } else {
                                    assert(after[at as int].0 == other);
                                }
                            }
                            if has_row(after, other) {
                                let a = choose|a: int|
                                    0 <= a < after.len() && (#[trigger] after[a]).0 == other;
                                if a == at {
                                    assert(cbor_key(self.entries@[i as int].0@) == Some(other));
                                } else {
                                    let ba = if a < at { a } else { a - 1 };
                                    assert(after[a] == before[ba]);
                                    assert(has_row(before, other));
                                    assert(has_key_before(self.entries@, i as int, other));
                                    let k = choose|k: int|
                                        0 <= k < i && cbor_key((#[trigger] self.entries@[k]).0@)
                                            == Some(other);
                                    assert(cbor_key(self.entries@[k].0@) == Some(other));
                                }
                            }
                        }
                    }
                },
                None => {
                    assert(false);
                    return Err(
                        OperationError::ServiceError {
                            description: "Payload storage holds a key that is no point".to_string(),
                        },
                    );
                },
            }
            i = i + 1;
        }
        proof {
            assert(self.keys().len() == self.entries@.len());
            assert forall|point_id: PointOffsetType|
                self.payload_of(point_id) is Some implies exists|k: int|
                0 <= k < rows@.len() && (#[trigger] rows@[k]).0 == point_id by {
                let key = spec_encode_key(point_id);
                let k = choose|k: int| has_key_at(self.entries@, key, k);
                assert(has_key_at(self.entries@, key, k));
                assert(key_of_point(self.entries@[k].0@));
                let stored = cbor_key(self.entries@[k].0@)->Some_0;
                lemma_keys_differ(stored, point_id);
                assert(has_key_before(self.entries@, self.entries@.len() as int, point_id));
                assert(has_row(rows@, point_id));
            }
        }
        Ok(rows)
    }
}

} // verus!
