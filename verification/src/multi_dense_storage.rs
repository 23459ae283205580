use vstd::prelude::*;
use crate::distance::Distance;
use crate::hnsw::count_true;
use crate::hnsw_build::{lemma_count_true_bounded, lemma_count_true_update};
use crate::types::{OperationError, PointOffsetType};

verus! {

/// Where the vectors of one point lie in the storage.
#[derive(Clone, Copy, Debug, PartialEq, Eq, Structural)]
pub struct MultivectorOffset {
    /// Position of the first vector.
    pub offset: usize,
    /// Number of vectors that the point has.
    pub count: usize,
    /// Number of vectors that the place holds at most.
    pub capacity: usize,
}

/// A copy of the vector.
pub fn copy_vector<T: Copy>(vector: &Vec<T>) -> (r: Vec<T>)
    ensures
        r@ == vector@,
{
    let mut out: Vec<T> = Vec::new();
    let mut i: usize = 0;
    while i < vector.len()
        invariant
            i <= vector.len(),
            out@ == vector@.take(i as int),
        decreases vector.len() - i,
    {
        out.push(vector[i]);
        proof {
            assert(vector@.take(i as int + 1) =~= vector@.take(i as int).push(vector@[i as int]));
        }
        i = i + 1;
    }
    proof {
        assert(vector@.take(vector@.len() as int) =~= vector@);
    }
    out
}

/// The vectors as sequences.
pub open spec fn vectors_view<T>(vectors: Seq<Vec<T>>) -> Seq<Seq<T>> {
    vectors.map_values(|v: Vec<T>| v@)
}

proof fn lemma_count_true_clear(s: Seq<bool>, i: int)
    requires
        0 <= i < s.len(),
        s[i],
    ensures
        count_true(s.update(i, false)) + 1 == count_true(s),
    decreases s.len(),
{
    let t = s.update(i, false);
    if i == s.len() - 1 {
        assert(t.drop_last() =~= s.drop_last());
    } else {
        lemma_count_true_clear(s.drop_last(), i);
        assert(t.drop_last() =~= s.drop_last().update(i, false));
    }
}

proof fn lemma_count_true_push(s: Seq<bool>)
    ensures
        count_true(s.push(false)) == count_true(s),
{
    assert(s.push(false).drop_last() =~= s);
}

/// A storage that can grow, for points that each have several dense
/// vectors of one dimension. The vectors of a point lie side by side
/// within one chunk of the storage.
#[derive(Debug)]
pub struct AppendableMmapMultiDenseVectorStorage<T> {
    dim: usize,
    /// Number of vectors that a chunk holds.
    chunk_capacity: usize,
    /// Size of one element of a vector, in bytes.
    element_size: usize,
    vectors: Vec<Vec<T>>,
    offsets: Vec<MultivectorOffset>,
    deleted: Vec<bool>,
    distance: Distance,
    multi_vector_config: MultiVectorConfig,
    deleted_count: usize,
}

/// A chunk of the storage holds so many bytes.
pub const CHUNK_SIZE_BYTES: usize = 33_554_432;

/// How the vectors of two points are compared.
#[derive(Clone, Copy, Debug, PartialEq, Eq, Structural)]
pub enum MultiVectorComparator {
    /// For each vector of the one point the best match among the vectors
    /// of the other, summed up.
    MaxSim,
}

#[derive(Clone, Copy, Debug, PartialEq, Eq, Structural)]
pub struct MultiVectorConfig {
    pub comparator: MultiVectorComparator,
}

/// Number of vectors of the dimension that a chunk holds, elements of
/// `element_size` bytes each.
pub open spec fn spec_chunk_capacity_for(dim: usize, element_size: usize) -> int {
    if dim * element_size == 0 {
        0
    } else {
        CHUNK_SIZE_BYTES as int / (dim * element_size)
    }
}

/// An empty storage with chunks of `chunk_capacity` vectors.
pub fn new_storage<T: Copy>(
    dim: usize,
    distance: Distance,
    multi_vector_config: MultiVectorConfig,
    chunk_capacity: usize,
    element_size: usize,
) -> (r: AppendableMmapMultiDenseVectorStorage<T>)
    requires
        chunk_capacity > 0,
    ensures
        r.wf(),
        r.spec_dim() == dim,
        r.spec_distance() == distance,
        r.spec_config() == multi_vector_config,
        r.spec_chunk_capacity() == chunk_capacity,
        r.spec_element_size() == element_size,
        r.spec_total() == 0,
        r.spec_vectors_len() == 0,
        r.spec_deleted_count() == 0,
        forall|key: PointOffsetType| !r.spec_is_deleted(key),
        forall|key: PointOffsetType| r.multi(key) is None,
        forall|key: PointOffsetType| r.place_of(key) == empty_place(),
{
    AppendableMmapMultiDenseVectorStorage {
        dim,
        chunk_capacity,
        element_size,
        vectors: Vec::new(),
        offsets: Vec::new(),
        deleted: Vec::new(),
        distance,
        multi_vector_config,
        deleted_count: 0,
    }
}

/// Opens an empty storage for vectors of dimension `dim` whose elements
/// take `element_size` bytes. A vector that does not fit a chunk is
/// refused.
pub fn open_appendable_memmap_multi_vector_storage_impl<T: Copy>(
    dim: usize,
    distance: Distance,
    multi_vector_config: MultiVectorConfig,
    element_size: usize,
) -> (r: Result<AppendableMmapMultiDenseVectorStorage<T>, OperationError>)
    ensures
        spec_chunk_capacity_for(dim, element_size) > 0 <==> r is Ok,
        r matches Ok(storage) ==> {
            &&& storage.wf()
            &&& storage.spec_dim() == dim
            &&& storage.spec_distance() == distance
            &&& storage.spec_config() == multi_vector_config
            &&& storage.spec_chunk_capacity() == spec_chunk_capacity_for(dim, element_size)
            &&& storage.spec_element_size() == element_size
            &&& storage.spec_total() == 0
            &&& storage.spec_vectors_len() == 0
            &&& storage.spec_deleted_count() == 0
            &&& forall|key: PointOffsetType| !storage.spec_is_deleted(key)
            &&& forall|key: PointOffsetType| storage.multi(key) is None
            &&& forall|key: PointOffsetType| storage.place_of(key) == empty_place()
        },
        r matches Err(e) ==> (e matches OperationError::ServiceError { description }
            && description@ == "Vector does not fit a chunk of the storage"@),
{
    let vector_size: usize = match dim.checked_mul(element_size) {
        Some(v) => v,
        None => {
            proof {
                assert(CHUNK_SIZE_BYTES as int / (dim * element_size) == 0) by (nonlinear_arith)
                    requires
                        dim * element_size > 0xffff_ffff,
                ;
            }
            return Err(
                OperationError::ServiceError {
                    description: "Vector does not fit a chunk of the storage".to_string(),
                },
            );
        },
    };
    if vector_size == 0 || CHUNK_SIZE_BYTES / vector_size == 0 {
        return Err(
            OperationError::ServiceError {
                description: "Vector does not fit a chunk of the storage".to_string(),
            },
        );
    }
    Ok(
        new_storage(
            dim,
            distance,
            multi_vector_config,
            CHUNK_SIZE_BYTES / vector_size,
            element_size,
        ),
    )
}

/// The storages of vectors, by the type of their elements. Elements that
/// are no whole numbers are held as their bit patterns.
#[derive(Debug)]
pub enum VectorStorageEnum {
    /// Elements of four bytes.
    MultiDenseAppendableMemmap(Box<AppendableMmapMultiDenseVectorStorage<u32>>),
    /// Elements of one byte.
    MultiDenseAppendableMemmapByte(Box<AppendableMmapMultiDenseVectorStorage<u8>>),
    /// Elements of two bytes.
    MultiDenseAppendableMemmapHalf(Box<AppendableMmapMultiDenseVectorStorage<u16>>),
}

/// Opens an empty storage for vectors with elements of four bytes.
pub fn open_appendable_memmap_multi_vector_storage(
    dim: usize,
    distance: Distance,
    multi_vector_config: MultiVectorConfig,
) -> (r: Result<VectorStorageEnum, OperationError>)
    ensures
        spec_chunk_capacity_for(dim, 4) > 0 <==> r is Ok,
        r matches Ok(opened) ==> (opened matches VectorStorageEnum::MultiDenseAppendableMemmap(
            storage,
        ) && storage.wf() && storage.spec_dim() == dim && storage.spec_distance() == distance
            && storage.spec_config() == multi_vector_config && storage.spec_total() == 0
            && storage.spec_chunk_capacity() == spec_chunk_capacity_for(dim, 4)),
        r matches Err(e) ==> (e matches OperationError::ServiceError { description }
            && description@ == "Vector does not fit a chunk of the storage"@),
{
    match open_appendable_memmap_multi_vector_storage_impl::<u32>(
        dim,
        distance,
        multi_vector_config,
        4,
    ) {
        Ok(storage) => Ok(VectorStorageEnum::MultiDenseAppendableMemmap(Box::new(storage))),
        Err(e) => Err(e),
    }
}

/// Opens an empty storage for vectors with elements of one byte.
pub fn open_appendable_memmap_multi_vector_storage_byte(
    dim: usize,
    distance: Distance,
    multi_vector_config: MultiVectorConfig,
) -> (r: Result<VectorStorageEnum, OperationError>)
    ensures
        spec_chunk_capacity_for(dim, 1) > 0 <==> r is Ok,
        r matches Ok(opened) ==> (opened matches VectorStorageEnum::MultiDenseAppendableMemmapByte(
            storage,
        ) && storage.wf() && storage.spec_dim() == dim && storage.spec_distance() == distance
            && storage.spec_config() == multi_vector_config && storage.spec_total() == 0
            && storage.spec_chunk_capacity() == spec_chunk_capacity_for(dim, 1)),
        r matches Err(e) ==> (e matches OperationError::ServiceError { description }
            && description@ == "Vector does not fit a chunk of the storage"@),
{
    match open_appendable_memmap_multi_vector_storage_impl::<u8>(
        dim,
        distance,
        multi_vector_config,
        1,
    ) {
        Ok(storage) => Ok(VectorStorageEnum::MultiDenseAppendableMemmapByte(Box::new(storage))),
        Err(e) => Err(e),
    }
}

/// Opens an empty storage for vectors with elements of two bytes.
pub fn open_appendable_memmap_multi_vector_storage_half(
    dim: usize,
    distance: Distance,
    multi_vector_config: MultiVectorConfig,
) -> (r: Result<VectorStorageEnum, OperationError>)
    ensures
        spec_chunk_capacity_for(dim, 2) > 0 <==> r is Ok,
        r matches Ok(opened) ==> (opened matches VectorStorageEnum::MultiDenseAppendableMemmapHalf(
            storage,
        ) && storage.wf() && storage.spec_dim() == dim && storage.spec_distance() == distance
            && storage.spec_config() == multi_vector_config && storage.spec_total() == 0
            && storage.spec_chunk_capacity() == spec_chunk_capacity_for(dim, 2)),
        r matches Err(e) ==> (e matches OperationError::ServiceError { description }
            && description@ == "Vector does not fit a chunk of the storage"@),
{
    match open_appendable_memmap_multi_vector_storage_impl::<u16>(
        dim,
        distance,
        multi_vector_config,
        2,
    ) {
        Ok(storage) => Ok(VectorStorageEnum::MultiDenseAppendableMemmapHalf(Box::new(storage))),
        Err(e) => Err(e),
    }
}

/// The place of a point that has no vectors of its own yet.
pub open spec fn empty_place() -> MultivectorOffset {
    MultivectorOffset { offset: 0, count: 0, capacity: 0 }
}

/// Each of the vectors has the dimension.
pub open spec fn has_dimension<T>(vectors: Seq<Seq<T>>, dim: usize) -> bool {
    forall|i: int| 0 <= i < vectors.len() ==> (#[trigger] vectors[i]).len() == dim
}

/// The places of two points do not overlap.
pub open spec fn apart(a: MultivectorOffset, b: MultivectorOffset) -> bool {
    a.offset + a.capacity <= b.offset || b.offset + b.capacity <= a.offset || a.capacity == 0
        || b.capacity == 0
}

impl<T: Copy> AppendableMmapMultiDenseVectorStorage<T> {
    pub closed spec fn spec_dim(&self) -> usize {
        self.dim
    }

    pub closed spec fn spec_distance(&self) -> Distance {
        self.distance
    }

    pub closed spec fn spec_config(&self) -> MultiVectorConfig {
        self.multi_vector_config
    }

    pub closed spec fn spec_chunk_capacity(&self) -> usize {
        self.chunk_capacity
    }

    /// Number of points that the storage knows, deleted ones too.
    pub closed spec fn spec_total(&self) -> nat {
        self.offsets@.len()
    }

    /// Number of vector places in use.
    pub closed spec fn spec_vectors_len(&self) -> nat {
        self.vectors@.len()
    }

    pub closed spec fn spec_deleted_count(&self) -> usize {
        self.deleted_count
    }

    /// True when the point is marked deleted.
    pub closed spec fn spec_is_deleted(&self, key: PointOffsetType) -> bool {
        key < self.deleted@.len() && self.deleted@[key as int]
    }

    /// The vectors of the point, `None` for a point that the storage does
    /// not know.
    pub closed spec fn multi(&self, key: PointOffsetType) -> Option<Seq<Seq<T>>> {
        if key < self.offsets@.len() {
            Some(
                vectors_view(
                    self.vectors@.subrange(
                        self.offsets@[key as int].offset as int,
                        self.offsets@[key as int].offset + self.offsets@[key as int].count,
                    ),
                ),
            )
        } else {
            None
        }
    }

    /// The places lie within the storage and apart from each other, and the
    /// count of deleted points is right.
    pub closed spec fn wf(&self) -> bool {
        &&& self.chunk_capacity > 0
        &&& self.deleted_count == count_true(self.deleted@)
        &&& forall|k: int|
            0 <= k < self.deleted@.len() && #[trigger] self.deleted@[k] ==> k < self.offsets@.len()
        &&& forall|k: int|
            0 <= k < self.offsets@.len() ==> (#[trigger] self.offsets@[k]).count
                <= self.offsets@[k].capacity && self.offsets@[k].offset + self.offsets@[k].capacity
                <= self.vectors@.len()
        &&& forall|a: int, b: int|
            0 <= a < b < self.offsets@.len() ==> apart(
                #[trigger] self.offsets@[a],
                #[trigger] self.offsets@[b],
            )
    }

    pub fn vector_dim(&self) -> (r: usize)
        ensures
            r == self.spec_dim(),
    {
        self.dim
    }

    pub fn distance(&self) -> (r: Distance)
        ensures
            r == self.spec_distance(),
    {
        self.distance
    }

    pub fn multi_vector_config(&self) -> (r: &MultiVectorConfig)
        ensures
            *r == self.spec_config(),
    {
        &self.multi_vector_config
    }

    pub fn is_on_disk(&self) -> (r: bool)
        ensures
            r,
    {
        true
    }

    pub fn total_vector_count(&self) -> (r: usize)
        ensures
            r == self.spec_total(),
    {
        self.offsets.len()
    }

    pub fn deleted_vector_count(&self) -> (r: usize)
        ensures
            r == self.spec_deleted_count(),
    {
        self.deleted_count
    }

    /// Number of points that are not deleted.
    pub fn available_vector_count(&self) -> (r: usize)
        ensures
            r == if self.spec_total() >= self.spec_deleted_count() {
                self.spec_total() - self.spec_deleted_count()
            } else {
                0
            },
    {
        let total: usize = self.offsets.len();
        if total >= self.deleted_count {
            total - self.deleted_count
        } else {
            0
        }
    }

    pub fn is_deleted_vector(&self, key: PointOffsetType) -> (r: bool)
        ensures
            r == self.spec_is_deleted(key),
    {
        let slot: usize = key as usize;
        slot < self.deleted.len() && self.deleted[slot]
    }

    /// The flags of deletion, one for each point up to the last that was
    /// ever marked.
    pub fn deleted_vector_bitslice(&self) -> (r: &Vec<bool>)
        ensures
            forall|key: PointOffsetType|
                self.spec_is_deleted(key) == (key < r@.len() && r@[key as int]),
    {
        &self.deleted
    }

    /// The share of the bytes in use that goes to points that are not
    /// deleted, were all points of one size.
    pub open spec fn spec_available_size_in_bytes(&self) -> int {
        if self.spec_total() == 0 {
            0
        } else {
            let available = if self.spec_total() >= self.spec_deleted_count() {
                self.spec_total() - self.spec_deleted_count()
            } else {
                0
            };
            self.spec_vectors_len() * self.spec_dim() * self.spec_element_size() * available / (
            self.spec_total() as int)
        }
    }

    pub closed spec fn spec_element_size(&self) -> usize {
        self.element_size
    }

    /// Deleting never raises the available size: of two storages that
    /// differ only in that the second has no fewer points deleted, the
    /// second has no more bytes available.
    pub proof fn lemma_size_falls(&self, after: &Self)
        requires
            after.spec_total() == self.spec_total(),
            after.spec_vectors_len() == self.spec_vectors_len(),
            after.spec_dim() == self.spec_dim(),
            after.spec_element_size() == self.spec_element_size(),
            after.spec_deleted_count() >= self.spec_deleted_count(),
        ensures
            after.spec_available_size_in_bytes() <= self.spec_available_size_in_bytes(),
    {
        if self.spec_total() > 0 {
            let size = self.spec_vectors_len() * self.spec_dim() * self.spec_element_size();
            let total = self.spec_total() as int;
            let before: int = if self.spec_total() >= self.spec_deleted_count() {
                self.spec_total() - self.spec_deleted_count()
            } else {
                0
            };
            let now: int = if after.spec_total() >= after.spec_deleted_count() {
                after.spec_total() - after.spec_deleted_count()
            } else {
                0
            };
            assert(size >= 0) by (nonlinear_arith)
                requires
                    size == self.spec_vectors_len() * self.spec_dim() * self.spec_element_size(),
            ;
            assert(size * now <= size * before) by (nonlinear_arith)
                requires
                    size >= 0,
                    now <= before,
            ;
            vstd::arithmetic::div_mod::lemma_div_is_ordered(size * now, size * before, total);
        }
    }

    /// `None` where the number of bytes does not fit the machine.
    pub fn available_size_in_bytes(&self) -> (r: Option<usize>)
        ensures
            match r {
                Some(n) => n == self.spec_available_size_in_bytes(),
                None => self.spec_available_size_in_bytes() > usize::MAX
                    || self.spec_vectors_len() * self.spec_dim() * self.spec_element_size()
                    > usize::MAX,
            },
    {
        let total: usize = self.total_vector_count();
        if total == 0 {
            return Some(0);
        }
        let available: usize = self.available_vector_count();
        let slots: usize = match self.vectors.len().checked_mul(self.dim) {
            Some(v) => v,
            None => {
                proof {
                    let a = self.spec_vectors_len() * self.spec_dim();
                    let e = self.spec_element_size() as int;
                    assert(a > usize::MAX);
                    if e > 0 {
                        assert(a * e >= a) by (nonlinear_arith)
                            requires
                                a >= 0,
                                e >= 1,
                        ;
                    } else {
                        assert(a * e == 0) by (nonlinear_arith)
                            requires
                                e == 0,
                        ;
                        assert(a * e * available == 0) by (nonlinear_arith)
                            requires
                                a * e == 0,
                        ;
                    }
                }
                if self.element_size == 0 {
                    return Some(0);
                }
                return None;
            },
        };
        let total_size: usize = match slots.checked_mul(self.element_size) {
            Some(v) => v,
            None => {
                return None;
            },
        };
        assert(0 <= (total_size as int) * (available as int) <= 0xffff_ffff_ffff_ffff
            * 0xffff_ffff_ffff_ffff) by (nonlinear_arith)
            requires
                0 <= total_size <= 0xffff_ffff_ffff_ffff,
                0 <= available <= 0xffff_ffff_ffff_ffff,
        ;
        let share: u128 = (total_size as u128) * (available as u128) / (total as u128);
        if share > usize::MAX as u128 {
            None
        } else {
            Some(share as usize)
        }
    }

    /// The vectors of the point, `None` for a point that the storage does
    /// not know.
    pub fn get_multi_opt(&self, key: PointOffsetType) -> (r: Option<Vec<Vec<T>>>)
        requires
            self.wf(),
        ensures
            match r {
                Some(vectors) => self.multi(key) == Some(vectors_view(vectors@)),
                None => self.multi(key) is None,
            },
    {
        let slot: usize = key as usize;
        if slot >= self.offsets.len() {
            return None;
        }
        let place: MultivectorOffset = self.offsets[slot];
        let mut out: Vec<Vec<T>> = Vec::new();
        let mut i: usize = 0;
        while i < place.count
            invariant
                i <= place.count,
                place == self.offsets@[slot as int],
                place.offset + place.count <= self.vectors.len(),
                out@.len() == i,
                forall|k: int| 0 <= k < i ==> (#[trigger] out@[k])@ == self.vectors@[place.offset + k]@,
            decreases place.count - i,
        {
            out.push(copy_vector(&self.vectors[place.offset + i]));
            i = i + 1;
        }
        proof {
            assert(vectors_view(out@) =~= vectors_view(
                self.vectors@.subrange(place.offset as int, place.offset + place.count),
            ));
        }
        Some(out)
    }

    /// The vectors of a point that the storage knows.
    pub fn get_multi(&self, key: PointOffsetType) -> (r: Vec<Vec<T>>)
        requires
            self.wf(),
            key < self.spec_total(),
        ensures
            self.multi(key) == Some(vectors_view(r@)),
    {
        match self.get_multi_opt(key) {
            Some(vectors) => vectors,
            None => Vec::new(),
        }
    }

    /// The vector of the point as a search takes it: its vectors, `None`
    /// for a point that the storage does not know.
    pub fn get_vector_opt(&self, key: PointOffsetType) -> (r: Option<Vec<Vec<T>>>)
        requires
            self.wf(),
        ensures
            match r {
                Some(vectors) => self.multi(key) == Some(vectors_view(vectors@)),
                None => self.multi(key) is None,
            },
    {
        self.get_multi_opt(key)
    }

    /// The vector of a point that the storage knows.
    pub fn get_vector(&self, key: PointOffsetType) -> (r: Vec<Vec<T>>)
        requires
            self.wf(),
            key < self.spec_total(),
        ensures
            self.multi(key) == Some(vectors_view(r@)),
    {
        self.get_multi(key)
    }

    /// The vectors of the first `upto` points one after the other, point
    /// by point.
    pub open spec fn inner_vectors(&self, upto: int) -> Seq<Seq<T>>
        decreases upto,
    {
        if upto <= 0 {
            Seq::empty()
        } else {
            self.inner_vectors(upto - 1) + match self.multi((upto - 1) as PointOffsetType) {
                Some(vectors) => vectors,
                None => Seq::empty(),
            }
        }
    }

    /// The single vectors of all points that the storage knows, point by
    /// point.
    pub fn iterate_inner_vectors(&self) -> (r: Vec<Vec<T>>)
        requires
            self.wf(),
            self.spec_total() <= u32::MAX,
        ensures
            vectors_view(r@) == self.inner_vectors(self.spec_total() as int),
    {
        let total: usize = self.offsets.len();
        let mut out: Vec<Vec<T>> = Vec::new();
        let mut key: PointOffsetType = 0;
        while (key as usize) < total
            invariant
                key <= total,
                total == self.spec_total(),
                total <= u32::MAX,
                self.wf(),
                vectors_view(out@) == self.inner_vectors(key as int),
            decreases total - key,
        {
            let mut vectors: Vec<Vec<T>> = self.get_multi(key);
            let ghost before = out@;
            let ghost added = vectors@;
            out.append(&mut vectors);
            proof {
                assert(out@ == before + added);
                assert(vectors_view(before + added) =~= vectors_view(before) + vectors_view(added));
            }
            key = key + 1;
        }
        out
    }

    /// Marks the point deleted or not. Says what the mark was before. A
    /// point that the storage does not know is left alone.
    pub fn set_deleted(&mut self, key: PointOffsetType, deleted: bool) -> (r: bool)
        requires
            old(self).wf(),
        ensures
            final(self).wf(),
            r == (key < old(self).spec_total() && old(self).spec_is_deleted(key)),
            forall|other: PointOffsetType|
                final(self).spec_is_deleted(other) == if other == key && key < old(self).spec_total() {
                    deleted
                } else {
                    old(self).spec_is_deleted(other)
                },
            forall|other: PointOffsetType| final(self).multi(other) == old(self).multi(other),
            forall|other: PointOffsetType| final(self).place_of(other) == old(self).place_of(other),
            final(self).spec_total() == old(self).spec_total(),
            final(self).spec_vectors_len() == old(self).spec_vectors_len(),
            final(self).spec_dim() == old(self).spec_dim(),
            final(self).spec_chunk_capacity() == old(self).spec_chunk_capacity(),
            final(self).spec_element_size() == old(self).spec_element_size(),
            final(self).spec_deleted_count() == old(self).spec_deleted_count() + if key < old(self).spec_total() && deleted && !r {
                1int
            } else if key < old(self).spec_total() && !deleted && r {
                -1int
            } else {
                0int
            },
    {
        let slot: usize = key as usize;
        if self.offsets.len() <= slot {
            return false;
        }
        while self.deleted.len() <= slot
            invariant
                slot == key,
                self.dim == old(self).dim,
                self.chunk_capacity == old(self).chunk_capacity,
                self.element_size == old(self).element_size,
                self.vectors == old(self).vectors,
                self.offsets == old(self).offsets,
                self.deleted_count == old(self).deleted_count,
                self.deleted_count == count_true(self.deleted@),
                self.deleted@.len() >= old(self).deleted@.len(),
                forall|k: int| 0 <= k < old(self).deleted@.len() ==> self.deleted@[k] == old(
                    self,
                ).deleted@[k],
                forall|k: int| old(self).deleted@.len() <= k < self.deleted@.len() ==> !self.deleted@[k],
            decreases slot + 1 - self.deleted.len(),
        {
            proof {
                lemma_count_true_push(self.deleted@);
            }
            self.deleted.push(false);
        }
        let previous: bool = self.deleted[slot];
        let ghost flags = self.deleted@;
        if !previous && deleted {
            proof {
                lemma_count_true_update(flags, slot as int);
                lemma_count_true_bounded(flags.update(slot as int, true));
                assert(flags.len() == self.deleted.len());
            }
            self.deleted[slot] = true;
            self.deleted_count = self.deleted_count + 1;
        } else if previous && !deleted {
            proof {
                lemma_count_true_clear(flags, slot as int);
            }
            self.deleted[slot] = false;
            self.deleted_count = self.deleted_count - 1;
        }
        proof {
            assert forall|other: PointOffsetType|
                self.spec_is_deleted(other) == if other == key {
                    deleted
                } else {
                    old(self).spec_is_deleted(other)
                } by {
                if other != key && other < self.deleted@.len() {
                    assert(self.deleted@[other as int] == flags[other as int]);
                }
            }
        }
        previous
    }

    /// Marks the point deleted. Says whether it was marked before.
    pub fn delete_vector(&mut self, key: PointOffsetType) -> (r: bool)
        requires
            old(self).wf(),
        ensures
            final(self).wf(),
            r == (key < old(self).spec_total() && old(self).spec_is_deleted(key)),
            forall|other: PointOffsetType|
                final(self).spec_is_deleted(other) == if other == key && key < old(self).spec_total() {
                    true
                } else {
                    old(self).spec_is_deleted(other)
                },
            forall|other: PointOffsetType| final(self).multi(other) == old(self).multi(other),
            forall|other: PointOffsetType| final(self).place_of(other) == old(self).place_of(other),
            final(self).spec_total() == old(self).spec_total(),
            final(self).spec_vectors_len() == old(self).spec_vectors_len(),
            final(self).spec_dim() == old(self).spec_dim(),
            final(self).spec_chunk_capacity() == old(self).spec_chunk_capacity(),
            final(self).spec_element_size() == old(self).spec_element_size(),
            final(self).spec_deleted_count() == old(self).spec_deleted_count() + if key < old(
                self,
            ).spec_total() && !r {
                1int
            } else {
                0int
            },
            final(self).spec_available_size_in_bytes() <= old(self).spec_available_size_in_bytes(),
    {
        let ghost before = *self;
        let was: bool = self.set_deleted(key, true);
        proof {
            before.lemma_size_falls(self);
        }
        was
    }
}


/// Where the vectors of a point with `count` vectors go: into the old
/// place where they fit, else behind the last vector in store, at the
/// start of the next chunk where the rest of the chunk is too short.
pub open spec fn spec_place(
    old_place: MultivectorOffset,
    count: usize,
    vectors_len: nat,
    chunk_capacity: usize,
) -> MultivectorOffset {
    if count > old_place.capacity {
        let left = chunk_capacity - vectors_len % (chunk_capacity as nat);
        MultivectorOffset {
            offset: if count > left {
                (vectors_len + left) as usize
            } else {
                vectors_len as usize
            },
            count,
            capacity: count,
        }
    } else {
        MultivectorOffset { offset: old_place.offset, count, capacity: old_place.capacity }
    }
}

impl<T: Copy> AppendableMmapMultiDenseVectorStorage<T> {
    /// The place of the point, an empty one for a point that the storage
    /// does not know.
    pub closed spec fn place_of(&self, key: PointOffsetType) -> MultivectorOffset {
        if key < self.offsets@.len() {
            self.offsets@[key as int]
        } else {
            MultivectorOffset { offset: 0, count: 0, capacity: 0 }
        }
    }

    /// True when both storages hold the same points, vectors and marks.
    pub open spec fn same_contents(&self, other: &Self) -> bool {
        &&& self.spec_total() == other.spec_total()
        &&& self.spec_vectors_len() == other.spec_vectors_len()
        &&& self.spec_deleted_count() == other.spec_deleted_count()
        &&& forall|key: PointOffsetType| #[trigger] self.multi(key) == other.multi(key)
        &&& forall|key: PointOffsetType| #[trigger]
            self.spec_is_deleted(key) == other.spec_is_deleted(key)
    }

    /// True when the storage takes a point of so many vectors: they must
    /// fill less than a chunk, and their place must lie within what the
    /// machine can count.
    pub open spec fn takes(&self, key: PointOffsetType, count: usize) -> bool {
        &&& count < self.spec_chunk_capacity()
        &&& spec_place_end(
            self.place_of(key),
            count,
            self.spec_vectors_len(),
            self.spec_chunk_capacity(),
        ) <= usize::MAX
    }

    /// Stores the vectors of a point, in place of those it had. The point
    /// is no longer deleted. A point with too many vectors is refused, and
    /// the storage stays as it is. Each of the vectors has the dimension
    /// of the storage.
    pub fn insert_vector(&mut self, key: PointOffsetType, vector: &Vec<Vec<T>>) -> (r: Result<
        (),
        OperationError,
    >)
        requires
            old(self).wf(),
            has_dimension(vectors_view(vector@), old(self).spec_dim()),
        ensures
            final(self).wf(),
            final(self).spec_dim() == old(self).spec_dim(),
            final(self).spec_chunk_capacity() == old(self).spec_chunk_capacity(),
            final(self).spec_element_size() == old(self).spec_element_size(),
            r is Ok <==> old(self).takes(key, vector@.len() as usize),
            r matches Err(e) ==> (e matches OperationError::ServiceError { description }
                && description@
                == "Cannot insert multi vector to the mmap vector storage. It's too large."@),
            r is Err ==> final(self).same_contents(old(self)),
            r is Ok ==> {
                &&& final(self).multi(key) == Some(vectors_view(vector@))
                &&& final(self).spec_total() == if key < old(self).spec_total() {
                    old(self).spec_total()
                } else {
                    (key + 1) as nat
                }
                &&& forall|other: PointOffsetType|
                    other != key && other < old(self).spec_total() ==> final(self).multi(other)
                        == old(self).multi(other)
                &&& forall|other: PointOffsetType|
                    old(self).spec_total() <= other < key ==> final(self).multi(other) == Some(
                        Seq::<Seq<T>>::empty(),
                    )
                &&& !final(self).spec_is_deleted(key)
                &&& forall|other: PointOffsetType|
                    other != key ==> final(self).spec_is_deleted(other) == old(self).spec_is_deleted(
                        other,
                    )
                &&& forall|other: PointOffsetType|
                    other != key ==> #[trigger] final(self).place_of(other) == old(self).place_of(
                        other,
                    )
                &&& final(self).spec_deleted_count() == old(self).spec_deleted_count()
                    - if old(self).spec_is_deleted(key) {
                    1int
                } else {
                    0int
                }
                &&& final(self).place_of(key) == spec_place(
                    old(self).place_of(key),
                    vector@.len() as usize,
                    old(self).spec_vectors_len(),
                    old(self).spec_chunk_capacity(),
                )
                &&& final(self).spec_vectors_len() == if spec_place_end(
                    old(self).place_of(key),
                    vector@.len() as usize,
                    old(self).spec_vectors_len(),
                    old(self).spec_chunk_capacity(),
                ) > old(self).spec_vectors_len() {
                    spec_place_end(
                        old(self).place_of(key),
                        vector@.len() as usize,
                        old(self).spec_vectors_len(),
                        old(self).spec_chunk_capacity(),
                    ) as nat
                } else {
                    old(self).spec_vectors_len()
                }
            },
    {
        let count: usize = vector.len();
        let slot: usize = key as usize;
        let known: MultivectorOffset = if slot < self.offsets.len() {
            self.offsets[slot]
        } else {
            MultivectorOffset { offset: 0, count: 0, capacity: 0 }
        };
        proof {
            if slot < self.offsets.len() {
                assert(known == self.offsets@[slot as int]);
                assert(known.count <= known.capacity && known.offset + known.capacity
                    <= self.vectors@.len());
            }
            assert(self.vectors@.len() == self.vectors.len());
        }
        if count >= self.chunk_capacity {
            return Err(
                OperationError::ServiceError {
                    description: "Cannot insert multi vector to the mmap vector storage. It's too large.".to_string(),
                },
            );
        }
        let place: MultivectorOffset = if count > known.capacity {
            let new_key: usize = self.vectors.len();
            let chunk_left_keys: usize = self.chunk_capacity - new_key % self.chunk_capacity;
            let start: usize = if count > chunk_left_keys {
                match new_key.checked_add(chunk_left_keys) {
                    Some(v) => v,
                    None => {
                        return Err(
                            OperationError::ServiceError {
                                description: "Cannot insert multi vector to the mmap vector storage. It's too large.".to_string(),
                            },
                        );
                    },
                }
            } else {
                new_key
            };
            if start.checked_add(count).is_none() {
                return Err(
                    OperationError::ServiceError {
                        description: "Cannot insert multi vector to the mmap vector storage. It's too large.".to_string(),
                    },
                );
            }
            MultivectorOffset { offset: start, count, capacity: count }
        } else {
            MultivectorOffset { offset: known.offset, count, capacity: known.capacity }
        };
        assert(place == spec_place(
            old(self).place_of(key),
            count,
            old(self).spec_vectors_len(),
            old(self).spec_chunk_capacity(),
        ));
        let ghost old_vectors = self.vectors@;
        let ghost old_offsets = self.offsets@;
        // Make room up to the end of the place.
        while self.vectors.len() < place.offset + count
            invariant
                place.offset + count <= usize::MAX,
                self.dim == old(self).dim,
                self.chunk_capacity == old(self).chunk_capacity,
                self.element_size == old(self).element_size,
                self.offsets == old(self).offsets,
                self.deleted == old(self).deleted,
                self.deleted_count == old(self).deleted_count,
                self.distance == old(self).distance,
                self.multi_vector_config == old(self).multi_vector_config,
                self.vectors@.len() >= old_vectors.len(),
                self.vectors@.len() > old_vectors.len() ==> self.vectors@.len() <= place.offset + count,
                forall|k: int| 0 <= k < old_vectors.len() ==> self.vectors@[k] == old_vectors[k],
            decreases place.offset + count - self.vectors.len(),
        {
            self.vectors.push(Vec::new());
        }
        let ghost roomy = self.vectors@;
        let mut i: usize = 0;
        while i < count
            invariant
                i <= count,
                count == vector@.len(),
                place.offset + count <= self.vectors.len(),
                self.dim == old(self).dim,
                self.chunk_capacity == old(self).chunk_capacity,
                self.element_size == old(self).element_size,
                self.offsets == old(self).offsets,
                self.deleted == old(self).deleted,
                self.deleted_count == old(self).deleted_count,
                self.distance == old(self).distance,
                self.multi_vector_config == old(self).multi_vector_config,
                self.vectors@.len() == roomy.len(),
                forall|k: int|
                    0 <= k < roomy.len() && !(place.offset <= k < place.offset + i)
                        ==> self.vectors@[k] == roomy[k],
                forall|j: int|
                    place.offset <= j < place.offset + i ==> (#[trigger] self.vectors@[j])@
                        == vector@[j - place.offset]@,
            decreases count - i,
        {
            let copy: Vec<T> = copy_vector(&vector[i]);
            self.vectors[place.offset + i] = copy;
            i = i + 1;
        }
        // File the place under the point.
        while self.offsets.len() <= slot
            invariant
                slot == key,
                self.dim == old(self).dim,
                self.chunk_capacity == old(self).chunk_capacity,
                self.element_size == old(self).element_size,
                self.deleted == old(self).deleted,
                self.deleted_count == old(self).deleted_count,
                self.distance == old(self).distance,
                self.multi_vector_config == old(self).multi_vector_config,
                self.offsets@.len() >= old_offsets.len(),
                self.offsets@.len() > old_offsets.len() ==> self.offsets@.len() <= slot + 1,
                forall|k: int| 0 <= k < old_offsets.len() ==> self.offsets@[k] == old_offsets[k],
                forall|k: int|
                    old_offsets.len() <= k < self.offsets@.len() ==> self.offsets@[k] == (
                    MultivectorOffset { offset: 0, count: 0, capacity: 0 }),
                self.vectors@.len() == roomy.len(),
                forall|k: int|
                    0 <= k < roomy.len() && !(place.offset <= k < place.offset + count)
                        ==> self.vectors@[k] == roomy[k],
                forall|j: int|
                    place.offset <= j < place.offset + count ==> (#[trigger] self.vectors@[j])@
                        == vector@[j - place.offset]@,
            decreases slot + 1 - self.offsets.len(),
        {
            self.offsets.push(MultivectorOffset { offset: 0, count: 0, capacity: 0 });
        }
        let ghost grown = self.offsets@;
        self.offsets[slot] = place;
        proof {
            let offsets = self.offsets@;
            let vectors = self.vectors@;
            assert forall|k: int| 0 <= k < offsets.len() implies (#[trigger] offsets[k]).count
                <= offsets[k].capacity && offsets[k].offset + offsets[k].capacity
                <= vectors.len() by {
                if k != slot {
                    assert(offsets[k] == grown[k]);
                    if k < old_offsets.len() {
                        assert(grown[k] == old_offsets[k]);
                    }
                }
            }
            assert forall|a: int, b: int| 0 <= a < b < offsets.len() implies apart(
                #[trigger] offsets[a],
                #[trigger] offsets[b],
            ) by {
                if a != slot {
                    assert(offsets[a] == grown[a]);
                }
                if b != slot {
                    assert(offsets[b] == grown[b]);
                }
                if a != slot && b != slot {
                    if b < old_offsets.len() {
                        assert(apart(old_offsets[a], old_offsets[b]));
                    }
                } else {
                    let other = if a == slot { b } else { a };
                    if other < old_offsets.len() {
                        assert(old_offsets[other].offset + old_offsets[other].capacity
                            <= old_vectors.len());
                        if count <= known.capacity && slot < old_offsets.len() {
                            assert(known == old_offsets[slot as int]);
                            assert(apart(old_offsets[a], old_offsets[b]));
                        }
                    }
                }
            }
            assert(self.multi(key) == Some(vectors_view(vector@))) by {
                let stored = vectors.subrange(place.offset as int, place.offset + count);
                assert forall|k: int| 0 <= k < count implies #[trigger] stored[k]@
                    == vector@[k]@ by {
                    assert(vectors[place.offset + k]@ == vector@[place.offset + k - place.offset]@);
                }
                assert(vectors_view(stored) =~= vectors_view(vector@));
            }
            assert forall|other: PointOffsetType|
                other != key && other < old(self).spec_total() implies self.multi(other)
                == old(self).multi(other) by {
                let o = old_offsets[other as int];
                assert(offsets[other as int] == grown[other as int]);
                assert(o.count <= o.capacity && o.offset + o.capacity <= old_vectors.len());
                if slot < old_offsets.len() {
                    if (other as int) < (slot as int) {
                        assert(apart(old_offsets[other as int], old_offsets[slot as int]));
                    } else {
                        assert(apart(old_offsets[slot as int], old_offsets[other as int]));
                    }
                }
                assert forall|k: int| o.offset <= k < o.offset + o.count implies vectors[k]
                    == old_vectors[k] by {
                    assert(roomy[k] == old_vectors[k]);
                }
                assert(vectors.subrange(o.offset as int, o.offset + o.count) =~= old_vectors.subrange(
                    o.offset as int,
                    o.offset + o.count,
                ));
            }
            assert forall|other: PointOffsetType|
                old(self).spec_total() <= other < key implies self.multi(other) == Some(
                Seq::<Seq<T>>::empty(),
            ) by {
                assert(offsets[other as int] == grown[other as int]);
                assert(vectors_view(vectors.subrange(0, 0)) =~= Seq::<Seq<T>>::empty());
            }
        }
        let ghost stored = *self;
        proof {
            assert(stored.multi(key) == Some(vectors_view(vector@)));
            assert(stored.place_of(key) == place);
            assert forall|other: PointOffsetType|
                stored.spec_is_deleted(other) == old(self).spec_is_deleted(other) by {}
        }
        self.set_deleted(key, false);
        proof {
            assert(self.multi(key) == stored.multi(key));
            assert(self.place_of(key) == stored.place_of(key));
            assert forall|other: PointOffsetType|
                other != key && other < old(self).spec_total() implies self.multi(other)
                == old(self).multi(other) by {
                assert(self.multi(other) == stored.multi(other));
            }
            assert forall|other: PointOffsetType|
                old(self).spec_total() <= other < key implies self.multi(other) == Some(
                Seq::<Seq<T>>::empty(),
            ) by {
                assert(self.multi(other) == stored.multi(other));
            }
        }
        Ok(())
    }
}

/// Where a place for `count` vectors ends.
pub open spec fn spec_place_end(
    old_place: MultivectorOffset,
    count: usize,
    vectors_len: nat,
    chunk_capacity: usize,
) -> int {
    if count > old_place.capacity {
        let left = chunk_capacity - vectors_len % (chunk_capacity as nat);
        if count > left {
            vectors_len + left + count
        } else {
            vectors_len + count
        }
    } else {
        old_place.offset + count
    }
}


impl<T: Copy> AppendableMmapMultiDenseVectorStorage<T> {
    /// True when the storage has room for `points` more points whatever
    /// they hold below a chunk: their offsets and the places of their
    /// vectors stay within what the machine can count.
    pub open spec fn has_room(&self, points: nat) -> bool {
        &&& self.spec_total() + points <= u32::MAX
        &&& self.spec_vectors_len() + 2 * self.spec_chunk_capacity() * points <= usize::MAX
    }

    /// Copies points of another storage to the end of this one, with their
    /// marks of deletion. Gives the offsets that the copies took: the first
    /// and the one behind the last. The stop flag is asked before each
    /// point. Stops with an error when the flag is raised or a point is
    /// refused; the points copied before stay.
    pub fn update_from<F: Fn() -> bool>(
        &mut self,
        other: &Self,
        other_ids: &Vec<PointOffsetType>,
        is_stopped: &F,
    ) -> (r: Result<(PointOffsetType, PointOffsetType), OperationError>)
        requires
            call_requires(*is_stopped, ()),
            old(self).wf(),
            other.wf(),
            forall|j: int| 0 <= j < other_ids@.len() ==> other_ids@[j] < other.spec_total(),
            forall|j: int|
                0 <= j < other_ids@.len() ==> has_dimension(
                    (#[trigger] other.multi(other_ids@[j]))->Some_0,
                    old(self).spec_dim(),
                ),
        ensures
            final(self).wf(),
            final(self).spec_dim() == old(self).spec_dim(),
            final(self).spec_chunk_capacity() == old(self).spec_chunk_capacity(),
            forall|p: PointOffsetType|
                p < old(self).spec_total() ==> #[trigger] final(self).copies(p, old(self), p),
            r matches Err(OperationError::Cancelled { description }) ==> description@
                == "process cancelled by service"@ && call_ensures(*is_stopped, (), true),
            r is Ok && other_ids@.len() > 0 ==> call_ensures(*is_stopped, (), false),
            !call_ensures(*is_stopped, (), true) && old(self).has_room(other_ids@.len()) && (forall|
                j: int,
            |
                0 <= j < other_ids@.len() ==> (#[trigger] other.multi(other_ids@[j]))->Some_0.len()
                    < old(self).spec_chunk_capacity()) ==> r is Ok,
            r matches Ok(range) ==> {
                &&& range.0 == old(self).spec_total()
                &&& range.1 == old(self).spec_total() + other_ids@.len()
                &&& final(self).spec_total() == range.1
                &&& forall|j: int|
                    0 <= j < other_ids@.len() ==> #[trigger] final(self).copies(
                        (range.0 + j) as PointOffsetType,
                        other,
                        other_ids@[j],
                    )
            },
    {
        if self.offsets.len() > u32::MAX as usize {
            return Err(
                OperationError::ServiceError {
                    description: "Cannot insert multi vector to the mmap vector storage. It's too large.".to_string(),
                },
            );
        }
        let start_index: usize = self.offsets.len();
        let mut i: usize = 0;
        while i < other_ids.len()
            invariant
                i <= other_ids.len(),
                self.wf(),
                other.wf(),
                self.dim == old(self).dim,
                self.chunk_capacity == old(self).chunk_capacity,
                i > 0 ==> call_ensures(*is_stopped, (), false),
                call_requires(*is_stopped, ()),
                i == 0 ==> *self == *old(self),
                start_index == old(self).spec_total(),
                start_index + i <= u32::MAX,
                self.spec_total() == start_index + i,
                forall|j: int| 0 <= j < other_ids@.len() ==> other_ids@[j] < other.spec_total(),
                self.spec_dim() == old(self).spec_dim(),
                forall|j: int|
                    0 <= j < other_ids@.len() ==> has_dimension(
                        (#[trigger] other.multi(other_ids@[j]))->Some_0,
                        old(self).spec_dim(),
                    ),
                forall|p: PointOffsetType|
                    p < start_index ==> #[trigger] self.copies(p, old(self), p),
                forall|j: int|
                    0 <= j < i ==> #[trigger] self.copies(
                        (start_index + j) as PointOffsetType,
                        other,
                        other_ids@[j],
                    ),
                old(self).has_room(other_ids@.len()) ==> self.spec_vectors_len() + 2
                    * self.chunk_capacity * (other_ids@.len() - i) <= usize::MAX,
            decreases other_ids.len() - i,
        {
            let stopped: bool = is_stopped();
            if stopped {
                return Err(
                    OperationError::Cancelled { description: "process cancelled by service".to_string() },
                );
            }
            let point_id: PointOffsetType = other_ids[i];
            let other_deleted: bool = other.is_deleted_vector(point_id);
            let other_vector: Vec<Vec<T>> = match other.get_multi_opt(point_id) {
                Some(v) => v,
                None => {
                    assert(false);
                    Vec::new()
                },
            };
            if self.offsets.len() >= u32::MAX as usize {
                return Err(
                    OperationError::ServiceError {
                        description: "Cannot insert multi vector to the mmap vector storage. It's too large.".to_string(),
                    },
                );
            }
            let new_id: PointOffsetType = self.offsets.len() as PointOffsetType;
            let ghost before = *self;
            proof {
                let count = other_vector@.len();
                let cap = self.chunk_capacity as int;
                let left = cap - (self.spec_vectors_len() as int) % cap;
                assert(0 < left <= cap) by (nonlinear_arith)
                    requires
                        cap > 0,
                        left == cap - (self.spec_vectors_len() as int) % cap,
                ;
                if old(self).has_room(other_ids@.len()) && count < cap {
                    assert(2 * cap * (other_ids@.len() - i) >= 2 * cap) by (nonlinear_arith)
                        requires
                            cap > 0,
                            other_ids@.len() - i >= 1,
                    ;
                    assert(self.takes(new_id, count as usize));
                }
                assert(other.multi(point_id) == Some(vectors_view(other_vector@)));
                assert(has_dimension(other.multi(other_ids@[i as int])->Some_0, old(self).spec_dim()));
            }
            match self.insert_vector(new_id, &other_vector) {
                Err(e) => {
                    proof {
                        assert forall|p: PointOffsetType|
                            p < start_index implies #[trigger] self.copies(p, old(self), p) by {
                            assert(before.copies(p, old(self), p));
                            assert(self.multi(p) == before.multi(p));
                            assert(self.spec_is_deleted(p) == before.spec_is_deleted(p));
                        }
                    }
                    return Err(e);
                },
                Ok(()) => {},
            }
            let ghost inserted = *self;
            self.set_deleted(new_id, other_deleted);
            proof {
                assert(inserted.spec_vectors_len() <= before.spec_vectors_len() + 2
                    * self.chunk_capacity) by {
                    let cap = self.chunk_capacity as int;
                    let len = before.spec_vectors_len() as int;
                    assert(0 < cap - len % cap <= cap) by (nonlinear_arith)
                        requires
                            cap > 0,
                            len >= 0,
                    ;
                    assert(before.place_of(new_id).capacity == 0);
                }
                assert(2 * self.chunk_capacity * (other_ids@.len() - i) == 2 * self.chunk_capacity
                    * (other_ids@.len() - (i + 1)) + 2 * self.chunk_capacity) by (nonlinear_arith);
                assert forall|p: PointOffsetType|
                    p < start_index implies #[trigger] self.copies(p, old(self), p) by {
                    assert(before.copies(p, old(self), p));
                    assert(self.multi(p) == inserted.multi(p));
                    assert(inserted.multi(p) == before.multi(p));
                    assert(inserted.spec_is_deleted(p) == before.spec_is_deleted(p));
                }
                assert forall|j: int| 0 <= j < i + 1 implies #[trigger] self.copies(
                    (start_index + j) as PointOffsetType,
                    other,
                    other_ids@[j],
                ) by {
                    let p = (start_index + j) as PointOffsetType;
                    assert(self.multi(p) == inserted.multi(p));
                    if j < i {
                        assert(before.copies(p, other, other_ids@[j]));
                        assert(inserted.multi(p) == before.multi(p));
                        assert(inserted.spec_is_deleted(p) == before.spec_is_deleted(p));
                    }
                }
            }
            i = i + 1;
        }
        Ok((start_index as PointOffsetType, self.offsets.len() as PointOffsetType))
    }

    /// The point is a copy of a point of the other storage: it has the
    /// same vectors and the same mark of deletion.
    pub open spec fn copies(&self, key: PointOffsetType, other: &Self, other_key: PointOffsetType) -> bool {
        &&& self.multi(key) == other.multi(other_key)
        &&& self.spec_is_deleted(key) == other.spec_is_deleted(other_key)
    }
}

} // verus!
