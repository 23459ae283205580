use vstd::prelude::*;
use crate::hnsw::SearchParams;
use crate::planned_query::{Fusion, OrderBy};
use crate::resharding::ShardKey;
use crate::types::{OperationError, PointIdType, ScoreType, ScoredPoint};

verus! {

/// A dense vector, as the bit patterns of its elements.
pub type DenseVector = Vec<u32>;

/// Several dense vectors of one point.
pub type MultiDenseVector = Vec<DenseVector>;

/// A vector that names its elements that are not zero.
#[derive(Debug, PartialEq, Eq)]
pub struct SparseVector {
    pub indices: Vec<u32>,
    /// The bit patterns of the values, one for each index.
    pub values: Vec<u32>,
}

#[derive(Debug, PartialEq, Eq)]
pub enum Vector {
    Dense(DenseVector),
    Sparse(SparseVector),
    MultiDense(MultiDenseVector),
}

/// The vectors of one point: one without a name, or some under names.
#[derive(Debug, PartialEq, Eq)]
pub enum VectorStruct {
    Single(DenseVector),
    MultiDense(MultiDenseVector),
    Named(Vec<(String, Vector)>),
}

/// The vectors of several points.
#[derive(Debug, PartialEq, Eq)]
pub enum BatchVectorStruct {
    Single(Vec<DenseVector>),
    MultiDense(Vec<MultiDenseVector>),
    Named(Vec<(String, Vec<Vector>)>),
}

#[derive(Debug, PartialEq, Eq)]
pub enum ShardKeySelector {
    ShardKey(ShardKey),
    ShardKeys(Vec<ShardKey>),
}

/// A dense vector with the name of the vectors to search among.
#[derive(Debug, PartialEq, Eq)]
pub struct NamedVector {
    pub name: String,
    pub vector: DenseVector,
}

/// A sparse vector with the name of the vectors to search among.
#[derive(Debug, PartialEq, Eq)]
pub struct NamedSparseVector {
    pub name: String,
    pub vector: SparseVector,
}

/// A vector to search by, with or without the name of the vectors to
/// search among.
#[derive(Debug, PartialEq, Eq)]
pub enum NamedVectorStruct {
    Default(DenseVector),
    Dense(NamedVector),
    Sparse(NamedSparseVector),
}

#[derive(Debug, PartialEq, Eq)]
pub enum OrderByInterface {
    /// The path of a payload field.
    Key(String),
    Struct(OrderBy),
}

/// How examples are turned into a search.
#[derive(Clone, Copy, Debug, PartialEq, Eq, Structural)]
pub enum RecommendStrategy {
    /// The examples are averaged into one vector to search by.
    AverageVector,
    /// Each candidate is held against every example.
    BestScore,
}

impl Default for RecommendStrategy {
    fn default() -> (r: Self)
        ensures
            r == RecommendStrategy::AverageVector,
    {
        RecommendStrategy::AverageVector
    }
}

#[derive(Debug, PartialEq, Eq)]
pub enum VectorInput {
    DenseVector(DenseVector),
    SparseVector(SparseVector),
    MultiDenseVector(MultiDenseVector),
    Id(PointIdType),
}

#[derive(Debug, PartialEq, Eq)]
pub struct RecommendInput {
    pub positive: Option<Vec<VectorInput>>,
    pub negative: Option<Vec<VectorInput>>,
    pub strategy: Option<RecommendStrategy>,
}

#[derive(Debug, PartialEq, Eq)]
pub struct ContextPair {
    pub positive: VectorInput,
    pub negative: VectorInput,
}

#[derive(Debug, PartialEq, Eq)]
pub struct ContextInput(pub Option<Vec<ContextPair>>);

#[derive(Debug, PartialEq, Eq)]
pub struct DiscoverInput {
    pub target: VectorInput,
    pub context: Option<Vec<ContextPair>>,
}

#[derive(Debug, PartialEq, Eq)]
pub struct NearestQuery {
    pub nearest: VectorInput,
}

#[derive(Debug, PartialEq, Eq)]
pub struct RecommendQuery {
    pub recommend: RecommendInput,
}

#[derive(Debug, PartialEq, Eq)]
pub struct DiscoverQuery {
    pub discover: DiscoverInput,
}

#[derive(Debug, PartialEq, Eq)]
pub struct ContextQuery {
    pub context: ContextInput,
}

#[derive(Debug, PartialEq, Eq)]
pub struct OrderByQuery {
    pub order_by: OrderByInterface,
}

#[derive(Debug, PartialEq, Eq)]
pub struct FusionQuery {
    pub fusion: Fusion,
}

#[derive(Debug, PartialEq, Eq)]
pub enum Query {
    Nearest(NearestQuery),
    Recommend(RecommendQuery),
    Discover(DiscoverQuery),
    Context(ContextQuery),
    OrderBy(OrderByQuery),
    Fusion(FusionQuery),
}

#[derive(Debug, PartialEq, Eq)]
pub enum QueryInterface {
    Nearest(VectorInput),
    Query(Query),
}

/// Where to look a vector up: a collection and, in it, the vectors of a
/// name.
#[derive(Debug, PartialEq, Eq)]
pub struct LookupLocation {
    pub collection: String,
    pub vector: Option<String>,
    pub shard_key: Option<ShardKeySelector>,
}

#[derive(Debug, PartialEq, Eq)]
pub struct WithLookup {
    pub collection_name: String,
    pub with_payload: Option<bool>,
    pub with_vectors: Option<bool>,
}

#[derive(Debug, PartialEq, Eq)]
pub enum WithLookupInterface {
    Collection(String),
    WithLookup(WithLookup),
}

#[derive(Debug, PartialEq, Eq)]
pub struct BaseGroupRequest {
    pub group_by: String,
    pub group_size: u32,
    pub limit: u32,
    pub with_lookup: Option<WithLookupInterface>,
}

#[derive(Debug, PartialEq, Eq)]
pub struct QueryBaseGroupRequest {
    pub group_by: String,
    pub group_size: Option<usize>,
    pub limit: Option<usize>,
    pub with_lookup: Option<WithLookupInterface>,
}

/// A query that runs first and hands its results to the query above it.
#[derive(Debug, PartialEq, Eq)]
pub struct Prefetch {
    pub prefetch: Option<Vec<Prefetch>>,
    pub query: Option<QueryInterface>,
    pub using: Option<String>,
    pub params: Option<SearchParams>,
    pub score_threshold: Option<ScoreType>,
    pub limit: Option<usize>,
    pub lookup_from: Option<LookupLocation>,
}

#[derive(Debug, PartialEq, Eq)]
pub struct QueryRequestInternal {
    pub prefetch: Option<Vec<Prefetch>>,
    pub query: Option<QueryInterface>,
    pub using: Option<String>,
    pub params: Option<SearchParams>,
    pub score_threshold: Option<ScoreType>,
    pub limit: Option<usize>,
    pub offset: Option<usize>,
    pub with_vector: Option<bool>,
    pub with_payload: Option<bool>,
    pub lookup_from: Option<LookupLocation>,
}

#[derive(Debug, PartialEq, Eq)]
pub struct QueryRequest {
    pub internal: QueryRequestInternal,
    pub shard_key: Option<ShardKeySelector>,
}

#[derive(Debug, PartialEq, Eq)]
pub struct QueryRequestBatch {
    pub searches: Vec<QueryRequest>,
}

/// Which shards a request goes to.
#[derive(Debug, PartialEq, Eq)]
pub enum ShardSelectorInternal {
    All,
    ShardKey(ShardKey),
    ShardKeys(Vec<ShardKey>),
}

/// The shards that a request with the given selector goes to: all where it
/// has none.
pub fn shard_selection(shard_key: Option<ShardKeySelector>) -> (r: ShardSelectorInternal)
    ensures
        r == match shard_key {
            None => ShardSelectorInternal::All,
            Some(ShardKeySelector::ShardKey(key)) => ShardSelectorInternal::ShardKey(key),
            Some(ShardKeySelector::ShardKeys(keys)) => ShardSelectorInternal::ShardKeys(keys),
        },
{
    match shard_key {
        None => ShardSelectorInternal::All,
        Some(ShardKeySelector::ShardKey(key)) => ShardSelectorInternal::ShardKey(key),
        Some(ShardKeySelector::ShardKeys(keys)) => ShardSelectorInternal::ShardKeys(keys),
    }
}

impl Vector {
    pub open spec fn spec_is_empty(&self) -> bool {
        match self {
            Vector::Dense(vector) => vector@.len() == 0,
            Vector::Sparse(vector) => vector.indices@.len() == 0,
            Vector::MultiDense(vector) => vector@.len() == 0,
        }
    }

    pub fn is_empty(&self) -> (r: bool)
        ensures
            r == self.spec_is_empty(),
    {
        match self {
            Vector::Dense(vector) => vector.len() == 0,
            Vector::Sparse(vector) => vector.indices.len() == 0,
            Vector::MultiDense(vector) => vector.len() == 0,
        }
    }
}

impl VectorStruct {
    /// Named vectors are empty when each of them is.
    pub open spec fn spec_is_empty(&self) -> bool {
        match self {
            VectorStruct::Single(vector) => vector@.len() == 0,
            VectorStruct::MultiDense(vector) => vector@.len() == 0,
            VectorStruct::Named(vectors) => forall|i: int|
                #![trigger vectors@[i]]
                0 <= i < vectors@.len() ==> vectors@[i].1.spec_is_empty(),
        }
    }

    pub fn is_empty(&self) -> (r: bool)
        ensures
            r == self.spec_is_empty(),
    {
        match self {
            VectorStruct::Single(vector) => vector.len() == 0,
            VectorStruct::MultiDense(vector) => vector.len() == 0,
            VectorStruct::Named(vectors) => {
                let mut i: usize = 0;
                while i < vectors.len()
                    invariant
                        i <= vectors.len(),
                        *self == VectorStruct::Named(*vectors),
                        forall|k: int|
                            #![trigger vectors@[k]]
                            0 <= k < i ==> vectors@[k].1.spec_is_empty(),
                    decreases vectors.len() - i,
                {
                    if !vectors[i].1.is_empty() {
                        assert(!(vectors@[i as int]).1.spec_is_empty());
                        assert(self matches VectorStruct::Named(named) && named == *vectors);
                        assert(!self.spec_is_empty());
                        return false;
                    }
                    i = i + 1;
                }
                true
            },
        }
    }
}

/// What is wrong with a request.
#[derive(Clone, Copy, Debug, PartialEq, Eq, Structural)]
pub enum Invalid {
    /// A multi-vector without vectors.
    EmptyMultiVector,
    /// A multi-vector with a vector without elements.
    EmptyVector,
    /// A multi-vector whose vectors differ in dimension.
    MixedDimensions,
    /// A sparse vector with more or fewer values than indices.
    SparseLengths,
    /// A sparse vector that names an index twice.
    SparseIndexTwice,
    /// A recommendation without any example.
    NoExamples,
    /// A limit or a group size of zero.
    BelowMinimum,
}

impl Invalid {
    /// The message for the client.
    pub fn to_error(self) -> (r: OperationError)
        ensures
            r matches OperationError::ValidationError { description } && description@ == match self {
                Invalid::EmptyMultiVector => "multi vector must not be empty"@,
                Invalid::EmptyVector => "all vectors must be non-empty"@,
                Invalid::MixedDimensions => "all vectors must have the same dimension"@,
                Invalid::SparseLengths => "must be the same length as indices"@,
                Invalid::SparseIndexTwice => "must be unique"@,
                Invalid::NoExamples =>
                    "At least one positive or negative vector/id must be provided"@,
                Invalid::BelowMinimum => "value 0 invalid, must be 1 or larger"@,
            },
    {
        let text: &str = match self {
            Invalid::EmptyMultiVector => "multi vector must not be empty",
            Invalid::EmptyVector => "all vectors must be non-empty",
            Invalid::MixedDimensions => "all vectors must have the same dimension",
            Invalid::SparseLengths => "must be the same length as indices",
            Invalid::SparseIndexTwice => "must be unique",
            Invalid::NoExamples => "At least one positive or negative vector/id must be provided",
            Invalid::BelowMinimum => "value 0 invalid, must be 1 or larger",
        };
        OperationError::ValidationError { description: text.to_string() }
    }
}

/// What is wrong with a multi-vector, if anything: it must have vectors,
/// none of them empty, all of one dimension.
pub open spec fn multi_vector_fault(multi: Seq<Vec<u32>>) -> Option<Invalid> {
    if multi.len() == 0 {
        Some(Invalid::EmptyMultiVector)
    } else if exists|i: int| 0 <= i < multi.len() && (#[trigger] multi[i])@.len() == 0 {
        Some(Invalid::EmptyVector)
    } else if exists|i: int| 0 <= i < multi.len() && (#[trigger] multi[i])@.len() != multi[0]@.len() {
        Some(Invalid::MixedDimensions)
    } else {
        None
    }
}

/// Checks that a multi-vector has vectors, none of them empty, all of
/// one dimension.
pub fn validate_multi_vector(multi: &Vec<Vec<u32>>) -> (r: Result<(), Invalid>)
    ensures
        r == match multi_vector_fault(multi@) {
            Some(fault) => Err::<(), Invalid>(fault),
            None => Ok::<(), Invalid>(()),
        },
{
    if multi.len() == 0 {
        return Err(Invalid::EmptyMultiVector);
    }
    let mut i: usize = 0;
    while i < multi.len()
        invariant
            i <= multi.len(),
            forall|k: int| 0 <= k < i ==> (#[trigger] multi@[k])@.len() != 0,
        decreases multi.len() - i,
    {
        if multi[i].len() == 0 {
            return Err(Invalid::EmptyVector);
        }
        i = i + 1;
    }
    let dim: usize = multi[0].len();
    let mut j: usize = 0;
    while j < multi.len()
        invariant
            j <= multi.len(),
            dim == multi@[0]@.len(),
            forall|k: int| 0 <= k < multi.len() ==> (#[trigger] multi@[k])@.len() != 0,
            forall|k: int| 0 <= k < j ==> (#[trigger] multi@[k])@.len() == dim,
        decreases multi.len() - j,
    {
        if multi[j].len() != dim {
            return Err(Invalid::MixedDimensions);
        }
        j = j + 1;
    }
    Ok(())
}

impl SparseVector {
    /// What is wrong with the vector, if anything: it must have a value for
    /// each index and name no index twice.
    pub open spec fn fault(&self) -> Option<Invalid> {
        if self.indices@.len() != self.values@.len() {
            Some(Invalid::SparseLengths)
        } else if !self.indices@.no_duplicates() {
            Some(Invalid::SparseIndexTwice)
        } else {
            None
        }
    }

    pub fn validate(&self) -> (r: Result<(), Invalid>)
        ensures
            r == match self.fault() {
                Some(fault) => Err::<(), Invalid>(fault),
                None => Ok::<(), Invalid>(()),
            },
    {
        if self.indices.len() != self.values.len() {
            return Err(Invalid::SparseLengths);
        }
        let mut i: usize = 0;
        while i < self.indices.len()
            invariant
                i <= self.indices.len(),
                self.indices@.len() == self.values@.len(),
                forall|a: int, b: int| 0 <= a < b < i ==> self.indices@[a] != self.indices@[b],
            decreases self.indices.len() - i,
        {
            let mut j: usize = 0;
            while j < i
                invariant
                    j <= i < self.indices.len(),
                    self.indices@.len() == self.values@.len(),
                    forall|a: int| 0 <= a < j ==> self.indices@[a] != self.indices@[i as int],
                decreases i - j,
            {
                if self.indices[j] == self.indices[i] {
                    assert(self.indices@[j as int] == self.indices@[i as int] && j != i);
                    return Err(Invalid::SparseIndexTwice);
                }
                j = j + 1;
            }
            i = i + 1;
        }
        assert(self.indices@.no_duplicates()) by {
            assert forall|a: int, b: int|
                0 <= a < self.indices@.len() && 0 <= b < self.indices@.len() && a != b implies self.indices@[a]
                != self.indices@[b] by {
                if a < b {
                } else {
                    assert(self.indices@[b] != self.indices@[a]);
                }
            }
        }
        Ok(())
    }
}

impl Vector {
    pub open spec fn fault(&self) -> Option<Invalid> {
        match self {
            Vector::Dense(_) => None,
            Vector::Sparse(vector) => vector.fault(),
            Vector::MultiDense(multi) => multi_vector_fault(multi@),
        }
    }

    pub fn validate(&self) -> (r: Result<(), Invalid>)
        ensures
            r == match self.fault() {
                Some(fault) => Err::<(), Invalid>(fault),
                None => Ok::<(), Invalid>(()),
            },
    {
        match self {
            Vector::Dense(_) => Ok(()),
            Vector::Sparse(vector) => vector.validate(),
            Vector::MultiDense(multi) => validate_multi_vector(multi),
        }
    }
}

impl VectorInput {
    pub open spec fn fault(&self) -> Option<Invalid> {
        match self {
            VectorInput::Id(_) => None,
            VectorInput::DenseVector(_) => None,
            VectorInput::SparseVector(vector) => vector.fault(),
            VectorInput::MultiDenseVector(multi) => multi_vector_fault(multi@),
        }
    }

    pub fn validate(&self) -> (r: Result<(), Invalid>)
        ensures
            r == match self.fault() {
                Some(fault) => Err::<(), Invalid>(fault),
                None => Ok::<(), Invalid>(()),
            },
    {
        match self {
            VectorInput::Id(_) => Ok(()),
            VectorInput::DenseVector(_) => Ok(()),
            VectorInput::SparseVector(vector) => vector.validate(),
            VectorInput::MultiDenseVector(multi) => validate_multi_vector(multi),
        }
    }
}

impl NamedVectorStruct {
    pub open spec fn fault(&self) -> Option<Invalid> {
        match self {
            NamedVectorStruct::Default(_) => None,
            NamedVectorStruct::Dense(_) => None,
            NamedVectorStruct::Sparse(named) => named.vector.fault(),
        }
    }

    pub fn validate(&self) -> (r: Result<(), Invalid>)
        ensures
            r == match self.fault() {
                Some(fault) => Err::<(), Invalid>(fault),
                None => Ok::<(), Invalid>(()),
            },
    {
        match self {
            NamedVectorStruct::Default(_) => Ok(()),
            NamedVectorStruct::Dense(_) => Ok(()),
            NamedVectorStruct::Sparse(named) => named.vector.validate(),
        }
    }
}

/// The fault of the first input that has one.
pub open spec fn first_fault(inputs: Seq<VectorInput>) -> Option<Invalid>
    decreases inputs.len(),
{
    if inputs.len() == 0 {
        None
    } else {
        match first_fault(inputs.drop_last()) {
            Some(fault) => Some(fault),
            None => inputs.last().fault(),
        }
    }
}

fn validate_inputs(inputs: &Vec<VectorInput>) -> (r: Result<(), Invalid>)
    ensures
        r == match first_fault(inputs@) {
            Some(fault) => Err::<(), Invalid>(fault),
            None => Ok::<(), Invalid>(()),
        },
{
    let mut i: usize = 0;
    proof {
        assert(inputs@.take(0) =~= Seq::<VectorInput>::empty());
    }
    while i < inputs.len()
        invariant
            i <= inputs.len(),
            first_fault(inputs@.take(i as int)) is None,
        decreases inputs.len() - i,
    {
        proof {
            assert(inputs@.take(i as int + 1).drop_last() =~= inputs@.take(i as int));
            assert(inputs@.take(i as int + 1).last() == inputs@[i as int]);
        }
        match inputs[i].validate() {
            Ok(()) => {},
            Err(fault) => {
                proof {
                    lemma_first_fault_stays(inputs@, i as int + 1);
                }
                return Err(fault);
            },
        }
        i = i + 1;
    }
    proof {
        assert(inputs@.take(inputs@.len() as int) =~= inputs@);
    }
    Ok(())
}

proof fn lemma_first_fault_stays(inputs: Seq<VectorInput>, n: int)
    requires
        0 <= n <= inputs.len(),
        first_fault(inputs.take(n)) is Some,
    ensures
        first_fault(inputs) == first_fault(inputs.take(n)),
    decreases inputs.len() - n,
{
    if n < inputs.len() {
        assert(inputs.take(n + 1).drop_last() =~= inputs.take(n));
        lemma_first_fault_stays(inputs, n + 1);
    } else {
        assert(inputs.take(n) =~= inputs);
    }
}

/// The inputs inside, none where there are none.
pub open spec fn inputs_of(inputs: Option<Vec<VectorInput>>) -> Seq<VectorInput> {
    match inputs {
        Some(list) => list@,
        None => Seq::empty(),
    }
}

impl RecommendInput {
    /// The examples: the positive ones, then the negative ones.
    pub open spec fn examples(&self) -> Seq<VectorInput> {
        inputs_of(self.positive) + inputs_of(self.negative)
    }

    /// The examples, the positive ones first.
    pub fn iter(&self) -> (r: Vec<&VectorInput>)
        ensures
            r@.len() == self.examples().len(),
            forall|i: int| 0 <= i < r@.len() ==> *r@[i] == self.examples()[i],
    {
        let mut out: Vec<&VectorInput> = Vec::new();
        match &self.positive {
            Some(list) => {
                let mut i: usize = 0;
                while i < list.len()
                    invariant
                        i <= list.len(),
                        out@.len() == i,
                        forall|k: int| 0 <= k < i ==> *out@[k] == list@[k],
                    decreases list.len() - i,
                {
                    out.push(&list[i]);
                    i = i + 1;
                }
            },
            None => {},
        }
        let ghost first = inputs_of(self.positive);
        match &self.negative {
            Some(list) => {
                let mut i: usize = 0;
                while i < list.len()
                    invariant
                        i <= list.len(),
                        out@.len() == first.len() + i,
                        forall|k: int| 0 <= k < first.len() ==> *out@[k] == first[k],
                        forall|k: int| 0 <= k < i ==> *out@[first.len() + k] == list@[k],
                    decreases list.len() - i,
                {
                    out.push(&list[i]);
                    i = i + 1;
                }
            },
            None => {},
        }
        out
    }

    /// A recommendation needs an example, and each example must be sound.
    pub open spec fn fault(&self) -> Option<Invalid> {
        if self.examples().len() == 0 {
            Some(Invalid::NoExamples)
        } else {
            match first_fault(inputs_of(self.positive)) {
                Some(fault) => Some(fault),
                None => first_fault(inputs_of(self.negative)),
            }
        }
    }

    pub fn validate(&self) -> (r: Result<(), Invalid>)
        ensures
            r == match self.fault() {
                Some(fault) => Err::<(), Invalid>(fault),
                None => Ok::<(), Invalid>(()),
            },
    {
        let no_positives: bool = match &self.positive {
            Some(list) => list.len() == 0,
            None => true,
        };
        let no_negatives: bool = match &self.negative {
            Some(list) => list.len() == 0,
            None => true,
        };
        if no_positives && no_negatives {
            return Err(Invalid::NoExamples);
        }
        match &self.positive {
            Some(list) => {
                match validate_inputs(list) {
                    Ok(()) => {},
                    Err(fault) => {
                        return Err(fault);
                    },
                }
            },
            None => {},
        }
        match &self.negative {
            Some(list) => validate_inputs(list),
            None => Ok(()),
        }
    }
}

impl ContextPair {
    /// The positive example, then the negative one.
    pub fn iter(&self) -> (r: Vec<&VectorInput>)
        ensures
            r@.len() == 2,
            *r@[0] == self.positive,
            *r@[1] == self.negative,
    {
        let mut out: Vec<&VectorInput> = Vec::new();
        out.push(&self.positive);
        out.push(&self.negative);
        out
    }

    pub open spec fn fault(&self) -> Option<Invalid> {
        match self.positive.fault() {
            Some(fault) => Some(fault),
            None => self.negative.fault(),
        }
    }

    pub fn validate(&self) -> (r: Result<(), Invalid>)
        ensures
            r == match self.fault() {
                Some(fault) => Err::<(), Invalid>(fault),
                None => Ok::<(), Invalid>(()),
            },
    {
        match self.positive.validate() {
            Ok(()) => self.negative.validate(),
            Err(fault) => Err(fault),
        }
    }
}

/// The fault of the first pair that has one.
pub open spec fn first_pair_fault(pairs: Seq<ContextPair>) -> Option<Invalid>
    decreases pairs.len(),
{
    if pairs.len() == 0 {
        None
    } else {
        match first_pair_fault(pairs.drop_last()) {
            Some(fault) => Some(fault),
            None => pairs.last().fault(),
        }
    }
}

proof fn lemma_first_pair_fault_stays(pairs: Seq<ContextPair>, n: int)
    requires
        0 <= n <= pairs.len(),
        first_pair_fault(pairs.take(n)) is Some,
    ensures
        first_pair_fault(pairs) == first_pair_fault(pairs.take(n)),
    decreases pairs.len() - n,
{
    if n < pairs.len() {
        assert(pairs.take(n + 1).drop_last() =~= pairs.take(n));
        lemma_first_pair_fault_stays(pairs, n + 1);
    } else {
        assert(pairs.take(n) =~= pairs);
    }
}

fn validate_pairs(pairs: &Vec<ContextPair>) -> (r: Result<(), Invalid>)
    ensures
        r == match first_pair_fault(pairs@) {
            Some(fault) => Err::<(), Invalid>(fault),
            None => Ok::<(), Invalid>(()),
        },
{
    let mut i: usize = 0;
    proof {
        assert(pairs@.take(0) =~= Seq::<ContextPair>::empty());
    }
    while i < pairs.len()
        invariant
            i <= pairs.len(),
            first_pair_fault(pairs@.take(i as int)) is None,
        decreases pairs.len() - i,
    {
        proof {
            assert(pairs@.take(i as int + 1).drop_last() =~= pairs@.take(i as int));
            assert(pairs@.take(i as int + 1).last() == pairs@[i as int]);
        }
        match pairs[i].validate() {
            Ok(()) => {},
            Err(fault) => {
                proof {
                    lemma_first_pair_fault_stays(pairs@, i as int + 1);
                }
                return Err(fault);
            },
        }
        i = i + 1;
    }
    proof {
        assert(pairs@.take(pairs@.len() as int) =~= pairs@);
    }
    Ok(())
}

/// The pairs inside, none where there are none.
pub open spec fn pairs_of(pairs: Option<Vec<ContextPair>>) -> Seq<ContextPair> {
    match pairs {
        Some(list) => list@,
        None => Seq::empty(),
    }
}

impl ContextInput {
    pub open spec fn fault(&self) -> Option<Invalid> {
        first_pair_fault(pairs_of(self.0))
    }

    pub fn validate(&self) -> (r: Result<(), Invalid>)
        ensures
            r == match self.fault() {
                Some(fault) => Err::<(), Invalid>(fault),
                None => Ok::<(), Invalid>(()),
            },
    {
        match &self.0 {
            Some(pairs) => validate_pairs(pairs),
            None => Ok(()),
        }
    }
}

impl DiscoverInput {
    pub open spec fn fault(&self) -> Option<Invalid> {
        match self.target.fault() {
            Some(fault) => Some(fault),
            None => first_pair_fault(pairs_of(self.context)),
        }
    }

    pub fn validate(&self) -> (r: Result<(), Invalid>)
        ensures
            r == match self.fault() {
                Some(fault) => Err::<(), Invalid>(fault),
                None => Ok::<(), Invalid>(()),
            },
    {
        match self.target.validate() {
            Ok(()) => match &self.context {
                Some(pairs) => validate_pairs(pairs),
                None => Ok(()),
            },
            Err(fault) => Err(fault),
        }
    }
}

impl Query {
    pub open spec fn fault(&self) -> Option<Invalid> {
        match self {
            Query::Nearest(query) => query.nearest.fault(),
            Query::Recommend(query) => query.recommend.fault(),
            Query::Discover(query) => query.discover.fault(),
            Query::Context(query) => query.context.fault(),
            Query::Fusion(_) => None,
            Query::OrderBy(_) => None,
        }
    }

    pub fn validate(&self) -> (r: Result<(), Invalid>)
        ensures
            r == match self.fault() {
                Some(fault) => Err::<(), Invalid>(fault),
                None => Ok::<(), Invalid>(()),
            },
    {
        match self {
            Query::Nearest(query) => query.nearest.validate(),
            Query::Recommend(query) => query.recommend.validate(),
            Query::Discover(query) => query.discover.validate(),
            Query::Context(query) => query.context.validate(),
            Query::Fusion(_) => Ok(()),
            Query::OrderBy(_) => Ok(()),
        }
    }
}

impl QueryInterface {
    pub open spec fn fault(&self) -> Option<Invalid> {
        match self {
            QueryInterface::Nearest(vector) => vector.fault(),
            QueryInterface::Query(query) => query.fault(),
        }
    }

    pub fn validate(&self) -> (r: Result<(), Invalid>)
        ensures
            r == match self.fault() {
                Some(fault) => Err::<(), Invalid>(fault),
                None => Ok::<(), Invalid>(()),
            },
    {
        match self {
            QueryInterface::Nearest(vector) => vector.validate(),
            QueryInterface::Query(query) => query.validate(),
        }
    }
}

/// A limit, where one is given, is one at the least.
pub open spec fn limit_fault(limit: Option<usize>) -> Option<Invalid> {
    if limit == Some(0usize) {
        Some(Invalid::BelowMinimum)
    } else {
        None
    }
}

impl QueryRequestInternal {
    /// What is wrong with the query and the limit of the request.
    pub open spec fn fault(&self) -> Option<Invalid> {
        match self.query {
            Some(query) => match query.fault() {
                Some(fault) => Some(fault),
                None => limit_fault(self.limit),
            },
            None => limit_fault(self.limit),
        }
    }

    /// Checks the query and the limit of the request. The prefetches are
    /// checked one by one with `Prefetch::validate`.
    pub fn validate(&self) -> (r: Result<(), Invalid>)
        ensures
            r == match self.fault() {
                Some(fault) => Err::<(), Invalid>(fault),
                None => Ok::<(), Invalid>(()),
            },
    {
        match &self.query {
            Some(query) => {
                match query.validate() {
                    Ok(()) => {},
                    Err(fault) => {
                        return Err(fault);
                    },
                }
            },
            None => {},
        }
        match self.limit {
            Some(limit) => if limit == 0 {
                Err(Invalid::BelowMinimum)
            } else {
                Ok(())
            },
            None => Ok(()),
        }
    }
}

impl Prefetch {
    /// True when the prefetch and all prefetches below it are sound.
    pub open spec fn is_valid(&self) -> bool
        decreases self,
    {
        &&& match self.query {
            Some(query) => query.fault() is None,
            None => true,
        }
        &&& limit_fault(self.limit) is None
        &&& match self.prefetch {
            Some(inner) => forall|i: int| 0 <= i < inner@.len() ==> (#[trigger] inner@[i]).is_valid(),
            None => true,
        }
    }

    pub fn validate(&self) -> (r: bool)
        ensures
            r == self.is_valid(),
        decreases self,
    {
        match &self.query {
            Some(query) => {
                if query.validate().is_err() {
                    return false;
                }
            },
            None => {},
        }
        match self.limit {
            Some(limit) => {
                if limit == 0 {
                    return false;
                }
            },
            None => {},
        }
        match &self.prefetch {
            Some(inner) => {
                let mut i: usize = 0;
                while i < inner.len()
                    invariant
                        i <= inner.len(),
                        self.prefetch == Some(*inner),
                        self.query matches Some(query) ==> query.fault() is None,
                        limit_fault(self.limit) is None,
                        forall|k: int| 0 <= k < i ==> (#[trigger] inner@[k]).is_valid(),
                    decreases inner.len() - i,
                {
                    proof {
                        assert(decreases_to!(self => self.prefetch->Some_0));
                        assert(decreases_to!(*inner => inner@[i as int]));
                    }
                    if !inner[i].validate() {
                        assert(!(inner@[i as int]).is_valid());
                        return false;
                    }
                    i = i + 1;
                }
                true
            },
            None => true,
        }
    }
}

impl BaseGroupRequest {
    /// The size of a group and the number of groups are one at the least.
    pub fn validate(&self) -> (r: Result<(), Invalid>)
        ensures
            r == match self.fault() {
                Some(fault) => Err::<(), Invalid>(fault),
                None => Ok::<(), Invalid>(()),
            },
    {
        if self.group_size >= 1 && self.limit >= 1 {
            Ok(())
        } else {
            Err(Invalid::BelowMinimum)
        }
    }
}

impl QueryBaseGroupRequest {
    /// The size of a group and the number of groups, where given, are one
    /// at the least.
    pub fn validate(&self) -> (r: Result<(), Invalid>)
        ensures
            r == match self.fault() {
                Some(fault) => Err::<(), Invalid>(fault),
                None => Ok::<(), Invalid>(()),
            },
    {
        let size_ok: bool = match self.group_size {
            Some(n) => n >= 1,
            None => true,
        };
        let limit_ok: bool = match self.limit {
            Some(n) => n >= 1,
            None => true,
        };
        if size_ok && limit_ok {
            Ok(())
        } else {
            Err(Invalid::BelowMinimum)
        }
    }
}

/// The points that answer a query, best first.
#[derive(Debug, PartialEq, Eq)]
pub struct QueryResponse {
    pub points: Vec<ScoredPoint>,
}

/// A search for the points nearest to one vector.
#[derive(Debug, PartialEq, Eq)]
pub struct SearchRequestInternal {
    pub vector: NamedVectorStruct,
    pub params: Option<SearchParams>,
    pub limit: usize,
    pub offset: Option<usize>,
    pub with_payload: Option<bool>,
    pub with_vector: Option<bool>,
    pub score_threshold: Option<ScoreType>,
}

/// A search whose results come in groups by a payload field.
#[derive(Debug, PartialEq, Eq)]
pub struct SearchGroupsRequestInternal {
    pub vector: NamedVectorStruct,
    pub params: Option<SearchParams>,
    pub with_payload: Option<bool>,
    pub with_vector: Option<bool>,
    pub score_threshold: Option<ScoreType>,
    pub group_request: BaseGroupRequest,
}

/// A query whose results come in groups by a payload field.
#[derive(Debug, PartialEq, Eq)]
pub struct QueryGroupsRequestInternal {
    pub prefetch: Option<Vec<Prefetch>>,
    pub query: Option<QueryInterface>,
    pub using: Option<String>,
    pub params: Option<SearchParams>,
    pub score_threshold: Option<ScoreType>,
    pub with_vector: Option<bool>,
    pub with_payload: Option<bool>,
    pub group_request: QueryBaseGroupRequest,
}

#[derive(Debug, PartialEq, Eq)]
pub struct QueryGroupsRequest {
    pub search_group_request: QueryGroupsRequestInternal,
    pub shard_key: Option<ShardKeySelector>,
}

impl BaseGroupRequest {
    pub open spec fn fault(&self) -> Option<Invalid> {
        if self.group_size >= 1 && self.limit >= 1 {
            None
        } else {
            Some(Invalid::BelowMinimum)
        }
    }
}

impl QueryBaseGroupRequest {
    pub open spec fn fault(&self) -> Option<Invalid> {
        if self.group_size != Some(0usize) && self.limit != Some(0usize) {
            None
        } else {
            Some(Invalid::BelowMinimum)
        }
    }
}

impl SearchRequestInternal {
    /// What is wrong with the vector and the limit of the search: the
    /// limit is one at the least.
    pub open spec fn fault(&self) -> Option<Invalid> {
        match self.vector.fault() {
            Some(fault) => Some(fault),
            None => if self.limit == 0 {
                Some(Invalid::BelowMinimum)
            } else {
                None
            },
        }
    }

    pub fn validate(&self) -> (r: Result<(), Invalid>)
        ensures
            r == match self.fault() {
                Some(fault) => Err::<(), Invalid>(fault),
                None => Ok::<(), Invalid>(()),
            },
    {
        match self.vector.validate() {
            Ok(()) => {},
            Err(fault) => {
                return Err(fault);
            },
        }
        if self.limit == 0 {
            Err(Invalid::BelowMinimum)
        } else {
            Ok(())
        }
    }
}

impl SearchGroupsRequestInternal {
    /// What is wrong with the vector and the groups of the search.
    pub open spec fn fault(&self) -> Option<Invalid> {
        match self.vector.fault() {
            Some(fault) => Some(fault),
            None => self.group_request.fault(),
        }
    }

    pub fn validate(&self) -> (r: Result<(), Invalid>)
        ensures
            r == match self.fault() {
                Some(fault) => Err::<(), Invalid>(fault),
                None => Ok::<(), Invalid>(()),
            },
    {
        match self.vector.validate() {
            Ok(()) => {},
            Err(fault) => {
                return Err(fault);
            },
        }
        self.group_request.validate()
    }
}

impl QueryGroupsRequestInternal {
    /// What is wrong with the query and the groups of the request.
    pub open spec fn fault(&self) -> Option<Invalid> {
        match self.query {
            Some(query) => match query.fault() {
                Some(fault) => Some(fault),
                None => self.group_request.fault(),
            },
            None => self.group_request.fault(),
        }
    }

    /// Checks the query and the groups of the request. The prefetches are
    /// checked one by one with `Prefetch::validate`.
    pub fn validate(&self) -> (r: Result<(), Invalid>)
        ensures
            r == match self.fault() {
                Some(fault) => Err::<(), Invalid>(fault),
                None => Ok::<(), Invalid>(()),
            },
    {
        match &self.query {
            Some(query) => {
                match query.validate() {
                    Ok(()) => {},
                    Err(fault) => {
                        return Err(fault);
                    },
                }
            },
            None => {},
        }
        self.group_request.validate()
    }
}

impl QueryGroupsRequest {
    pub fn validate(&self) -> (r: Result<(), Invalid>)
        ensures
            r == match self.search_group_request.fault() {
                Some(fault) => Err::<(), Invalid>(fault),
                None => Ok::<(), Invalid>(()),
            },
    {
        self.search_group_request.validate()
    }
}

} // verus!
