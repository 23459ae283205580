use vstd::prelude::*;
use smallvec::SmallVec;
use crate::types::ShardId;

verus! {

/// A ring whose nodes are shards.
#[verifier::external_body]
pub struct RawRing {
    inner: hashring::HashRing<ShardId>,
}

/// A ring whose nodes are the places of shards.
#[verifier::external_body]
pub struct FairRing {
    inner: hashring::HashRing<(ShardId, u32)>,
}

/// The entries of a ring whose nodes are shards, in the order of the ring:
/// the position of each node, and the node.
pub uninterp spec fn ring_nodes(ring: RawRing) -> Seq<(u64, ShardId)>;

/// The entries of a ring whose nodes are the places of shards: the position
/// of each node, the shard, and the number of the place.
pub uninterp spec fn fair_ring_nodes(ring: FairRing) -> Seq<
    (u64, ShardId, u32),
>;

/// The position on the ring to which a shard hashes.
pub uninterp spec fn shard_position(shard: ShardId) -> u64;

/// The position on the ring to which a place of a shard hashes.
pub uninterp spec fn place_position(shard: ShardId, place: u32) -> u64;

/// The position on the ring to which a key hashes.
pub uninterp spec fn key_position(key: u64) -> u64;

/// The index that a binary search for `probe` reports among ascending
/// positions, whether it finds the probe or not.
pub uninterp spec fn ring_search(positions: Seq<u64>, probe: u64) -> int;

/// The positions of the entries.
pub open spec fn positions_of(entries: Seq<(u64, ShardId)>) -> Seq<u64> {
    entries.map_values(|e: (u64, ShardId)| e.0)
}

/// The positions of the entries.
pub open spec fn fair_positions_of(entries: Seq<(u64, ShardId, u32)>) -> Seq<u64> {
    entries.map_values(|e: (u64, ShardId, u32)| e.0)
}

/// True when some position is the probe.
pub open spec fn has_position(positions: Seq<u64>, probe: u64) -> bool {
    exists|i: int| 0 <= i < positions.len() && positions[i] == probe
}

/// Number of leading positions that are not above the probe.
pub open spec fn rank_of(positions: Seq<u64>, probe: u64) -> int
    decreases positions.len(),
{
    if positions.len() == 0 {
        0
    } else if positions.last() <= probe {
        positions.len() as int
    } else {
        rank_of(positions.drop_last(), probe)
    }
}

/// No position is above one behind it.
pub open spec fn ascending(positions: Seq<u64>) -> bool {
    forall|i: int, j: int| 0 <= i < j < positions.len() ==> positions[i] <= positions[j]
}

/// The rank lies within the positions or just behind them.
pub proof fn lemma_rank_bounds(positions: Seq<u64>, probe: u64)
    ensures
        0 <= rank_of(positions, probe) <= positions.len(),
    decreases positions.len(),
{
    if positions.len() > 0 && positions.last() > probe {
        lemma_rank_bounds(positions.drop_last(), probe);
    }
}

/// What a search says of the positions: an index within them or just
/// behind; where the probe is among them, an index at which it stands;
/// and where it is not and the positions are ascending, the index at which
/// it could be put in: every position before the index is below the probe
/// and every position from the index on is above it.
pub open spec fn search_is_sound(positions: Seq<u64>, probe: u64) -> bool {
    &&& 0 <= ring_search(positions, probe) <= positions.len()
    &&& has_position(positions, probe) ==> (ring_search(positions, probe) < positions.len()
        && positions[ring_search(positions, probe)] == probe)
    &&& !has_position(positions, probe) ==> (ring_search(positions, probe) < positions.len()
        ==> positions[ring_search(positions, probe)] != probe)
    &&& !has_position(positions, probe) && ascending(positions) ==> forall|i: int|
        0 <= i < positions.len() ==> if i < ring_search(positions, probe) {
            #[trigger] positions[i] < probe
        } else {
            positions[i] > probe
        }
}

/// The index of the entry that owns a position: the one that the search
/// reports, the first where the search ends behind the last.
pub open spec fn owner_index(positions: Seq<u64>, probe: u64) -> int {
    if ring_search(positions, probe) >= positions.len() {
        0
    } else {
        ring_search(positions, probe)
    }
}

/// An empty ring of shards, by `hashring::HashRing::new`.
#[verifier::external_body]
pub(crate) fn raw_new() -> (r: RawRing)
    ensures
        ring_nodes(r).len() == 0,
{
    RawRing { inner: hashring::HashRing::new() }
}

/// An empty ring of places, by `hashring::HashRing::new`.
#[verifier::external_body]
pub(crate) fn fair_new() -> (r: FairRing)
    ensures
        fair_ring_nodes(r).len() == 0,
{
    FairRing { inner: hashring::HashRing::new() }
}

/// Adds a node by `hashring::HashRing::add`: the node is hashed, pushed and
/// the entries are sorted by position with a stable sort, so that the node
/// comes to stand behind every entry whose position is not above its own.
#[verifier::external_body]
pub(crate) fn raw_add(ring: &mut RawRing, shard: ShardId)
    ensures
        ring_nodes(*final(ring)) == ring_nodes(*old(ring)).insert(
            rank_of(positions_of(ring_nodes(*old(ring))), shard_position(shard)),
            (shard_position(shard), shard),
        ),
{
    ring.inner.add(shard)
}

/// The same for a ring of places.
#[verifier::external_body]
pub(crate) fn fair_add(ring: &mut FairRing, shard: ShardId, place: u32)
    ensures
        fair_ring_nodes(*final(ring)) == fair_ring_nodes(*old(ring)).insert(
            rank_of(fair_positions_of(fair_ring_nodes(*old(ring))), place_position(shard, place)),
            (place_position(shard, place), shard, place),
        ),
{
    ring.inner.add((shard, place))
}

/// Removes a node by `hashring::HashRing::remove`: the node is hashed and
/// its position is searched; where an entry stands at that position, the
/// entry that the search reports leaves, whichever node it holds.
#[verifier::external_body]
pub(crate) fn raw_remove(ring: &mut RawRing, shard: ShardId) -> (r: bool)
    ensures
        search_is_sound(positions_of(ring_nodes(*old(ring))), shard_position(shard)),
        r == has_position(positions_of(ring_nodes(*old(ring))), shard_position(shard)),
        r ==> ring_nodes(*final(ring)) == ring_nodes(*old(ring)).remove(
            ring_search(positions_of(ring_nodes(*old(ring))), shard_position(shard)),
        ),
        !r ==> ring_nodes(*final(ring)) == ring_nodes(*old(ring)),
{
    ring.inner.remove(&shard).is_some()
}

/// The same for a ring of places.
#[verifier::external_body]
pub(crate) fn fair_remove(ring: &mut FairRing, shard: ShardId, place: u32) -> (r:
    bool)
    ensures
        search_is_sound(
            fair_positions_of(fair_ring_nodes(*old(ring))),
            place_position(shard, place),
        ),
        r == has_position(
            fair_positions_of(fair_ring_nodes(*old(ring))),
            place_position(shard, place),
        ),
        r ==> fair_ring_nodes(*final(ring)) == fair_ring_nodes(*old(ring)).remove(
            ring_search(
                fair_positions_of(fair_ring_nodes(*old(ring))),
                place_position(shard, place),
            ),
        ),
        !r ==> fair_ring_nodes(*final(ring)) == fair_ring_nodes(*old(ring)),
{
    ring.inner.remove(&(shard, place)).is_some()
}

/// The node that owns a key, by `hashring::HashRing::get`: none on an
/// empty ring, else the node of the entry that the search for the position
/// of the key reports, the first entry where the search ends behind the
/// last.
#[verifier::external_body]
pub(crate) fn raw_get<'a>(ring: &'a RawRing, key: &u64) -> (r: Option<&'a ShardId>)
    ensures
        r is Some ==> search_is_sound(positions_of(ring_nodes(*ring)), key_position(*key)),
        ring_nodes(*ring).len() == 0 ==> r is None,
        ring_nodes(*ring).len() > 0 ==> r == Some(
            &ring_nodes(*ring)[owner_index(positions_of(ring_nodes(*ring)), key_position(*key))].1,
        ),
{
    ring.inner.get(key)
}

/// The same for a ring of places: the shard of the place that owns the key.
#[verifier::external_body]
pub(crate) fn fair_get<'a>(ring: &'a FairRing, key: &u64) -> (r: Option<
    &'a ShardId,
>)
    ensures
        r is Some ==> search_is_sound(
            fair_positions_of(fair_ring_nodes(*ring)),
            key_position(*key),
        ),
        fair_ring_nodes(*ring).len() == 0 ==> r is None,
        fair_ring_nodes(*ring).len() > 0 ==> r == Some(
            &fair_ring_nodes(*ring)[owner_index(
                fair_positions_of(fair_ring_nodes(*ring)),
                key_position(*key),
            )].1,
        ),
{
    ring.inner.get(key).map(|(shard, _)| shard)
}

/// Number of entries, by `hashring::HashRing::len`.
#[verifier::external_body]
pub(crate) fn raw_len(ring: &RawRing) -> (r: usize)
    ensures
        r == ring_nodes(*ring).len(),
{
    ring.inner.len()
}

/// Number of entries, by `hashring::HashRing::len`.
#[verifier::external_body]
pub(crate) fn fair_len(ring: &FairRing) -> (r: usize)
    ensures
        r == fair_ring_nodes(*ring).len(),
{
    ring.inner.len()
}

/// A copy of the ring, by its `Clone`.
#[verifier::external_body]
pub(crate) fn raw_clone(ring: &RawRing) -> (r: RawRing)
    ensures
        ring_nodes(r) == ring_nodes(*ring),
{
    RawRing { inner: ring.inner.clone() }
}

/// A copy of the ring, by its `Clone`.
#[verifier::external_body]
pub(crate) fn fair_clone(ring: &FairRing) -> (r: FairRing)
    ensures
        fair_ring_nodes(r) == fair_ring_nodes(*ring),
{
    FairRing { inner: ring.inner.clone() }
}

/// Compares two rings by their `PartialEq`, which compares the entries one
/// by one and of each entry the position only.
#[verifier::external_body]
pub(crate) fn raw_eq(a: &RawRing, b: &RawRing) -> (r: bool)
    ensures
        r == (positions_of(ring_nodes(*a)) == positions_of(ring_nodes(*b))),
{
    a.inner == b.inner
}

/// The same for rings of places.
#[verifier::external_body]
pub(crate) fn fair_eq(a: &FairRing, b: &FairRing) -> (r:
    bool)
    ensures
        r == (fair_positions_of(fair_ring_nodes(*a)) == fair_positions_of(fair_ring_nodes(*b))),
{
    a.inner == b.inner
}

/// The nodes in the order of the ring, by `hashring::HashRing::into_iter`
/// on a copy.
#[verifier::external_body]
pub(crate) fn raw_shards(ring: &RawRing) -> (r: Vec<ShardId>)
    ensures
        r@ == ring_nodes(*ring).map_values(|e: (u64, ShardId)| e.1),
{
    ring.inner.clone().into_iter().collect()
}

/// The shards of the places in the order of the ring, by
/// `hashring::HashRing::into_iter` on a copy.
#[verifier::external_body]
pub(crate) fn fair_shards(ring: &FairRing) -> (r: Vec<ShardId>)
    ensures
        r@ == fair_ring_nodes(*ring).map_values(|e: (u64, ShardId, u32)| e.1),
{
    ring.inner.clone().into_iter().map(|(node, _)| node).collect()
}

/// A short list of shard ids that lives on the stack while it holds no
/// more than two, which is as many as a ring under resharding gives.
#[verifier::external_body]
pub struct ShardIds {
    inner: SmallVec<[ShardId; 2]>,
}

/// The shard ids that the list holds, in their order.
pub uninterp spec fn shard_ids_view(ids: ShardIds) -> Seq<ShardId>;

/// An empty list, by `smallvec::SmallVec::new`.
#[verifier::external_body]
pub(crate) fn shard_ids_new() -> (r: ShardIds)
    ensures
        shard_ids_view(r) == Seq::<ShardId>::empty(),
{
    ShardIds { inner: SmallVec::new() }
}

/// Appends a shard id, by `smallvec::SmallVec::push`.
#[verifier::external_body]
pub(crate) fn shard_ids_push(ids: &mut ShardIds, shard: ShardId)
    ensures
        shard_ids_view(*final(ids)) == shard_ids_view(*old(ids)).push(shard),
{
    ids.inner.push(shard)
}

/// The shard ids as a vector, by `smallvec::SmallVec::to_vec`.
#[verifier::external_body]
pub(crate) fn shard_ids_to_vec(ids: &ShardIds) -> (r: Vec<ShardId>)
    ensures
        r@ == shard_ids_view(*ids),
{
    ids.inner.to_vec()
}

impl View for ShardIds {
    type V = Seq<ShardId>;

    open spec fn view(&self) -> Seq<ShardId> {
        shard_ids_view(*self)
    }
}

impl ShardIds {
    pub fn new() -> (r: Self)
        ensures
            r@ == Seq::<ShardId>::empty(),
    {
        shard_ids_new()
    }

    pub fn push(&mut self, shard: ShardId)
        ensures
            final(self)@ == old(self)@.push(shard),
    {
        shard_ids_push(self, shard)
    }

    pub fn to_vec(&self) -> (r: Vec<ShardId>)
        ensures
            r@ == self@,
    {
        shard_ids_to_vec(self)
    }
}

} // verus!
