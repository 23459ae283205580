use vstd::prelude::*;
use std::collections::HashSet;
use crate::ring_store::{
    ascending,
    fair_add,
    fair_clone,
    fair_eq,
    fair_get,
    fair_len,
    fair_new,
    fair_positions_of,
    fair_remove,
    fair_ring_nodes,
    fair_shards,
    has_position,
    key_position,
    owner_index,
    place_position,
    positions_of,
    rank_of,
    raw_add,
    raw_clone,
    raw_eq,
    raw_get,
    raw_len,
    raw_new,
    raw_remove,
    raw_shards,
    ring_nodes,
    ring_search,
    search_is_sound,
    shard_position,
    FairRing,
    RawRing,
    ShardIds,
};
use crate::types::{CardinalityEstimation, OperationError, PointIdType, ShardId};

verus! {

/// Number of places that each shard takes on a fair ring.
pub const HASH_RING_SHARD_SCALE: u32 = 100;

/// The entries after a shard has taken its first `places` places.
pub open spec fn fair_added(entries: Seq<(u64, ShardId, u32)>, shard: ShardId, places: nat) -> Seq<
    (u64, ShardId, u32),
>
    decreases places,
{
    if places == 0 {
        entries
    } else {
        let before = fair_added(entries, shard, (places - 1) as nat);
        let place = (places - 1) as u32;
        before.insert(
            rank_of(fair_positions_of(before), place_position(shard, place)),
            (place_position(shard, place), shard, place),
        )
    }
}

/// The entries after the first `places` places of a shard have been looked
/// for and, where an entry stood at their position, taken out.
pub open spec fn fair_removed(entries: Seq<(u64, ShardId, u32)>, shard: ShardId, places: nat) -> Seq<
    (u64, ShardId, u32),
>
    decreases places,
{
    if places == 0 {
        entries
    } else {
        let before = fair_removed(entries, shard, (places - 1) as nat);
        let probe = place_position(shard, (places - 1) as u32);
        if has_position(fair_positions_of(before), probe) {
            before.remove(ring_search(fair_positions_of(before), probe))
        } else {
            before
        }
    }
}

/// True when looking for the first `places` places of a shard took an
/// entry out.
pub open spec fn fair_was_removed(
    entries: Seq<(u64, ShardId, u32)>,
    shard: ShardId,
    places: nat,
) -> bool
    decreases places,
{
    if places == 0 {
        false
    } else {
        fair_was_removed(entries, shard, (places - 1) as nat) || has_position(
            fair_positions_of(fair_removed(entries, shard, (places - 1) as nat)),
            place_position(shard, (places - 1) as u32),
        )
    }
}

/// A ring as a plain value.
pub enum InnerView {
    Raw(Seq<(u64, ShardId)>),
    Fair { entries: Seq<(u64, ShardId, u32)>, scale: u32 },
}

impl InnerView {
    /// The positions of the entries, in the order of the ring.
    pub open spec fn positions(self) -> Seq<u64> {
        match self {
            InnerView::Raw(entries) => positions_of(entries),
            InnerView::Fair { entries, .. } => fair_positions_of(entries),
        }
    }

    /// The shards of the entries, in the order of the ring.
    pub open spec fn shards(self) -> Seq<ShardId> {
        match self {
            InnerView::Raw(entries) => entries.map_values(|e: (u64, ShardId)| e.1),
            InnerView::Fair { entries, .. } => entries.map_values(|e: (u64, ShardId, u32)| e.1),
        }
    }

    /// The shard that owns the key, none on an empty ring.
    pub open spec fn owner(self, key: u64) -> Option<ShardId> {
        if self.positions().len() == 0 {
            None
        } else {
            Some(self.shards()[owner_index(self.positions(), key_position(key))])
        }
    }

    /// The ring after the shard was added: with one more entry on a raw
    /// ring, with one for each place on a fair one.
    pub open spec fn added(self, shard: ShardId) -> InnerView {
        match self {
            InnerView::Raw(entries) => InnerView::Raw(
                entries.insert(
                    rank_of(positions_of(entries), shard_position(shard)),
                    (shard_position(shard), shard),
                ),
            ),
            InnerView::Fair { entries, scale } => InnerView::Fair {
                entries: fair_added(entries, shard, scale as nat),
                scale,
            },
        }
    }

    /// The ring after the shard was removed.
    pub open spec fn removed(self, shard: ShardId) -> InnerView {
        match self {
            InnerView::Raw(entries) => if has_position(
                positions_of(entries),
                shard_position(shard),
            ) {
                InnerView::Raw(
                    entries.remove(ring_search(positions_of(entries), shard_position(shard))),
                )
            } else {
                self
            },
            InnerView::Fair { entries, scale } => InnerView::Fair {
                entries: fair_removed(entries, shard, scale as nat),
                scale,
            },
        }
    }

    /// True when removing the shard takes an entry out of the ring.
    pub open spec fn holds(self, shard: ShardId) -> bool {
        match self {
            InnerView::Raw(entries) => has_position(positions_of(entries), shard_position(shard)),
            InnerView::Fair { entries, scale } => fair_was_removed(entries, shard, scale as nat),
        }
    }

    /// True when the rings are of one kind and scale and their entries
    /// stand at the same positions.
    pub open spec fn same(self, other: InnerView) -> bool {
        match (self, other) {
            (InnerView::Raw(a), InnerView::Raw(b)) => positions_of(a) == positions_of(b),
            (
                InnerView::Fair { entries: a, scale: x },
                InnerView::Fair { entries: b, scale: y },
            ) => fair_positions_of(a) == fair_positions_of(b) && x == y,
            _ => false,
        }
    }

    /// Number of shards: the entries of a raw ring, the entries of a fair
    /// ring over its scale.
    pub open spec fn spec_len(self) -> int {
        match self {
            InnerView::Raw(entries) => entries.len() as int,
            InnerView::Fair { entries, scale } => entries.len() as int / scale as int,
        }
    }
}

/// A consistent hash ring over shards: with one entry for each shard, or
/// with `scale` entries for each, which evens out the share of the keys
/// that each shard owns.
pub enum Inner {
    Raw(RawRing),
    Fair { ring: FairRing, scale: u32 },
}

impl View for Inner {
    type V = InnerView;

    open spec fn view(&self) -> InnerView {
        match self {
            Inner::Raw(ring) => InnerView::Raw(ring_nodes(*ring)),
            Inner::Fair { ring, scale } => InnerView::Fair {
                entries: fair_ring_nodes(*ring),
                scale: *scale,
            },
        }
    }
}

impl Inner {
    /// An empty ring with one entry for each shard.
    pub fn raw() -> (r: Self)
        ensures
            r@ == InnerView::Raw(Seq::empty()),
    {
        let ring = raw_new();
        assert(ring_nodes(ring) =~= Seq::empty());
        Inner::Raw(ring)
    }

    /// An empty ring with `scale` entries for each shard. The larger the
    /// scale the more even the shares of the shards, and the slower the
    /// search.
    pub fn fair(scale: u32) -> (r: Self)
        ensures
            r@ == (InnerView::Fair { entries: Seq::empty(), scale }),
    {
        let ring = fair_new();
        assert(fair_ring_nodes(ring) =~= Seq::empty());
        Inner::Fair { ring, scale }
    }

    /// Puts a shard on the ring: at one position, or at `scale` positions
    /// where the ring is fair.
    pub fn add(&mut self, shard: ShardId)
        ensures
            final(self)@ == old(self)@.added(shard),
    {
        match self {
            Inner::Raw(ring) => {
                raw_add(ring, shard);
            },
            Inner::Fair { ring, scale } => {
                let places: u32 = *scale;
                let ghost start = fair_ring_nodes(*ring);
                let mut i: u32 = 0;
                while i < places
                    invariant
                        i <= places,
                        fair_ring_nodes(*ring) == fair_added(start, shard, i as nat),
                    decreases places - i,
                {
                    fair_add(ring, shard, i);
                    i = i + 1;
                }
            },
        }
    }

    /// Removes the shard. Says whether an entry left the ring.
    pub fn remove(&mut self, shard: &ShardId) -> (r: bool)
        ensures
            final(self)@ == old(self)@.removed(*shard),
            r == old(self)@.holds(*shard),
    {
        match self {
            Inner::Raw(ring) => raw_remove(ring, *shard),
            Inner::Fair { ring, scale } => {
                let places: u32 = *scale;
                let ghost start = fair_ring_nodes(*ring);
                let mut removed: bool = false;
                let mut i: u32 = 0;
                while i < places
                    invariant
                        i <= places,
                        fair_ring_nodes(*ring) == fair_removed(start, *shard, i as nat),
                        removed == fair_was_removed(start, *shard, i as nat),
                    decreases places - i,
                {
                    if fair_remove(ring, *shard, i) {
                        removed = true;
                    }
                    i = i + 1;
                }
                removed
            },
        }
    }

    /// The shard that owns the key, none on an empty ring.
    pub fn get(&self, key: &u64) -> (r: Option<&ShardId>)
        ensures
            match r {
                Some(shard) => self@.owner(*key) == Some(*shard),
                None => self@.owner(*key) is None,
            },
            r matches Some(shard) ==> self@.shards().contains(*shard),
            r is Some ==> search_is_sound(self@.positions(), key_position(*key)),
    {
        match self {
            Inner::Raw(ring) => {
                let r = raw_get(ring, key);
                proof {
                    if r is Some {
                        let positions = positions_of(ring_nodes(*ring));
                        let at = owner_index(positions, key_position(*key));
                        assert(self@.shards()[at] == ring_nodes(*ring)[at].1);
                    }
                }
                r
            },
            Inner::Fair { ring, .. } => {
                let r = fair_get(ring, key);
                proof {
                    if r is Some {
                        let positions = fair_positions_of(fair_ring_nodes(*ring));
                        let at = owner_index(positions, key_position(*key));
                        assert(self@.shards()[at] == fair_ring_nodes(*ring)[at].1);
                    }
                }
                r
            },
        }
    }

    pub fn is_empty(&self) -> (r: bool)
        ensures
            r == (self@.positions().len() == 0),
    {
        match self {
            Inner::Raw(ring) => raw_len(ring) == 0,
            Inner::Fair { ring, .. } => fair_len(ring) == 0,
        }
    }

    /// Number of shards on the ring.
    pub fn len(&self) -> (r: usize)
        requires
            self@ matches InnerView::Fair { scale, .. } ==> scale > 0,
        ensures
            r == self@.spec_len(),
    {
        match self {
            Inner::Raw(ring) => raw_len(ring),
            Inner::Fair { ring, scale } => fair_len(ring) / (*scale as usize),
        }
    }

    /// The shards on the ring, each once.
    pub fn unique_nodes(&self) -> (r: HashSet<ShardId>)
        ensures
            r@ == self@.shards().to_set(),
    {
        broadcast use vstd::std_specs::hash::group_hash_axioms;

        let shards: Vec<ShardId> = match self {
            Inner::Raw(ring) => raw_shards(ring),
            Inner::Fair { ring, .. } => fair_shards(ring),
        };
        let mut nodes: HashSet<ShardId> = HashSet::new();
        let mut i: usize = 0;
        proof {
            assert(shards@.take(0) =~= Seq::<ShardId>::empty());
            assert(shards@.take(0).to_set() =~= Set::<ShardId>::empty());
        }
        while i < shards.len()
            invariant
                i <= shards.len(),
                nodes@ == shards@.take(i as int).to_set(),
            decreases shards.len() - i,
        {
            nodes.insert(shards[i]);
            proof {
                assert(shards@.take(i as int + 1) =~= shards@.take(i as int).push(shards@[i as int]));
                shards@.take(i as int).lemma_push_to_set_commute(shards@[i as int]);
            }
            i = i + 1;
        }
        proof {
            assert(shards@.take(shards@.len() as int) =~= shards@);
        }
        nodes
    }

    /// True when the shard is on the ring.
    pub fn contains(&self, shard: ShardId) -> (r: bool)
        ensures
            r == self@.shards().contains(shard),
    {
        let shards: Vec<ShardId> = match self {
            Inner::Raw(ring) => raw_shards(ring),
            Inner::Fair { ring, .. } => fair_shards(ring),
        };
        assert(shards@ == self@.shards());
        let mut i: usize = 0;
        while i < shards.len()
            invariant
                i <= shards.len(),
                shards@ == self@.shards(),
                forall|k: int| 0 <= k < i ==> shards@[k] != shard,
            decreases shards.len() - i,
        {
            if shards[i] == shard {
                assert(shards@[i as int] == shard);
                return true;
            }
            i = i + 1;
        }
        assert(!shards@.contains(shard)) by {
            if shards@.contains(shard) {
                let k = choose|k: int| 0 <= k < shards@.len() && shards@[k] == shard;
                assert(shards@[k] != shard);
            }
        }
        false
    }

    /// A copy of the ring.
    pub fn copy(&self) -> (r: Self)
        ensures
            r@ == self@,
    {
        match self {
            Inner::Raw(ring) => Inner::Raw(raw_clone(ring)),
            Inner::Fair { ring, scale } => Inner::Fair { ring: fair_clone(ring), scale: *scale },
        }
    }

    /// True when the rings are of one kind and scale and their entries
    /// stand at the same positions.
    pub fn same(&self, other: &Inner) -> (r: bool)
        ensures
            r == self@.same(other@),
    {
        match (self, other) {
            (Inner::Raw(a), Inner::Raw(b)) => raw_eq(a, b),
            (Inner::Fair { ring: a, scale: x }, Inner::Fair { ring: b, scale: y }) => fair_eq(a, b)
                && *x == *y,
            _ => false,
        }
    }
}


/// The key under which a point is looked up on a ring: the number of a
/// numbered point, the two halves of a UUID folded into one.
pub open spec fn spec_routing_key(point_id: PointIdType) -> u64 {
    match point_id {
        PointIdType::NumId(n) => n,
        PointIdType::Uuid(u) => ((u >> 64) as u64) ^ ((u & 0xffff_ffff_ffff_ffff) as u64),
    }
}

/// The key by which a point is routed: a number as it is, a UUID folded
/// to 64 bits.
pub fn routing_key(point_id: PointIdType) -> (r: u64)
    ensures
        r == spec_routing_key(point_id),
{
    match point_id {
        PointIdType::NumId(n) => n,
        PointIdType::Uuid(u) => {
            let high: u128 = u >> 64;
            let low: u128 = u & 0xffff_ffff_ffff_ffff;
            assert(high <= 0xffff_ffff_ffff_ffff) by (bit_vector)
                requires
                    high == u >> 64,
            ;
            assert(low <= 0xffff_ffff_ffff_ffff) by (bit_vector)
                requires
                    low == u & 0xffff_ffff_ffff_ffff,
            ;
            (high as u64) ^ (low as u64)
        },
    }
}

/// The shards that own a key on two rings: the owner on the first, then
/// the owner on the second unless it is the same shard.
pub open spec fn owners_of(first: Option<ShardId>, second: Option<ShardId>) -> Seq<ShardId> {
    match (first, second) {
        (None, None) => Seq::empty(),
        (Some(a), None) => seq![a],
        (None, Some(b)) => seq![b],
        (Some(a), Some(b)) => if a == b {
            seq![a]
        } else {
            seq![a, b]
        },
    }
}

/// A hash ring as a plain value.
pub enum HashRingView {
    Single(InnerView),
    Resharding { old: InnerView, new: InnerView },
}

impl HashRingView {
    /// The shards that own the key: one on a single ring, during resharding
    /// the owners on both rings, a shard that owns it on both given once.
    pub open spec fn owners(self, key: u64) -> Seq<ShardId> {
        match self {
            HashRingView::Single(ring) => owners_of(ring.owner(key), None),
            HashRingView::Resharding { old, new } => owners_of(old.owner(key), new.owner(key)),
        }
    }

    /// The ring that reads go by: during resharding the new one.
    pub open spec fn read_ring(self) -> InnerView {
        match self {
            HashRingView::Single(ring) => ring,
            HashRingView::Resharding { new, .. } => new,
        }
    }
}

/// The ring by which a collection spreads its points over its shards.
/// While a shard is added there are two rings, the old and the new, and a
/// point may be on either of its owners or on both.
pub enum HashRing {
    /// One ring.
    Single(Inner),
    /// Two rings while resharding goes on.
    Resharding { old: Inner, new: Inner },
}

impl View for HashRing {
    type V = HashRingView;

    open spec fn view(&self) -> HashRingView {
        match self {
            HashRing::Single(ring) => HashRingView::Single(ring@),
            HashRing::Resharding { old, new } => HashRingView::Resharding { old: old@, new: new@ },
        }
    }
}

impl HashRing {
    /// A single fair ring without shards.
    pub fn single() -> (r: Self)
        ensures
            r@ == HashRingView::Single(
                InnerView::Fair { entries: Seq::empty(), scale: HASH_RING_SHARD_SCALE },
            ),
    {
        HashRing::Single(Inner::fair(HASH_RING_SHARD_SCALE))
    }

    /// Two fair rings, the new one with the shard on it.
    pub fn resharding(shard: ShardId) -> (r: Self)
        ensures
            r@ == (HashRingView::Resharding {
                old: InnerView::Fair { entries: Seq::empty(), scale: HASH_RING_SHARD_SCALE },
                new: (InnerView::Fair {
                    entries: Seq::empty(),
                    scale: HASH_RING_SHARD_SCALE,
                }).added(shard),
            }),
    {
        let mut ring = HashRing::Resharding {
            old: Inner::fair(HASH_RING_SHARD_SCALE),
            new: Inner::fair(HASH_RING_SHARD_SCALE),
        };
        ring.add_resharding(shard);
        ring
    }

    pub fn is_empty(&self) -> (r: bool)
        ensures
            r == match self@ {
                HashRingView::Single(ring) => ring.positions().len() == 0,
                HashRingView::Resharding { old, new } => old.positions().len() == 0
                    && new.positions().len() == 0,
            },
    {
        match self {
            HashRing::Single(ring) => ring.is_empty(),
            HashRing::Resharding { old, new } => old.is_empty() && new.is_empty(),
        }
    }

    pub fn is_resharding(&self) -> (r: bool)
        ensures
            r == self@ is Resharding,
    {
        match self {
            HashRing::Single(_) => false,
            HashRing::Resharding { .. } => true,
        }
    }

    /// Adds a shard: to the one ring, or during resharding to both rings
    /// unless the new ring has the shard already.
    pub fn add(&mut self, shard: ShardId)
        ensures
            final(self)@ == match old(self)@ {
                HashRingView::Single(ring) => HashRingView::Single(ring.added(shard)),
                HashRingView::Resharding { old: first, new } => if new.shards().contains(shard) {
                    HashRingView::Resharding { old: first, new }
                } else {
                    HashRingView::Resharding { old: first.added(shard), new: new.added(shard) }
                },
            },
    {
        match self {
            HashRing::Single(ring) => ring.add(shard),
            HashRing::Resharding { old, new } => {
                if !new.contains(shard) {
                    old.add(shard);
                    new.add(shard);
                }
            },
        }
    }

    /// Begins or goes on resharding: a single ring is doubled first; then
    /// the shard is added to the new ring only.
    pub fn add_resharding(&mut self, shard: ShardId)
        ensures
            final(self)@ == match old(self)@ {
                HashRingView::Single(ring) => HashRingView::Resharding {
                    old: ring,
                    new: ring.added(shard),
                },
                HashRingView::Resharding { old, new } => HashRingView::Resharding {
                    old,
                    new: new.added(shard),
                },
            },
    {
        let ghost before = self@;
        let doubled: Option<(Inner, Inner)> = match self {
            HashRing::Single(ring) => Some((ring.copy(), ring.copy())),
            HashRing::Resharding { .. } => None,
        };
        match doubled {
            Some((old, new)) => {
                *self = HashRing::Resharding { old, new };
            },
            None => {},
        }
        match self {
            HashRing::Resharding { new, .. } => {
                new.add(shard);
            },
            HashRing::Single(_) => {},
        }
    }

    /// Ends resharding: the new ring becomes the one ring. Says false, and
    /// changes nothing, where no resharding goes on.
    pub fn commit_resharding(&mut self) -> (r: bool)
        ensures
            r == old(self)@ is Resharding,
            final(self)@ == match old(self)@ {
                HashRingView::Single(ring) => old(self)@,
                HashRingView::Resharding { old, new } => HashRingView::Single(new),
            },
    {
        let committed: Option<Inner> = match self {
            HashRing::Resharding { new, .. } => Some(new.copy()),
            HashRing::Single(_) => None,
        };
        match committed {
            Some(new) => {
                *self = HashRing::Single(new);
                true
            },
            None => false,
        }
    }

    /// What taking the shard back out of the new ring comes to.
    pub open spec fn spec_remove_resharding(ring: HashRingView, shard: ShardId) -> HashRingView {
        match ring {
            HashRingView::Single(_) => ring,
            HashRingView::Resharding { old, new } => if !old.holds(shard) && new.holds(shard) {
                if old.same(new.removed(shard)) {
                    HashRingView::Single(old)
                } else {
                    HashRingView::Resharding { old, new: new.removed(shard) }
                }
            } else {
                ring
            },
        }
    }

    /// Takes the shard that is being added back out of the new ring, and
    /// goes back to a single ring once the two rings are the same. Says
    /// whether the shard was taken out. A shard that is on the old ring is
    /// no shard that is being added: that is an error, and nothing changes.
    pub fn remove_resharding(&mut self, shard: ShardId) -> (r: Result<bool, OperationError>)
        ensures
            final(self)@ == Self::spec_remove_resharding(old(self)@, shard),
            match old(self)@ {
                HashRingView::Single(_) => r == Ok::<bool, OperationError>(false),
                HashRingView::Resharding { old, new } => if old.holds(shard) {
                    r matches Err(OperationError::PreconditionFailed { description })
                        && description@ == if new.holds(shard) {
                        "removing resharding shard, but it is not resharding shard"@
                    } else {
                        "removing resharding shard, but it only exists in the old hashring"@
                    }
                } else {
                    r == Ok::<bool, OperationError>(new.holds(shard))
                },
            },
    {
        let (removed_from_old, removed_from_new, trimmed): (bool, bool, Inner) = match self {
            HashRing::Single(_) => {
                return Ok(false);
            },
            HashRing::Resharding { old, new } => {
                let mut old = old.copy();
                let mut new = new.copy();
                let removed_from_old: bool = old.remove(&shard);
                let removed_from_new: bool = new.remove(&shard);
                (removed_from_old, removed_from_new, new)
            },
        };
        if removed_from_old {
            if removed_from_new {
                return Err(
                    OperationError::PreconditionFailed {
                        description: "removing resharding shard, but it is not resharding shard".to_string(),
                    },
                );
            }
            return Err(
                OperationError::PreconditionFailed {
                    description: "removing resharding shard, but it only exists in the old hashring".to_string(),
                },
            );
        }
        if !removed_from_new {
            return Ok(false);
        }
        let single: Option<Inner> = match self {
            HashRing::Resharding { old, .. } => if old.same(&trimmed) {
                Some(old.copy())
            } else {
                None
            },
            HashRing::Single(_) => None,
        };
        match single {
            Some(ring) => {
                *self = HashRing::Single(ring);
            },
            None => {
                match self {
                    HashRing::Resharding { new, .. } => {
                        *new = trimmed;
                    },
                    HashRing::Single(_) => {},
                }
            },
        }
        Ok(true)
    }

    /// The shards that own the key.
    pub fn get(&self, key: &u64) -> (r: ShardIds)
        ensures
            r@ == self@.owners(*key),
    {
        let mut ids: ShardIds = ShardIds::new();
        match self {
            HashRing::Single(ring) => {
                match ring.get(key) {
                    Some(shard) => {
                        ids.push(*shard);
                    },
                    None => {},
                }
            },
            HashRing::Resharding { old, new } => {
                let first: Option<&ShardId> = old.get(key);
                let second: Option<&ShardId> = new.get(key);
                match first {
                    Some(a) => {
                        ids.push(*a);
                    },
                    None => {},
                }
                match second {
                    Some(b) => {
                        let repeated: bool = match first {
                            Some(a) => *a == *b,
                            None => false,
                        };
                        if !repeated {
                            ids.push(*b);
                        }
                    },
                    None => {},
                }
            },
        }
        assert(ids@ =~= self@.owners(*key));
        ids
    }

    /// True when the shard owns the key by the ring that reads go by.
    pub fn is_in_shard(&self, key: &u64, shard: ShardId) -> (r: bool)
        ensures
            r == (self@.read_ring().owner(*key) == Some(shard)),
    {
        let ring: &Inner = match self {
            HashRing::Resharding { new, .. } => new,
            HashRing::Single(ring) => ring,
        };
        match ring.get(key) {
            Some(owner) => *owner == shard,
            None => false,
        }
    }

    /// The shards on the ring that reads go by, each once.
    pub fn unique_nodes(&self) -> (r: HashSet<ShardId>)
        ensures
            r@ == self@.read_ring().shards().to_set(),
    {
        match self {
            HashRing::Single(ring) => ring.unique_nodes(),
            HashRing::Resharding { new, .. } => new.unique_nodes(),
        }
    }
}

/// During resharding a key is owned by its owner on the old ring, by its
/// owner on the new ring, or by both, and no shard is given twice.
/// No two entries stand at one position, and the positions rise.
pub open spec fn positions_apart(positions: Seq<u64>) -> bool {
    forall|i: int, j: int| 0 <= i < j < positions.len() ==> positions[i] < positions[j]
}

/// An entry of the shard stands at the position.
pub open spec fn has_entry(
    positions: Seq<u64>,
    shards: Seq<ShardId>,
    position: u64,
    shard: ShardId,
) -> bool {
    exists|j: int|
        0 <= j < positions.len() && #[trigger] positions[j] == position && shards[j] == shard
}

/// The entry at `i` of the first ring stands on the second.
pub open spec fn entry_kept(
    old_positions: Seq<u64>,
    old_shards: Seq<ShardId>,
    new_positions: Seq<u64>,
    new_shards: Seq<ShardId>,
    i: int,
) -> bool {
    has_entry(new_positions, new_shards, old_positions[i], old_shards[i])
}

/// The entry at `j` of the second ring is of the shard or stands on the
/// first.
pub open spec fn entry_known(
    old_positions: Seq<u64>,
    old_shards: Seq<ShardId>,
    new_positions: Seq<u64>,
    new_shards: Seq<ShardId>,
    shard: ShardId,
    j: int,
) -> bool {
    new_shards[j] == shard || has_entry(old_positions, old_shards, new_positions[j], new_shards[j])
}

/// The second ring holds the entries of the first and besides them
/// entries of the shard only.
pub open spec fn grown_by(
    old_positions: Seq<u64>,
    old_shards: Seq<ShardId>,
    new_positions: Seq<u64>,
    new_shards: Seq<ShardId>,
    shard: ShardId,
) -> bool {
    &&& old_positions.len() == old_shards.len()
    &&& new_positions.len() == new_shards.len()
    &&& forall|i: int|
        0 <= i < old_positions.len() ==> #[trigger] entry_kept(
            old_positions,
            old_shards,
            new_positions,
            new_shards,
            i,
        )
    &&& forall|j: int|
        0 <= j < new_positions.len() ==> #[trigger] entry_known(
            old_positions,
            old_shards,
            new_positions,
            new_shards,
            shard,
            j,
        )
}

/// The owner of a position is the entry at the least position that is not
/// below it, the entry at the least position of all where none is.
pub open spec fn owns(positions: Seq<u64>, probe: u64, at: int) -> bool {
    &&& 0 <= at < positions.len()
    &&& if exists|i: int| 0 <= i < positions.len() && positions[i] >= probe {
        positions[at] >= probe && forall|i: int|
            0 <= i < positions.len() && #[trigger] positions[i] >= probe ==> positions[i]
                >= positions[at]
    } else {
        at == 0
    }
}

/// On a ring whose entries stand apart, the entry that the search gives a
/// position to is its owner in that sense.
pub proof fn lemma_owner_is_next(positions: Seq<u64>, probe: u64)
    requires
        positions.len() > 0,
        positions_apart(positions),
        search_is_sound(positions, probe),
    ensures
        owns(positions, probe, owner_index(positions, probe)),
{
    let found = ring_search(positions, probe);
    let at = owner_index(positions, probe);
    assert(ascending(positions)) by {
        assert forall|i: int, j: int| 0 <= i < j < positions.len() implies positions[i]
            <= positions[j] by {
            assert(positions[i] < positions[j]);
        }
    }
    if has_position(positions, probe) {
        assert(positions[at] == probe);
    } else if found < positions.len() {
        assert(positions[found] > probe);
        assert forall|i: int|
            0 <= i < positions.len() && #[trigger] positions[i] >= probe implies positions[i]
            >= positions[at] by {
            if i < found {
                assert(positions[i] < probe);
            } else if i > found {
                assert(positions[found] < positions[i]);
            }
        }
    } else {
        assert forall|i: int| 0 <= i < positions.len() implies !(positions[i] >= probe) by {
            assert(positions[i] < probe);
        }
    }
}

/// Where a ring grows by entries of one shard, and its entries stand
/// apart before and after, the owner of a position stays or becomes that
/// shard.
pub proof fn lemma_grown_owner(
    old_positions: Seq<u64>,
    old_shards: Seq<ShardId>,
    new_positions: Seq<u64>,
    new_shards: Seq<ShardId>,
    shard: ShardId,
    probe: u64,
    a: int,
    b: int,
)
    requires
        grown_by(old_positions, old_shards, new_positions, new_shards, shard),
        positions_apart(old_positions),
        positions_apart(new_positions),
        owns(old_positions, probe, a),
        owns(new_positions, probe, b),
    ensures
        new_shards[b] == old_shards[a] || new_shards[b] == shard,
{
    if new_shards[b] != shard {
        assert(entry_known(old_positions, old_shards, new_positions, new_shards, shard, b));
        assert(entry_kept(old_positions, old_shards, new_positions, new_shards, a));
        let i = choose|i: int|
            0 <= i < old_positions.len() && #[trigger] old_positions[i] == new_positions[b]
                && old_shards[i] == new_shards[b];
        let j = choose|j: int|
            0 <= j < new_positions.len() && #[trigger] new_positions[j] == old_positions[a]
                && new_shards[j] == old_shards[a];
        if exists|k: int| 0 <= k < new_positions.len() && new_positions[k] >= probe {
            assert(new_positions[b] >= probe);
            assert(old_positions[i] >= probe);
            assert(old_positions[a] >= probe);
            assert(old_positions[i] >= old_positions[a]);
            assert(new_positions[j] >= probe);
            assert(new_positions[j] >= new_positions[b]);
        } else {
            assert(b == 0);
            if exists|k: int| 0 <= k < old_positions.len() && old_positions[k] >= probe {
                let k = choose|k: int| 0 <= k < old_positions.len() && old_positions[k] >= probe;
                assert(entry_kept(old_positions, old_shards, new_positions, new_shards, k));
                let m = choose|m: int|
                    0 <= m < new_positions.len() && #[trigger] new_positions[m] == old_positions[k]
                        && new_shards[m] == old_shards[k];
                assert(new_positions[m] >= probe);
            }
            assert(a == 0);
            if i > 0 {
                assert(old_positions[0] < old_positions[i]);
            }
            if j > 0 {
                assert(new_positions[0] < new_positions[j]);
            }
        }
        assert(old_positions[i] == old_positions[a]);
        if i < a {
            assert(old_positions[i] < old_positions[a]);
        } else if a < i {
            assert(old_positions[a] < old_positions[i]);
        }
    }
}

/// Putting an entry of a shard into a ring makes the ring grow by that
/// shard, and where the entries stand apart afterwards they did before.
pub proof fn lemma_insert_grows(
    positions: Seq<u64>,
    shards: Seq<ShardId>,
    at: int,
    position: u64,
    shard: ShardId,
)
    requires
        positions.len() == shards.len(),
        0 <= at <= positions.len(),
    ensures
        grown_by(positions, shards, positions.insert(at, position), shards.insert(at, shard), shard),
        positions_apart(positions.insert(at, position)) ==> positions_apart(positions),
{
    let new_positions = positions.insert(at, position);
    let new_shards = shards.insert(at, shard);
    assert forall|i: int| 0 <= i < positions.len() implies #[trigger] entry_kept(
        positions,
        shards,
        new_positions,
        new_shards,
        i,
    ) by {
        let j = if i < at { i } else { i + 1 };
        assert(new_positions[j] == positions[i] && new_shards[j] == shards[i]);
    }
    assert forall|j: int| 0 <= j < new_positions.len() implies #[trigger] entry_known(
        positions,
        shards,
        new_positions,
        new_shards,
        shard,
        j,
    ) by {
        if j != at {
            let i = if j < at { j } else { j - 1 };
            assert(positions[i] == new_positions[j] && shards[i] == new_shards[j]);
        }
    }
    if positions_apart(new_positions) {
        assert forall|i: int, j: int| 0 <= i < j < positions.len() implies positions[i]
            < positions[j] by {
            let x = if i < at { i } else { i + 1 };
            let y = if j < at { j } else { j + 1 };
            assert(new_positions[x] < new_positions[y]);
        }
    }
}

/// Growth by a shard goes on: a ring that has grown by a shard and grows
/// by it again has grown by it.
pub proof fn lemma_grown_twice(
    p0: Seq<u64>,
    s0: Seq<ShardId>,
    p1: Seq<u64>,
    s1: Seq<ShardId>,
    p2: Seq<u64>,
    s2: Seq<ShardId>,
    shard: ShardId,
)
    requires
        grown_by(p0, s0, p1, s1, shard),
        grown_by(p1, s1, p2, s2, shard),
    ensures
        grown_by(p0, s0, p2, s2, shard),
{
    assert forall|i: int| 0 <= i < p0.len() implies #[trigger] entry_kept(p0, s0, p2, s2, i) by {
        assert(entry_kept(p0, s0, p1, s1, i));
        let m = choose|m: int| 0 <= m < p1.len() && #[trigger] p1[m] == p0[i] && s1[m] == s0[i];
        assert(entry_kept(p1, s1, p2, s2, m));
        let j = choose|j: int| 0 <= j < p2.len() && #[trigger] p2[j] == p1[m] && s2[j] == s1[m];
        assert(p2[j] == p0[i] && s2[j] == s0[i]);
    }
    assert forall|j: int| 0 <= j < p2.len() implies #[trigger] entry_known(
        p0,
        s0,
        p2,
        s2,
        shard,
        j,
    ) by {
        if s2[j] != shard {
            assert(entry_known(p1, s1, p2, s2, shard, j));
            let m = choose|m: int| 0 <= m < p1.len() && #[trigger] p1[m] == p2[j] && s1[m] == s2[j];
            assert(entry_known(p0, s0, p1, s1, shard, m));
            let i = choose|i: int| 0 <= i < p0.len() && #[trigger] p0[i] == p1[m] && s0[i] == s1[m];
            assert(p0[i] == p2[j] && s0[i] == s2[j]);
        }
    }
}

/// The shards of the entries of a fair ring.
pub open spec fn fair_shards_of(entries: Seq<(u64, ShardId, u32)>) -> Seq<ShardId> {
    entries.map_values(|e: (u64, ShardId, u32)| e.1)
}

/// A fair ring on which a shard takes places grows by that shard, and
/// where its entries stand apart afterwards they did before.
pub proof fn lemma_fair_added_grows(entries: Seq<(u64, ShardId, u32)>, shard: ShardId, places: nat)
    ensures
        grown_by(
            fair_positions_of(entries),
            fair_shards_of(entries),
            fair_positions_of(fair_added(entries, shard, places)),
            fair_shards_of(fair_added(entries, shard, places)),
            shard,
        ),
        positions_apart(fair_positions_of(fair_added(entries, shard, places))) ==> positions_apart(
            fair_positions_of(entries),
        ),
    decreases places,
{
    let p0 = fair_positions_of(entries);
    let s0 = fair_shards_of(entries);
    if places == 0 {
        assert forall|i: int| 0 <= i < p0.len() implies #[trigger] entry_kept(p0, s0, p0, s0, i) by {
            assert(p0[i] == p0[i] && s0[i] == s0[i]);
        }
        assert forall|j: int| 0 <= j < p0.len() implies #[trigger] entry_known(
            p0,
            s0,
            p0,
            s0,
            shard,
            j,
        ) by {
            assert(p0[j] == p0[j] && s0[j] == s0[j]);
        }
    } else {
        let before = fair_added(entries, shard, (places - 1) as nat);
        lemma_fair_added_grows(entries, shard, (places - 1) as nat);
        let place = (places - 1) as u32;
        let position = place_position(shard, place);
        let p1 = fair_positions_of(before);
        let s1 = fair_shards_of(before);
        let at = rank_of(p1, position);
        crate::ring_store::lemma_rank_bounds(p1, position);
        let after = before.insert(at, (position, shard, place));
        assert(fair_positions_of(after) =~= p1.insert(at, position));
        assert(fair_shards_of(after) =~= s1.insert(at, shard));
        lemma_insert_grows(p1, s1, at, position, shard);
        lemma_grown_twice(p0, s0, p1, s1, p1.insert(at, position), s1.insert(at, shard), shard);
    }
}

/// Adding a shard to a ring changes the owner of a key only to that
/// shard: a key keeps its shard or moves to the new one. This holds where
/// the entries of the ring with the shard stand apart, that is where no
/// two of them hash to one position, and of searches that are sound.
pub proof fn lemma_added_owner(ring: InnerView, shard: ShardId, key: u64)
    requires
        ring.positions().len() > 0,
        positions_apart(ring.added(shard).positions()),
        search_is_sound(ring.positions(), key_position(key)),
        search_is_sound(ring.added(shard).positions(), key_position(key)),
    ensures
        ring.added(shard).owner(key) == ring.owner(key) || ring.added(shard).owner(key) == Some(
            shard,
        ),
{
    let probe = key_position(key);
    let grown = ring.added(shard);
    match ring {
        InnerView::Raw(entries) => {
            let positions = positions_of(entries);
            let at = rank_of(positions, shard_position(shard));
            crate::ring_store::lemma_rank_bounds(positions, shard_position(shard));
            assert(grown.positions() =~= positions.insert(at, shard_position(shard)));
            assert(grown.shards() =~= ring.shards().insert(at, shard));
            lemma_insert_grows(positions, ring.shards(), at, shard_position(shard), shard);
        },
        InnerView::Fair { entries, scale } => {
            lemma_fair_added_grows(entries, shard, scale as nat);
        },
    }
    assert(grown.positions().len() > 0) by {
        if grown.positions().len() == 0 {
            assert(grown_by(
                ring.positions(),
                ring.shards(),
                grown.positions(),
                grown.shards(),
                shard,
            ));
            assert(entry_kept(
                ring.positions(),
                ring.shards(),
                grown.positions(),
                grown.shards(),
                0,
            ));
        }
    }
    lemma_owner_is_next(ring.positions(), probe);
    lemma_owner_is_next(grown.positions(), probe);
    lemma_grown_owner(
        ring.positions(),
        ring.shards(),
        grown.positions(),
        grown.shards(),
        shard,
        probe,
        owner_index(ring.positions(), probe),
        owner_index(grown.positions(), probe),
    );
}

pub proof fn lemma_resharding_owners(old: InnerView, new: InnerView, key: u64)
    ensures
        forall|i: int|
            0 <= i < (HashRingView::Resharding { old, new }).owners(key).len() ==> {
                let shard = #[trigger] (HashRingView::Resharding { old, new }).owners(key)[i];
                old.owner(key) == Some(shard) || new.owner(key) == Some(shard)
            },
        (HashRingView::Resharding { old, new }).owners(key).no_duplicates(),
        (HashRingView::Resharding { old, new }).owners(key).len() <= 2,
{
}

/// The condition that a point belongs to one shard by a ring.
pub struct Filter {
    ring: Inner,
    filter: ShardId,
}

impl Filter {
    pub closed spec fn ring(&self) -> InnerView {
        self.ring@
    }

    pub closed spec fn shard(&self) -> ShardId {
        self.filter
    }

    pub fn new(ring: Inner, filter: ShardId) -> (r: Self)
        ensures
            r.ring() == ring@,
            r.shard() == filter,
    {
        Filter { ring, filter }
    }

    /// True when the shard owns the point.
    pub fn check(&self, point_id: PointIdType) -> (r: bool)
        ensures
            r == (self.ring().owner(spec_routing_key(point_id)) == Some(self.shard())),
    {
        let key: u64 = routing_key(point_id);
        match self.ring.get(&key) {
            Some(owner) => *owner == self.filter,
            None => false,
        }
    }

    /// The share of `points` points that an even spread gives one shard.
    pub fn estimate_cardinality(&self, points: usize) -> (r: CardinalityEstimation)
        requires
            self.ring() matches InnerView::Fair { scale, .. } ==> scale > 0,
            self.ring().spec_len() > 0,
        ensures
            r.min == 0,
            r.exp == points as int / self.ring().spec_len(),
            r.max == points,
    {
        CardinalityEstimation { min: 0, exp: points / self.ring.len(), max: points }
    }

    /// True when both conditions ask for the same shard on rings that are
    /// the same.
    pub fn eq(&self, other: &Filter) -> (r: bool)
        ensures
            r == (self.ring().same(other.ring()) && self.shard() == other.shard()),
    {
        self.ring.same(&other.ring) && self.filter == other.filter
    }
}

} // verus!
