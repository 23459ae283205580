use vstd::prelude::*;
use vstd::string::StringExecFns;
use crate::resharding::ReshardKey;
use crate::types::{OperationError, PeerId, ShardId};

verus! {

/// What a replica of a shard is fit for.
#[derive(Clone, Copy, Debug, PartialEq, Eq, Structural)]
pub enum ReplicaState {
    Active,
    Dead,
    Partial,
    Initializing,
    Listener,
    PartialSnapshot,
    Recovery,
    Resharding,
}

/// How the points of a shard are carried over.
#[derive(Clone, Copy, Debug, PartialEq, Eq, Structural)]
pub enum ShardTransferMethod {
    StreamRecords,
    Snapshot,
    WalDelta,
}

/// A transfer of a shard from one peer to another.
#[derive(Clone, Copy, Debug, PartialEq, Eq, Structural)]
pub struct ShardTransfer {
    pub shard_id: ShardId,
    pub from: PeerId,
    pub to: PeerId,
    /// The source keeps its replica in step while the transfer runs.
    pub sync: bool,
    pub method: Option<ShardTransferMethod>,
}

/// Names a transfer.
#[derive(Clone, Copy, Debug, PartialEq, Eq, Structural)]
pub struct ShardTransferKey {
    pub shard_id: ShardId,
    pub from: PeerId,
    pub to: PeerId,
}

/// A transfer that is begun again, perhaps by another method.
#[derive(Clone, Copy, Debug, PartialEq, Eq, Structural)]
pub struct ShardTransferRestart {
    pub shard_id: ShardId,
    pub from: PeerId,
    pub to: PeerId,
    pub method: ShardTransferMethod,
}

impl ShardTransfer {
    pub fn key(&self) -> (r: ShardTransferKey)
        ensures
            r == (ShardTransferKey { shard_id: self.shard_id, from: self.from, to: self.to }),
    {
        ShardTransferKey { shard_id: self.shard_id, from: self.from, to: self.to }
    }

    pub open spec fn spec_restart(&self) -> ShardTransferRestart {
        ShardTransferRestart {
            shard_id: self.shard_id,
            from: self.from,
            to: self.to,
            method: match self.method {
                Some(method) => method,
                None => ShardTransferMethod::StreamRecords,
            },
        }
    }

    /// The restart of the transfer, by its own method or, where it names
    /// none, by streaming records.
    pub fn restart(&self) -> (r: ShardTransferRestart)
        ensures
            r == self.spec_restart(),
    {
        ShardTransferRestart {
            shard_id: self.shard_id,
            from: self.from,
            to: self.to,
            method: match self.method {
                Some(method) => method,
                None => ShardTransferMethod::StreamRecords,
            },
        }
    }
}

#[derive(Debug, PartialEq, Eq)]
pub enum ShardTransferOperations {
    Start(ShardTransfer),
    Restart(ShardTransferRestart),
    /// The snapshot has arrived: the replica goes from recovery to partial.
    RecoveryToPartial(ShardTransferKey),
    Abort { transfer: ShardTransferKey, reason: String },
}

#[derive(Debug, PartialEq, Eq)]
pub enum ReshardingOperation {
    CommitRead(ReshardKey),
    CommitWrite(ReshardKey),
}

#[derive(Debug, PartialEq, Eq)]
pub struct SetShardReplicaState {
    pub collection_name: String,
    pub shard_id: ShardId,
    pub peer_id: PeerId,
    pub state: ReplicaState,
    pub from_state: Option<ReplicaState>,
}

/// A change to a collection that the peers agree on.
#[derive(Debug, PartialEq, Eq)]
pub enum CollectionMetaOperations {
    TransferShard(String, ShardTransferOperations),
    Resharding(String, ReshardingOperation),
    SetShardReplicaState(SetShardReplicaState),
}

/// What is put before the peers.
#[derive(Debug, PartialEq, Eq)]
pub enum ConsensusOperations {
    CollectionMeta(Box<CollectionMetaOperations>),
}

/// The proposals that a transfer may make.
#[derive(Clone, Copy, Debug, PartialEq, Eq, Structural)]
pub enum Proposal {
    Start,
    Restart,
    Abort,
    SetReplicaState,
    CommitReadHashring,
    CommitWriteHashring,
}

impl Proposal {
    /// The words by which error messages name the proposal.
    pub open spec fn spec_words(self) -> Seq<char> {
        match self {
            Proposal::Start => "shard transfer start"@,
            Proposal::Restart => "shard transfer restart"@,
            Proposal::Abort => "shard transfer abort"@,
            Proposal::SetReplicaState => "set replica set state"@,
            Proposal::CommitReadHashring => "commit read hashring"@,
            Proposal::CommitWriteHashring => "commit write hashring"@,
        }
    }

    pub fn words(&self) -> (r: &'static str)
        ensures
            r@ == self.spec_words(),
    {
        match self {
            Proposal::Start => "shard transfer start",
            Proposal::Restart => "shard transfer restart",
            Proposal::Abort => "shard transfer abort",
            Proposal::SetReplicaState => "set replica set state",
            Proposal::CommitReadHashring => "commit read hashring",
            Proposal::CommitWriteHashring => "commit write hashring",
        }
    }
}

/// The error for a proposal that the peers did not confirm.
pub fn proposal_error(proposal: Proposal, cause: &str) -> (r: OperationError)
    ensures
        r matches OperationError::ServiceError { description } && description@
            == "Failed to propose and confirm "@ + proposal.spec_words()
            + " operation through consensus: "@ + cause@,
{
    let text: String = String::from_str("Failed to propose and confirm ").concat(
        proposal.words(),
    ).concat(" operation through consensus: ").concat(cause);
    OperationError::ServiceError { description: text }
}

/// Puts the steps of shard transfers and of resharding before the peers.
#[derive(Clone, Copy, Debug, PartialEq, Eq, Structural)]
pub struct ShardTransferDispatcher {
    /// The collections are still there to be changed.
    toc_alive: bool,
    /// More than one peer is deployed, so that there is someone to propose
    /// to.
    has_proposal_sender: bool,
    this_peer_id: PeerId,
    commit: u64,
    term: u64,
}

impl ShardTransferDispatcher {
    pub fn new(
        toc_alive: bool,
        has_proposal_sender: bool,
        this_peer_id: PeerId,
        commit: u64,
        term: u64,
    ) -> (r: Self)
        ensures
            r.this_peer_id() == this_peer_id,
            r.consensus_commit_term() == (commit, term),
            r.can_propose() == (toc_alive && has_proposal_sender),
            r.spec_toc_alive() == toc_alive,
    {
        ShardTransferDispatcher { toc_alive, has_proposal_sender, this_peer_id, commit, term }
    }

    pub closed spec fn spec_toc_alive(&self) -> bool {
        self.toc_alive
    }

    #[verifier::when_used_as_spec(spec_this_peer_id)]
    pub fn this_peer_id(&self) -> (r: PeerId)
        ensures
            r == self.spec_this_peer_id(),
    {
        self.this_peer_id
    }

    pub closed spec fn spec_this_peer_id(&self) -> PeerId {
        self.this_peer_id
    }

    /// How far the peers have agreed: the index of the last entry they
    /// committed, and the term.
    #[verifier::when_used_as_spec(spec_commit_term)]
    pub fn consensus_commit_term(&self) -> (r: (u64, u64))
        ensures
            r == self.spec_commit_term(),
    {
        (self.commit, self.term)
    }

    pub closed spec fn spec_commit_term(&self) -> (u64, u64) {
        (self.commit, self.term)
    }

    #[verifier::when_used_as_spec(spec_can_propose)]
    pub fn can_propose(&self) -> (r: bool)
        ensures
            r == self.spec_can_propose(),
    {
        self.toc_alive && self.has_proposal_sender
    }

    pub closed spec fn spec_can_propose(&self) -> bool {
        self.toc_alive && self.has_proposal_sender
    }

    /// The proposal that sets the receiving replica to partial once the
    /// snapshot is recovered. There is none to make when the collections
    /// are gone or when the node stands alone.
    pub fn snapshot_recovered_switch_to_partial(
        &self,
        transfer_config: &ShardTransfer,
        collection_id: String,
    ) -> (r: Result<ConsensusOperations, OperationError>)
        ensures
            match r {
                Ok(operation) => self.can_propose() && operation
                    == ConsensusOperations::CollectionMeta(
                    Box::new(
                        CollectionMetaOperations::TransferShard(
                            collection_id,
                            ShardTransferOperations::RecoveryToPartial(
                                ShardTransferKey {
                                    shard_id: transfer_config.shard_id,
                                    from: transfer_config.from,
                                    to: transfer_config.to,
                                },
                            ),
                        ),
                    ),
                ),
                Err(e) => !self.can_propose() && (e matches OperationError::ServiceError {
                    description,
                } && description@ == if !self.spec_toc_alive() {
                    "Can't set shard state, table of contents is dropped"@
                } else {
                    "Can't set shard state, this is a single node deployment"@
                }),
            },
    {
        if !self.toc_alive {
            return Err(
                OperationError::ServiceError {
                    description: "Can't set shard state, table of contents is dropped".to_string(),
                },
            );
        }
        if !self.has_proposal_sender {
            return Err(
                OperationError::ServiceError {
                    description: "Can't set shard state, this is a single node deployment".to_string(),
                },
            );
        }
        Ok(
            ConsensusOperations::CollectionMeta(
                Box::new(
                    CollectionMetaOperations::TransferShard(
                        collection_id,
                        ShardTransferOperations::RecoveryToPartial(transfer_config.key()),
                    ),
                ),
            ),
        )
    }

    /// The proposal that starts a transfer of a shard.
    pub fn start_shard_transfer(&self, transfer_config: ShardTransfer, collection_id: String) -> (r:
        ConsensusOperations)
        ensures
            r == ConsensusOperations::CollectionMeta(
                Box::new(
                    CollectionMetaOperations::TransferShard(
                        collection_id,
                        ShardTransferOperations::Start(transfer_config),
                    ),
                ),
            ),
    {
        ConsensusOperations::CollectionMeta(
            Box::new(
                CollectionMetaOperations::TransferShard(
                    collection_id,
                    ShardTransferOperations::Start(transfer_config),
                ),
            ),
        )
    }

    /// The proposal that starts a transfer of a shard over again.
    pub fn restart_shard_transfer(&self, transfer_config: ShardTransfer, collection_id: String) -> (r:
        ConsensusOperations)
        ensures
            r == ConsensusOperations::CollectionMeta(
                Box::new(
                    CollectionMetaOperations::TransferShard(
                        collection_id,
                        ShardTransferOperations::Restart(transfer_config.spec_restart()),
                    ),
                ),
            ),
    {
        ConsensusOperations::CollectionMeta(
            Box::new(
                CollectionMetaOperations::TransferShard(
                    collection_id,
                    ShardTransferOperations::Restart(transfer_config.restart()),
                ),
            ),
        )
    }

    /// The proposal that gives a transfer of a shard up, with the reason.
    pub fn abort_shard_transfer(
        &self,
        transfer: ShardTransferKey,
        collection_id: String,
        reason: &str,
    ) -> (r: ConsensusOperations)
        ensures
            r matches ConsensusOperations::CollectionMeta(operation) && (
            *operation matches CollectionMetaOperations::TransferShard(collection, transfer_operation)
                && collection == collection_id && (
            transfer_operation matches ShardTransferOperations::Abort { transfer: aborted, reason: given }
                && aborted == transfer && given@ == reason@)),
    {
        ConsensusOperations::CollectionMeta(
            Box::new(
                CollectionMetaOperations::TransferShard(
                    collection_id,
                    ShardTransferOperations::Abort { transfer, reason: reason.to_string() },
                ),
            ),
        )
    }

    /// The proposal that sets the state of the replica of this peer.
    pub fn set_shard_replica_set_state(
        &self,
        collection_id: String,
        shard_id: ShardId,
        state: ReplicaState,
        from_state: Option<ReplicaState>,
    ) -> (r: ConsensusOperations)
        ensures
            r == ConsensusOperations::CollectionMeta(
                Box::new(
                    CollectionMetaOperations::SetShardReplicaState(
                        SetShardReplicaState {
                            collection_name: collection_id,
                            shard_id,
                            peer_id: self.this_peer_id(),
                            state,
                            from_state,
                        },
                    ),
                ),
            ),
    {
        ConsensusOperations::CollectionMeta(
            Box::new(
                CollectionMetaOperations::SetShardReplicaState(
                    SetShardReplicaState {
                        collection_name: collection_id,
                        shard_id,
                        peer_id: self.this_peer_id,
                        state,
                        from_state,
                    },
                ),
            ),
        )
    }

    /// The proposal to route reads by the new hash ring of a resharding.
    pub fn commit_read_hashring(&self, collection_id: String, reshard_key: ReshardKey) -> (r:
        ConsensusOperations)
        ensures
            r == ConsensusOperations::CollectionMeta(
                Box::new(
                    CollectionMetaOperations::Resharding(
                        collection_id,
                        ReshardingOperation::CommitRead(reshard_key),
                    ),
                ),
            ),
    {
        ConsensusOperations::CollectionMeta(
            Box::new(
                CollectionMetaOperations::Resharding(
                    collection_id,
                    ReshardingOperation::CommitRead(reshard_key),
                ),
            ),
        )
    }

    /// The proposal to route writes by the new hash ring of a resharding.
    pub fn commit_write_hashring(&self, collection_id: String, reshard_key: ReshardKey) -> (r:
        ConsensusOperations)
        ensures
            r == ConsensusOperations::CollectionMeta(
                Box::new(
                    CollectionMetaOperations::Resharding(
                        collection_id,
                        ReshardingOperation::CommitWrite(reshard_key),
                    ),
                ),
            ),
    {
        ConsensusOperations::CollectionMeta(
            Box::new(
                CollectionMetaOperations::Resharding(
                    collection_id,
                    ReshardingOperation::CommitWrite(reshard_key),
                ),
            ),
        )
    }
}

} // verus!
