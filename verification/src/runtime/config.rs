//! The configuration of a node, and what follows from it.

use vstd::prelude::*;
use crate::db::results::{DatabaseSnapshot, DatabaseStatus};
use crate::digest::sha256;
use crate::model::{Model, outcome};
use crate::ordmap::{OrdMap, member_is_listed};
use crate::protocol::{DEFAULT_MAX_FRAME_BYTES, PeerEnvelope, PeerEnvelopeView};
use crate::raft::configuration::Configuration;
use crate::raft::machine::Raft;
use crate::raft::types::{
    CommandId, EntryPayload, EntryPayloadView, LogEntryView, PersistentSnapshot,
    PersistentSnapshotView, Role, SnapshotMetadataView, StableState, Tick,
};
use crate::runtime::error::{Result, RuntimeError, RuntimeErrorKind, fenced};
use crate::runtime::stable::StableStore;
use crate::text::decimal_text;
use crate::types::{NodeId, labelled, message};

verus! {

broadcast use crate::model::group_contents;

/// An address of the Internet protocol.
#[derive(Debug, Clone, PartialEq, Eq)]
pub enum IpAddress {
    V4([u8; 4]),
    V6([u8; 16]),
}

/// The content of a [`IpAddress`].
#[verifier::ext_equal]
pub enum IpAddressView {
    V4(Seq<u8>),
    V6(Seq<u8>),
}

impl DeepView for IpAddress {
    type V = IpAddressView;

    open spec fn deep_view(&self) -> IpAddressView {
        match self {
            IpAddress::V4(a) => IpAddressView::V4(a.deep_view()),
            IpAddress::V6(a) => IpAddressView::V6(a.deep_view()),
        }
    }
}

impl Model for IpAddress {
    fn duplicate(&self) -> (copy: Self) {
        match self {
            IpAddress::V4(a) => IpAddress::V4(a.duplicate()),
            IpAddress::V6(a) => IpAddress::V6(a.duplicate()),
        }
    }

    fn same(&self, other: &Self) -> (equal: bool) {
        match (self, other) {
            (IpAddress::V4(a), IpAddress::V4(other_a)) => a.same(other_a),
            (IpAddress::V6(a), IpAddress::V6(other_a)) => a.same(other_a),
            _ => false,
        }
    }
}

/// Where a peer listens.
#[derive(Debug, Clone, PartialEq, Eq)]
pub struct SocketAddress {
    pub ip: IpAddress,
    pub port: u16,
}

/// The content of a [`SocketAddress`].
#[verifier::ext_equal]
pub struct SocketAddressView {
    pub ip: IpAddressView,
    pub port: u16,
}

impl DeepView for SocketAddress {
    type V = SocketAddressView;

    open spec fn deep_view(&self) -> SocketAddressView {
        SocketAddressView {
            ip: self.ip.deep_view(),
            port: self.port.deep_view(),
        }
    }
}

impl Model for SocketAddress {
    fn duplicate(&self) -> (copy: Self) {
        SocketAddress {
            ip: self.ip.duplicate(),
            port: self.port.duplicate(),
        }
    }

    fn same(&self, other: &Self) -> (equal: bool) {
        self.ip.same(&other.ip)
            && self.port.same(&other.port)
    }
}

/// How a node runs. Times are in nanoseconds.
#[derive(Debug, Clone, PartialEq, Eq)]
pub struct RuntimeConfig {
    pub node_id: NodeId,
    /// Where each voter listens; this node is one of them.
    pub peers: OrdMap<NodeId, SocketAddress>,
    pub data_directory: String,
    pub election_timeout_min: u128,
    pub election_timeout_max: u128,
    pub heartbeat_interval: u128,
    pub check_quorum_interval: u128,
    pub network_timeout: u128,
    pub request_timeout: u128,
    pub event_queue_capacity: usize,
    pub max_peer_connections: usize,
    pub max_frame_bytes: usize,
    /// A snapshot is made when so many entries are kept.
    pub snapshot_threshold_entries: usize,
    /// A snapshot is made when the kept entries have so many bytes.
    pub snapshot_threshold_bytes: usize,
    /// The seed of the election timeouts; without one they are random.
    pub rng_seed: Option<u64>,
}

/// The content of a [`RuntimeConfig`].
#[verifier::ext_equal]
pub struct RuntimeConfigView {
    pub node_id: NodeId,
    pub peers: Map<NodeId, SocketAddressView>,
    pub data_directory: Seq<char>,
    pub election_timeout_min: u128,
    pub election_timeout_max: u128,
    pub heartbeat_interval: u128,
    pub check_quorum_interval: u128,
    pub network_timeout: u128,
    pub request_timeout: u128,
    pub event_queue_capacity: usize,
    pub max_peer_connections: usize,
    pub max_frame_bytes: usize,
    pub snapshot_threshold_entries: usize,
    pub snapshot_threshold_bytes: usize,
    pub rng_seed: Option<u64>,
}

impl DeepView for RuntimeConfig {
    type V = RuntimeConfigView;

    open spec fn deep_view(&self) -> RuntimeConfigView {
        RuntimeConfigView {
            node_id: self.node_id.deep_view(),
            peers: self.peers.deep_view(),
            data_directory: self.data_directory.deep_view(),
            election_timeout_min: self.election_timeout_min.deep_view(),
            election_timeout_max: self.election_timeout_max.deep_view(),
            heartbeat_interval: self.heartbeat_interval.deep_view(),
            check_quorum_interval: self.check_quorum_interval.deep_view(),
            network_timeout: self.network_timeout.deep_view(),
            request_timeout: self.request_timeout.deep_view(),
            event_queue_capacity: self.event_queue_capacity.deep_view(),
            max_peer_connections: self.max_peer_connections.deep_view(),
            max_frame_bytes: self.max_frame_bytes.deep_view(),
            snapshot_threshold_entries: self.snapshot_threshold_entries.deep_view(),
            snapshot_threshold_bytes: self.snapshot_threshold_bytes.deep_view(),
            rng_seed: self.rng_seed.deep_view(),
        }
    }
}

impl Model for RuntimeConfig {
    fn duplicate(&self) -> (copy: Self) {
        RuntimeConfig {
            node_id: self.node_id.duplicate(),
            peers: self.peers.duplicate(),
            data_directory: self.data_directory.duplicate(),
            election_timeout_min: self.election_timeout_min.duplicate(),
            election_timeout_max: self.election_timeout_max.duplicate(),
            heartbeat_interval: self.heartbeat_interval.duplicate(),
            check_quorum_interval: self.check_quorum_interval.duplicate(),
            network_timeout: self.network_timeout.duplicate(),
            request_timeout: self.request_timeout.duplicate(),
            event_queue_capacity: self.event_queue_capacity.duplicate(),
            max_peer_connections: self.max_peer_connections.duplicate(),
            max_frame_bytes: self.max_frame_bytes.duplicate(),
            snapshot_threshold_entries: self.snapshot_threshold_entries.duplicate(),
            snapshot_threshold_bytes: self.snapshot_threshold_bytes.duplicate(),
            rng_seed: self.rng_seed.duplicate(),
        }
    }

    fn same(&self, other: &Self) -> (equal: bool) {
        self.node_id.same(&other.node_id)
            && self.peers.same(&other.peers)
            && self.data_directory.same(&other.data_directory)
            && self.election_timeout_min.same(&other.election_timeout_min)
            && self.election_timeout_max.same(&other.election_timeout_max)
            && self.heartbeat_interval.same(&other.heartbeat_interval)
            && self.check_quorum_interval.same(&other.check_quorum_interval)
            && self.network_timeout.same(&other.network_timeout)
            && self.request_timeout.same(&other.request_timeout)
            && self.event_queue_capacity.same(&other.event_queue_capacity)
            && self.max_peer_connections.same(&other.max_peer_connections)
            && self.max_frame_bytes.same(&other.max_frame_bytes)
            && self.snapshot_threshold_entries.same(&other.snapshot_threshold_entries)
            && self.snapshot_threshold_bytes.same(&other.snapshot_threshold_bytes)
            && self.rng_seed.same(&other.rng_seed)
    }
}

/// What a node says of itself.
#[derive(Debug, Clone, Copy, PartialEq, Eq, Structural)]
pub struct RuntimeStatus {
    pub node_id: NodeId,
    pub role: Role,
    pub term: u64,
    pub leader_id: Option<NodeId>,
    pub commit_index: u64,
    pub applied_index: u64,
    pub last_log_index: u64,
    pub database_applied_index: u64,
    pub database_pages: u64,
    pub wal_bytes: u64,
    pub active_transactions: u64,
    /// The last entry that the stored snapshot stands for.
    pub snapshot_index: Option<u64>,
    pub snapshot_bytes: Option<u64>,
    /// The entries behind the snapshot.
    pub retained_log_entries: u64,
    pub retained_log_bytes: u64,
}

impl DeepView for RuntimeStatus {
    type V = RuntimeStatus;

    open spec fn deep_view(&self) -> RuntimeStatus {
        *self
    }
}

impl Model for RuntimeStatus {
    fn duplicate(&self) -> (copy: Self) {
        *self
    }

    fn same(&self, other: &Self) -> (equal: bool) {
        *self == *other
    }
}

/// When the timers of a node go off, in nanoseconds.
#[derive(Debug, Clone, Copy, PartialEq, Eq, Structural)]
pub struct Deadlines {
    pub election: u128,
    pub heartbeat: u128,
    pub check_quorum: u128,
}

impl DeepView for Deadlines {
    type V = Deadlines;

    open spec fn deep_view(&self) -> Deadlines {
        *self
    }
}

impl Model for Deadlines {
    fn duplicate(&self) -> (copy: Self) {
        *self
    }

    fn same(&self, other: &Self) -> (equal: bool) {
        *self == *other
    }
}
impl IpAddressView {
    /// The address stays on the machine: `127.0.0.0/8`, or `::1`.
    pub open spec fn loopback(self) -> bool {
        match self {
            IpAddressView::V4(bytes) => bytes[0] == 127,
            IpAddressView::V6(bytes) => (forall|i: int| 0 <= i < 15 ==> #[trigger] bytes[i] == 0)
                && bytes[15] == 1,
        }
    }
}

impl IpAddress {
    /// Whether the address stays on the machine.
    pub fn is_loopback(&self) -> (loopback: bool)
        ensures
            loopback == self.deep_view().loopback(),
    {
        match self {
            IpAddress::V4(bytes) => bytes[0] == 127,
            IpAddress::V6(bytes) => {
                let mut i: usize = 0;
                while i < 15
                    invariant
                        i <= 15,
                        self.deep_view() == IpAddressView::V6(bytes@),
                        forall|j: int| 0 <= j < i ==> #[trigger] bytes@[j] == 0,
                    decreases 15 - i,
                {
                    if bytes[i] != 0 {
                        return false;
                    }
                    i = i + 1;
                }
                bytes[15] == 1
            },
        }
    }
}

impl RuntimeConfigView {
    /// The node is one of its peers, all of which are on this machine, and the
    /// times and bounds make sense.
    pub open spec fn valid(self) -> bool {
        &&& self.peers.contains_key(self.node_id)
        &&& forall|node: NodeId| #[trigger]
            self.peers.contains_key(node) ==> self.peers[node].ip.loopback()
        &&& 0 < self.election_timeout_min <= self.election_timeout_max
        &&& 0 < self.heartbeat_interval < self.check_quorum_interval
        &&& self.network_timeout > 0
        &&& self.request_timeout > 0
        &&& self.event_queue_capacity > 0
        &&& self.max_peer_connections > 0
        &&& self.max_frame_bytes > 0
        &&& self.snapshot_threshold_entries > 0
        &&& self.snapshot_threshold_bytes > 0
    }

    /// A message that the node takes: from another of its peers, to itself, and
    /// not too long.
    pub open spec fn accepts(self, envelope: PeerEnvelopeView) -> bool {
        &&& envelope.to == self.node_id
        &&& envelope.from != self.node_id
        &&& self.peers.contains_key(envelope.from)
        &&& envelope.payload.len() <= self.max_frame_bytes
    }
}

impl RuntimeConfig {
    /// The usual configuration of a node on this machine.
    pub fn localhost(
        node_id: NodeId,
        peers: OrdMap<NodeId, SocketAddress>,
        data_directory: String,
    ) -> (config: RuntimeConfig)
        ensures
            config.deep_view() == (RuntimeConfigView {
                node_id,
                peers: peers.deep_view(),
                data_directory: data_directory@,
                election_timeout_min: 350_000_000,
                election_timeout_max: 700_000_000,
                heartbeat_interval: 75_000_000,
                check_quorum_interval: 900_000_000,
                network_timeout: 250_000_000,
                request_timeout: 5_000_000_000,
                event_queue_capacity: 1_024,
                max_peer_connections: 256,
                max_frame_bytes: DEFAULT_MAX_FRAME_BYTES,
                snapshot_threshold_entries: 256,
                snapshot_threshold_bytes: 67_108_864,
                rng_seed: None,
            }),
    {
        RuntimeConfig {
            node_id,
            peers,
            data_directory,
            election_timeout_min: 350_000_000,
            election_timeout_max: 700_000_000,
            heartbeat_interval: 75_000_000,
            check_quorum_interval: 900_000_000,
            network_timeout: 250_000_000,
            request_timeout: 5_000_000_000,
            event_queue_capacity: 1_024,
            max_peer_connections: 256,
            max_frame_bytes: DEFAULT_MAX_FRAME_BYTES,
            snapshot_threshold_entries: 256,
            snapshot_threshold_bytes: 67_108_864,
            rng_seed: None,
        }
    }

    /// Fails unless a node can run with the configuration.
    pub fn validate(&self) -> (result: Result<()>)
        ensures
            outcome(result) == if self.deep_view().valid() {
                Ok::<(), RuntimeErrorKind>(())
            } else {
                Err(RuntimeErrorKind::Configuration)
            },
    {
        if !self.peers.contains_key(&self.node_id) {
            return Err(
                RuntimeError::Configuration("peer map must contain the local voter".to_owned()),
            );
        }
        let ghost view = self.deep_view();
        let ghost nodes = self.peers.keys();
        let count: usize = self.peers.len();
        let mut i: usize = 0;
        while i < count
            invariant
                i <= count,
                view == self.deep_view(),
                nodes == self.peers.keys(),
                count == nodes.len(),
                forall|j: int|
                    0 <= j < i ==> view.peers[#[trigger] nodes[j]].ip.loopback(),
            decreases count - i,
        {
            if !self.peers.value_at(i).ip.is_loopback() {
                assert(view.peers.contains_key(nodes[i as int]));
                return Err(
                    RuntimeError::Configuration(
                        "initial replicated runtime accepts localhost peer addresses only".to_owned(),
                    ),
                );
            }
            i = i + 1;
        }
        assert forall|node: NodeId| #[trigger] view.peers.contains_key(
            node,
        ) implies view.peers[node].ip.loopback() by {
            member_is_listed::<u64>(nodes, view.peers.dom(), node);
        }
        if self.election_timeout_min == 0 || self.election_timeout_min > self.election_timeout_max
            || self.heartbeat_interval == 0 || self.check_quorum_interval
            <= self.heartbeat_interval || self.network_timeout == 0 || self.request_timeout == 0
            || self.event_queue_capacity == 0 || self.max_peer_connections == 0
            || self.max_frame_bytes == 0 || self.snapshot_threshold_entries == 0
            || self.snapshot_threshold_bytes == 0 {
            return Err(
                RuntimeError::Configuration(
                    "timeouts and queue/frame bounds are invalid".to_owned(),
                ),
            );
        }
        Ok(())
    }

    /// Whether the node takes a message of a peer.
    pub fn accepts(&self, envelope: &PeerEnvelope) -> (accepted: bool)
        ensures
            accepted == self.deep_view().accepts(envelope.deep_view()),
    {
        envelope.to == self.node_id && envelope.from != self.node_id && self.peers.contains_key(
            &envelope.from,
        ) && envelope.payload.len() <= self.max_frame_bytes
    }
}

impl RuntimeConfig {
    /// A message to a peer. A node knows all that it sends to.
    pub fn envelope(&self, to: NodeId, term: u64, correlation_id: u64, payload: Vec<u8>) -> (result:
        Result<PeerEnvelope>)
        ensures
            outcome(result) == if !self.deep_view().peers.contains_key(to) {
                Err::<PeerEnvelopeView, RuntimeErrorKind>(RuntimeErrorKind::Fenced)
            } else if payload@.len() > self.max_frame_bytes {
                Err(RuntimeErrorKind::Limit)
            } else {
                Ok(
                    PeerEnvelopeView {
                        from: self.node_id,
                        to,
                        term,
                        correlation_id,
                        payload: payload@,
                    },
                )
            },
    {
        if !self.peers.contains_key(&to) {
            return Err(
                RuntimeError::Fenced(
                    labelled("Raft attempted to send to unknown voter ", &decimal_text(to)),
                ),
            );
        }
        if payload.len() > self.max_frame_bytes {
            return Err(
                RuntimeError::Limit(
                    message(
                        &[
                            "peer message is ",
                            &decimal_text(payload.len() as u64),
                            " bytes; frame maximum is ",
                            &decimal_text(self.max_frame_bytes as u64),
                        ],
                    ),
                ),
            );
        }
        Ok(PeerEnvelope { from: self.node_id, to, term, correlation_id, payload })
    }
}

/// A message that a node sends is one that its peer takes, if the two agree on
/// the peers and on how long a message may be.
pub proof fn sent_messages_are_taken(
    sender: RuntimeConfigView,
    receiver: RuntimeConfigView,
    envelope: PeerEnvelopeView,
)
    requires
        sender.valid(),
        receiver.peers == sender.peers,
        receiver.max_frame_bytes == sender.max_frame_bytes,
        receiver.node_id == envelope.to,
        envelope.from == sender.node_id,
        envelope.to != sender.node_id,
        envelope.payload.len() <= sender.max_frame_bytes,
    ensures
        receiver.accepts(envelope),
{
}

/// Fails unless the database stands at the applied entry of the log, or at the
/// one behind it, and not beyond what is committed.
pub fn reconcile_database(database_index: u64, stable: &StableState) -> (result: Result<()>)
    ensures
        outcome(result) == if stable.applied_index <= database_index <= stable.applied_index + 1
            && database_index <= stable.hard_state.commit_index {
            Ok::<(), RuntimeErrorKind>(())
        } else {
            Err(RuntimeErrorKind::Corruption)
        },
{
    if database_index < stable.applied_index || database_index > stable.hard_state.commit_index {
        return Err(
            RuntimeError::Corruption(
                message(
                    &[
                        "database applied index ",
                        &decimal_text(database_index),
                        " is outside durable Raft applied/commit [",
                        &decimal_text(stable.applied_index),
                        ", ",
                        &decimal_text(stable.hard_state.commit_index),
                        "]",
                    ],
                ),
            ),
        );
    }
    if database_index - stable.applied_index > 1 {
        return Err(
            RuntimeError::Corruption(
                message(
                    &[
                        "database is more than one apply ahead of Raft marker: database ",
                        &decimal_text(database_index),
                        ", marker ",
                        &decimal_text(stable.applied_index),
                    ],
                ),
            ),
        );
    }
    Ok(())
}

/// The id of a command: the node that proposes it, and a number of its own.
pub open spec fn command_id_of(node_id: NodeId, counter: u64) -> CommandId {
    (node_id as u128 * 0x1_0000_0000_0000_0000 + counter) as u128
}

/// The id of a command.
pub fn command_id(node_id: NodeId, counter: u64) -> (id: CommandId)
    ensures
        id == command_id_of(node_id, counter),
        id as int == node_id as int * 0x1_0000_0000_0000_0000 + counter as int,
{
    node_id as u128 * 0x1_0000_0000_0000_0000 + counter as u128
}

/// The number in the id of a command of the node.
pub open spec fn own_counter(node_id: NodeId, id: CommandId) -> Option<int> {
    if id as int / 0x1_0000_0000_0000_0000 == node_id {
        Some(id as int % 0x1_0000_0000_0000_0000)
    } else {
        None
    }
}

/// The greatest number of a command of the node among the first `n` entries, or
/// zero.
pub open spec fn greatest_counter(node_id: NodeId, entries: Seq<LogEntryView>, n: int) -> int
    decreases n,
{
    if n <= 0 {
        0
    } else {
        let greatest = greatest_counter(node_id, entries, n - 1);
        match entries[n - 1].payload {
            EntryPayloadView::Command { id, .. } => match own_counter(node_id, id) {
                Some(counter) => if counter > greatest {
                    counter
                } else {
                    greatest
                },
                None => greatest,
            },
            EntryPayloadView::Noop => greatest,
        }
    }
}

/// The number of the next command of a node: one more than any in its log.
pub fn next_command_counter(node_id: NodeId, state: &StableState) -> (result: Result<u64>)
    ensures
        ({
            let greatest = greatest_counter(
                node_id,
                state.deep_view().entries,
                state.entries@.len() as int,
            );
            outcome(result) == if greatest < u64::MAX {
                Ok::<u64, RuntimeErrorKind>((greatest + 1) as u64)
            } else {
                Err(RuntimeErrorKind::Limit)
            }
        }),
{
    let ghost view = state.deep_view().entries;
    let mut greatest: u64 = 0;
    let mut i: usize = 0;
    while i < state.entries.len()
        invariant
            i <= state.entries@.len(),
            view == state.deep_view().entries,
            greatest == greatest_counter(node_id, view, i as int),
        decreases state.entries@.len() - i,
    {
        assert(view[i as int] == state.entries@[i as int].deep_view());
        if let EntryPayload::Command { id, .. } = &state.entries[i].payload {
            let owner: u128 = *id / 0x1_0000_0000_0000_0000;
            let counter: u64 = (*id % 0x1_0000_0000_0000_0000) as u64;
            if owner == node_id as u128 && counter > greatest {
                greatest = counter;
            }
        }
        i = i + 1;
    }
    if greatest == u64::MAX {
        return Err(RuntimeError::Limit("proposal id space exhausted".to_owned()));
    }
    Ok(greatest + 1)
}

/// A new command has an id that no command in the log of the node has.
pub proof fn next_command_is_new(node_id: NodeId, entries: Seq<LogEntryView>, n: int, i: int)
    requires
        0 <= i < n <= entries.len(),
        greatest_counter(node_id, entries, n) < u64::MAX,
    ensures
        entries[i].payload matches EntryPayloadView::Command { id, .. } ==> id != command_id_of(
            node_id,
            (greatest_counter(node_id, entries, n) + 1) as u64,
        ),
    decreases n,
{
    greatest_counter_bounds(node_id, entries, n, i);
    if let EntryPayloadView::Command { id, .. } = entries[i].payload {
        let next = greatest_counter(node_id, entries, n) + 1;
        let new_id = node_id as int * 0x1_0000_0000_0000_0000 + next;
        assert(new_id / 0x1_0000_0000_0000_0000 == node_id && new_id % 0x1_0000_0000_0000_0000
            == next);
    }
}

proof fn greatest_counter_bounds(node_id: NodeId, entries: Seq<LogEntryView>, n: int, i: int)
    requires
        0 <= i < n <= entries.len(),
    ensures
        greatest_counter(node_id, entries, n) >= 0,
        entries[i].payload matches EntryPayloadView::Command { id, .. } ==> own_counter(
            node_id,
            id,
        ) is None || own_counter(node_id, id)->0 <= greatest_counter(node_id, entries, n),
    decreases n,
{
    if i < n - 1 {
        greatest_counter_bounds(node_id, entries, n - 1, i);
    } else if n > 1 {
        greatest_counter_bounds(node_id, entries, n - 1, 0);
    } else {
        assert(greatest_counter(node_id, entries, 0) == 0);
    }
}

/// Whether it is time for a snapshot: enough is kept, something is applied, and
/// no snapshot stands for it yet. A snapshot that is still to be taken on stops
/// the node.
pub fn snapshot_due(
    store: &StableStore,
    applied_index: u64,
    retained_bytes: usize,
    config: &RuntimeConfig,
) -> (result: Result<bool>)
    ensures
        outcome(result) == if store.deep_view().pending_install is Some {
            Err::<bool, RuntimeErrorKind>(RuntimeErrorKind::Fenced)
        } else {
            Ok(
                (store.deep_view().state.entries.len() >= config.snapshot_threshold_entries
                    || retained_bytes >= config.snapshot_threshold_bytes) && applied_index != 0
                    && !(store.deep_view().state.snapshot matches Some(snapshot)
                    && snapshot.metadata.last_included_index >= applied_index),
            )
        },
{
    if store.pending_install().is_some() {
        return Err(fenced("snapshot install intent remained pending in the live runtime"));
    }
    if store.retained_entry_count() < config.snapshot_threshold_entries && retained_bytes
        < config.snapshot_threshold_bytes {
        return Ok(false);
    }
    if applied_index == 0 {
        return Ok(false);
    }
    match store.snapshot_index() {
        Some(index) => Ok(index < applied_index),
        None => Ok(true),
    }
}

/// The term of the entry that a snapshot would stand for, if the database is at
/// that entry.
pub fn snapshot_boundary(store: &StableStore, applied_index: u64, database_index: u64) -> (result:
    Result<u64>)
    ensures
        outcome(result) == if database_index != applied_index {
            Err::<u64, RuntimeErrorKind>(RuntimeErrorKind::Fenced)
        } else {
            match store.deep_view().state.term_at(applied_index) {
                Some(term) => Ok(term),
                None => Err(RuntimeErrorKind::Corruption),
            }
        },
{
    if database_index != applied_index {
        return Err(
            RuntimeError::Fenced(
                message(
                    &[
                        "cannot snapshot Raft index ",
                        &decimal_text(applied_index),
                        " while database is at ",
                        &decimal_text(database_index),
                    ],
                ),
            ),
        );
    }
    match store.term_at(applied_index) {
        Some(term) => Ok(term),
        None => Err(
            RuntimeError::Corruption(
                message(
                    &[
                        "durable Raft log has no term at snapshot boundary ",
                        &decimal_text(applied_index),
                    ],
                ),
            ),
        ),
    }
}

/// The snapshot of a database as one of the log, if it stands for the entry that
/// was asked for.
pub fn built_snapshot(
    applied_index: u64,
    term: u64,
    configuration: Configuration,
    snapshot: DatabaseSnapshot,
) -> (result: Result<PersistentSnapshot>)
    ensures
        outcome(result) == if snapshot.deep_view().applied_index != applied_index {
            Err::<PersistentSnapshotView, RuntimeErrorKind>(RuntimeErrorKind::Fenced)
        } else {
            Ok(
                PersistentSnapshotView {
                    metadata: SnapshotMetadataView {
                        last_included_index: applied_index,
                        last_included_term: term,
                        byte_len: snapshot.deep_view().bytes.len() as u64,
                        sha256: sha256(snapshot.deep_view().bytes),
                        configuration: configuration.deep_view(),
                    },
                    data: snapshot.deep_view().bytes,
                },
            )
        },
{
    if snapshot.applied_index() != applied_index {
        return Err(
            RuntimeError::Fenced(
                message(
                    &[
                        "database snapshot boundary ",
                        &decimal_text(snapshot.applied_index()),
                        " changed while Raft expected ",
                        &decimal_text(applied_index),
                    ],
                ),
            ),
        );
    }
    Ok(PersistentSnapshot::new(applied_index, term, configuration, snapshot.into_bytes()))
}

/// The timers that have gone off, in the order in which they are served.
pub open spec fn ticks_due(role: Role, now: u128, deadlines: Deadlines) -> Seq<Tick> {
    if role == Role::Leader {
        (if now >= deadlines.heartbeat {
            seq![Tick::Heartbeat]
        } else {
            seq![]
        }) + (if now >= deadlines.check_quorum {
            seq![Tick::CheckQuorum]
        } else {
            seq![]
        })
    } else if now >= deadlines.election {
        seq![Tick::Election]
    } else {
        seq![]
    }
}

/// The timers that have gone off, in the order in which they are served.
pub fn due_ticks(role: Role, now: u128, deadlines: Deadlines) -> (ticks: Vec<Tick>)
    ensures
        ticks@ == ticks_due(role, now, deadlines),
{
    let mut ticks: Vec<Tick> = Vec::new();
    if role == Role::Leader {
        if now >= deadlines.heartbeat {
            ticks.push(Tick::Heartbeat);
        }
        if now >= deadlines.check_quorum {
            ticks.push(Tick::CheckQuorum);
        }
    } else if now >= deadlines.election {
        ticks.push(Tick::Election);
    }
    assert(ticks@ =~= ticks_due(role, now, deadlines));
    ticks
}

/// What a node says of itself, from its parts.
pub fn runtime_status(
    raft: &Raft,
    database: &DatabaseStatus,
    store: &StableStore,
    retained_bytes: usize,
) -> (status: RuntimeStatus)
    ensures
        status == (RuntimeStatus {
            node_id: raft.deep_view().id,
            role: raft.deep_view().role,
            term: raft.deep_view().hard_state.current_term,
            leader_id: raft.deep_view().leader_id,
            commit_index: raft.deep_view().hard_state.commit_index,
            applied_index: raft.deep_view().applied_index,
            last_log_index: raft.deep_view().log.last_index(),
            database_applied_index: database.applied_index,
            database_pages: database.database_pages,
            wal_bytes: database.wal_bytes,
            active_transactions: database.active_transactions,
            snapshot_index: match store.deep_view().state.snapshot {
                Some(snapshot) => Some(snapshot.metadata.last_included_index),
                None => None,
            },
            snapshot_bytes: match store.deep_view().state.snapshot {
                Some(snapshot) => Some(snapshot.metadata.byte_len),
                None => None,
            },
            retained_log_entries: store.deep_view().state.entries.len() as u64,
            retained_log_bytes: retained_bytes as u64,
        }),
{
    RuntimeStatus {
        node_id: raft.id(),
        role: raft.role(),
        term: raft.term(),
        leader_id: raft.leader_id(),
        commit_index: raft.commit_index(),
        applied_index: raft.applied_index(),
        last_log_index: raft.last_log_index(),
        database_applied_index: database.applied_index,
        database_pages: database.database_pages,
        wal_bytes: database.wal_bytes,
        active_transactions: database.active_transactions,
        snapshot_index: store.snapshot_index(),
        snapshot_bytes: store.snapshot_bytes(),
        retained_log_entries: store.retained_entry_count() as u64,
        retained_log_bytes: retained_bytes as u64,
    }
}

} // verus!
