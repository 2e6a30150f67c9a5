//! The clients that wait for a node: one with a change, and some with reads.

use vstd::prelude::*;
use crate::db::error::DatabaseError;
use crate::db::results::{ExecutionResult, ExecutionResultView};
use crate::model::{Model, outcome};
use crate::ordmap::{OrdMap, ordered};
use crate::raft::types::{
    Action, ActionView, CommandId, HardState, LogEntry, LogEntryView, Message, MessageView,
    PersistentSnapshot, PersistentSnapshotView, Role, StorageMutation, StorageMutationView,
};
use crate::runtime::config::{command_id, command_id_of};
use crate::runtime::error::{Result, RuntimeError, RuntimeErrorKind};
use crate::text::{decimal, decimal_text, wide_decimal_text};
use crate::types::{NodeId, Value, ValueView, between, labelled};
use crate::wire::{be_bytes, put_be};

verus! {

broadcast use crate::model::group_contents;

/// A read that waits for a quorum.
#[derive(Debug, Clone, PartialEq, Eq)]
pub struct PendingRead {
    pub client_id: [u8; 16],
    pub sequence: u64,
    pub sql: String,
    pub parameters: Vec<Value>,
}

/// The content of a [`PendingRead`].
#[verifier::ext_equal]
pub struct PendingReadView {
    pub client_id: Seq<u8>,
    pub sequence: u64,
    pub sql: Seq<char>,
    pub parameters: Seq<ValueView>,
}

impl DeepView for PendingRead {
    type V = PendingReadView;

    open spec fn deep_view(&self) -> PendingReadView {
        PendingReadView {
            client_id: self.client_id.deep_view(),
            sequence: self.sequence.deep_view(),
            sql: self.sql.deep_view(),
            parameters: self.parameters.deep_view(),
        }
    }
}

impl Model for PendingRead {
    fn duplicate(&self) -> (copy: Self) {
        PendingRead {
            client_id: self.client_id.duplicate(),
            sequence: self.sequence.duplicate(),
            sql: self.sql.duplicate(),
            parameters: self.parameters.duplicate(),
        }
    }

    fn same(&self, other: &Self) -> (equal: bool) {
        self.client_id.same(&other.client_id)
            && self.sequence.same(&other.sequence)
            && self.sql.same(&other.sql)
            && self.parameters.same(&other.parameters)
    }
}
/// What a client is told.
#[derive(Debug, Clone, PartialEq, Eq)]
pub enum Answer {
    Done(ExecutionResult),
    Failed(RuntimeError),
}

/// The content of an [`Answer`].
pub enum AnswerView {
    Done(ExecutionResultView),
    Failed(RuntimeErrorKind),
}

impl DeepView for Answer {
    type V = AnswerView;

    open spec fn deep_view(&self) -> AnswerView {
        match self {
            Answer::Done(result) => AnswerView::Done(result.deep_view()),
            Answer::Failed(error) => AnswerView::Failed(error.deep_view()),
        }
    }
}

/// A change that waits for its commit, and what it gave when it was applied.
#[derive(Debug, Clone, PartialEq, Eq)]
pub struct PendingProposal {
    pub id: CommandId,
    pub applied: Option<(u64, Answer)>,
}

/// The content of a [`PendingProposal`].
pub struct PendingProposalView {
    pub id: CommandId,
    pub applied: Option<(u64, AnswerView)>,
}

impl DeepView for PendingProposal {
    type V = PendingProposalView;

    open spec fn deep_view(&self) -> PendingProposalView {
        PendingProposalView {
            id: self.id,
            applied: match self.applied {
                Some((index, answer)) => Some((index, answer.deep_view())),
                None => None,
            },
        }
    }
}

/// Something that a node has to do.
#[derive(Debug, Clone, PartialEq, Eq)]
pub enum Effect {
    Persist(StorageMutation),
    Install {
        snapshot: PersistentSnapshot,
        retained_entries: Vec<LogEntry>,
        hard_state: HardState,
    },
    Send { to: NodeId, message: Message },
    ResetElection,
    ResetHeartbeat,
    ResetCheckQuorum,
    Apply(LogEntry),
    AnswerProposal { id: CommandId, answer: Answer },
    AnswerRead { context: Vec<u8>, error: RuntimeError },
    Query { context: Vec<u8>, read: PendingRead },
}

/// The content of an [`Effect`].
#[allow(inconsistent_fields)]
pub enum EffectView {
    Persist(StorageMutationView),
    Install {
        snapshot: PersistentSnapshotView,
        retained_entries: Seq<LogEntryView>,
        hard_state: HardState,
    },
    Send { to: NodeId, message: MessageView },
    ResetElection,
    ResetHeartbeat,
    ResetCheckQuorum,
    Apply(LogEntryView),
    AnswerProposal { id: CommandId, answer: AnswerView },
    AnswerRead { context: Seq<u8>, error: RuntimeErrorKind },
    Query { context: Seq<u8>, read: PendingReadView },
}

impl DeepView for Effect {
    type V = EffectView;

    open spec fn deep_view(&self) -> EffectView {
        match self {
            Effect::Persist(mutation) => EffectView::Persist(mutation.deep_view()),
            Effect::Install { snapshot, retained_entries, hard_state } => EffectView::Install {
                snapshot: snapshot.deep_view(),
                retained_entries: retained_entries.deep_view(),
                hard_state: *hard_state,
            },
            Effect::Send { to, message } => EffectView::Send {
                to: *to,
                message: message.deep_view(),
            },
            Effect::ResetElection => EffectView::ResetElection,
            Effect::ResetHeartbeat => EffectView::ResetHeartbeat,
            Effect::ResetCheckQuorum => EffectView::ResetCheckQuorum,
            Effect::Apply(entry) => EffectView::Apply(entry.deep_view()),
            Effect::AnswerProposal { id, answer } => EffectView::AnswerProposal {
                id: *id,
                answer: answer.deep_view(),
            },
            Effect::AnswerRead { context, error } => EffectView::AnswerRead {
                context: context@,
                error: error.deep_view(),
            },
            Effect::Query { context, read } => EffectView::Query {
                context: context@,
                read: read.deep_view(),
            },
        }
    }
}

/// What a client that still waits is told when its wait is cut short.
pub open spec fn cut_short(error: RuntimeErrorKind) -> RuntimeErrorKind {
    match error {
        RuntimeErrorKind::Shutdown => RuntimeErrorKind::Shutdown,
        RuntimeErrorKind::NotLeader { leader_hint } => RuntimeErrorKind::NotLeader { leader_hint },
        _ => RuntimeErrorKind::Fenced,
    }
}

/// The known leader in words.
pub open spec fn hint_words(leader: Option<NodeId>) -> Seq<char> {
    match leader {
        Some(leader) => "Some("@ + decimal(leader as nat) + ")"@,
        None => "None"@,
    }
}

fn hint_text(leader: Option<NodeId>) -> (text: String)
    ensures
        text@ == hint_words(leader),
{
    match leader {
        Some(leader) => between("Some(", &decimal_text(leader), ")"),
        None => "None".to_owned(),
    }
}

/// What a client that still waits is told when its wait is cut short: what cut it
/// short, and where the leader may be.
pub fn pending_error(error: &RuntimeError, leader: Option<NodeId>) -> (told: RuntimeError)
    ensures
        told.deep_view() == cut_short(error.deep_view()),
        told matches RuntimeError::Fenced(text) ==> text@ == "pending request cancelled: "@
            + error.shown() + "; leader hint "@ + hint_words(leader),
{
    match error {
        RuntimeError::Shutdown => RuntimeError::Shutdown,
        RuntimeError::NotLeader { leader_hint } => RuntimeError::NotLeader {
            leader_hint: *leader_hint,
        },
        other => {
            let mut text = between(
                "pending request cancelled: ",
                &other.describe(),
                "; leader hint ",
            );
            text.append(&hint_text(leader));
            RuntimeError::Fenced(text)
        },
    }
}

/// Why an action stops a node, in words, where it does.
pub open spec fn stop_words(waiters: WaitersView, action: Action) -> Seq<char> {
    match action {
        Action::ProposalCommitted { id, index } => match waiters.proposal->0.applied {
            None => "proposal "@ + decimal(id as nat)
                + " acknowledged before local database apply"@,
            Some((applied, _)) => "proposal "@ + decimal(id as nat) + " applied at "@ + decimal(
                applied as nat,
            ) + ", committed at "@ + decimal(index as nat),
        },
        Action::ReadReady { index, .. } => "ReadIndex "@ + decimal(index as nat)
            + " became ready before durable database apply"@,
        Action::SnapshotRejected { reason } => "locally built snapshot was rejected: "@ + reason@,
        Action::Fatal { reason } => reason@,
        _ => Seq::empty(),
    }
}

/// What the client of an applied change is told. A change that the database
/// refused at its place in the log is refused for good; any other failure stops
/// the node.
pub fn command_answer(
    result: std::result::Result<ExecutionResult, DatabaseError>,
    database_index: u64,
    entry_index: u64,
) -> (answer: Result<Answer>)
    ensures
        match result {
            Ok(done) => outcome(answer) == Ok::<AnswerView, RuntimeErrorKind>(
                AnswerView::Done(done.deep_view()),
            ),
            Err(error) => outcome(answer) == if database_index == entry_index {
                Ok::<AnswerView, RuntimeErrorKind>(
                    AnswerView::Failed(RuntimeErrorKind::CommandRejected),
                )
            } else {
                Err(RuntimeErrorKind::Database(error.deep_view()))
            },
        },
{
    match result {
        Ok(done) => Ok(Answer::Done(done)),
        Err(error) => if database_index == entry_index {
            Ok(
                Answer::Failed(
                    RuntimeError::CommandRejected(error.describe()),
                ),
            )
        } else {
            Err(RuntimeError::Database(error))
        },
    }
}

/// The clients that wait for a node.
#[derive(Debug)]
pub struct Waiters {
    node_id: NodeId,
    next_command: u64,
    next_read: u64,
    read_limit: usize,
    proposal: Option<PendingProposal>,
    reads: OrdMap<Vec<u8>, PendingRead>,
}

/// The content of [`Waiters`].
#[verifier::ext_equal]
pub struct WaitersView {
    pub node_id: NodeId,
    pub next_command: u64,
    pub next_read: u64,
    pub read_limit: usize,
    pub proposal: Option<PendingProposalView>,
    pub reads: Map<Seq<u8>, PendingReadView>,
}

/// The content of a waiting change, where there is one.
pub open spec fn proposal_content(proposal: Option<PendingProposal>) -> Option<
    PendingProposalView,
> {
    match proposal {
        Some(proposal) => Some(proposal.deep_view()),
        None => None,
    }
}

impl DeepView for Waiters {
    type V = WaitersView;

    closed spec fn deep_view(&self) -> WaitersView {
        WaitersView {
            node_id: self.node_id,
            next_command: self.next_command,
            next_read: self.next_read,
            read_limit: self.read_limit,
            proposal: proposal_content(self.proposal),
            reads: self.reads.deep_view(),
        }
    }
}

/// The name under which a read waits.
pub open spec fn read_context(node_id: NodeId, number: u64) -> Seq<u8> {
    be_bytes(node_id as nat, 8) + be_bytes(number as nat, 8)
}

/// The answers to the reads under the first `n` names.
pub open spec fn read_answers(contexts: Seq<Seq<u8>>, error: RuntimeErrorKind, n: int) -> Seq<
    EffectView,
>
    decreases n,
{
    if n <= 0 {
        Seq::empty()
    } else {
        read_answers(contexts, error, n - 1).push(
            EffectView::AnswerRead { context: contexts[n - 1], error },
        )
    }
}

impl WaitersView {
    /// Nobody waits any more.
    pub open spec fn emptied(self) -> WaitersView {
        WaitersView { proposal: None, reads: Map::empty(), ..self }
    }

    /// What everybody who waits is told when the waits are cut short: the change
    /// first, then the reads by name.
    pub open spec fn rejections(self, error: RuntimeErrorKind) -> Seq<EffectView> {
        let contexts = ordered::<Vec<u8>>(self.reads.dom());
        let told = cut_short(error);
        (match self.proposal {
            Some(proposal) => seq![
                EffectView::AnswerProposal { id: proposal.id, answer: AnswerView::Failed(told) },
            ],
            None => Seq::empty(),
        }) + read_answers(contexts, told, contexts.len() as int)
    }

    /// What an action of the consensus makes the node do. The change is answered
    /// only if it was applied here, at the index where it was committed; a read
    /// is carried out only if the database has reached its index.
    pub open spec fn acted(
        self,
        action: ActionView,
        leader: Option<NodeId>,
        database_index: u64,
    ) -> (WaitersView, std::result::Result<Seq<EffectView>, RuntimeErrorKind>) {
        match action {
            ActionView::Persist(
                StorageMutationView::InstallSnapshot { snapshot, retained_entries, hard_state },
            ) => (
                self,
                Ok(seq![EffectView::Install { snapshot, retained_entries, hard_state }]),
            ),
            ActionView::Persist(mutation) => (self, Ok(seq![EffectView::Persist(mutation)])),
            ActionView::Send { to, message } => (self, Ok(seq![EffectView::Send { to, message }])),
            ActionView::ResetElectionTimer => (self, Ok(seq![EffectView::ResetElection])),
            ActionView::ResetHeartbeatTimer => (self, Ok(seq![EffectView::ResetHeartbeat])),
            ActionView::RoleChanged { role, .. } => if role == Role::Leader {
                (self, Ok(seq![EffectView::ResetCheckQuorum]))
            } else {
                (
                    self.emptied(),
                    Ok(
                        seq![EffectView::ResetElection] + self.rejections(
                            RuntimeErrorKind::NotLeader { leader_hint: leader },
                        ),
                    ),
                )
            },
            ActionView::Apply(entry) => (self, Ok(seq![EffectView::Apply(entry)])),
            ActionView::ProposalCommitted { id, index } => match self.proposal {
                Some(proposal) if proposal.id == id => (
                    WaitersView { proposal: None, ..self },
                    match proposal.applied {
                        Some((applied, answer)) if applied == index => Ok(
                            seq![EffectView::AnswerProposal { id, answer }],
                        ),
                        _ => Err(RuntimeErrorKind::Fenced),
                    },
                ),
                _ => (self, Ok(Seq::empty())),
            },
            ActionView::ProposalRejected { id, leader_hint } => match self.proposal {
                Some(proposal) if proposal.id == id => (
                    WaitersView { proposal: None, ..self },
                    Ok(
                        seq![
                            EffectView::AnswerProposal {
                                id,
                                answer: AnswerView::Failed(
                                    RuntimeErrorKind::NotLeader { leader_hint },
                                ),
                            },
                        ],
                    ),
                ),
                _ => (self, Ok(Seq::empty())),
            },
            ActionView::ReadReady { context, index } => if self.reads.contains_key(context) {
                (
                    WaitersView { reads: self.reads.remove(context), ..self },
                    if database_index < index {
                        Err(RuntimeErrorKind::Fenced)
                    } else {
                        Ok(seq![EffectView::Query { context, read: self.reads[context] }])
                    },
                )
            } else {
                (self, Ok(Seq::empty()))
            },
            ActionView::ReadRejected { context, .. } => if self.reads.contains_key(context) {
                (
                    WaitersView { reads: self.reads.remove(context), ..self },
                    Ok(
                        seq![
                            EffectView::AnswerRead {
                                context,
                                error: RuntimeErrorKind::NotLeader { leader_hint: leader },
                            },
                        ],
                    ),
                )
            } else {
                (self, Ok(Seq::empty()))
            },
            ActionView::SnapshotRejected { .. } => (self, Err(RuntimeErrorKind::Fenced)),
            ActionView::Fatal { .. } => (self, Err(RuntimeErrorKind::Fenced)),
        }
    }
}

/// Why a change may not be proposed now, if it may not.
pub open spec fn proposal_refusal(waiters: WaitersView, role: Role, leader: Option<NodeId>) -> Option<
    RuntimeErrorKind,
> {
    if role != Role::Leader {
        Some(RuntimeErrorKind::NotLeader { leader_hint: leader })
    } else if waiters.proposal is Some {
        Some(RuntimeErrorKind::ProposalBusy)
    } else {
        None
    }
}

/// Why a read may not wait now, if it may not.
pub open spec fn read_refusal(waiters: WaitersView, role: Role, leader: Option<NodeId>) -> Option<
    RuntimeErrorKind,
> {
    if role != Role::Leader {
        Some(RuntimeErrorKind::NotLeader { leader_hint: leader })
    } else if waiters.reads.dom().len() >= waiters.read_limit {
        Some(RuntimeErrorKind::Limit)
    } else {
        None
    }
}

fn single(effect: Effect) -> (effects: Vec<Effect>)
    ensures
        effects.deep_view() == seq![effect.deep_view()],
{
    let mut effects: Vec<Effect> = Vec::new();
    effects.push(effect);
    assert(effects.deep_view() =~= seq![effect.deep_view()]);
    effects
}

fn nothing() -> (effects: Vec<Effect>)
    ensures
        effects.deep_view() == Seq::<EffectView>::empty(),
{
    let effects: Vec<Effect> = Vec::new();
    assert(effects.deep_view() =~= Seq::empty());
    effects
}

impl Waiters {
    /// Nobody waits; the first command has the given number.
    pub fn new(node_id: NodeId, next_command: u64, read_limit: usize) -> (waiters: Waiters)
        ensures
            waiters.deep_view() == (WaitersView {
                node_id,
                next_command,
                next_read: 1,
                read_limit,
                proposal: None,
                reads: Map::empty(),
            }),
    {
        Waiters {
            node_id,
            next_command,
            next_read: 1,
            read_limit,
            proposal: None,
            reads: OrdMap::new(),
        }
    }

    /// Why a change may not be proposed now, if it may not.
    pub fn refuse_proposal(&self, role: Role, leader: Option<NodeId>) -> (refusal: Option<
        RuntimeError,
    >)
        ensures
            refusal.deep_view() == proposal_refusal(self.deep_view(), role, leader),
    {
        if role != Role::Leader {
            return Some(RuntimeError::NotLeader { leader_hint: leader });
        }
        if self.proposal.is_some() {
            return Some(RuntimeError::ProposalBusy);
        }
        None
    }

    /// Lets a change wait, under a new id.
    pub fn propose(&mut self) -> (result: Result<CommandId>)
        ensures
            ({
                let before = old(self).deep_view();
                if before.next_command == u64::MAX {
                    final(self).deep_view() == before && outcome(result) == Err::<
                        CommandId,
                        RuntimeErrorKind,
                    >(RuntimeErrorKind::Limit)
                } else {
                    let id = command_id_of(before.node_id, before.next_command);
                    &&& outcome(result) == Ok::<CommandId, RuntimeErrorKind>(id)
                    &&& final(self).deep_view() == WaitersView {
                        next_command: (before.next_command + 1) as u64,
                        proposal: Some(PendingProposalView { id, applied: None }),
                        ..before
                    }
                }
            }),
    {
        if self.next_command == u64::MAX {
            return Err(RuntimeError::Limit("proposal id space exhausted".to_owned()));
        }
        let id = command_id(self.node_id, self.next_command);
        self.next_command = self.next_command + 1;
        self.proposal = Some(PendingProposal { id, applied: None });
        Ok(id)
    }

    /// Why a read may not wait now, if it may not.
    pub fn refuse_read(&self, role: Role, leader: Option<NodeId>) -> (refusal: Option<RuntimeError>)
        ensures
            refusal.deep_view() == read_refusal(self.deep_view(), role, leader),
    {
        if role != Role::Leader {
            return Some(RuntimeError::NotLeader { leader_hint: leader });
        }
        if self.reads.len() >= self.read_limit {
            return Some(
                RuntimeError::Limit("pending ReadIndex request limit reached".to_owned()),
            );
        }
        None
    }

    /// Lets a read wait, under a new name.
    pub fn read(&mut self, read: PendingRead) -> (result: Result<Vec<u8>>)
        ensures
            ({
                let before = old(self).deep_view();
                if before.next_read == u64::MAX {
                    final(self).deep_view() == before && outcome(result) == Err::<
                        Seq<u8>,
                        RuntimeErrorKind,
                    >(RuntimeErrorKind::Limit)
                } else {
                    let context = read_context(before.node_id, before.next_read);
                    &&& outcome(result) == Ok::<Seq<u8>, RuntimeErrorKind>(context)
                    &&& final(self).deep_view() == WaitersView {
                        next_read: (before.next_read + 1) as u64,
                        reads: before.reads.insert(context, read.deep_view()),
                        ..before
                    }
                }
            }),
    {
        if self.next_read == u64::MAX {
            return Err(RuntimeError::Limit("read context space exhausted".to_owned()));
        }
        let mut context: Vec<u8> = Vec::new();
        put_be(&mut context, self.node_id, 8);
        put_be(&mut context, self.next_read, 8);
        assert(context@ =~= read_context(self.node_id, self.next_read));
        assert(context.deep_view() =~= context@);
        self.next_read = self.next_read + 1;
        self.reads.insert(context.duplicate(), read);
        Ok(context)
    }

    /// Notes what a change gave when it was applied, if it is the one that waits.
    pub fn applied(&mut self, id: CommandId, index: u64, answer: Answer)
        ensures
            final(self).deep_view() == (WaitersView {
                proposal: match old(self).deep_view().proposal {
                    Some(proposal) if proposal.id == id => Some(
                        PendingProposalView { id, applied: Some((index, answer.deep_view())) },
                    ),
                    other => other,
                },
                ..old(self).deep_view()
            }),
    {
        let waits = match &self.proposal {
            Some(proposal) => proposal.id == id,
            None => false,
        };
        if waits {
            self.proposal = Some(PendingProposal { id, applied: Some((index, answer)) });
        }
    }

    /// Cuts all waits short.
    pub fn reject_pending(&mut self, error: &RuntimeError, leader: Option<NodeId>) -> (effects: Vec<
        Effect,
    >)
        ensures
            final(self).deep_view() == old(self).deep_view().emptied(),
            effects.deep_view() == old(self).deep_view().rejections(error.deep_view()),
    {
        let ghost before = self.deep_view();
        let ghost told = cut_short(error.deep_view());
        let ghost contexts = self.reads.keys();
        let mut effects = nothing();
        let mut proposal: Option<PendingProposal> = None;
        std::mem::swap(&mut proposal, &mut self.proposal);
        if let Some(pending) = proposal {
            effects = single(
                Effect::AnswerProposal {
                    id: pending.id,
                    answer: Answer::Failed(pending_error(error, leader)),
                },
            );
        }
        let ghost first = effects.deep_view();
        let mut reads: OrdMap<Vec<u8>, PendingRead> = OrdMap::new();
        std::mem::swap(&mut reads, &mut self.reads);
        let count: usize = reads.len();
        let mut i: usize = 0;
        assert(first + read_answers(contexts, told, 0) =~= first);
        while i < count
            invariant
                i <= count,
                contexts == reads.keys(),
                count == contexts.len(),
                told == cut_short(error.deep_view()),
                effects.deep_view() == first + read_answers(contexts, told, i as int),
            decreases count - i,
        {
            let ghost so_far = effects.deep_view();
            let context = reads.key_at(i).duplicate();
            assert(context.deep_view() =~= context@);
            let effect = Effect::AnswerRead { context, error: pending_error(error, leader) };
            effects.push(effect);
            assert(effects.deep_view() =~= so_far.push(effect.deep_view()));
            i = i + 1;
            assert(first + read_answers(contexts, told, i as int) =~= so_far.push(
                effect.deep_view(),
            ));
        }
        effects
    }

    fn take_proposal(&mut self, id: CommandId) -> (taken: Option<PendingProposal>)
        ensures
            match old(self).deep_view().proposal {
                Some(proposal) if proposal.id == id => taken matches Some(pending)
                    && pending.deep_view() == proposal && final(self).deep_view() == (WaitersView {
                    proposal: None,
                    ..old(self).deep_view()
                }),
                _ => taken is None && final(self).deep_view() == old(self).deep_view(),
            },
    {
        let waits = match &self.proposal {
            Some(proposal) => proposal.id == id,
            None => false,
        };
        if !waits {
            return None;
        }
        let mut proposal: Option<PendingProposal> = None;
        std::mem::swap(&mut proposal, &mut self.proposal);
        proposal
    }

    fn take_read(&mut self, context: &Vec<u8>) -> (taken: Option<PendingRead>)
        ensures
            if old(self).deep_view().reads.contains_key(context@) {
                taken matches Some(read) && read.deep_view() == old(
                    self,
                ).deep_view().reads[context@] && final(self).deep_view() == (WaitersView {
                    reads: old(self).deep_view().reads.remove(context@),
                    ..old(self).deep_view()
                })
            } else {
                taken is None && final(self).deep_view() == old(self).deep_view()
            },
    {
        let ghost before = self.deep_view();
        assert(context.deep_view() =~= context@);
        let taken = self.reads.remove(context);
        assert(self.reads.deep_view() =~= before.reads.remove(context@));
        proof {
            if taken is None {
                assert(before.reads.remove(context@) =~= before.reads);
            }
        }
        taken
    }

    /// What an action of the consensus makes the node do.
    pub fn act(&mut self, action: Action, leader: Option<NodeId>, database_index: u64) -> (result:
        Result<Vec<Effect>>)
        ensures
            (final(self).deep_view(), outcome(result)) == old(self).deep_view().acted(
                action.deep_view(),
                leader,
                database_index,
            ),
            result matches Err(error) ==> (error matches RuntimeError::Fenced(text) && text@
                == stop_words(old(self).deep_view(), action)),
    {
        let ghost before = self.deep_view();
        match action {
            Action::Persist(
                StorageMutation::InstallSnapshot { snapshot, retained_entries, hard_state },
            ) => Ok(single(Effect::Install { snapshot, retained_entries, hard_state })),
            Action::Persist(mutation) => Ok(single(Effect::Persist(mutation))),
            Action::Send { to, message } => Ok(single(Effect::Send { to, message })),
            Action::ResetElectionTimer => Ok(single(Effect::ResetElection)),
            Action::ResetHeartbeatTimer => Ok(single(Effect::ResetHeartbeat)),
            Action::RoleChanged { role, .. } => {
                if role == Role::Leader {
                    return Ok(single(Effect::ResetCheckQuorum));
                }
                let mut effects = single(Effect::ResetElection);
                let mut rejected = self.reject_pending(
                    &RuntimeError::NotLeader { leader_hint: leader },
                    leader,
                );
                let ghost first = effects.deep_view();
                let ghost rest = rejected.deep_view();
                effects.append(&mut rejected);
                assert(effects.deep_view() =~= first + rest);
                Ok(effects)
            },
            Action::Apply(entry) => Ok(single(Effect::Apply(entry))),
            Action::ProposalCommitted { id, index } => match self.take_proposal(id) {
                None => Ok(nothing()),
                Some(pending) => match pending.applied {
                    None => Err(
                        RuntimeError::Fenced(
                            between(
                                "proposal ",
                                &wide_decimal_text(id),
                                " acknowledged before local database apply",
                            ),
                        ),
                    ),
                    Some((applied, answer)) => if applied != index {
                        let mut text = between("proposal ", &wide_decimal_text(id), " applied at ");
                        text.append(&between("", &decimal_text(applied), ", committed at "));
                        text.append(&decimal_text(index));
                        proof {
                            reveal_strlit("");
                            let words = stop_words(before, action);
                            assert(text@ =~= words);
                        }
                        Err(RuntimeError::Fenced(text))
                    } else {
                        Ok(single(Effect::AnswerProposal { id, answer }))
                    },
                },
            },
            Action::ProposalRejected { id, leader_hint } => match self.take_proposal(id) {
                None => Ok(nothing()),
                Some(_) => Ok(
                    single(
                        Effect::AnswerProposal {
                            id,
                            answer: Answer::Failed(RuntimeError::NotLeader { leader_hint }),
                        },
                    ),
                ),
            },
            Action::ReadReady { context, index } => {
                assert(context.deep_view() =~= context@);
                match self.take_read(&context) {
                    None => Ok(nothing()),
                    Some(read) => if database_index < index {
                        Err(
                            RuntimeError::Fenced(
                                between(
                                    "ReadIndex ",
                                    &decimal_text(index),
                                    " became ready before durable database apply",
                                ),
                            ),
                        )
                    } else {
                        Ok(single(Effect::Query { context, read }))
                    },
                }
            },
            Action::ReadRejected { context, .. } => {
                assert(context.deep_view() =~= context@);
                match self.take_read(&context) {
                    None => Ok(nothing()),
                    Some(_) => Ok(
                        single(
                            Effect::AnswerRead {
                                context,
                                error: RuntimeError::NotLeader { leader_hint: leader },
                            },
                        ),
                    ),
                }
            },
            Action::SnapshotRejected { reason } => Err(
                RuntimeError::Fenced(labelled("locally built snapshot was rejected: ", &reason)),
            ),
            Action::Fatal { reason } => Err(RuntimeError::Fenced(reason)),
        }
    }
}

/// No client is told of a commit before the change is applied here: what it is
/// told is what applying gave, at the index of the commit.
pub proof fn acknowledged_after_apply(
    waiters: WaitersView,
    id: CommandId,
    index: u64,
    leader: Option<NodeId>,
    database_index: u64,
    answer: AnswerView,
)
    requires
        waiters.acted(
            ActionView::ProposalCommitted { id, index },
            leader,
            database_index,
        ).1 matches Ok(effects) && effects.contains(EffectView::AnswerProposal { id, answer }),
    ensures
        waiters.proposal == Some(PendingProposalView { id, applied: Some((index, answer)) }),
{
}

/// A read that waited for an index is carried out on a database that has reached
/// it.
pub proof fn read_after_apply(
    waiters: WaitersView,
    context: Seq<u8>,
    index: u64,
    leader: Option<NodeId>,
    database_index: u64,
    read: PendingReadView,
)
    requires
        waiters.acted(
            ActionView::ReadReady { context, index },
            leader,
            database_index,
        ).1 matches Ok(effects) && effects.contains(EffectView::Query { context, read }),
    ensures
        database_index >= index,
        waiters.reads.contains_key(context) && waiters.reads[context] == read,
{
}

} // verus!
