//! The client's side of the protocol: requests with their ids, and
//! transactions of several statements.

use vstd::prelude::*;
use crate::input::{is_client_id, is_nonzero};
use crate::protocol::{
    ClientOperation, ClientOperationView, ClientRequest, ErrorCode, ProtocolError,
    ProtocolErrorView, ReadConsistency, ResponseResult, ResponseResultView, SessionRequest,
    SessionRequestView, WireMessage,
};
use crate::types::{Value, labelled, message};

verus! {

broadcast use crate::model::group_contents;

/// Sixteen bytes from `rand::random`, which draws them from the generator of the
/// thread. Nothing is said of their values. The generator is seeded by the
/// operating system, and the call panics where that fails.
#[verifier::external_body]
fn random_id() -> (id: [u8; 16]) {
    rand::random()
}

/// A random id as a client id: the one that is all zero stands for no client, and
/// another is taken in its place.
pub fn client_id_from(random: [u8; 16]) -> (id: [u8; 16])
    ensures
        is_client_id(id@),
        id@ == if is_client_id(random@) {
            random@
        } else {
            random@.update(0, 1)
        },
{
    if is_nonzero(&random) {
        return random;
    }
    let mut id = random;
    id[0] = 1;
    assert(id@[0] != 0);
    id
}

/// A random client id.
pub fn new_client_id() -> (id: [u8; 16])
    ensures
        is_client_id(id@),
{
    client_id_from(random_id())
}

/// A session of a client.
pub fn session(client_id: [u8; 16], sequence: u64, transaction_id: Option<u64>) -> (session:
    SessionRequest)
    ensures
        session == (SessionRequest { client_id, sequence, transaction_id }),
{
    SessionRequest { client_id, sequence, transaction_id }
}

/// A statement as an operation.
pub fn sql_operation(statement: String, parameters: Vec<Value>, stale: bool) -> (operation:
    ClientOperation)
    ensures
        operation == (ClientOperation::Execute {
            sql: statement,
            parameters,
            consistency: if stale {
                ReadConsistency::Stale
            } else {
                ReadConsistency::Linearizable
            },
        }),
{
    ClientOperation::Execute {
        sql: statement,
        parameters,
        consistency: if stale {
            ReadConsistency::Stale
        } else {
            ReadConsistency::Linearizable
        },
    }
}

/// The name of an error code.
pub open spec fn code_name_of(code: ErrorCode) -> Seq<char> {
    match code {
        ErrorCode::InvalidRequest => "InvalidRequest"@,
        ErrorCode::Unsupported => "Unsupported"@,
        ErrorCode::Constraint => "Constraint"@,
        ErrorCode::Conflict => "Conflict"@,
        ErrorCode::NotLeader => "NotLeader"@,
        ErrorCode::Timeout => "Timeout"@,
        ErrorCode::ResourceExhausted => "ResourceExhausted"@,
        ErrorCode::Corruption => "Corruption"@,
        ErrorCode::Internal => "Internal"@,
    }
}

fn code_name(code: ErrorCode) -> (name: &'static str)
    ensures
        name@ == code_name_of(code),
{
    match code {
        ErrorCode::InvalidRequest => "InvalidRequest",
        ErrorCode::Unsupported => "Unsupported",
        ErrorCode::Constraint => "Constraint",
        ErrorCode::Conflict => "Conflict",
        ErrorCode::NotLeader => "NotLeader",
        ErrorCode::Timeout => "Timeout",
        ErrorCode::ResourceExhausted => "ResourceExhausted",
        ErrorCode::Corruption => "Corruption",
        ErrorCode::Internal => "Internal",
    }
}

/// An error of a server as people read it.
pub open spec fn error_text(error: ProtocolErrorView) -> Seq<char> {
    code_name_of(error.code) + ": "@ + error.message
}

fn describe_error(error: &ProtocolError) -> (text: String)
    ensures
        text@ == error_text(error.deep_view()),
{
    let mut text = labelled(code_name(error.code), ": ");
    text.append(&error.message);
    text
}

/// A result that is not an error.
pub fn protocol_result(result: ResponseResult) -> (checked: std::result::Result<
    ResponseResult,
    String,
>)
    ensures
        match result {
            ResponseResult::Error(error) => checked matches Err(text) && text@ == error_text(
                error.deep_view(),
            ),
            _ => checked == Ok::<ResponseResult, String>(result),
        },
{
    match result {
        ResponseResult::Error(error) => Err(describe_error(&error)),
        result => Ok(result),
    }
}

/// The ids of a client's requests, which count up from one.
#[derive(Debug, Clone, Copy, PartialEq, Eq, Structural)]
pub struct RequestIds {
    pub next: u64,
}

impl RequestIds {
    pub fn new() -> (ids: RequestIds)
        ensures
            ids == (RequestIds { next: 1 }),
    {
        RequestIds { next: 1 }
    }

    /// The request with the next id. The last id is never used.
    pub fn request(&mut self, session: Option<SessionRequest>, operation: ClientOperation) -> (result:
        Option<ClientRequest>)
        ensures
            if old(self).next == u64::MAX {
                result is None && *final(self) == *old(self)
            } else {
                &&& result == Some(
                    ClientRequest { request_id: old(self).next, session, operation },
                )
                &&& final(self).next == old(self).next + 1
            },
    {
        if self.next == u64::MAX {
            return None;
        }
        let request_id = self.next;
        self.next = request_id + 1;
        Some(ClientRequest { request_id, session, operation })
    }
}

/// The result in the answer to a request: the server has to answer that request.
pub fn response_result(request_id: u64, received: Option<WireMessage>) -> (result:
    std::result::Result<ResponseResult, String>)
    ensures
        match received {
            Some(WireMessage::Response(response)) => if response.request_id == request_id {
                result == Ok::<ResponseResult, String>(response.result)
            } else {
                result is Err
            },
            _ => result is Err,
        },
{
    match received {
        Some(WireMessage::Response(response)) => {
            if response.request_id != request_id {
                return Err("response id does not match the request".to_owned());
            }
            Ok(response.result)
        },
        _ => Err("server closed without a client response".to_owned()),
    }
}

/// How far a transaction of several statements has come.
#[derive(Debug, PartialEq, Eq)]
pub enum TransactionPhase {
    /// The server was asked to start it.
    Beginning,
    /// The server was asked to execute the statement `next - 1`.
    Running { transaction_id: u64, next: usize },
    /// The server was asked to commit it.
    Committing { transaction_id: u64 },
    /// A statement failed, and the server was asked to roll it back.
    RollingBack { error: String },
    Ended,
}

/// The content of a [`TransactionPhase`].
#[verifier::ext_equal]
pub enum TransactionPhaseView {
    Beginning,
    Running { transaction_id: u64, next: usize },
    Committing { transaction_id: u64 },
    RollingBack { error: Seq<char> },
    Ended,
}

impl DeepView for TransactionPhase {
    type V = TransactionPhaseView;

    open spec fn deep_view(&self) -> TransactionPhaseView {
        match self {
            TransactionPhase::Beginning => TransactionPhaseView::Beginning,
            TransactionPhase::Running { transaction_id, next } => TransactionPhaseView::Running {
                transaction_id: *transaction_id,
                next: *next,
            },
            TransactionPhase::Committing { transaction_id } => TransactionPhaseView::Committing {
                transaction_id: *transaction_id,
            },
            TransactionPhase::RollingBack { error } => TransactionPhaseView::RollingBack {
                error: error@,
            },
            TransactionPhase::Ended => TransactionPhaseView::Ended,
        }
    }
}

/// A transaction of several statements, as a client runs it.
#[derive(Debug)]
pub struct TransactionRun {
    client_id: [u8; 16],
    sequence: u64,
    statements: Vec<String>,
    phase: TransactionPhase,
    results: Vec<ResponseResult>,
}

/// The content of a [`TransactionRun`].
#[verifier::ext_equal]
pub struct TransactionRunView {
    pub client_id: Seq<u8>,
    pub sequence: u64,
    pub statements: Seq<Seq<char>>,
    pub phase: TransactionPhaseView,
    pub results: Seq<ResponseResultView>,
}

impl DeepView for TransactionRun {
    type V = TransactionRunView;

    closed spec fn deep_view(&self) -> TransactionRunView {
        TransactionRunView {
            client_id: self.client_id@,
            sequence: self.sequence,
            statements: self.statements.deep_view(),
            phase: self.phase.deep_view(),
            results: self.results.deep_view(),
        }
    }
}

impl TransactionRunView {
    /// The statement to come is one of the transaction's.
    pub open spec fn well_formed(self) -> bool {
        self.phase matches TransactionPhaseView::Running { next, .. } ==> 1 <= next
            <= self.statements.len()
    }
}

/// What a client does next.
#[derive(Debug)]
pub enum TransactionStep {
    Send(SessionRequest, ClientOperation),
    Done(Vec<ResponseResult>),
    Failed(String),
}

/// The content of a [`TransactionStep`].
#[verifier::ext_equal]
pub enum TransactionStepView {
    Send(SessionRequestView, ClientOperationView),
    Done(Seq<ResponseResultView>),
    Failed(Seq<char>),
}

impl DeepView for TransactionStep {
    type V = TransactionStepView;

    open spec fn deep_view(&self) -> TransactionStepView {
        match self {
            TransactionStep::Send(session, operation) => TransactionStepView::Send(
                session.deep_view(),
                operation.deep_view(),
            ),
            TransactionStep::Done(results) => TransactionStepView::Done(results.deep_view()),
            TransactionStep::Failed(text) => TransactionStepView::Failed(text@),
        }
    }
}

/// The statement as it is sent.
pub open spec fn executed(statement: Seq<char>) -> ClientOperationView {
    ClientOperationView::Execute {
        sql: statement,
        parameters: Seq::empty(),
        consistency: ReadConsistency::Linearizable,
    }
}

/// A reply, or why there is none.
pub type Reply = std::result::Result<ResponseResultView, Seq<char>>;

/// The reply to a request.
pub open spec fn reply_of(reply: std::result::Result<ResponseResult, String>) -> Reply {
    match reply {
        Ok(result) => Ok(result.deep_view()),
        Err(text) => Err(text@),
    }
}

impl TransactionRunView {
    /// The session of a request in the transaction.
    pub open spec fn session(self, transaction_id: u64) -> SessionRequestView {
        SessionRequestView {
            client_id: self.client_id,
            sequence: self.sequence,
            transaction_id: Some(transaction_id),
        }
    }

    /// The run has ended.
    pub open spec fn ended(self) -> TransactionRunView {
        TransactionRunView { phase: TransactionPhaseView::Ended, ..self }
    }

    /// What is sent after the first `next` statements: the next one, or the
    /// commit where there is none.
    pub open spec fn going_on(self, transaction_id: u64, next: int) -> (
        TransactionRunView,
        TransactionStepView,
    ) {
        if next < self.statements.len() {
            (
                TransactionRunView {
                    phase: TransactionPhaseView::Running {
                        transaction_id,
                        next: (next + 1) as usize,
                    },
                    ..self
                },
                TransactionStepView::Send(
                    self.session(transaction_id),
                    executed(self.statements[next]),
                ),
            )
        } else {
            (
                TransactionRunView {
                    phase: TransactionPhaseView::Committing { transaction_id },
                    ..self
                },
                TransactionStepView::Send(
                    self.session(transaction_id),
                    ClientOperationView::Commit,
                ),
            )
        }
    }

    /// The run and what it does after a reply.
    pub open spec fn stepped(self, reply: Reply) -> (TransactionRunView, TransactionStepView) {
        match self.phase {
            TransactionPhaseView::Beginning => match reply {
                Err(text) => (self.ended(), TransactionStepView::Failed(text)),
                Ok(ResponseResultView::Error(error)) => (
                    self.ended(),
                    TransactionStepView::Failed(error_text(error)),
                ),
                Ok(ResponseResultView::Transaction { transaction_id, .. }) => self.going_on(
                    transaction_id,
                    0,
                ),
                Ok(_) => (
                    self.ended(),
                    TransactionStepView::Failed("BEGIN returned an unexpected response"@),
                ),
            },
            TransactionPhaseView::Running { transaction_id, next } => match reply {
                Err(text) => (self.ended(), TransactionStepView::Failed(text)),
                Ok(ResponseResultView::Error(error)) => (
                    TransactionRunView {
                        phase: TransactionPhaseView::RollingBack {
                            error: error_text(error) + "; transaction rolled back"@,
                        },
                        ..self
                    },
                    TransactionStepView::Send(
                        self.session(transaction_id),
                        ClientOperationView::Rollback,
                    ),
                ),
                Ok(result) => TransactionRunView {
                    results: self.results.push(result),
                    ..self
                }.going_on(transaction_id, next as int),
            },
            TransactionPhaseView::Committing { .. } => match reply {
                Err(text) => (self.ended(), TransactionStepView::Failed(text)),
                Ok(ResponseResultView::Error(error)) => (
                    self.ended(),
                    TransactionStepView::Failed(error_text(error)),
                ),
                Ok(result) => (
                    TransactionRunView { results: Seq::empty(), ..self }.ended(),
                    TransactionStepView::Done(self.results.push(result)),
                ),
            },
            TransactionPhaseView::RollingBack { error } => (
                self.ended(),
                TransactionStepView::Failed(error),
            ),
            TransactionPhaseView::Ended => (
                self,
                TransactionStepView::Failed("transaction has ended"@),
            ),
        }
    }
}

impl TransactionRun {
    #[verifier::type_invariant]
    spec fn sound(self) -> bool {
        self.deep_view().well_formed()
    }

    /// Starts a transaction, and says what to send first.
    pub fn start(statements: Vec<String>, client_id: [u8; 16], sequence: u64) -> (started: (
        TransactionRun,
        TransactionStep,
    ))
        ensures
            started.0.deep_view() == (TransactionRunView {
                client_id: client_id@,
                sequence,
                statements: statements.deep_view(),
                phase: TransactionPhaseView::Beginning,
                results: Seq::empty(),
            }),
            started.1.deep_view() == TransactionStepView::Send(
                SessionRequestView { client_id: client_id@, sequence, transaction_id: None },
                ClientOperationView::Begin,
            ),
    {
        let results: Vec<ResponseResult> = Vec::new();
        assert(results.deep_view() =~= Seq::empty());
        let begin = session(client_id, sequence, None);
        assert(begin.deep_view().client_id =~= client_id@);
        (
            TransactionRun {
                client_id,
                sequence,
                statements,
                phase: TransactionPhase::Beginning,
                results,
            },
            TransactionStep::Send(begin, ClientOperation::Begin),
        )
    }

    fn continuation(&self, transaction_id: u64, next: usize) -> (done: (
        TransactionPhase,
        TransactionStep,
    ))
        requires
            next <= self.statements@.len(),
        ensures
            (
                TransactionRunView { phase: done.0.deep_view(), ..self.deep_view() },
                done.1.deep_view(),
            ) == self.deep_view().going_on(transaction_id, next as int),
            done.0.deep_view() matches TransactionPhaseView::Running { next, .. } ==> 1 <= next
                <= self.statements@.len(),
    {
        let within = session(self.client_id, self.sequence, Some(transaction_id));
        assert(within.deep_view() =~= self.deep_view().session(transaction_id));
        if next < self.statements.len() {
            let statement = self.statements[next].clone();
            let parameters: Vec<Value> = Vec::new();
            assert(parameters.deep_view() =~= Seq::empty());
            let operation = sql_operation(statement, parameters, false);
            assert(operation.deep_view() =~= executed(self.deep_view().statements[next as int]));
            (
                TransactionPhase::Running { transaction_id, next: next + 1 },
                TransactionStep::Send(within, operation),
            )
        } else {
            (
                TransactionPhase::Committing { transaction_id },
                TransactionStep::Send(within, ClientOperation::Commit),
            )
        }
    }

    /// Takes the reply to what was sent, and says what to do next. A statement
    /// that fails has the transaction rolled back, whatever the reply to that is.
    pub fn step(&mut self, reply: std::result::Result<ResponseResult, String>) -> (step:
        TransactionStep)
        ensures
            (final(self).deep_view(), step.deep_view()) == old(self).deep_view().stepped(
                reply_of(reply),
            ),
    {
        proof {
            use_type_invariant(&*self);
        }
        let ghost before = self.deep_view();
        let mut phase = TransactionPhase::Ended;
        std::mem::swap(&mut phase, &mut self.phase);
        match phase {
            TransactionPhase::Beginning => match reply {
                Err(text) => TransactionStep::Failed(text),
                Ok(ResponseResult::Error(error)) => TransactionStep::Failed(describe_error(&error)),
                Ok(ResponseResult::Transaction { transaction_id, .. }) => {
                    let (phase, step) = self.continuation(transaction_id, 0);
                    self.phase = phase;
                    step
                },
                Ok(_) => TransactionStep::Failed("BEGIN returned an unexpected response".to_owned()),
            },
            TransactionPhase::Running { transaction_id, next } => match reply {
                Err(text) => TransactionStep::Failed(text),
                Ok(ResponseResult::Error(error)) => {
                    let text = labelled(&describe_error(&error), "; transaction rolled back");
                    let within = session(self.client_id, self.sequence, Some(transaction_id));
                    assert(within.deep_view() =~= before.session(transaction_id));
                    self.phase = TransactionPhase::RollingBack { error: text };
                    TransactionStep::Send(within, ClientOperation::Rollback)
                },
                Ok(result) => {
                    let mut results: Vec<ResponseResult> = Vec::new();
                    std::mem::swap(&mut results, &mut self.results);
                    let ghost kept = results.deep_view();
                    let ghost last = result.deep_view();
                    results.push(result);
                    assert(results.deep_view() =~= kept.push(last));
                    self.results = results;
                    let (phase, step) = self.continuation(transaction_id, next);
                    self.phase = phase;
                    step
                },
            },
            TransactionPhase::Committing { .. } => match reply {
                Err(text) => TransactionStep::Failed(text),
                Ok(ResponseResult::Error(error)) => TransactionStep::Failed(describe_error(&error)),
                Ok(result) => {
                    let mut results: Vec<ResponseResult> = Vec::new();
                    assert(results.deep_view() =~= Seq::empty());
                    std::mem::swap(&mut results, &mut self.results);
                    let ghost kept = results.deep_view();
                    let ghost last = result.deep_view();
                    results.push(result);
                    assert(results.deep_view() =~= kept.push(last));
                    TransactionStep::Done(results)
                },
            },
            TransactionPhase::RollingBack { error } => TransactionStep::Failed(error),
            TransactionPhase::Ended => TransactionStep::Failed("transaction has ended".to_owned()),
        }
    }
}

/// The run after replies, and what it does then.
pub open spec fn after_replies(run: TransactionRunView, replies: Seq<Reply>) -> (
    TransactionRunView,
    Option<TransactionStepView>,
)
    decreases replies.len(),
{
    if replies.len() == 0 {
        (run, None)
    } else {
        let earlier = after_replies(run, replies.drop_last()).0;
        let stepped = earlier.stepped(replies.last());
        (stepped.0, Some(stepped.1))
    }
}

/// A statement that is refused is followed by a rollback of its transaction, and
/// the run then fails with the server's words, whatever the server replies.
pub proof fn refused_statements_roll_back(run: TransactionRunView, error: ProtocolErrorView, reply: Reply)
    requires
        run.phase is Running,
    ensures
        ({
            let refused = run.stepped(Ok(ResponseResultView::Error(error)));
            &&& run.phase matches TransactionPhaseView::Running { transaction_id, .. } && refused.1
                == TransactionStepView::Send(
                run.session(transaction_id),
                ClientOperationView::Rollback,
            )
            &&& refused.0.stepped(reply).1 == TransactionStepView::Failed(
                error_text(error) + "; transaction rolled back"@,
            )
        }),
{
}

/// What a run whose replies were all good has come to after the first `n` of
/// them.
proof fn good_replies_advance(
    run: TransactionRunView,
    transaction_id: u64,
    read_ts: u64,
    replies: Seq<ResponseResultView>,
    n: int,
)
    requires
        run.phase == TransactionPhaseView::Beginning,
        run.results == Seq::<ResponseResultView>::empty(),
        run.statements.len() <= usize::MAX,
        replies.len() == run.statements.len(),
        forall|i: int| 0 <= i < replies.len() ==> !(#[trigger] replies[i] is Error),
        0 <= n <= replies.len(),
    ensures
        ({
            let begun = ResponseResultView::Transaction { transaction_id, read_ts };
            let seen = seq![Ok::<ResponseResultView, Seq<char>>(begun)] + Seq::new(
                n as nat,
                |i: int| Ok::<ResponseResultView, Seq<char>>(replies[i]),
            );
            let kept = TransactionRunView { results: replies.subrange(0, n), ..run };
            after_replies(run, seen) == (
                kept.going_on(transaction_id, n).0,
                Some(kept.going_on(transaction_id, n).1),
            )
        }),
    decreases n,
{
    let begun = ResponseResultView::Transaction { transaction_id, read_ts };
    let seen = seq![Ok::<ResponseResultView, Seq<char>>(begun)] + Seq::new(
        n as nat,
        |i: int| Ok::<ResponseResultView, Seq<char>>(replies[i]),
    );
    if n == 0 {
        assert(seen.drop_last() =~= Seq::<Reply>::empty());
        assert(seen.last() == Ok::<ResponseResultView, Seq<char>>(begun));
        assert(after_replies(run, Seq::<Reply>::empty()).0 == run);
        assert(replies.subrange(0, 0) =~= run.results);
        assert((TransactionRunView { results: replies.subrange(0, 0), ..run }) == run);
    } else {
        good_replies_advance(run, transaction_id, read_ts, replies, n - 1);
        let earlier = seq![Ok::<ResponseResultView, Seq<char>>(begun)] + Seq::new(
            (n - 1) as nat,
            |i: int| Ok::<ResponseResultView, Seq<char>>(replies[i]),
        );
        assert(seen.drop_last() =~= earlier);
        assert(seen.last() == Ok::<ResponseResultView, Seq<char>>(replies[n - 1]));
        assert(replies.subrange(0, n - 1).push(replies[n - 1]) =~= replies.subrange(0, n));
        let kept = TransactionRunView { results: replies.subrange(0, n - 1), ..run };
        let state = kept.going_on(transaction_id, n - 1).0;
        assert(TransactionRunView { results: state.results.push(replies[n - 1]), ..state }.going_on(
            transaction_id,
            n,
        ) == (TransactionRunView { results: replies.subrange(0, n), ..run }).going_on(
            transaction_id,
            n,
        ));
    }
}

/// A run whose statements all succeed commits after the last of them, and ends
/// with their results in order and that of the commit.
pub proof fn good_transactions_commit(
    run: TransactionRunView,
    transaction_id: u64,
    read_ts: u64,
    replies: Seq<ResponseResultView>,
    committed: ResponseResultView,
)
    requires
        run.phase == TransactionPhaseView::Beginning,
        run.results == Seq::<ResponseResultView>::empty(),
        run.statements.len() <= usize::MAX,
        replies.len() == run.statements.len(),
        forall|i: int| 0 <= i < replies.len() ==> !(#[trigger] replies[i] is Error),
        !(committed is Error),
    ensures
        ({
            let begun = ResponseResultView::Transaction { transaction_id, read_ts };
            let seen = seq![Ok::<ResponseResultView, Seq<char>>(begun)] + Seq::new(
                replies.len(),
                |i: int| Ok::<ResponseResultView, Seq<char>>(replies[i]),
            );
            &&& after_replies(run, seen).1 == Some(
                TransactionStepView::Send(run.session(transaction_id), ClientOperationView::Commit),
            )
            &&& after_replies(run, seen.push(Ok(committed))).1 == Some(
                TransactionStepView::Done(replies.push(committed)),
            )
        }),
{
    let begun = ResponseResultView::Transaction { transaction_id, read_ts };
    let seen = seq![Ok::<ResponseResultView, Seq<char>>(begun)] + Seq::new(
        replies.len(),
        |i: int| Ok::<ResponseResultView, Seq<char>>(replies[i]),
    );
    good_replies_advance(run, transaction_id, read_ts, replies, replies.len() as int);
    assert(replies.subrange(0, replies.len() as int) =~= replies);
    assert(seen.push(Ok(committed)).drop_last() =~= seen);
}

} // verus!
