//! The safety properties that a simulated group can break, and how a broken one reads.

use vstd::prelude::*;
use crate::text::{decimal, decimal_text, wide_decimal_text};
use crate::types::NodeId;

verus! {

/// A safety property that does not hold.
#[derive(Debug, Clone, Copy, PartialEq, Eq, Structural)]
pub enum Violation {
    /// A node stored a lower term.
    TermRegressed { node: NodeId, from: u64, to: u64 },
    /// A node stored a lower commit index.
    CommitRegressed { node: NodeId, from: u64, to: u64 },
    /// A node changed its vote within a term.
    VoteChanged { node: NodeId, term: u64, from: u64, to: u64 },
    /// A node voted for two candidates over time.
    VotedTwice { node: NodeId, first: NodeId, second: NodeId, term: u64 },
    /// A node appended entries that do not follow its log.
    NonContiguous { node: NodeId, expected: u128 },
    /// A node cut off committed entries.
    TruncatedCommitted { node: NodeId, from: u64 },
    /// A node put entries in the place of others that stood elsewhere.
    ReplacedElsewhere { node: NodeId, from: u64 },
    /// A node compacted entries that it has not applied.
    CompactedUnapplied { node: NodeId, index: u64 },
    /// A node stored a snapshot that is not valid.
    InvalidSnapshot { node: NodeId },
    /// A node committed an entry that it does not hold.
    CommittedMissing { node: NodeId, index: u64 },
    /// Another entry was committed at an index.
    CommittedChanged { index: u64 },
    /// A node applied an entry out of turn.
    AppliedOutOfTurn { node: NodeId, index: u64, expected: u128, commit: u64 },
    /// Two nodes lead in one term.
    TwoLeaders { previous: NodeId, node: NodeId, term: u64 },
    /// A node has applied more than it has committed.
    AppliedBeyondCommit { node: NodeId, applied: u64, commit: u64 },
    /// A node has committed more than it holds.
    CommittedBeyondLog { node: NodeId, commit: u64, last: u64 },
    /// An entry of a log is not the next one.
    LogHole { node: NodeId, expected: u128, found: u64 },
    /// A node remembers applying an entry that it has yet to apply.
    FutureApplied { node: NodeId, index: u64 },
    /// A node applied another entry than the committed one.
    AppliedDifferent { node: NodeId, index: u64 },
    /// Two logs agree on a term at an index, and differ before it.
    Diverged { left: NodeId, right: NodeId, index: u64, term: u64, prefix: u64 },
    /// A node no longer holds a committed entry.
    ReplacedCommitted { node: NodeId, index: u64 },
    /// Two nodes that applied as much have different states.
    StatesDisagree { left: NodeId, right: NodeId, applied: u64 },
    /// A snapshot was asked for at another index than the applied one.
    SnapshotElsewhere { applied: u64, index: u64 },
    /// The log does not know the entry that a snapshot ends with.
    SnapshotUnbounded { index: u64 },
    /// No index is left for another entry.
    IndexExhausted,
}

impl Violation {
    /// How a violation reads.
    #[verifier::opaque]
    pub open spec fn words(self) -> Seq<char> {
        match self {
            Violation::TermRegressed { node, from, to } => {
                "node "@ + decimal(node as nat) + " term regressed from "@ + decimal(from as nat)
                    + " to "@ + decimal(to as nat)
            },
            Violation::CommitRegressed { node, from, to } => {
                "node "@ + decimal(node as nat) + " commit regressed from "@ + decimal(from as nat)
                    + " to "@ + decimal(to as nat)
            },
            Violation::VoteChanged { node, term, from, to } => {
                "node "@ + decimal(node as nat) + " changed vote in term "@ + decimal(term as nat)
                    + " from "@ + decimal(from as nat) + " to "@ + decimal(to as nat)
            },
            Violation::VotedTwice { node, first, second, term } => {
                "node "@ + decimal(node as nat) + " voted for "@ + decimal(first as nat) + " and "@
                    + decimal(second as nat) + " in term "@ + decimal(term as nat)
            },
            Violation::NonContiguous { node, expected } => {
                "node "@ + decimal(node as nat) + " appended non-contiguous log at "@
                    + decimal(expected as nat)
            },
            Violation::TruncatedCommitted { node, from } => {
                "node "@ + decimal(node as nat) + " truncated committed index "@
                    + decimal(from as nat)
            },
            Violation::ReplacedElsewhere { node, from } => {
                "node "@ + decimal(node as nat) + " replacement did not start at "@
                    + decimal(from as nat)
            },
            Violation::CompactedUnapplied { node, index } => {
                "node "@ + decimal(node as nat) + " compacted unapplied index "@
                    + decimal(index as nat)
            },
            Violation::InvalidSnapshot { node } => {
                "node "@ + decimal(node as nat) + " attempted to persist an invalid snapshot"@
            },
            Violation::CommittedMissing { node, index } => {
                "node "@ + decimal(node as nat) + " committed missing index "@
                    + decimal(index as nat)
            },
            Violation::CommittedChanged { index } => {
                "committed index "@ + decimal(index as nat) + " changed identity"@
            },
            Violation::AppliedOutOfTurn { node, index, expected, commit } => {
                "node "@ + decimal(node as nat) + " applied "@ + decimal(index as nat)
                    + " with expected "@ + decimal(expected as nat) + " and commit "@
                    + decimal(commit as nat)
            },
            Violation::TwoLeaders { previous, node, term } => {
                "leaders "@ + decimal(previous as nat) + " and "@ + decimal(node as nat)
                    + " both elected in term "@ + decimal(term as nat)
            },
            Violation::AppliedBeyondCommit { node, applied, commit } => {
                "node "@ + decimal(node as nat) + " applied "@ + decimal(applied as nat)
                    + " beyond commit "@ + decimal(commit as nat)
            },
            Violation::CommittedBeyondLog { node, commit, last } => {
                "node "@ + decimal(node as nat) + " committed "@ + decimal(commit as nat)
                    + " beyond log end "@ + decimal(last as nat)
            },
            Violation::LogHole { node, expected, found } => {
                "node "@ + decimal(node as nat) + " log hole: expected "@ + decimal(expected as nat)
                    + ", found "@ + decimal(found as nat)
            },
            Violation::FutureApplied { node, index } => {
                "node "@ + decimal(node as nat) + " has future applied record "@
                    + decimal(index as nat)
            },
            Violation::AppliedDifferent { node, index } => {
                "node "@ + decimal(node as nat) + " applied a different entry at committed index "@
                    + decimal(index as nat)
            },
            Violation::Diverged { left, right, index, term, prefix } => {
                "log matching failed for nodes "@ + decimal(left as nat) + "/"@
                    + decimal(right as nat) + ": equal ("@ + decimal(index as nat) + ", "@
                    + decimal(term as nat) + ") but divergent prefix at "@ + decimal(prefix as nat)
            },
            Violation::ReplacedCommitted { node, index } => {
                "node "@ + decimal(node as nat) + " replaced committed index "@
                    + decimal(index as nat)
            },
            Violation::StatesDisagree { left, right, applied } => {
                "nodes "@ + decimal(left as nat) + "/"@ + decimal(right as nat)
                    + " disagree at applied index "@ + decimal(applied as nat)
            },
            Violation::SnapshotElsewhere { applied, index } => {
                "simulator snapshots must use current applied index "@ + decimal(applied as nat)
                    + "; got "@ + decimal(index as nat)
            },
            Violation::SnapshotUnbounded { index } => {
                "missing snapshot boundary "@ + decimal(index as nat)
            },
            Violation::IndexExhausted => "log index exhausted"@,
        }
    }

    /// The words of a violation.
    pub fn describe(&self) -> (text: String)
        ensures
            text@ == self.words(),
    {
        reveal(Violation::words);
        match self {
            Violation::TermRegressed { node, from, to } => {
                let mut text = "node ".to_owned();
                text.append(&decimal_text(*node));
                text.append(" term regressed from ");
                text.append(&decimal_text(*from));
                text.append(" to ");
                text.append(&decimal_text(*to));
                text
            },
            Violation::CommitRegressed { node, from, to } => {
                let mut text = "node ".to_owned();
                text.append(&decimal_text(*node));
                text.append(" commit regressed from ");
                text.append(&decimal_text(*from));
                text.append(" to ");
                text.append(&decimal_text(*to));
                text
            },
            Violation::VoteChanged { node, term, from, to } => {
                let mut text = "node ".to_owned();
                text.append(&decimal_text(*node));
                text.append(" changed vote in term ");
                text.append(&decimal_text(*term));
                text.append(" from ");
                text.append(&decimal_text(*from));
                text.append(" to ");
                text.append(&decimal_text(*to));
                text
            },
            Violation::VotedTwice { node, first, second, term } => {
                let mut text = "node ".to_owned();
                text.append(&decimal_text(*node));
                text.append(" voted for ");
                text.append(&decimal_text(*first));
                text.append(" and ");
                text.append(&decimal_text(*second));
                text.append(" in term ");
                text.append(&decimal_text(*term));
                text
            },
            Violation::NonContiguous { node, expected } => {
                let mut text = "node ".to_owned();
                text.append(&decimal_text(*node));
                text.append(" appended non-contiguous log at ");
                text.append(&wide_decimal_text(*expected));
                text
            },
            Violation::TruncatedCommitted { node, from } => {
                let mut text = "node ".to_owned();
                text.append(&decimal_text(*node));
                text.append(" truncated committed index ");
                text.append(&decimal_text(*from));
                text
            },
            Violation::ReplacedElsewhere { node, from } => {
                let mut text = "node ".to_owned();
                text.append(&decimal_text(*node));
                text.append(" replacement did not start at ");
                text.append(&decimal_text(*from));
                text
            },
            Violation::CompactedUnapplied { node, index } => {
                let mut text = "node ".to_owned();
                text.append(&decimal_text(*node));
                text.append(" compacted unapplied index ");
                text.append(&decimal_text(*index));
                text
            },
            Violation::InvalidSnapshot { node } => {
                let mut text = "node ".to_owned();
                text.append(&decimal_text(*node));
                text.append(" attempted to persist an invalid snapshot");
                text
            },
            Violation::CommittedMissing { node, index } => {
                let mut text = "node ".to_owned();
                text.append(&decimal_text(*node));
                text.append(" committed missing index ");
                text.append(&decimal_text(*index));
                text
            },
            Violation::CommittedChanged { index } => {
                let mut text = "committed index ".to_owned();
                text.append(&decimal_text(*index));
                text.append(" changed identity");
                text
            },
            Violation::AppliedOutOfTurn { node, index, expected, commit } => {
                let mut text = "node ".to_owned();
                text.append(&decimal_text(*node));
                text.append(" applied ");
                text.append(&decimal_text(*index));
                text.append(" with expected ");
                text.append(&wide_decimal_text(*expected));
                text.append(" and commit ");
                text.append(&decimal_text(*commit));
                text
            },
            Violation::TwoLeaders { previous, node, term } => {
                let mut text = "leaders ".to_owned();
                text.append(&decimal_text(*previous));
                text.append(" and ");
                text.append(&decimal_text(*node));
                text.append(" both elected in term ");
                text.append(&decimal_text(*term));
                text
            },
            Violation::AppliedBeyondCommit { node, applied, commit } => {
                let mut text = "node ".to_owned();
                text.append(&decimal_text(*node));
                text.append(" applied ");
                text.append(&decimal_text(*applied));
                text.append(" beyond commit ");
                text.append(&decimal_text(*commit));
                text
            },
            Violation::CommittedBeyondLog { node, commit, last } => {
                let mut text = "node ".to_owned();
                text.append(&decimal_text(*node));
                text.append(" committed ");
                text.append(&decimal_text(*commit));
                text.append(" beyond log end ");
                text.append(&decimal_text(*last));
                text
            },
            Violation::LogHole { node, expected, found } => {
                let mut text = "node ".to_owned();
                text.append(&decimal_text(*node));
                text.append(" log hole: expected ");
                text.append(&wide_decimal_text(*expected));
                text.append(", found ");
                text.append(&decimal_text(*found));
                text
            },
            Violation::FutureApplied { node, index } => {
                let mut text = "node ".to_owned();
                text.append(&decimal_text(*node));
                text.append(" has future applied record ");
                text.append(&decimal_text(*index));
                text
            },
            Violation::AppliedDifferent { node, index } => {
                let mut text = "node ".to_owned();
                text.append(&decimal_text(*node));
                text.append(" applied a different entry at committed index ");
                text.append(&decimal_text(*index));
                text
            },
            Violation::Diverged { left, right, index, term, prefix } => {
                let mut text = "log matching failed for nodes ".to_owned();
                text.append(&decimal_text(*left));
                text.append("/");
                text.append(&decimal_text(*right));
                text.append(": equal (");
                text.append(&decimal_text(*index));
                text.append(", ");
                text.append(&decimal_text(*term));
                text.append(") but divergent prefix at ");
                text.append(&decimal_text(*prefix));
                text
            },
            Violation::ReplacedCommitted { node, index } => {
                let mut text = "node ".to_owned();
                text.append(&decimal_text(*node));
                text.append(" replaced committed index ");
                text.append(&decimal_text(*index));
                text
            },
            Violation::StatesDisagree { left, right, applied } => {
                let mut text = "nodes ".to_owned();
                text.append(&decimal_text(*left));
                text.append("/");
                text.append(&decimal_text(*right));
                text.append(" disagree at applied index ");
                text.append(&decimal_text(*applied));
                text
            },
            Violation::SnapshotElsewhere { applied, index } => {
                let mut text = "simulator snapshots must use current applied index ".to_owned();
                text.append(&decimal_text(*applied));
                text.append("; got ");
                text.append(&decimal_text(*index));
                text
            },
            Violation::SnapshotUnbounded { index } => {
                let mut text = "missing snapshot boundary ".to_owned();
                text.append(&decimal_text(*index));
                text
            },
            Violation::IndexExhausted => {
                "log index exhausted".to_owned()
            },
        }
    }
}

/// How it reads that a node no longer takes part.
pub open spec fn fenced_words(node: NodeId, reason: Seq<char>) -> Seq<char> {
    "node "@ + decimal(node as nat) + " fenced itself: "@ + reason
}

/// The first `n` lines of a trace on one line.
pub open spec fn traced(trace: Seq<Seq<char>>, n: int) -> Seq<char>
    decreases n,
{
    if n <= 0 {
        Seq::empty()
    } else if n == 1 {
        trace[0]
    } else {
        traced(trace, n - 1) + " | "@ + trace[n - 1]
    }
}

/// A violation with the trace that led to it.
pub open spec fn reported(text: Seq<char>, trace: Seq<Seq<char>>) -> Seq<char> {
    if trace.len() == 0 {
        text
    } else {
        text + "; bounded replay trace: "@ + traced(trace, trace.len() as int)
    }
}

} // verus!
