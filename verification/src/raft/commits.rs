//! What a cluster has committed stays, and all nodes commit the same.

use vstd::prelude::*;
use crate::raft::agreement::{
    clusters_begin_sound, restarts_keep_logs_sound, steps_keep_logs_sound,
};
use crate::raft::configuration::{quorum_grows, quorum_index_is_reached, quorums_intersect, reach};
use crate::raft::log::{LogView, last_index_counts, stored_log};
use crate::raft::matching::{divergence_is_first, grown, run_of};
use crate::raft::replies::{has_terms, steps_send_the_truth, taking_holds, true_message};
use crate::raft::safety::{
    Sent, World, leader_has_support, leader_is_the_only_one, restarts_keep_elections_sound,
    steps_keep_elections_sound, turn_of, turns_change_roles, turns_undo_nothing, votes_stay,
};
use crate::raft::sending::sound_message;
use crate::raft::state::{RaftView, divergence};
use crate::raft::steps::{
    acknowledges, believed, has_taken, log_step, node_step, steps_are_justified,
};
use crate::raft::types::{ActionView, InputView, LogEntryView, MessageView, Role};
use crate::types::NodeId;

verus! {

/// Entries have a term at an index, counted from one.
pub open spec fn shows(entries: Seq<LogEntryView>, index: u64, term: u64) -> bool {
    0 < index <= entries.len() && entries[index - 1].term == term
}

/// A cluster with its past: the whole log of each leader, from the first index on,
/// who had elected it, and how far it has committed.
pub struct Chronicle {
    pub world: World,
    pub books: Map<u64, Seq<LogEntryView>>,
    pub electors: Map<u64, Set<NodeId>>,
    pub told: Map<u64, u64>,
}

impl Chronicle {
    /// A log with what lies behind its snapshot.
    pub open spec fn full(self, log: LogView) -> Seq<LogEntryView> {
        if log.last_index() == 0 {
            Seq::empty()
        } else {
            self.books[log.last_term()].take(log.last_index() as int)
        }
    }

    /// An entry in the log of a leader was written by a leader, whose log was the
    /// same up to there.
    pub open spec fn line_sound(self, term: u64, i: int) -> bool {
        let book = self.books[term];
        let written = book[i].term;
        &&& written <= term
        &&& self.books.contains_key(written)
        &&& i < self.books[written].len()
        &&& self.books[written].take(i + 1) == book.take(i + 1)
    }

    pub open spec fn book_sound(self, term: u64) -> bool {
        let book = self.books[term];
        &&& 0 < book.len() < u64::MAX
        &&& book.last().term == term
        &&& forall|i: int| 0 <= i < book.len() ==> #[trigger] self.line_sound(term, i)
    }

    /// Up to `x`, a log is that of the leader that wrote the entry at `x`.
    pub open spec fn logged(self, log: LogView, x: u64, y: u64) -> bool {
        0 < y <= x && log.term(x) is Some && log.term(y) is Some ==> {
            let book = self.books[log.term(x)->0];
            &&& self.books.contains_key(log.term(x)->0)
            &&& x <= book.len()
            &&& book[y - 1].term == log.term(y)->0
            &&& log.entry(y) matches Some(entry) ==> book[y - 1] == entry
        }
    }

    pub open spec fn log_sound(self, log: LogView) -> bool {
        &&& log.contiguous()
        &&& log.base_index == 0 ==> log.base_term == 0
        &&& forall|x: u64, y: u64| #[trigger] self.logged(log, x, y)
    }

    /// A node has acknowledged the log of the leader of a term up to an index.
    pub open spec fn acked(self, node: NodeId, term: u64, index: u64) -> bool {
        exists|sent: Sent| #[trigger]
            self.world.sent.contains(sent) && sent.from == node && acknowledges(
                sent.message,
                term,
                index,
            )
    }

    /// A node has acknowledged the log of the leader of a term up to an index, or has
    /// written it.
    pub open spec fn holds(self, node: NodeId, term: u64, index: u64) -> bool {
        ||| self.acked(node, term, index)
        ||| self.world.leaders.contains_key(term) && self.world.leaders[term] == node
            && self.books.contains_key(term) && index <= self.books[term].len()
    }

    pub open spec fn holders(self, index: u64, term: u64) -> Set<NodeId> {
        Set::new(
            |node: NodeId| exists|upto: u64| index <= upto && #[trigger] self.holds(node, term, upto),
        )
    }

    /// A quorum holds an entry that the leader of a term has written in its term.
    pub open spec fn chosen(self, index: u64, term: u64) -> bool {
        &&& self.books.contains_key(term)
        &&& shows(self.books[term], index, term)
        &&& self.world.configuration.quorum(self.holders(index, term))
    }

    /// What a list of entries holds up to an index is chosen, by `term` at the latest.
    pub open spec fn settled(self, entries: Seq<LogEntryView>, term: u64, index: u64) -> bool {
        index > 0 ==> index <= entries.len() && exists|q: u64, t: u64| #[trigger]
            self.chosen(q, t) && t <= term && index <= q && self.has_told(t, index) && entries.take(
                index as int,
            ) == self.books[t].take(index as int)
    }

    /// The leader of a term has committed an index.
    pub open spec fn has_told(self, term: u64, index: u64) -> bool {
        self.told.contains_key(term) && index <= self.told[term]
    }

    /// The leader of a term has not got an entry.
    pub open spec fn lacks(self, leader: u64, index: u64, term: u64) -> bool {
        self.books.contains_key(leader) && !shows(self.books[leader], index, term)
    }

    /// An entry is there, or a leader between has not got it.
    pub open spec fn kept(self, by: Seq<LogEntryView>, index: u64, term: u64, below: int) -> bool {
        ||| shows(by, index, term)
        ||| exists|leader: u64| term < leader && leader < below && #[trigger]
            self.lacks(leader, index, term)
    }

    /// What a node holds of the leaders of terms before `below` is there.
    pub open spec fn keeps(self, node: NodeId, by: Seq<LogEntryView>, below: int) -> bool {
        forall|term: u64, upto: u64, index: u64|
            #![trigger self.holds(node, term, upto), shows(self.books[term], index, term)]
            self.holds(node, term, upto) && term < below && index <= upto && shows(
                self.books[term],
                index,
                term,
            ) ==> self.kept(by, index, term, below)
    }

    /// A log is that of the leader of a term.
    pub open spec fn led(self, log: LogView, term: u64) -> bool {
        &&& self.books.contains_key(term)
        &&& log.last_term() == term
        &&& 0 < log.last_index() <= self.books[term].len()
    }

    /// What a message says was true when it was sent, and still is.
    pub open spec fn sent_sound(self, sent: Sent) -> bool {
        let from = self.world.nodes[sent.from];
        &&& self.world.nodes.contains_key(sent.from)
        &&& match sent.message {
            MessageView::AppendEntries { term, leader_commit, .. } => self.led(sent.log, term)
                && self.settled(self.books[term], term, leader_commit),
            MessageView::InstallSnapshot { term, metadata, .. } => self.led(sent.log, term)
                && self.settled(self.books[term], term, metadata.last_included_index),
            MessageView::RequestVote { term, candidate_id, last_log_index, last_log_term } => {
                &&& candidate_id == sent.from
                &&& term <= from.hard_state.current_term
                &&& from.role == Role::Candidate && from.hard_state.current_term == term
                    ==> from.log.last_index() == last_log_index && from.log.last_term()
                    == last_log_term
            },
            _ => true,
        }
    }

    pub open spec fn node_kept(self, id: NodeId) -> bool {
        let node = self.world.nodes[id];
        let term = node.hard_state.current_term;
        &&& node.log.last_term() <= term
        &&& self.keeps(id, self.full(node.log), term + 1)
        &&& self.settled(self.full(node.log), term, node.hard_state.commit_index)
        &&& node.role == Role::Leader ==> {
            &&& self.led(node.log, term)
            &&& self.books[term].len() == node.log.last_index()
            &&& self.told.contains_key(term)
            &&& self.told[term] == node.hard_state.commit_index
            &&& forall|peer: NodeId| #[trigger]
                node.progress.contains_key(peer) ==> node.progress[peer].match_index == 0
                    || self.holds(peer, term, node.progress[peer].match_index)
        }
        &&& node.role == Role::Candidate && !self.books.contains_key(term)
            ==> forall|voter: NodeId| #[trigger]
            self.world.vote_of(voter, term) == Some(id) ==> self.keeps(
                voter,
                self.full(node.log),
                term as int,
            )
    }

    /// The leader of a term was elected by a quorum, and has what its electors held.
    pub open spec fn elected(self, term: u64) -> bool {
        &&& self.electors.contains_key(term)
        &&& self.world.configuration.quorum(self.electors[term])
        &&& forall|node: NodeId| #[trigger]
            self.electors[term].contains(node) ==> self.world.nodes.contains_key(node) && term
                <= self.world.nodes[node].hard_state.current_term && self.keeps(
                node,
                self.books[term],
                term as int,
            )
    }

    /// A vote was given by a node, to a node that has been in the term.
    pub open spec fn vote_sound(self, voter: NodeId, term: u64) -> bool {
        self.world.vote_of(voter, term) matches Some(candidate) ==> {
            &&& self.world.nodes.contains_key(voter)
            &&& self.world.nodes.contains_key(candidate)
            &&& term <= self.world.nodes[candidate].hard_state.current_term
        }
    }

    /// What a node holds lies in the log of the leader, and in the past of the node.
    pub open spec fn hold_sound(self, node: NodeId, term: u64, index: u64) -> bool {
        self.holds(node, term, index) ==> {
            &&& self.books.contains_key(term)
            &&& index <= self.books[term].len()
            &&& self.world.nodes.contains_key(node)
            &&& term <= self.world.nodes[node].hard_state.current_term
        }
    }

    pub open spec fn books_sound(self) -> bool {
        &&& forall|term: u64|
            #![trigger self.books.contains_key(term)]
            #![trigger self.world.leaders.contains_key(term)]
            self.books.contains_key(term) <==> self.world.leaders.contains_key(term)
        &&& forall|term: u64| #[trigger] self.books.contains_key(term) ==> self.book_sound(term)
        &&& forall|log: LogView| #[trigger] self.world.known(log) ==> self.log_sound(log)
        &&& forall|term: u64| #[trigger]
            self.told.contains_key(term) ==> self.books.contains_key(term)
    }

    /// All that makes what is committed stay committed.
    pub open spec fn sound(self) -> bool {
        &&& self.world.elections_sound()
        &&& self.world.logs_sound()
        &&& self.books_sound()
        &&& forall|sent: Sent| #[trigger] self.world.sent.contains(sent) ==> self.sent_sound(sent)
        &&& forall|node: NodeId, term: u64, index: u64| #[trigger]
            self.hold_sound(node, term, index)
        &&& forall|id: NodeId| #[trigger] self.world.nodes.contains_key(id) ==> self.node_kept(id)
        &&& forall|term: u64| #[trigger] self.books.contains_key(term) ==> self.elected(term)
        &&& forall|voter: NodeId, term: u64| #[trigger] self.vote_sound(voter, term)
    }
}

/// Every later leader has what was chosen.
pub proof fn leaders_have_what_was_chosen(
    chronicle: Chronicle,
    index: u64,
    term: u64,
    leader: u64,
)
    requires
        chronicle.sound(),
        chronicle.chosen(index, term),
        chronicle.books.contains_key(leader),
        term < leader,
    ensures
        shows(chronicle.books[leader], index, term),
    decreases leader,
{
    let configuration = chronicle.world.configuration;
    let holders = chronicle.holders(index, term);
    assert(chronicle.elected(leader));
    quorums_intersect(configuration, holders, chronicle.electors[leader]);
    let node = choose|node: NodeId|
        #![trigger configuration.incoming.contains(node)]
        configuration.incoming.contains(node) && holders.contains(node)
            && chronicle.electors[leader].contains(node);
    let upto = choose|upto: u64| index <= upto && #[trigger] chronicle.holds(node, term, upto);
    assert(chronicle.keeps(node, chronicle.books[leader], leader as int));
    assert(chronicle.kept(chronicle.books[leader], index, term, leader as int));
    if !shows(chronicle.books[leader], index, term) {
        let between = choose|between: u64|
            term < between && between < leader as int && #[trigger] chronicle.lacks(
                between,
                index,
                term,
            );
        leaders_have_what_was_chosen(chronicle, index, term, between);
    }
}

/// The log of a later leader is that of the leader that wrote what was chosen, up to
/// there.
proof fn chosen_is_shared(chronicle: Chronicle, index: u64, term: u64, leader: u64)
    requires
        chronicle.sound(),
        chronicle.chosen(index, term),
        chronicle.books.contains_key(leader),
        term <= leader,
    ensures
        index <= chronicle.books[leader].len(),
        chronicle.books[leader].take(index as int) == chronicle.books[term].take(index as int),
{
    if term < leader {
        leaders_have_what_was_chosen(chronicle, index, term, leader);
        assert(chronicle.book_sound(leader));
        assert(chronicle.line_sound(leader, index - 1));
    }
}

/// What lies in a log up to an index is what the leader that wrote the entry there
/// had.
proof fn full_is_the_book(chronicle: Chronicle, log: LogView, x: u64)
    requires
        chronicle.books_sound(),
        chronicle.log_sound(log),
        0 < x,
        log.term(x) is Some,
    ensures
        x <= log.last_index(),
        log.last_index() <= chronicle.full(log).len(),
        chronicle.full(log).len() == log.last_index(),
        chronicle.books.contains_key(log.term(x)->0),
        x <= chronicle.books[log.term(x)->0].len(),
        chronicle.full(log).take(x as int) == chronicle.books[log.term(x)->0].take(x as int),
        shows(chronicle.full(log), x, log.term(x)->0),
        log.entry(x) matches Some(entry) ==> chronicle.full(log)[x - 1] == entry,
{
    last_index_counts(log);
    let last = log.last_index();
    assert(log.term(last) == Some(log.last_term()));
    assert(chronicle.logged(log, last, last));
    assert(chronicle.logged(log, last, x));
    assert(chronicle.logged(log, x, x));
    let book = chronicle.books[log.last_term()];
    assert(chronicle.book_sound(log.last_term()));
    assert(chronicle.line_sound(log.last_term(), x - 1));
    assert(chronicle.full(log).take(x as int) =~= book.take(x as int));
}

/// All nodes of a cluster commit the same: where two of them have committed an
/// index and both logs hold its entry, the entries are the same.
pub proof fn committed_entries_agree(
    chronicle: Chronicle,
    first: NodeId,
    second: NodeId,
    index: u64,
)
    requires
        chronicle.sound(),
        chronicle.world.nodes.contains_key(first),
        chronicle.world.nodes.contains_key(second),
        index <= chronicle.world.nodes[first].hard_state.commit_index,
        index <= chronicle.world.nodes[second].hard_state.commit_index,
        chronicle.world.nodes[first].log.entry(index) is Some,
        chronicle.world.nodes[second].log.entry(index) is Some,
    ensures
        chronicle.world.nodes[first].log.entry(index)
            == chronicle.world.nodes[second].log.entry(index),
{
    let a = chronicle.world.nodes[first];
    let b = chronicle.world.nodes[second];
    assert(chronicle.node_kept(first));
    assert(chronicle.node_kept(second));
    assert(chronicle.world.known(a.log));
    assert(chronicle.world.known(b.log));
    full_is_the_book(chronicle, a.log, index);
    full_is_the_book(chronicle, b.log, index);
    committed_prefixes_agree(
        chronicle,
        chronicle.full(a.log),
        a.hard_state.current_term,
        a.hard_state.commit_index,
        chronicle.full(b.log),
        b.hard_state.current_term,
        b.hard_state.commit_index,
        index,
    );
    assert(chronicle.full(a.log).take(index as int)[index - 1] == chronicle.full(b.log).take(
        index as int,
    )[index - 1]);
}

/// What is settled is settled once.
proof fn committed_prefixes_agree(
    chronicle: Chronicle,
    a: Seq<LogEntryView>,
    a_term: u64,
    a_index: u64,
    b: Seq<LogEntryView>,
    b_term: u64,
    b_index: u64,
    index: u64,
)
    requires
        chronicle.sound(),
        chronicle.settled(a, a_term, a_index),
        chronicle.settled(b, b_term, b_index),
        0 < index <= a_index,
        index <= b_index,
    ensures
        index <= a.len(),
        index <= b.len(),
        a.take(index as int) == b.take(index as int),
{
    let (p, s) = choose|p: u64, s: u64| #[trigger]
        chronicle.chosen(p, s) && s <= a_term && a_index <= p && a.take(a_index as int)
            == chronicle.books[s].take(a_index as int);
    let (q, t) = choose|q: u64, t: u64| #[trigger]
        chronicle.chosen(q, t) && t <= b_term && b_index <= q && b.take(b_index as int)
            == chronicle.books[t].take(b_index as int);
    if s <= t {
        chosen_is_shared(chronicle, p, s, t);
    } else {
        chosen_is_shared(chronicle, q, t, s);
    }
    let x = chronicle.books[s];
    let y = chronicle.books[t];
    assert(x.take(index as int) =~= y.take(index as int)) by {
        if s <= t {
            assert(y.take(p as int).take(index as int) =~= y.take(index as int));
            assert(x.take(p as int).take(index as int) =~= x.take(index as int));
        } else {
            assert(y.take(q as int).take(index as int) =~= y.take(index as int));
            assert(x.take(q as int).take(index as int) =~= x.take(index as int));
        }
    }
    assert(a.take(a_index as int).take(index as int) =~= a.take(index as int));
    assert(b.take(b_index as int).take(index as int) =~= b.take(index as int));
    assert(x.take(a_index as int).take(index as int) =~= x.take(index as int));
    assert(y.take(b_index as int).take(index as int) =~= y.take(index as int));
}

impl Chronicle {
    /// The cluster after a node has taken an input. A leader that has written an entry
    /// has it in its log from then on; a new one starts from the log that it had.
    pub open spec fn stepped(self, id: NodeId, input: InputView) -> Chronicle {
        let before = self.world.nodes[id];
        let after = turn_of(before, input).node;
        let term = after.hard_state.current_term;
        let world = self.world.stepped(id, input);
        if after.role != Role::Leader {
            Chronicle { world, ..self }
        } else if self.books.contains_key(term) {
            Chronicle {
                world,
                books: if after.log.last_index() > self.books[term].len() {
                    self.books.insert(term, self.books[term].push(after.log.entries.last()))
                } else {
                    self.books
                },
                told: self.told.insert(term, after.hard_state.commit_index),
                ..self
            }
        } else {
            Chronicle {
                world,
                told: self.told.insert(term, after.hard_state.commit_index),
                books: self.books.insert(
                    term,
                    self.full(before.log).push(after.log.entries.last()),
                ),
                electors: self.electors.insert(term, world.supporters(term, id)),
            }
        }
    }

    /// The cluster after a node has started again.
    pub open spec fn restarted(self, id: NodeId) -> Chronicle {
        Chronicle { world: self.world.restarted(id), ..self }
    }
}

/// One log of a leader goes on from another.
spec fn goes_on(a: Seq<LogEntryView>, b: Seq<LogEntryView>, term: u64) -> bool {
    &&& a.len() <= b.len()
    &&& b.take(a.len() as int) == a
    &&& forall|i: int| a.len() <= i < b.len() ==> (#[trigger] b[i]).term == term
}

/// The past stays: logs of leaders only go on, messages and leaders stay.
spec fn follows(a: Chronicle, b: Chronicle) -> bool {
    &&& forall|term: u64| #[trigger]
        a.books.contains_key(term) ==> b.books.contains_key(term) && goes_on(
            a.books[term],
            b.books[term],
            term,
        )
    &&& forall|term: u64, index: u64| #[trigger]
        a.has_told(term, index) ==> b.has_told(term, index)
    &&& a.world.sent.subset_of(b.world.sent)
    &&& a.world.configuration == b.world.configuration
    &&& forall|term: u64| #[trigger]
        a.world.leaders.contains_key(term) ==> b.world.leaders.contains_key(term)
            && b.world.leaders[term] == a.world.leaders[term]
}

proof fn shown_stays(a: Chronicle, b: Chronicle, leader: u64, index: u64, term: u64)
    requires
        follows(a, b),
        a.books.contains_key(leader),
    ensures
        shows(a.books[leader], index, term) ==> shows(b.books[leader], index, term),
        index <= a.books[leader].len() ==> shows(a.books[leader], index, term) == shows(
            b.books[leader],
            index,
            term,
        ),
        term < leader && a.lacks(leader, index, term) ==> b.lacks(leader, index, term),
{
    assert(goes_on(a.books[leader], b.books[leader], leader));
    let x = a.books[leader];
    let y = b.books[leader];
    if 0 < index <= x.len() {
        assert(y.take(x.len() as int)[index - 1] == y[index - 1]);
    }
}

proof fn kept_stays(
    a: Chronicle,
    b: Chronicle,
    by: Seq<LogEntryView>,
    index: u64,
    term: u64,
    below: int,
)
    requires
        follows(a, b),
        a.kept(by, index, term, below),
    ensures
        b.kept(by, index, term, below),
{
    if !shows(by, index, term) {
        let leader = choose|leader: u64|
            term < leader && leader < below && #[trigger] a.lacks(leader, index, term);
        shown_stays(a, b, leader, index, term);
        assert(b.lacks(leader, index, term));
    }
}

proof fn full_stays(a: Chronicle, b: Chronicle, log: LogView)
    requires
        follows(a, b),
        a.log_sound(log),
    ensures
        b.full(log) == a.full(log),
        b.log_sound(log),
{
    last_index_counts(log);
    let last = log.last_index();
    assert(log.term(last) == Some(log.last_term()));
    assert(a.logged(log, last, last));
    if last > 0 {
        let x = a.books[log.last_term()];
        let y = b.books[log.last_term()];
        assert(goes_on(x, y, log.last_term()));
        assert(y.take(x.len() as int).take(last as int) =~= y.take(last as int));
    }
    assert forall|x: u64, y: u64| #[trigger] b.logged(log, x, y) by {
        assert(a.logged(log, x, y));
        if 0 < y <= x && log.term(x) is Some && log.term(y) is Some {
            let old = a.books[log.term(x)->0];
            let new = b.books[log.term(x)->0];
            assert(goes_on(old, new, log.term(x)->0));
            assert(new.take(old.len() as int)[y - 1] == new[y - 1]);
        }
    }
}

proof fn holding_stays(a: Chronicle, b: Chronicle, node: NodeId, term: u64, index: u64)
    requires
        follows(a, b),
        a.holds(node, term, index),
    ensures
        b.holds(node, term, index),
{
    if a.acked(node, term, index) {
        let sent = choose|sent: Sent| #[trigger]
            a.world.sent.contains(sent) && sent.from == node && acknowledges(
                sent.message,
                term,
                index,
            );
        assert(b.world.sent.contains(sent));
        assert(b.acked(node, term, index));
    } else {
        assert(goes_on(a.books[term], b.books[term], term));
    }
}

proof fn chosen_stays(a: Chronicle, b: Chronicle, index: u64, term: u64)
    requires
        follows(a, b),
        a.world.configuration.valid(),
        a.chosen(index, term),
    ensures
        b.chosen(index, term),
{
    shown_stays(a, b, term, index, term);
    let few = a.holders(index, term);
    let many = b.holders(index, term);
    assert forall|node: NodeId| few.contains(node) implies many.contains(node) by {
        let upto = choose|upto: u64| index <= upto && #[trigger] a.holds(node, term, upto);
        holding_stays(a, b, node, term, upto);
    }
    quorum_grows(a.world.configuration, few, many);
}

proof fn settled_stays(
    a: Chronicle,
    b: Chronicle,
    entries: Seq<LogEntryView>,
    term: u64,
    index: u64,
)
    requires
        follows(a, b),
        a.world.configuration.valid(),
        a.settled(entries, term, index),
    ensures
        b.settled(entries, term, index),
{
    if index > 0 {
        let (q, t) = choose|q: u64, t: u64| #[trigger]
            a.chosen(q, t) && t <= term && index <= q && a.has_told(t, index) && entries.take(
                index as int,
            ) == a.books[t].take(index as int);
        chosen_stays(a, b, q, t);
        let x = a.books[t];
        let y = b.books[t];
        assert(goes_on(x, y, t));
        assert(y.take(x.len() as int).take(index as int) =~= y.take(index as int));
        assert(b.chosen(q, t));
    }
}

/// What is settled of a log is settled of one that goes on from it.
proof fn settled_in_more(
    c: Chronicle,
    few: Seq<LogEntryView>,
    many: Seq<LogEntryView>,
    low: u64,
    high: u64,
    index: u64,
)
    requires
        c.settled(few, low, index),
        low <= high,
        index <= many.len(),
        few.take(index as int) == many.take(index as int),
    ensures
        c.settled(many, high, index),
{
    if index > 0 {
        let (q, t) = choose|q: u64, t: u64| #[trigger]
            c.chosen(q, t) && t <= low && index <= q && c.has_told(t, index) && few.take(
                index as int,
            ) == c.books[t].take(index as int);
        assert(c.chosen(q, t));
    }
}

proof fn turns_are_justified(node: RaftView, input: InputView)
    requires
        node.well_formed(),
        node.has_room(input),
    ensures
        node_step(node, input, turn_of(node, input).node),
{
    reveal(turn_of);
    steps_are_justified(node, input);
}

proof fn turns_send_the_truth(node: RaftView, input: InputView, i: int)
    requires
        node.well_formed(),
        node.has_room(input),
        0 <= i < turn_of(node, input).actions.len(),
    ensures
        turn_of(node, input).actions[i] matches ActionView::Send { message, .. } ==> true_message(
            input,
            turn_of(node, input).node,
            message,
        ),
{
    reveal(turn_of);
    steps_send_the_truth(node, input, i);
}

/// Facts about a step that all of what follows rests on.
proof fn step_facts(c: Chronicle, id: NodeId, input: InputView)
    requires
        c.sound(),
        c.world.can_step(id, input),
    ensures
        ({
            let before = c.world.nodes[id];
            let after = turn_of(before, input).node;
            let term = after.hard_state.current_term;
            let n = c.stepped(id, input);
            &&& c.world.node_sound(id)
            &&& c.node_kept(id)
            &&& c.log_sound(before.log)
            &&& after.well_formed()
            &&& after.id == id
            &&& term >= before.hard_state.current_term
            &&& after.hard_state.commit_index >= before.hard_state.commit_index
            &&& after.configuration == c.world.configuration
            &&& node_step(before, input, after)
            &&& n.world == c.world.stepped(id, input)
            &&& n.world.elections_sound()
            &&& n.world.logs_sound()
            &&& follows(c, n)
            &&& after.role == Role::Leader ==> (before.role == Role::Leader
                <==> c.books.contains_key(term))
            &&& after.role == Role::Leader && before.role == Role::Leader
                ==> before.hard_state.current_term == term
            &&& forall|other: u64| #[trigger]
                n.books.contains_key(other) ==> c.books.contains_key(other) || (other == term
                    && after.role == Role::Leader)
            &&& forall|other: u64|
                c.books.contains_key(other) && !(other == term && after.role == Role::Leader)
                    ==> #[trigger] n.books[other] == c.books[other]
            &&& after.role == Role::Leader ==> {
                &&& n.books.contains_key(term)
                &&& n.books[term].len() == after.log.last_index()
                &&& n.books[term].last().term == term
                &&& 0 < n.books[term].len() < u64::MAX
                &&& n.books[term] == c.full(before.log) || n.books[term] == c.full(
                    before.log,
                ).push(after.log.entries.last()) && after.log == before.log.appended(
                    seq![after.log.entries.last()],
                )
            }
        }),
{
    let before = c.world.nodes[id];
    let after = turn_of(before, input).node;
    let term = after.hard_state.current_term;
    let n = c.stepped(id, input);
    assert(c.world.node_sound(id));
    assert(c.node_kept(id));
    assert(c.world.known(before.log));
    steps_keep_elections_sound(c.world, id, input);
    steps_keep_logs_sound(c.world, id, input);
    turns_undo_nothing(before, input);
    turns_are_justified(before, input);
    turns_change_roles(before, input);
    last_index_counts(before.log);
    last_index_counts(after.log);
    let last = before.log.last_index();
    assert(before.log.term(last) == Some(before.log.last_term()));
    assert(c.logged(before.log, last, last));
    if last > 0 {
        assert(c.full(before.log).len() == last);
    }
    if after.role == Role::Leader {
        leader_is_the_only_one(c.world, id, input);
        assert(c.books.contains_key(term) <==> c.world.leaders.contains_key(term));
        if before.role == Role::Leader {
            assert(c.led(before.log, term));
            assert(c.full(before.log) =~= c.books[term]);
            assert(c.book_sound(term));
            if after.log.last_index() > last {
                assert(after.log == before.log.appended(seq![after.log.entries.last()]));
            }
        } else {
            assert(after.log == before.log.appended(seq![after.log.entries.last()]));
        }
    }
    assert forall|other: u64, index: u64| #[trigger] c.has_told(other, index) implies n.has_told(
        other,
        index,
    ) by {
        if after.role == Role::Leader && other == term && before.role != Role::Leader {
            assert(c.books.contains_key(other));
        }
    }
    assert forall|other: u64| #[trigger] c.books.contains_key(other) implies n.books.contains_key(
        other,
    ) && goes_on(c.books[other], n.books[other], other) by {
        let x = c.books[other];
        if other == term && after.role == Role::Leader {
            let y = n.books[other];
            assert(y.take(x.len() as int) =~= x);
        } else {
            assert(x.take(x.len() as int) =~= x);
        }
    }
}

/// The sender of a message that a node takes, with its log.
proof fn sender_facts(c: Chronicle, id: NodeId, from: NodeId, message: MessageView) -> (sent: Sent)
    requires
        c.sound(),
        c.world.can_step(id, InputView::Message { from, message }),
    ensures
        c.world.sent.contains(sent),
        sent.from == from,
        sent.message == message,
        c.sent_sound(sent),
        c.log_sound(sent.log),
        sound_message(sent.log, message),
{
    let log = choose|log: LogView| #[trigger]
        c.world.sent.contains(Sent { from, to: id, message, log });
    let sent = Sent { from, to: id, message, log };
    assert(c.world.sent.contains(sent));
    assert(c.world.message_traced(sent));
    assert(c.world.known(log));
    sent
}

/// What a log of a leader holds is in the book of the leader.
proof fn led_is_in_book(c: Chronicle, log: LogView, term: u64, x: u64)
    requires
        c.books_sound(),
        c.log_sound(log),
        c.led(log, term),
        0 < x,
        log.term(x) is Some,
    ensures
        x <= log.last_index(),
        x <= c.books[term].len(),
        shows(c.books[term], x, log.term(x)->0),
        log.entry(x) matches Some(entry) ==> c.books[term][x - 1] == entry,
        c.books.contains_key(log.term(x)->0),
        x <= c.books[log.term(x)->0].len(),
        c.books[log.term(x)->0].take(x as int) == c.books[term].take(x as int),
{
    last_index_counts(log);
    let last = log.last_index();
    assert(log.term(last) == Some(log.last_term()));
    assert(c.logged(log, last, x));
    assert(c.book_sound(term));
    assert(c.line_sound(term, x - 1));
}

/// A node that has taken entries has the log of the leader up to their end.
proof fn taken_is_in_book(
    c: Chronicle,
    n: Chronicle,
    sender: LogView,
    after: LogView,
    term: u64,
    prev_log_index: u64,
    prev_log_term: u64,
    entries: Seq<LogEntryView>,
)
    requires
        c.books_sound(),
        n.books_sound(),
        follows(c, n),
        c.log_sound(sender),
        n.log_sound(after),
        c.led(sender, term),
        run_of(sender, prev_log_index, prev_log_term, entries),
        has_terms(after, prev_log_index, prev_log_term, entries),
        prev_log_index + entries.len() < u64::MAX,
    ensures
        ({
            let end = prev_log_index + entries.len();
            &&& end <= n.full(after).len()
            &&& end <= n.books[term].len()
            &&& n.full(after).take(end) == n.books[term].take(end)
        }),
{
    let end = (prev_log_index + entries.len()) as u64;
    full_stays(c, n, sender);
    assert(goes_on(c.books[term], n.books[term], term));
    if end > 0 {
        if entries.len() > 0 {
            let i = entries.len() - 1;
            assert(sender.entry((prev_log_index + 1 + i) as u64) == Some(entries[i]));
            assert(after.term((prev_log_index + 1 + i) as u64) == Some(entries[i].term));
        }
        assert(sender.term(end) is Some && after.term(end) == sender.term(end));
        led_is_in_book(n, sender, term, end);
        full_is_the_book(n, after, end);
    } else {
        assert(n.full(after).take(0) =~= n.books[term].take(0));
    }
}

/// Nothing is held in a step but by the node that takes it, of the leader of its
/// term.
proof fn new_holds(
    c: Chronicle,
    id: NodeId,
    input: InputView,
    node: NodeId,
    term: u64,
    index: u64,
)
    requires
        c.sound(),
        c.world.can_step(id, input),
        c.stepped(id, input).holds(node, term, index),
    ensures
        c.holds(node, term, index) || (node == id && term == turn_of(
            c.world.nodes[id],
            input,
        ).node.hard_state.current_term),
{
    let before = c.world.nodes[id];
    let turn = turn_of(before, input);
    let n = c.stepped(id, input);
    step_facts(c, id, input);
    if n.acked(node, term, index) {
        let sent = choose|sent: Sent| #[trigger]
            n.world.sent.contains(sent) && sent.from == node && acknowledges(
                sent.message,
                term,
                index,
            );
        if c.world.sent.contains(sent) {
            assert(c.acked(node, term, index));
        } else {
            let action = ActionView::Send { to: sent.to, message: sent.message };
            let i = choose|i: int| 0 <= i < turn.actions.len() && turn.actions[i] == action;
            turns_send_the_truth(before, input, i);
        }
    } else if !(term == turn.node.hard_state.current_term && turn.node.role == Role::Leader) {
        assert(c.books.contains_key(term));
        assert(n.books[term] == c.books[term]);
    }
}

/// What a node held, it holds as before, unless it has just taken an input.
proof fn keeping_stays(
    c: Chronicle,
    id: NodeId,
    input: InputView,
    node: NodeId,
    by: Seq<LogEntryView>,
    below: int,
)
    requires
        c.sound(),
        c.world.can_step(id, input),
        c.keeps(node, by, below),
        node != id || below <= turn_of(c.world.nodes[id], input).node.hard_state.current_term,
    ensures
        c.stepped(id, input).keeps(node, by, below),
{
    let n = c.stepped(id, input);
    step_facts(c, id, input);
    assert forall|term: u64, upto: u64, index: u64|
        #![trigger n.holds(node, term, upto), shows(n.books[term], index, term)]
        n.holds(node, term, upto) && term < below && index <= upto && shows(
            n.books[term],
            index,
            term,
        ) implies n.kept(by, index, term, below) by {
        new_holds(c, id, input, node, term, upto);
        assert(c.hold_sound(node, term, upto));
        shown_stays(c, n, term, index, term);
        assert(shows(c.books[term], index, term));
        kept_stays(c, n, by, index, term, below);
    }
}

/// The logs of leaders are sound after a step.
proof fn books_stay_sound(c: Chronicle, id: NodeId, input: InputView)
    requires
        c.sound(),
        c.world.can_step(id, input),
    ensures
        forall|term: u64| #[trigger]
            c.stepped(id, input).books.contains_key(term) ==> c.stepped(id, input).book_sound(
                term,
            ),
        forall|term: u64|
            #![trigger c.stepped(id, input).books.contains_key(term)]
            #![trigger c.stepped(id, input).world.leaders.contains_key(term)]
            c.stepped(id, input).books.contains_key(term) <==> c.stepped(
                id,
                input,
            ).world.leaders.contains_key(term),
{
    let before = c.world.nodes[id];
    let after = turn_of(before, input).node;
    let now = after.hard_state.current_term;
    let n = c.stepped(id, input);
    step_facts(c, id, input);
    assert forall|term: u64| #[trigger] n.books.contains_key(term) implies n.book_sound(term) by {
        let book = n.books[term];
        if term == now && after.role == Role::Leader {
            let old = c.full(before.log);
            assert forall|i: int| 0 <= i < book.len() implies #[trigger] n.line_sound(term, i) by {
                if i < old.len() {
                    let last = before.log.last_term();
                    last_index_counts(before.log);
                    assert(before.log.term(before.log.last_index()) == Some(last));
                    assert(c.logged(before.log, before.log.last_index(), before.log.last_index()));
                    assert(c.book_sound(last));
                    assert(c.line_sound(last, i));
                    assert(book[i] == c.books[last][i]);
                    let written = book[i].term;
                    let x = c.books[written];
                    let y = n.books[written];
                    assert(goes_on(x, y, written));
                    assert(y.take(x.len() as int).take(i + 1) =~= y.take(i + 1));
                    assert(book.take(i + 1) =~= c.books[last].take(i + 1));
                } else {
                    assert(book[i].term == term);
                }
            }
        } else {
            assert(c.book_sound(term));
            assert(book == c.books[term]);
            assert forall|i: int| 0 <= i < book.len() implies #[trigger] n.line_sound(term, i) by {
                assert(c.line_sound(term, i));
                let written = book[i].term;
                let x = c.books[written];
                let y = n.books[written];
                assert(goes_on(x, y, written));
                assert(y.take(x.len() as int).take(i + 1) =~= y.take(i + 1));
            }
        }
    }
    assert forall|term: u64|
        #![trigger n.books.contains_key(term)]
        #![trigger n.world.leaders.contains_key(term)]
        n.books.contains_key(term) <==> n.world.leaders.contains_key(term) by {
        assert(c.books.contains_key(term) <==> c.world.leaders.contains_key(term));
    }
}

/// The log of the node that has stepped is sound.
proof fn log_stays_sound(c: Chronicle, id: NodeId, input: InputView)
    requires
        c.sound(),
        c.world.can_step(id, input),
    ensures
        c.stepped(id, input).log_sound(turn_of(c.world.nodes[id], input).node.log),
{
    let before = c.world.nodes[id];
    let after = turn_of(before, input).node;
    let n = c.stepped(id, input);
    let log = before.log;
    let now = after.log;
    step_facts(c, id, input);
    books_stay_sound(c, id, input);
    full_stays(c, n, log);
    last_index_counts(log);
    last_index_counts(now);
    if grown(log, after) {
        if now != log {
            let entry = now.entries.last();
            let term = after.hard_state.current_term;
            let book = n.books[term];
            let old = c.full(log);
            assert(book == old.push(entry)) by {
                if before.role == Role::Leader {
                    assert(c.led(log, term));
                    assert(old =~= c.books[term]);
                }
            }
            assert forall|x: u64, y: u64| #[trigger] n.logged(now, x, y) by {
                assert(n.logged(log, x, y));
                if 0 < y <= x && now.term(x) is Some && now.term(y) is Some {
                    if x == now.last_index() {
                        if y < x {
                            assert(now.term(y) == log.term(y));
                            assert(now.entry(y) == log.entry(y));
                            full_is_the_book(c, log, y);
                        }
                    } else {
                        assert(now.term(x) == log.term(x));
                        assert(now.term(y) == log.term(y));
                        assert(now.entry(y) == log.entry(y));
                    }
                }
            }
        }
    } else {
        match input {
            InputView::SnapshotBuilt(_) => {
                assert forall|x: u64, y: u64| #[trigger] n.logged(now, x, y) by {
                    assert(n.logged(log, x, y));
                    compacted_has_the_same(log, now, x);
                    compacted_has_the_same(log, now, y);
                }
            },
            InputView::Message { from, message } => {
                let sent = sender_facts(c, id, from, message);
                full_stays(c, n, sent.log);
                match message {
                    MessageView::InstallSnapshot { metadata, .. } => {
                        let index = metadata.last_included_index;
                        if log.term(index) == Some(metadata.last_included_term) {
                            assert forall|x: u64, y: u64| #[trigger] n.logged(now, x, y) by {
                                assert(n.logged(log, x, y));
                                compacted_has_the_same(log, now, x);
                                compacted_has_the_same(log, now, y);
                            }
                        } else {
                            assert forall|x: u64, y: u64| #[trigger] n.logged(now, x, y) by {
                                assert(n.logged(sent.log, index, index));
                            }
                        }
                    },
                    MessageView::AppendEntries { prev_log_index, prev_log_term, entries, .. } => {
                        taken_is_sound(n, log, sent.log, now, prev_log_index, prev_log_term, entries);
                    },
                    _ => {},
                }
            },
            _ => {},
        }
    }
}

/// A log behind a new base has what it had, as far as it reaches.
proof fn compacted_has_the_same(log: LogView, now: LogView, x: u64)
    requires
        log.contiguous(),
        log.base_index <= now.base_index,
        log.term(now.base_index) == Some(now.base_term),
        now == log.compacted(now.base_index, now.base_term, true),
    ensures
        now.term(x) is Some ==> now.term(x) == log.term(x),
        now.entry(x) is Some ==> now.entry(x) == log.entry(x),
        now.last_index() == log.last_index(),
        now.last_term() == log.last_term(),
{
    last_index_counts(log);
}

/// A log that has taken entries of a leader is sound.
proof fn taken_is_sound(
    n: Chronicle,
    log: LogView,
    sender: LogView,
    now: LogView,
    prev_log_index: u64,
    prev_log_term: u64,
    entries: Seq<LogEntryView>,
)
    requires
        forall|term: u64| #[trigger] n.books.contains_key(term) ==> n.book_sound(term),
        n.log_sound(log),
        n.log_sound(sender),
        now.contiguous(),
        run_of(sender, prev_log_index, prev_log_term, entries),
        has_taken(log, prev_log_index, prev_log_term, entries, now),
        prev_log_index + entries.len() < u64::MAX,
    ensures
        n.log_sound(now),
{
    let position = divergence(log, entries, 0);
    divergence_is_first(log, entries, 0);
    last_index_counts(log);
    if position < entries.len() {
        let from = entries[position].index;
        let before = (from - 1) as u64;
        if position > 0 {
            assert(log.term(entries[position - 1].index) == Some(entries[position - 1].term));
            assert(sender.entry((prev_log_index + 1 + (position - 1)) as u64) == Some(
                entries[position - 1],
            ));
        }
        assert(log.term(before) is Some && log.term(before) == sender.term(before));
        assert(from - log.base_index - 1 <= log.entries.len());
        assert forall|x: u64| x < from implies #[trigger] now.term(x) == log.term(x) && now.entry(x)
            == log.entry(x) by {
            if log.base_index < x {
                assert(now.entries[x - log.base_index - 1] == log.entries[x - log.base_index - 1]);
            }
        }
        assert forall|x: u64| from <= x && now.term(x) is Some implies #[trigger] now.term(x)
            == sender.term(x) && now.entry(x) == sender.entry(x) by {
            let i = x - prev_log_index - 1;
            assert(now.entries[x - log.base_index - 1] == entries.skip(position)[i - position]);
            assert(sender.entry((prev_log_index + 1 + i) as u64) == Some(entries[i]));
        }
        assert forall|x: u64, y: u64| #[trigger] n.logged(now, x, y) by {
            if 0 < y <= x && now.term(x) is Some && now.term(y) is Some {
                if x < from {
                    assert(n.logged(log, x, y));
                } else {
                    assert(n.logged(sender, x, y));
                    if y < from {
                        assert(n.logged(sender, x, before));
                        assert(n.logged(log, before, y));
                        let book = n.books[now.term(x)->0];
                        let written = log.term(before)->0;
                        assert(now.term(x) == sender.term(x));
                        assert(n.books.contains_key(now.term(x)->0));
                        assert(n.book_sound(now.term(x)->0));
                        assert(n.line_sound(now.term(x)->0, before - 1));
                        assert(n.books[written].take(before as int)[y - 1] == n.books[written][y
                            - 1]);
                        assert(book.take(before as int)[y - 1] == book[y - 1]);
                    }
                }
            }
        }
    }
}

/// All logs that are known are sound after a step.
proof fn known_logs_stay_sound(c: Chronicle, id: NodeId, input: InputView)
    requires
        c.sound(),
        c.world.can_step(id, input),
    ensures
        c.stepped(id, input).books_sound(),
{
    let after = turn_of(c.world.nodes[id], input).node;
    let n = c.stepped(id, input);
    step_facts(c, id, input);
    books_stay_sound(c, id, input);
    log_stays_sound(c, id, input);
    assert forall|log: LogView| #[trigger] n.world.known(log) implies n.log_sound(log) by {
        if log != after.log {
            if exists|node: NodeId| #[trigger]
                n.world.nodes.contains_key(node) && n.world.nodes[node].log == log {
                let node = choose|node: NodeId| #[trigger]
                    n.world.nodes.contains_key(node) && n.world.nodes[node].log == log;
                assert(c.world.nodes.contains_key(node));
                assert(c.world.nodes[node].log == log);
            } else {
                let sent = choose|sent: Sent| #[trigger]
                    n.world.sent.contains(sent) && sent.log == log;
                assert(c.world.sent.contains(sent));
            }
            assert(c.world.known(log));
            full_stays(c, n, log);
        }
    }
    assert forall|term: u64| #[trigger] n.told.contains_key(term) implies n.books.contains_key(
        term,
    ) by {
        if c.told.contains_key(term) {
            assert(c.books.contains_key(term));
        }
    }
}

/// Up to what was committed, a step does not change the whole log of a node.
proof fn committed_part_stays(c: Chronicle, id: NodeId, input: InputView)
    requires
        c.sound(),
        c.world.can_step(id, input),
    ensures
        ({
            let before = c.world.nodes[id];
            let after = turn_of(before, input).node;
            let commit = before.hard_state.commit_index;
            let n = c.stepped(id, input);
            after.hard_state.commit_index == commit ==> commit <= n.full(after.log).len()
                && n.full(after.log).take(commit as int) == c.full(before.log).take(commit as int)
        }),
{
    let before = c.world.nodes[id];
    let after = turn_of(before, input).node;
    let commit = before.hard_state.commit_index;
    let n = c.stepped(id, input);
    let log = before.log;
    let now = after.log;
    step_facts(c, id, input);
    known_logs_stay_sound(c, id, input);
    log_stays_sound(c, id, input);
    full_stays(c, n, log);
    last_index_counts(log);
    last_index_counts(now);
    if after.hard_state.commit_index == commit {
        if commit == 0 {
            assert(n.full(now).take(0) =~= c.full(log).take(0));
        } else {
            same_at_commit(before, input, after);
            assert(log.term(commit) is Some);
            full_is_the_book(n, log, commit);
            full_is_the_book(n, now, commit);
        }
    }
}

/// What a node has at its commit index stays, where the index does.
proof fn same_at_commit(before: RaftView, input: InputView, after: RaftView)
    requires
        before.well_formed(),
        after.well_formed(),
        log_step(before, input, after),
        before.hard_state.commit_index == after.hard_state.commit_index,
    ensures
        after.log.term(before.hard_state.commit_index) == before.log.term(
            before.hard_state.commit_index,
        ),
        after.log.base_index <= before.hard_state.commit_index,
{
    let log = before.log;
    let now = after.log;
    let commit = before.hard_state.commit_index;
    last_index_counts(log);
    last_index_counts(now);
    if !grown(log, after) {
        match input {
            InputView::SnapshotBuilt(_) => {
                if commit > now.base_index {
                    assert(now.entries[commit - now.base_index - 1] == log.entries[commit
                        - log.base_index - 1]);
                }
            },
            InputView::Message { message, .. } => match message {
                MessageView::AppendEntries { entries, prev_log_index, .. } => {
                    let position = divergence(log, entries, 0);
                    divergence_is_first(log, entries, 0);
                    if position < entries.len() && commit > log.base_index {
                        if position > 0 {
                            assert(log.term(entries[position - 1].index) == Some(
                                entries[position - 1].term,
                            ));
                        }
                        assert(entries[position].index == prev_log_index + 1 + position);
                        assert(now.entries[commit - log.base_index - 1] == log.entries[commit
                            - log.base_index - 1]);
                    }
                },
                _ => {},
            },
            _ => {},
        }
    }
}

/// What the node that has stepped has committed is settled.
proof fn commit_stays_settled(c: Chronicle, id: NodeId, input: InputView)
    requires
        c.sound(),
        c.world.can_step(id, input),
    ensures
        ({
            let after = turn_of(c.world.nodes[id], input).node;
            let n = c.stepped(id, input);
            n.settled(
                n.full(after.log),
                after.hard_state.current_term,
                after.hard_state.commit_index,
            )
        }),
{
    let before = c.world.nodes[id];
    let after = turn_of(before, input).node;
    let term = after.hard_state.current_term;
    let commit = after.hard_state.commit_index;
    let n = c.stepped(id, input);
    let log = before.log;
    let now = after.log;
    step_facts(c, id, input);
    known_logs_stay_sound(c, id, input);
    log_stays_sound(c, id, input);
    full_stays(c, n, log);
    last_index_counts(now);
    if commit == before.hard_state.commit_index {
        committed_part_stays(c, id, input);
        settled_stays(c, n, c.full(log), before.hard_state.current_term, commit);
        settled_in_more(
            n,
            c.full(log),
            n.full(now),
            before.hard_state.current_term,
            term,
            commit,
        );
    } else if after.role == Role::Leader && commit == after.configuration.quorum_index(
        after.matched(),
    ) && now.term(commit) == Some(term) {
        leader_chooses(c, id, input);
    } else if commit > 0 {
        let from = input->from;
        let message = input->message;
        let sent = sender_facts(c, id, from, message);
        full_stays(c, n, sent.log);
        assert(goes_on(c.books[term], n.books[term], term)) by {
            assert(c.led(sent.log, term));
        }
        let book = c.books[term];
        let more = n.books[term];
        match message {
            MessageView::InstallSnapshot { metadata, .. } => {
                settled_stays(c, n, book, term, commit);
                led_is_in_book(n, sent.log, term, commit);
                full_is_the_book(n, now, commit);
                assert(more.take(book.len() as int).take(commit as int) =~= more.take(
                    commit as int,
                ));
                settled_in_more(n, book, n.full(now), term, term, commit);
            },
            MessageView::AppendEntries {
                prev_log_index,
                prev_log_term,
                entries,
                leader_commit,
                ..
            } => {
                taking_holds(log, prev_log_index, prev_log_term, entries);
                taken_is_in_book(
                    c,
                    n,
                    sent.log,
                    now,
                    term,
                    prev_log_index,
                    prev_log_term,
                    entries,
                );
                settled_stays(c, n, book, term, leader_commit);
                settled_below(n, book, term, leader_commit, commit);
                let end = prev_log_index + entries.len();
                assert(n.full(now).take(end).take(commit as int) =~= n.full(now).take(
                    commit as int,
                ));
                assert(more.take(end).take(commit as int) =~= more.take(commit as int));
                assert(more.take(book.len() as int).take(commit as int) =~= more.take(
                    commit as int,
                ));
                settled_in_more(n, book, n.full(now), term, term, commit);
            },
            _ => {},
        }
    }
}

/// What is settled up to an index is settled below it.
proof fn settled_below(c: Chronicle, entries: Seq<LogEntryView>, term: u64, high: u64, low: u64)
    requires
        c.settled(entries, term, high),
        low <= high,
    ensures
        c.settled(entries, term, low),
{
    if low > 0 {
        let (q, t) = choose|q: u64, t: u64| #[trigger]
            c.chosen(q, t) && t <= term && high <= q && c.has_told(t, high) && entries.take(
                high as int,
            ) == c.books[t].take(high as int);
        assert(entries.take(high as int).take(low as int) =~= entries.take(low as int));
        assert(c.books[t].take(high as int).take(low as int) =~= c.books[t].take(low as int));
        assert(c.chosen(q, t));
    }
}

/// What a leader believes of its peers is true.
proof fn beliefs_stay_true(c: Chronicle, id: NodeId, input: InputView, peer: NodeId)
    requires
        c.sound(),
        c.world.can_step(id, input),
        turn_of(c.world.nodes[id], input).node.role == Role::Leader,
        turn_of(c.world.nodes[id], input).node.progress.contains_key(peer),
    ensures
        ({
            let after = turn_of(c.world.nodes[id], input).node;
            let index = after.progress[peer].match_index;
            index == 0 || c.stepped(id, input).holds(peer, after.hard_state.current_term, index)
        }),
{
    let before = c.world.nodes[id];
    let after = turn_of(before, input).node;
    let term = after.hard_state.current_term;
    let index = after.progress[peer].match_index;
    let n = c.stepped(id, input);
    step_facts(c, id, input);
    assert(believed(before, input, after, peer));
    if index != 0 {
        if peer == after.id && index <= after.log.last_index() {
            assert(n.world.leaders[term] == id);
        } else if before.role == Role::Leader && before.hard_state.current_term == term
            && before.progress.contains_key(peer) && before.progress[peer].match_index == index {
            assert(c.holds(peer, term, index));
            holding_stays(c, n, peer, term, index);
        } else {
            let sent = sender_facts(c, id, input->from, input->message);
            assert(n.world.sent.contains(sent));
            assert(n.acked(peer, term, index));
        }
    }
}

/// What a leader commits by itself is chosen.
proof fn leader_chooses(c: Chronicle, id: NodeId, input: InputView)
    requires
        c.sound(),
        c.world.can_step(id, input),
        ({
            let after = turn_of(c.world.nodes[id], input).node;
            let commit = after.hard_state.commit_index;
            &&& after.role == Role::Leader
            &&& commit == after.configuration.quorum_index(after.matched())
            &&& after.log.term(commit) == Some(after.hard_state.current_term)
        }),
    ensures
        ({
            let after = turn_of(c.world.nodes[id], input).node;
            let n = c.stepped(id, input);
            n.settled(
                n.full(after.log),
                after.hard_state.current_term,
                after.hard_state.commit_index,
            )
        }),
{
    let after = turn_of(c.world.nodes[id], input).node;
    let term = after.hard_state.current_term;
    let commit = after.hard_state.commit_index;
    let n = c.stepped(id, input);
    step_facts(c, id, input);
    known_logs_stay_sound(c, id, input);
    log_stays_sound(c, id, input);
    if commit > 0 {
        full_is_the_book(n, after.log, commit);
        quorum_index_is_reached(after.configuration, after.matched());
        let reached = after.configuration.reached(after.matched(), commit);
        let holders = n.holders(commit, term);
        assert forall|peer: NodeId| reached.contains(peer) implies holders.contains(peer) by {
            assert(reach(after.matched(), peer) >= commit);
            assert(after.progress.contains_key(peer));
            beliefs_stay_true(c, id, input, peer);
            assert(n.holds(peer, term, after.progress[peer].match_index));
        }
        quorum_grows(after.configuration, reached, holders);
        assert(n.chosen(commit, term));
        assert(n.has_told(term, commit));
    }
}

/// Where a node has lost an entry that it held, the leader of its term has not got
/// it.
proof fn lost_entries_are_not_led(
    c: Chronicle,
    id: NodeId,
    input: InputView,
    index: u64,
    term: u64,
)
    requires
        c.sound(),
        c.world.can_step(id, input),
        c.books.contains_key(term),
        shows(c.books[term], index, term),
        shows(c.full(c.world.nodes[id].log), index, term),
        term <= c.world.nodes[id].hard_state.current_term,
    ensures
        ({
            let after = turn_of(c.world.nodes[id], input).node;
            let now = after.hard_state.current_term;
            let n = c.stepped(id, input);
            ||| shows(n.full(after.log), index, term)
            ||| term < now && n.lacks(now, index, term)
        }),
{
    let before = c.world.nodes[id];
    let after = turn_of(before, input).node;
    let now = after.hard_state.current_term;
    let n = c.stepped(id, input);
    let log = before.log;
    step_facts(c, id, input);
    known_logs_stay_sound(c, id, input);
    log_stays_sound(c, id, input);
    full_stays(c, n, log);
    last_index_counts(log);
    last_index_counts(after.log);
    let old = c.full(log);
    let full = n.full(after.log);
    let last = log.last_index();
    assert(log.term(last) == Some(log.last_term()));
    assert(index <= last) by {
        if last > 0 {
            full_is_the_book(c, log, last);
        }
    }
    full_is_the_book(c, log, last);
    if grown(log, after) {
        if after.log != log {
            assert(after.log.term(last) == log.term(last));
            full_is_the_book(n, after.log, last);
            full_is_the_book(n, log, last);
            assert(full.take(last as int)[index - 1] == full[index - 1]);
            assert(old.take(last as int)[index - 1] == old[index - 1]);
        }
    } else {
        match input {
            InputView::SnapshotBuilt(_) => {
                compacted_has_the_same(log, after.log, last);
            },
            InputView::Message { from, message } => {
                let sent = sender_facts(c, id, from, message);
                full_stays(c, n, sent.log);
                match message {
                    MessageView::InstallSnapshot { metadata, .. } => {
                        let base = metadata.last_included_index;
                        if log.term(base) == Some(metadata.last_included_term) {
                            compacted_has_the_same(log, after.log, last);
                        } else {
                            led_is_in_book(c, sent.log, now, base);
                            full_is_the_book(n, after.log, base);
                            parted_is_not_led(c, log, now, base, index, term);
                            assert(goes_on(c.books[now], n.books[now], now));
                            if index <= base {
                                assert(full.take(base as int)[index - 1] == full[index - 1]);
                                let x = c.books[metadata.last_included_term];
                                let y = n.books[metadata.last_included_term];
                                assert(goes_on(x, y, metadata.last_included_term));
                                assert(y.take(base as int)[index - 1] == y[index - 1]);
                                assert(x.take(base as int)[index - 1] == x[index - 1]);
                                assert(y.take(x.len() as int)[index - 1] == y[index - 1]);
                                assert(c.books[now].take(base as int)[index - 1]
                                    == c.books[now][index - 1]);
                            }
                            shown_stays(c, n, now, index, term);
                        }
                    },
                    MessageView::AppendEntries { prev_log_index, prev_log_term, entries, .. } => {
                        let position = divergence(log, entries, 0);
                        divergence_is_first(log, entries, 0);
                        assert(position < entries.len());
                        let cut = entries[position].index;
                        assert(sent.log.entry((prev_log_index + 1 + position) as u64) == Some(
                            entries[position],
                        ));
                        led_is_in_book(c, sent.log, now, cut);
                        if index < cut {
                            let before_cut = (cut - 1) as u64;
                            if position > 0 {
                                assert(log.term(entries[position - 1].index) == Some(
                                    entries[position - 1].term,
                                ));
                            }
                            assert(log.term(before_cut) is Some);
                            assert(after.log.term(before_cut) == log.term(before_cut)) by {
                                if before_cut > log.base_index {
                                    assert(after.log.entries[before_cut - log.base_index - 1]
                                        == log.entries[before_cut - log.base_index - 1]);
                                }
                            }
                            full_is_the_book(n, after.log, before_cut);
                            full_is_the_book(n, log, before_cut);
                            assert(full.take(before_cut as int)[index - 1] == full[index - 1]);
                            assert(old.take(before_cut as int)[index - 1] == old[index - 1]);
                        } else {
                            assert(log.term(cut) != Some(entries[position].term)) by {
                                divergence_differs(log, entries, 0);
                            }
                            parted_is_not_led(c, log, now, cut, index, term);
                            shown_stays(c, n, now, index, term);
                        }
                    },
                    _ => {},
                }
            },
            _ => {},
        }
    }
}

/// Where entries part from a log, the log has another term or nothing.
proof fn divergence_differs(log: LogView, entries: Seq<LogEntryView>, i: int)
    requires
        0 <= i <= entries.len(),
        divergence(log, entries, i) < entries.len(),
    ensures
        log.term(entries[divergence(log, entries, i)].index) != Some(
            entries[divergence(log, entries, i)].term,
        ),
    decreases entries.len() - i,
{
    if i < entries.len() && log.term(entries[i].index) == Some(entries[i].term) {
        divergence_differs(log, entries, i + 1);
    }
}

/// A leader whose log parts from that of a node has not got what the node has from
/// there on.
proof fn parted_is_not_led(
    c: Chronicle,
    log: LogView,
    leader: u64,
    parted: u64,
    index: u64,
    term: u64,
)
    requires
        c.books_sound(),
        c.log_sound(log),
        c.books.contains_key(leader),
        c.books.contains_key(term),
        shows(c.books[term], index, term),
        shows(c.full(log), index, term),
        log.last_index() > 0,
        0 < parted <= c.books[leader].len(),
        log.base_index <= parted,
        log.term(parted) != Some(c.books[leader][parted - 1].term),
        term <= leader,
    ensures
        parted <= index ==> term < leader && c.lacks(leader, index, term),
{
    if parted <= index {
        last_index_counts(log);
        let last = log.last_index();
        assert(log.term(last) == Some(log.last_term()));
        full_is_the_book(c, log, last);
        let own = c.books[log.last_term()];
        assert(c.full(log)[index - 1] == own[index - 1]);
        assert(c.book_sound(log.last_term()));
        assert(c.line_sound(log.last_term(), index - 1));
        assert(own.take(index as int)[parted - 1] == own[parted - 1]);
        assert(c.books[term].take(index as int)[parted - 1] == c.books[term][parted - 1]);
        assert(log.term(parted) is Some);
        assert(c.logged(log, last, parted));
        if shows(c.books[leader], index, term) {
            assert(c.book_sound(leader));
            assert(c.line_sound(leader, index - 1));
            assert(c.books[leader].take(index as int)[parted - 1] == c.books[leader][parted - 1]);
        }
    }
}

/// What the node that has stepped holds, it has.
proof fn stepped_node_keeps(c: Chronicle, id: NodeId, input: InputView)
    requires
        c.sound(),
        c.world.can_step(id, input),
    ensures
        ({
            let after = turn_of(c.world.nodes[id], input).node;
            let n = c.stepped(id, input);
            n.keeps(id, n.full(after.log), after.hard_state.current_term + 1)
        }),
{
    let before = c.world.nodes[id];
    let after = turn_of(before, input).node;
    let now = after.hard_state.current_term;
    let n = c.stepped(id, input);
    let full = n.full(after.log);
    step_facts(c, id, input);
    known_logs_stay_sound(c, id, input);
    log_stays_sound(c, id, input);
    assert forall|term: u64, upto: u64, index: u64|
        #![trigger n.holds(id, term, upto), shows(n.books[term], index, term)]
        n.holds(id, term, upto) && term < now + 1 && index <= upto && shows(
            n.books[term],
            index,
            term,
        ) implies n.kept(full, index, term, now + 1) by {
        if c.holds(id, term, upto) {
            assert(c.hold_sound(id, term, upto));
            shown_stays(c, n, term, index, term);
            assert(shows(c.books[term], index, term));
            assert(c.kept(
                c.full(before.log),
                index,
                term,
                before.hard_state.current_term + 1,
            ));
            if shows(c.full(before.log), index, term) {
                lost_entries_are_not_led(c, id, input, index, term);
            } else {
                let leader = choose|leader: u64|
                    term < leader && leader < before.hard_state.current_term + 1 && #[trigger] c.lacks(
                        leader,
                        index,
                        term,
                    );
                shown_stays(c, n, leader, index, term);
                assert(n.lacks(leader, index, term));
            }
        } else {
            new_holds(c, id, input, id, term, upto);
            fresh_holds_are_there(c, id, input, upto);
            assert(full.take(upto as int)[index - 1] == full[index - 1]);
            assert(n.books[now].take(upto as int)[index - 1] == n.books[now][index - 1]);
        }
    }
}

/// What a node has just acknowledged or written is in its log.
proof fn fresh_holds_are_there(c: Chronicle, id: NodeId, input: InputView, upto: u64)
    requires
        c.sound(),
        c.world.can_step(id, input),
        ({
            let now = turn_of(c.world.nodes[id], input).node.hard_state.current_term;
            c.stepped(id, input).holds(id, now, upto) && !c.holds(id, now, upto)
        }),
    ensures
        ({
            let after = turn_of(c.world.nodes[id], input).node;
            let now = after.hard_state.current_term;
            let n = c.stepped(id, input);
            &&& n.books.contains_key(now)
            &&& upto <= n.books[now].len()
            &&& upto <= n.full(after.log).len()
            &&& n.full(after.log).take(upto as int) == n.books[now].take(upto as int)
        }),
{
    let before = c.world.nodes[id];
    let turn = turn_of(before, input);
    let after = turn.node;
    let now = after.hard_state.current_term;
    let n = c.stepped(id, input);
    step_facts(c, id, input);
    known_logs_stay_sound(c, id, input);
    log_stays_sound(c, id, input);
    last_index_counts(after.log);
    if n.acked(id, now, upto) {
        let reply = choose|sent: Sent| #[trigger]
            n.world.sent.contains(sent) && sent.from == id && acknowledges(
                sent.message,
                now,
                upto,
            );
        if c.world.sent.contains(reply) {
            assert(c.acked(id, now, upto));
        }
        let action = ActionView::Send { to: reply.to, message: reply.message };
        let i = choose|i: int| 0 <= i < turn.actions.len() && turn.actions[i] == action;
        turns_send_the_truth(before, input, i);
        let from = input->from;
        let message = input->message;
        let sent = sender_facts(c, id, from, message);
        assert(goes_on(c.books[now], n.books[now], now)) by {
            assert(c.led(sent.log, now));
        }
        match message {
            MessageView::AppendEntries { prev_log_index, prev_log_term, entries, .. } => {
                taken_is_in_book(
                    c,
                    n,
                    sent.log,
                    after.log,
                    now,
                    prev_log_index,
                    prev_log_term,
                    entries,
                );
            },
            MessageView::InstallSnapshot { metadata, .. } => {
                let commit = before.hard_state.commit_index;
                let book = c.books[now];
                let more = n.books[now];
                assert(more.take(book.len() as int) == book);
                if upto <= commit {
                    assert(after.hard_state.commit_index == commit);
                    committed_part_stays(c, id, input);
                    let (q, t) = choose|q: u64, t: u64| #[trigger]
                        c.chosen(q, t) && t <= before.hard_state.current_term && commit <= q
                            && c.full(before.log).take(commit as int) == c.books[t].take(
                            commit as int,
                        );
                    chosen_is_shared(c, q, t, now);
                    let full = n.full(after.log);
                    assert(full.take(commit as int).take(upto as int) =~= full.take(upto as int));
                    assert(c.books[t].take(commit as int).take(upto as int) =~= c.books[t].take(
                        upto as int,
                    ));
                    assert(c.books[t].take(q as int).take(upto as int) =~= c.books[t].take(
                        upto as int,
                    ));
                    assert(book.take(q as int).take(upto as int) =~= book.take(upto as int));
                    assert(more.take(book.len() as int).take(upto as int) =~= more.take(
                        upto as int,
                    ));
                } else {
                    full_stays(c, n, sent.log);
                    led_is_in_book(n, sent.log, now, upto);
                    full_is_the_book(n, after.log, upto);
                }
            },
            _ => {},
        }
    } else {
        assert(after.role == Role::Leader) by {
            if after.role != Role::Leader {
                assert(n.books[now] == c.books[now]);
            }
        }
        leader_stays_in_book(c, id, input);
        assert(n.full(after.log).take(upto as int) =~= n.books[now].take(upto as int));
    }
}

/// A leader has written all that its log holds.
proof fn leader_stays_in_book(c: Chronicle, id: NodeId, input: InputView)
    requires
        c.sound(),
        c.world.can_step(id, input),
        turn_of(c.world.nodes[id], input).node.role == Role::Leader,
    ensures
        ({
            let after = turn_of(c.world.nodes[id], input).node;
            let now = after.hard_state.current_term;
            let n = c.stepped(id, input);
            &&& n.led(after.log, now)
            &&& n.books[now].len() == after.log.last_index()
            &&& n.full(after.log) == n.books[now]
        }),
{
    let before = c.world.nodes[id];
    let after = turn_of(before, input).node;
    let now = after.hard_state.current_term;
    let n = c.stepped(id, input);
    step_facts(c, id, input);
    last_index_counts(before.log);
    last_index_counts(after.log);
    if before.role == Role::Leader {
        assert(c.led(before.log, now));
        if !grown(before.log, after) {
            assert(input is SnapshotBuilt);
            compacted_has_the_same(before.log, after.log, after.log.last_index());
        }
    }
    assert(after.log.last_term() == now);
    assert(n.full(after.log) =~= n.books[now]);
}

/// What messages say stays true.
proof fn messages_stay_sound(c: Chronicle, id: NodeId, input: InputView, sent: Sent)
    requires
        c.sound(),
        c.world.can_step(id, input),
        c.stepped(id, input).world.sent.contains(sent),
    ensures
        c.stepped(id, input).sent_sound(sent),
{
    let before = c.world.nodes[id];
    let turn = turn_of(before, input);
    let after = turn.node;
    let now = after.hard_state.current_term;
    let n = c.stepped(id, input);
    step_facts(c, id, input);
    turns_change_roles(before, input);
    last_index_counts(after.log);
    if c.world.sent.contains(sent) {
        assert(c.sent_sound(sent));
        match sent.message {
            MessageView::AppendEntries { term, leader_commit, .. } => {
                led_stays_settled(c, n, term, leader_commit);
            },
            MessageView::InstallSnapshot { term, metadata, .. } => {
                led_stays_settled(c, n, term, metadata.last_included_index);
            },
            MessageView::RequestVote { term, .. } => {
                if sent.from == id && after.role == Role::Candidate && now == term {
                    candidate_keeps_log(before, input, after);
                }
            },
            _ => {},
        }
    } else {
        let action = ActionView::Send { to: sent.to, message: sent.message };
        let i = choose|i: int| 0 <= i < turn.actions.len() && turn.actions[i] == action;
        turns_send_the_truth(before, input, i);
        assert(n.world.message_traced(sent));
        if after.role == Role::Leader {
            leader_stays_in_book(c, id, input);
            commit_stays_settled(c, id, input);
        }
        match sent.message {
            MessageView::AppendEntries { leader_commit, .. } => {
                settled_below(
                    n,
                    n.books[now],
                    now,
                    after.hard_state.commit_index,
                    leader_commit,
                );
            },
            MessageView::InstallSnapshot { metadata, .. } => {
                settled_below(
                    n,
                    n.books[now],
                    now,
                    after.hard_state.commit_index,
                    metadata.last_included_index,
                );
            },
            _ => {},
        }
    }
}

proof fn led_stays_settled(c: Chronicle, n: Chronicle, term: u64, index: u64)
    requires
        follows(c, n),
        c.world.configuration.valid(),
        c.books.contains_key(term),
        c.settled(c.books[term], term, index),
    ensures
        n.settled(n.books[term], term, index),
        c.books[term].len() <= n.books[term].len(),
{
    settled_stays(c, n, c.books[term], term, index);
    let x = c.books[term];
    let y = n.books[term];
    assert(goes_on(x, y, term));
    if index > 0 {
        assert(y.take(x.len() as int).take(index as int) =~= y.take(index as int));
    } else {
        assert(x.take(0) =~= y.take(0));
    }
    settled_in_more(n, x, y, term, term, index);
}

/// A candidate does not change the end of its log.
proof fn candidate_keeps_log(before: RaftView, input: InputView, after: RaftView)
    requires
        before.well_formed(),
        after.well_formed(),
        log_step(before, input, after),
        after.role == Role::Candidate,
    ensures
        after.log.last_index() == before.log.last_index(),
        after.log.last_term() == before.log.last_term(),
{
    if !grown(before.log, after) {
        compacted_has_the_same(before.log, after.log, after.log.last_index());
    }
}

/// What nodes hold stays in the logs of leaders.
proof fn holds_stay_sound(
    c: Chronicle,
    id: NodeId,
    input: InputView,
    node: NodeId,
    term: u64,
    index: u64,
)
    requires
        c.sound(),
        c.world.can_step(id, input),
    ensures
        c.stepped(id, input).hold_sound(node, term, index),
{
    let n = c.stepped(id, input);
    step_facts(c, id, input);
    if n.holds(node, term, index) {
        if c.holds(node, term, index) {
            assert(c.hold_sound(node, term, index));
            assert(goes_on(c.books[term], n.books[term], term));
        } else {
            new_holds(c, id, input, node, term, index);
            fresh_holds_are_there(c, id, input, index);
        }
    }
}

/// Votes stay sound.
proof fn votes_stay_sound(c: Chronicle, id: NodeId, input: InputView, voter: NodeId, term: u64)
    requires
        c.sound(),
        c.world.can_step(id, input),
    ensures
        c.stepped(id, input).vote_sound(voter, term),
{
    let before = c.world.nodes[id];
    let after = turn_of(before, input).node;
    let n = c.stepped(id, input);
    step_facts(c, id, input);
    votes_stay(c.world, id, input);
    assert(c.vote_sound(voter, term));
    if let Some(candidate) = n.world.vote_of(voter, term) {
        if c.world.vote_of(voter, term) is None {
            assert(voter == id);
            assert(term == after.hard_state.current_term);
            assert(after.hard_state.voted_for == Some(candidate));
            if candidate != id {
                if before.hard_state.voted_for == Some(candidate)
                    && before.hard_state.current_term == term {
                    assert(c.world.vote_of(id, term) is Some);
                }
                let sent = sender_facts(c, id, input->from, input->message);
            }
        }
    }
}

/// The electors of a leader stay, and a new leader has what its electors held.
proof fn elections_stay_kept(c: Chronicle, id: NodeId, input: InputView, term: u64)
    requires
        c.sound(),
        c.world.can_step(id, input),
        c.stepped(id, input).books.contains_key(term),
    ensures
        c.stepped(id, input).elected(term),
{
    let before = c.world.nodes[id];
    let after = turn_of(before, input).node;
    let now = after.hard_state.current_term;
    let n = c.stepped(id, input);
    step_facts(c, id, input);
    turns_change_roles(before, input);
    votes_stay(c.world, id, input);
    if c.books.contains_key(term) {
        assert(c.elected(term));
        assert forall|node: NodeId| #[trigger]
            n.electors[term].contains(node) implies n.world.nodes.contains_key(node) && term
            <= n.world.nodes[node].hard_state.current_term && n.keeps(
            node,
            n.books[term],
            term as int,
        ) by {
            assert(c.electors[term].contains(node));
            keeping_stays(c, id, input, node, c.books[term], term as int);
            more_keeps(n, node, c.books[term], n.books[term], term);
        }
    } else {
        leader_has_support(c.world, id, input);
        assert forall|node: NodeId| #[trigger]
            n.electors[term].contains(node) implies n.world.nodes.contains_key(node) && term
            <= n.world.nodes[node].hard_state.current_term && n.keeps(
            node,
            n.books[term],
            term as int,
        ) by {
            assert(n.world.vote_of(node, term) == Some(id));
            let old = c.full(before.log);
            if node == id {
                own_past_is_kept(c, id, term);
            } else {
                assert(c.world.vote_of(node, term) == Some(id));
                assert(c.vote_sound(node, term));
                assert(c.world.node_sound(node));
                assert(c.world.votes.contains_key((node, term)));
            }
            assert(c.keeps(node, old, term as int));
            keeping_stays(c, id, input, node, old, term as int);
            assert(n.books[term].take(old.len() as int) =~= old);
            more_keeps(n, node, old, n.books[term], term);
        }
    }
}

/// A log that goes on from another has what that has.
proof fn more_keeps(
    n: Chronicle,
    node: NodeId,
    few: Seq<LogEntryView>,
    many: Seq<LogEntryView>,
    below: u64,
)
    requires
        n.keeps(node, few, below as int),
        few.len() <= many.len(),
        many.take(few.len() as int) == few,
    ensures
        n.keeps(node, many, below as int),
{
    assert forall|term: u64, upto: u64, index: u64|
        #![trigger n.holds(node, term, upto), shows(n.books[term], index, term)]
        n.holds(node, term, upto) && term < below && index <= upto && shows(
            n.books[term],
            index,
            term,
        ) implies n.kept(many, index, term, below as int) by {
        assert(n.kept(few, index, term, below as int));
        if shows(few, index, term) {
            assert(many.take(few.len() as int)[index - 1] == many[index - 1]);
        }
    }
}

/// A node has what it held, before the leader of a term that has none yet.
proof fn own_past_is_kept(c: Chronicle, id: NodeId, term: u64)
    requires
        c.sound(),
        c.world.nodes.contains_key(id),
        c.world.nodes[id].hard_state.current_term <= term,
        !c.books.contains_key(term),
    ensures
        c.keeps(id, c.full(c.world.nodes[id].log), term as int),
{
    let node = c.world.nodes[id];
    let full = c.full(node.log);
    let own = node.hard_state.current_term + 1;
    assert(c.node_kept(id));
    assert forall|held: u64, upto: u64, index: u64|
        #![trigger c.holds(id, held, upto), shows(c.books[held], index, held)]
        c.holds(id, held, upto) && held < term && index <= upto && shows(
            c.books[held],
            index,
            held,
        ) implies c.kept(full, index, held, term as int) by {
        assert(c.hold_sound(id, held, upto));
        assert(c.kept(full, index, held, own));
        if !shows(full, index, held) {
            let leader = choose|leader: u64|
                held < leader && leader < own && #[trigger] c.lacks(leader, index, held);
            assert(leader != term);
            assert(c.lacks(leader, index, held));
        }
    }
}

/// A voter whose log is not ahead leaves what it held to the candidate.
proof fn voters_leave_what_they_held(
    c: Chronicle,
    voter: NodeId,
    candidate: NodeId,
    term: u64,
)
    requires
        c.sound(),
        c.world.nodes.contains_key(voter),
        c.world.nodes.contains_key(candidate),
        c.world.nodes[voter].hard_state.current_term <= term,
        c.world.nodes[candidate].hard_state.current_term == term,
        !c.books.contains_key(term),
        c.world.nodes[voter].up_to_date(
            c.world.nodes[candidate].log.last_index(),
            c.world.nodes[candidate].log.last_term(),
        ),
    ensures
        c.keeps(voter, c.full(c.world.nodes[candidate].log), term as int),
{
    let v = c.world.nodes[voter].log;
    let w = c.world.nodes[candidate].log;
    let by = c.full(v);
    let full = c.full(w);
    assert(c.world.known(v));
    assert(c.world.known(w));
    assert(c.node_kept(candidate));
    own_past_is_kept(c, voter, term);
    last_index_counts(v);
    last_index_counts(w);
    assert(v.term(v.last_index()) == Some(v.last_term()));
    assert(w.term(w.last_index()) == Some(w.last_term()));
    assert forall|held: u64, upto: u64, index: u64|
        #![trigger c.holds(voter, held, upto), shows(c.books[held], index, held)]
        c.holds(voter, held, upto) && held < term && index <= upto && shows(
            c.books[held],
            index,
            held,
        ) implies c.kept(full, index, held, term as int) by {
        assert(c.kept(by, index, held, term as int));
        if shows(by, index, held) {
            assert(v.last_index() > 0);
            full_is_the_book(c, v, v.last_index());
            assert(c.books.contains_key(v.last_term()));
            assert(c.book_sound(v.last_term()));
            assert(by[index - 1] == c.books[v.last_term()][index - 1]);
            assert(c.line_sound(v.last_term(), index - 1));
            if w.last_term() == v.last_term() {
                full_is_the_book(c, w, w.last_index());
                assert(full[index - 1] == c.books[w.last_term()][index - 1]);
            } else {
                let leader = w.last_term();
                if w.last_index() > 0 {
                    full_is_the_book(c, w, w.last_index());
                    assert(leader < term);
                    if shows(c.books[leader], index, held) {
                        assert(c.book_sound(leader));
                        assert(c.line_sound(leader, index - 1));
                        if index >= w.last_index() {
                            let x = c.books[held];
                            let y = c.books[leader];
                            assert(x.take(index as int)[w.last_index() - 1] == x[w.last_index()
                                - 1]);
                            assert(y.take(index as int)[w.last_index() - 1] == y[w.last_index()
                                - 1]);
                            assert(c.book_sound(held));
                            assert(c.line_sound(held, w.last_index() - 1));
                        }
                        assert(full[index - 1] == c.books[leader][index - 1]);
                    } else {
                        assert(c.lacks(leader, index, held));
                    }
                }
            }
        }
    }
}

/// A candidate has what those held that have voted for it.
proof fn candidates_stay_kept(c: Chronicle, id: NodeId, input: InputView, candidate: NodeId)
    requires
        c.sound(),
        c.world.can_step(id, input),
        c.stepped(id, input).world.nodes.contains_key(candidate),
    ensures
        ({
            let n = c.stepped(id, input);
            let node = n.world.nodes[candidate];
            let term = node.hard_state.current_term;
            node.role == Role::Candidate && !n.books.contains_key(term) ==> forall|voter: NodeId|
                #[trigger]
                n.world.vote_of(voter, term) == Some(candidate) ==> n.keeps(
                    voter,
                    n.full(node.log),
                    term as int,
                )
        }),
{
    let before = c.world.nodes[id];
    let after = turn_of(before, input).node;
    let n = c.stepped(id, input);
    let node = n.world.nodes[candidate];
    let term = node.hard_state.current_term;
    step_facts(c, id, input);
    turns_change_roles(before, input);
    votes_stay(c.world, id, input);
    if node.role == Role::Candidate && !n.books.contains_key(term) {
        let old = c.world.nodes[candidate];
        assert(c.world.nodes.contains_key(candidate));
        assert(c.world.node_sound(candidate));
        assert(c.node_kept(candidate));
        assert(c.world.known(old.log));
        assert(!c.books.contains_key(term));
        full_stays(c, n, old.log);
        assert(n.full(node.log) == c.full(old.log)) by {
            if candidate == id {
                candidate_keeps_log(before, input, after);
            }
        }
        assert forall|voter: NodeId| #[trigger]
            n.world.vote_of(voter, term) == Some(candidate) implies n.keeps(
            voter,
            n.full(node.log),
            term as int,
        ) by {
            assert(c.vote_sound(voter, term));
            if c.world.vote_of(voter, term) == Some(candidate) {
                assert(c.world.node_sound(voter));
                assert(c.world.votes.contains_key((voter, term)));
                assert(old.hard_state.current_term >= term);
                assert(old.hard_state.current_term == term);
                assert(old.role == Role::Candidate);
            } else {
                assert(voter == id);
                assert(term == after.hard_state.current_term);
                assert(after.hard_state.voted_for == Some(candidate));
                if candidate == id {
                    own_past_is_kept(c, id, term);
                } else {
                    let sent = sender_facts(c, id, input->from, input->message);
                    voters_leave_what_they_held(c, id, candidate, term);
                }
            }
            assert(c.keeps(voter, c.full(old.log), term as int));
            keeping_stays(c, id, input, voter, c.full(old.log), term as int);
        }
    }
}

/// What is committed stays so, whatever a node takes.
pub proof fn steps_keep_commits_sound(c: Chronicle, id: NodeId, input: InputView)
    requires
        c.sound(),
        c.world.can_step(id, input),
    ensures
        c.stepped(id, input).sound(),
{
    let before = c.world.nodes[id];
    let after = turn_of(before, input).node;
    let now = after.hard_state.current_term;
    let n = c.stepped(id, input);
    step_facts(c, id, input);
    known_logs_stay_sound(c, id, input);
    assert forall|sent: Sent| #[trigger] n.world.sent.contains(sent) implies n.sent_sound(sent) by {
        messages_stay_sound(c, id, input, sent);
    }
    assert forall|node: NodeId, term: u64, index: u64| #[trigger]
        n.hold_sound(node, term, index) by {
        holds_stay_sound(c, id, input, node, term, index);
    }
    assert forall|node: NodeId| #[trigger] n.world.nodes.contains_key(node) implies n.node_kept(
        node,
    ) by {
        candidates_stay_kept(c, id, input, node);
        if node == id {
            stepped_node_keeps(c, id, input);
            commit_stays_settled(c, id, input);
            last_terms_stay_low(c, id, input);
            if after.role == Role::Leader {
                leader_stays_in_book(c, id, input);
                assert forall|peer: NodeId| #[trigger]
                    after.progress.contains_key(peer) implies after.progress[peer].match_index == 0
                    || n.holds(peer, now, after.progress[peer].match_index) by {
                    beliefs_stay_true(c, id, input, peer);
                }
            }
        } else {
            other_nodes_stay(c, id, input, node);
        }
    }
    assert forall|term: u64| #[trigger] n.books.contains_key(term) implies n.elected(term) by {
        elections_stay_kept(c, id, input, term);
    }
    assert forall|voter: NodeId, term: u64| #[trigger] n.vote_sound(voter, term) by {
        votes_stay_sound(c, id, input, voter, term);
    }
}

/// No log ends in a term that its node has not reached.
proof fn last_terms_stay_low(c: Chronicle, id: NodeId, input: InputView)
    requires
        c.sound(),
        c.world.can_step(id, input),
    ensures
        turn_of(c.world.nodes[id], input).node.log.last_term() <= turn_of(
            c.world.nodes[id],
            input,
        ).node.hard_state.current_term,
{
    let before = c.world.nodes[id];
    let after = turn_of(before, input).node;
    step_facts(c, id, input);
    last_index_counts(before.log);
    last_index_counts(after.log);
    if !grown(before.log, after) {
        match input {
            InputView::SnapshotBuilt(_) => {
                compacted_has_the_same(before.log, after.log, after.log.last_index());
            },
            InputView::Message { from, message } => {
                let sent = sender_facts(c, id, from, message);
                match message {
                    MessageView::InstallSnapshot { metadata, term, .. } => {
                        let index = metadata.last_included_index;
                        if before.log.term(index) == Some(metadata.last_included_term) {
                            compacted_has_the_same(
                                before.log,
                                after.log,
                                after.log.last_index(),
                            );
                        } else {
                            led_is_in_book(c, sent.log, term, index);
                            assert(c.book_sound(term));
                            assert(c.line_sound(term, index - 1));
                        }
                    },
                    MessageView::AppendEntries { term, prev_log_index, entries, .. } => {
                        let position = divergence(before.log, entries, 0);
                        divergence_is_first(before.log, entries, 0);
                        if position < entries.len() {
                            let i = entries.len() - 1;
                            if position > 0 {
                                assert(before.log.term(entries[position - 1].index) == Some(
                                    entries[position - 1].term,
                                ));
                            }
                            assert(entries[position].index == prev_log_index + 1 + position);
                            assert(entries.skip(position).last() == entries[i]);
                            assert(after.log.entries.last() == entries[i]);
                            let index = (prev_log_index + 1 + i) as u64;
                            assert(sent.log.entry(index) == Some(entries[i]));
                            led_is_in_book(c, sent.log, term, index);
                            assert(c.book_sound(term));
                            assert(c.line_sound(term, index - 1));
                        }
                    },
                    _ => {},
                }
            },
            _ => {},
        }
    }
}

/// A node that takes nothing keeps what it has.
proof fn other_nodes_stay(c: Chronicle, id: NodeId, input: InputView, node: NodeId)
    requires
        c.sound(),
        c.world.can_step(id, input),
        c.world.nodes.contains_key(node),
        node != id,
    ensures
        ({
            let n = c.stepped(id, input);
            let view = n.world.nodes[node];
            let term = view.hard_state.current_term;
            &&& view == c.world.nodes[node]
            &&& view.log.last_term() <= term
            &&& n.keeps(node, n.full(view.log), term + 1)
            &&& n.settled(n.full(view.log), term, view.hard_state.commit_index)
            &&& view.role == Role::Leader ==> {
                &&& n.led(view.log, term)
                &&& n.books[term].len() == view.log.last_index()
                &&& n.told.contains_key(term)
                &&& n.told[term] == view.hard_state.commit_index
                &&& forall|peer: NodeId| #[trigger]
                    view.progress.contains_key(peer) ==> view.progress[peer].match_index == 0
                        || n.holds(peer, term, view.progress[peer].match_index)
            }
        }),
{
    let n = c.stepped(id, input);
    let view = c.world.nodes[node];
    let term = view.hard_state.current_term;
    let after = turn_of(c.world.nodes[id], input).node;
    step_facts(c, id, input);
    assert(c.node_kept(node));
    assert(c.world.node_sound(node));
    assert(c.world.known(view.log));
    full_stays(c, n, view.log);
    keeping_stays(c, id, input, node, c.full(view.log), term + 1);
    settled_stays(c, n, c.full(view.log), term, view.hard_state.commit_index);
    if view.role == Role::Leader {
        if after.role == Role::Leader && after.hard_state.current_term == term {
            leader_is_the_only_one(c.world, id, input);
        }
        assert(n.books[term] == c.books[term]);
        assert forall|peer: NodeId| #[trigger]
            view.progress.contains_key(peer) implies view.progress[peer].match_index == 0
            || n.holds(peer, term, view.progress[peer].match_index) by {
            if view.progress[peer].match_index != 0 {
                holding_stays(c, n, peer, term, view.progress[peer].match_index);
            }
        }
    }
}

/// What is committed stays so when a node starts again.
pub proof fn restarts_keep_commits_sound(c: Chronicle, id: NodeId)
    requires
        c.sound(),
        c.world.nodes.contains_key(id),
    ensures
        c.restarted(id).sound(),
{
    let before = c.world.nodes[id];
    let n = c.restarted(id);
    assert(c.world.node_sound(id));
    assert(c.node_kept(id));
    assert(stored_log(before.snapshot, before.log.entries) =~= before.log);
    restarts_keep_elections_sound(c.world, id);
    restarts_keep_logs_sound(c.world, id);
    let after = n.world.nodes[id];
    assert(after.log == before.log);
    assert forall|node: NodeId| #[trigger] n.world.nodes.contains_key(node) implies {
        &&& c.world.nodes.contains_key(node)
        &&& n.world.nodes[node].log == c.world.nodes[node].log
        &&& n.world.nodes[node].hard_state == c.world.nodes[node].hard_state
        &&& n.world.nodes[node].role == c.world.nodes[node].role || n.world.nodes[node].role
            == Role::Follower
    } by {}
    assert forall|node: NodeId, term: u64, index: u64| #[trigger]
        n.holds(node, term, index) == c.holds(node, term, index) by {
        assert(n.acked(node, term, index) == c.acked(node, term, index));
    }
    assert forall|index: u64, term: u64| #[trigger] n.chosen(index, term) == c.chosen(
        index,
        term,
    ) by {
        assert forall|node: NodeId|
            n.holders(index, term).contains(node) <==> c.holders(index, term).contains(node) by {
            if n.holders(index, term).contains(node) {
                let upto = choose|upto: u64|
                    index <= upto && #[trigger] n.holds(node, term, upto);
                assert(c.holds(node, term, upto));
            }
            if c.holders(index, term).contains(node) {
                let upto = choose|upto: u64|
                    index <= upto && #[trigger] c.holds(node, term, upto);
                assert(n.holds(node, term, upto));
            }
        }
        assert(n.holders(index, term) =~= c.holders(index, term));
    }
    assert forall|node: NodeId, by: Seq<LogEntryView>, below: int| #[trigger]
        c.keeps(node, by, below) implies n.keeps(node, by, below) by {
        assert forall|term: u64, upto: u64, index: u64|
            #![trigger n.holds(node, term, upto), shows(n.books[term], index, term)]
            n.holds(node, term, upto) && term < below && index <= upto && shows(
                n.books[term],
                index,
                term,
            ) implies n.kept(by, index, term, below) by {
            assert(c.holds(node, term, upto));
            kept_in_both(c, n, by, index, term, below);
        }
    }
    assert forall|entries: Seq<LogEntryView>, term: u64, index: u64| #[trigger]
        c.settled(entries, term, index) implies n.settled(entries, term, index) by {
        if index > 0 {
            let (q, t) = choose|q: u64, t: u64| #[trigger]
                c.chosen(q, t) && t <= term && index <= q && c.has_told(t, index) && entries.take(
                    index as int,
                ) == c.books[t].take(index as int);
            assert(n.chosen(q, t));
            assert(n.has_told(t, index));
        }
    }
    assert forall|log: LogView| #[trigger] n.world.known(log) implies n.log_sound(log) by {
        if exists|node: NodeId| #[trigger]
            n.world.nodes.contains_key(node) && n.world.nodes[node].log == log {
            let node = choose|node: NodeId| #[trigger]
                n.world.nodes.contains_key(node) && n.world.nodes[node].log == log;
            assert(c.world.nodes.contains_key(node));
            assert(c.world.nodes[node].log == log);
        } else {
            let sent = choose|sent: Sent| #[trigger]
                n.world.sent.contains(sent) && sent.log == log;
            assert(c.world.sent.contains(sent));
        }
        assert(c.world.known(log));
        assert(c.log_sound(log));
        assert forall|x: u64, y: u64| #[trigger] n.logged(log, x, y) by {
            assert(c.logged(log, x, y));
        }
    }
    assert forall|term: u64| #[trigger] n.books.contains_key(term) implies n.book_sound(term) by {
        assert(c.book_sound(term));
        assert forall|i: int| 0 <= i < n.books[term].len() implies #[trigger] n.line_sound(
            term,
            i,
        ) by {
            assert(c.line_sound(term, i));
        }
    }
    assert forall|term: u64|
        #![trigger n.books.contains_key(term)]
        #![trigger n.world.leaders.contains_key(term)]
        n.books.contains_key(term) <==> n.world.leaders.contains_key(term) by {
        assert(c.books.contains_key(term) <==> c.world.leaders.contains_key(term));
    }
    assert forall|term: u64| #[trigger] n.told.contains_key(term) implies n.books.contains_key(
        term,
    ) by {
        assert(c.told.contains_key(term));
    }
    assert forall|sent: Sent| #[trigger] n.world.sent.contains(sent) implies n.sent_sound(sent) by {
        assert(c.sent_sound(sent));
    }
    assert forall|node: NodeId, term: u64, index: u64| #[trigger]
        n.hold_sound(node, term, index) by {
        assert(c.hold_sound(node, term, index));
    }
    assert forall|node: NodeId| #[trigger] n.world.nodes.contains_key(node) implies n.node_kept(
        node,
    ) by {
        assert(c.node_kept(node));
        let view = n.world.nodes[node];
        let term = view.hard_state.current_term;
        assert(n.full(view.log) == c.full(view.log));
        assert(c.keeps(node, c.full(view.log), term + 1));
        if view.role == Role::Candidate && !n.books.contains_key(term) {
            assert forall|voter: NodeId| #[trigger]
                n.world.vote_of(voter, term) == Some(node) implies n.keeps(
                voter,
                n.full(view.log),
                term as int,
            ) by {
                assert(c.world.vote_of(voter, term) == Some(node));
                assert(c.keeps(voter, c.full(view.log), term as int));
            }
        }
    }
    assert forall|term: u64| #[trigger] n.books.contains_key(term) implies n.elected(term) by {
        assert(c.elected(term));
    }
    assert forall|voter: NodeId, term: u64| #[trigger] n.vote_sound(voter, term) by {
        assert(c.vote_sound(voter, term));
        assert(n.world.vote_of(voter, term) == c.world.vote_of(voter, term));
    }
}

proof fn kept_in_both(
    c: Chronicle,
    n: Chronicle,
    by: Seq<LogEntryView>,
    index: u64,
    term: u64,
    below: int,
)
    requires
        c.books == n.books,
        c.kept(by, index, term, below),
    ensures
        n.kept(by, index, term, below),
{
    if !shows(by, index, term) {
        let leader = choose|leader: u64|
            term < leader && leader < below && #[trigger] c.lacks(leader, index, term);
        assert(n.lacks(leader, index, term));
    }
}

/// A cluster that has just been made has committed nothing.
pub proof fn clusters_begin_committed(world: World)
    requires
        world.begins(),
    ensures
        (Chronicle {
            world,
            books: Map::empty(),
            electors: Map::empty(),
            told: Map::empty(),
        }).sound(),
{
    let c = Chronicle {
            world,
            books: Map::empty(),
            electors: Map::empty(),
            told: Map::empty(),
        };
    clusters_begin_sound(world);
    let start = LogView { base_index: 0, base_term: 0, entries: Seq::empty() };
    assert forall|log: LogView| #[trigger] world.known(log) implies c.log_sound(log) by {
        assert(log == start);
        assert forall|x: u64, y: u64| #[trigger] c.logged(log, x, y) by {}
    }
    assert forall|node: NodeId, term: u64, index: u64| #[trigger]
        c.hold_sound(node, term, index) by {
        assert(!c.acked(node, term, index));
    }
    assert forall|id: NodeId| #[trigger] world.nodes.contains_key(id) implies c.node_kept(id) by {
        assert forall|term: u64, upto: u64| !c.holds(id, term, upto) by {
            assert(c.hold_sound(id, term, upto));
        }
    }
    assert forall|voter: NodeId, term: u64| #[trigger] c.vote_sound(voter, term) by {}
}

/// A leader that has committed an entry of its own term, and that a quorum has not
/// left behind, has committed as far as any node.
proof fn confirmed_leaders_are_not_behind(
    c: Chronicle,
    leader: NodeId,
    confirmed: Set<NodeId>,
    node: NodeId,
)
    requires
        c.sound(),
        c.world.nodes.contains_key(leader),
        c.world.nodes.contains_key(node),
        c.world.nodes[leader].role == Role::Leader,
        c.world.nodes[leader].log.term(c.world.nodes[leader].hard_state.commit_index) == Some(
            c.world.nodes[leader].hard_state.current_term,
        ),
        c.world.configuration.quorum(confirmed),
        forall|voter: NodeId| #[trigger]
            confirmed.contains(voter) && c.world.nodes.contains_key(voter)
                ==> c.world.nodes[voter].hard_state.current_term
                <= c.world.nodes[leader].hard_state.current_term,
    ensures
        c.world.nodes[node].hard_state.commit_index
            <= c.world.nodes[leader].hard_state.commit_index,
{
    let known = c.world.nodes[leader];
    let term = known.hard_state.current_term;
    let commit = known.hard_state.commit_index;
    let view = c.world.nodes[node];
    let index = view.hard_state.commit_index;
    assert(c.node_kept(leader));
    assert(c.node_kept(node));
    assert(c.world.known(known.log));
    if index > 0 {
        let (q, t) = choose|q: u64, t: u64| #[trigger]
            c.chosen(q, t) && t <= view.hard_state.current_term && index <= q && c.has_told(
                t,
                index,
            ) && c.full(view.log).take(index as int) == c.books[t].take(index as int);
        if t < term {
            leaders_have_what_was_chosen(c, q, t, term);
            chosen_is_shared(c, q, t, term);
            if commit > 0 {
                led_is_in_book(c, known.log, term, commit);
                if q >= commit {
                    let x = c.books[t];
                    let y = c.books[term];
                    assert(x.take(q as int)[commit - 1] == x[commit - 1]);
                    assert(y.take(q as int)[commit - 1] == y[commit - 1]);
                    assert(c.book_sound(t));
                    assert(c.line_sound(t, commit - 1));
                }
            }
        } else if t > term {
            let configuration = c.world.configuration;
            let holders = c.holders(q, t);
            quorums_intersect(configuration, holders, confirmed);
            let voter = choose|voter: NodeId|
                #![trigger configuration.incoming.contains(voter)]
                configuration.incoming.contains(voter) && holders.contains(voter)
                    && confirmed.contains(voter);
            let upto = choose|upto: u64| q <= upto && #[trigger] c.holds(voter, t, upto);
            assert(c.hold_sound(voter, t, upto));
        }
    }
}

/// One node has taken an input or has started again.
pub open spec fn moves(a: Chronicle, b: Chronicle) -> bool {
    ||| exists|id: NodeId, input: InputView| #[trigger]
        a.world.can_step(id, input) && b == a.stepped(id, input)
    ||| exists|id: NodeId| #[trigger] a.world.nodes.contains_key(id) && b == a.restarted(id)
}

/// A node that has been seen at a term was at no later one before.
proof fn terms_only_rise(history: Seq<Chronicle>, first: int, last: int, node: NodeId)
    requires
        0 <= first <= last < history.len(),
        history[first].sound(),
        forall|i: int|
            0 <= i < history.len() - 1 ==> moves(#[trigger] history[i], history[i + 1]),
        history[first].world.nodes.contains_key(node),
    ensures
        history[last].sound(),
        history[last].world.nodes.contains_key(node),
        history[first].world.nodes[node].hard_state.current_term
            <= history[last].world.nodes[node].hard_state.current_term,
    decreases last - first,
{
    if first < last {
        terms_only_rise(history, first, last - 1, node);
        let a = history[last - 1];
        let b = history[last - 1 + 1];
        assert(moves(a, b));
        if exists|id: NodeId, input: InputView| #[trigger]
            a.world.can_step(id, input) && b == a.stepped(id, input) {
            let (id, input) = choose|id: NodeId, input: InputView| #[trigger]
                a.world.can_step(id, input) && b == a.stepped(id, input);
            steps_keep_commits_sound(a, id, input);
            step_facts(a, id, input);
        } else {
            let id = choose|id: NodeId| #[trigger]
                a.world.nodes.contains_key(id) && b == a.restarted(id);
            restarts_keep_commits_sound(a, id);
        }
    }
}

/// A read misses nothing: when a leader that has committed an entry of its own term
/// is asked, and a quorum is later seen that has not gone beyond the term of the
/// leader, no node had committed more at the time of the question than the leader,
/// whose commit index is the index at which the read is answered.
pub proof fn reads_miss_nothing(
    history: Seq<Chronicle>,
    asked: int,
    leader: NodeId,
    confirmed: Map<NodeId, int>,
    node: NodeId,
)
    requires
        0 <= asked < history.len(),
        history[asked].sound(),
        forall|i: int|
            0 <= i < history.len() - 1 ==> moves(#[trigger] history[i], history[i + 1]),
        history[asked].world.nodes.contains_key(leader),
        history[asked].world.nodes.contains_key(node),
        history[asked].world.nodes[leader].role == Role::Leader,
        history[asked].world.nodes[leader].log.term(
            history[asked].world.nodes[leader].hard_state.commit_index,
        ) == Some(history[asked].world.nodes[leader].hard_state.current_term),
        history[asked].world.configuration.quorum(confirmed.dom()),
        forall|voter: NodeId| #[trigger]
            confirmed.contains_key(voter) ==> {
                let later = confirmed[voter];
                &&& asked <= later < history.len()
                &&& history[later].world.nodes[voter].hard_state.current_term
                    <= history[asked].world.nodes[leader].hard_state.current_term
            },
    ensures
        history[asked].world.nodes[node].hard_state.commit_index
            <= history[asked].world.nodes[leader].hard_state.commit_index,
{
    let c = history[asked];
    assert forall|voter: NodeId| #[trigger]
        confirmed.dom().contains(voter) && c.world.nodes.contains_key(
            voter,
        ) implies c.world.nodes[voter].hard_state.current_term
        <= c.world.nodes[leader].hard_state.current_term by {
        assert(confirmed.contains_key(voter));
        terms_only_rise(history, asked, confirmed[voter], voter);
    }
    confirmed_leaders_are_not_behind(c, leader, confirmed.dom(), node);
}

} // verus!
