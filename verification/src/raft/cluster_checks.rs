//! The safety properties of a simulated group, as checks.

use vstd::prelude::*;
use crate::checks::{first_of, first_stays, none_is_first};
use crate::digest::sha256;
use crate::model::Model;
use crate::ordmap::{Key, lists, ordered};
use crate::raft::cluster::{SimError, SimState, SimView, logs_match};
use crate::raft::disk::{EntryIdentity, SimDisk, SimDiskView, identity_of};
use crate::raft::log::LogView;
use crate::raft::violations::Violation;
use crate::types::NodeId;

verus! {

broadcast use crate::model::group_contents;

/// The log of a disk has no hole.
spec fn unbroken(disk: SimDiskView) -> bool {
    forall|i: int|
        0 <= i < disk.stable.entries.len() ==> (#[trigger] disk.stable.entries[i]).index
            == disk.log().base_index + 1 + i
}

proof fn unbroken_counts(disk: SimDiskView)
    requires
        unbroken(disk),
    ensures
        disk.log().contiguous(),
        disk.log().last_index() == disk.log().base_index + disk.stable.entries.len(),
{
    let log = disk.log();
    if log.entries.len() > 0 {
        assert(disk.stable.entries[log.entries.len() - 1].index == log.base_index
            + log.entries.len());
    }
}

fn entry_terms_agree(left: &SimDisk, right: &SimDisk, index: u64) -> (agree: bool)
    requires
        left.deep_view().log().entry(index) is Some,
        right.deep_view().log().entry(index) is Some,
    ensures
        agree == (left.deep_view().log().entry(index)->0.term == right.deep_view().log().entry(
            index,
        )->0.term),
{
    match (left.entry(index), right.entry(index)) {
        (Some(a), Some(b)) => a.term == b.term,
        _ => false,
    }
}

fn entries_agree(left: &SimDisk, right: &SimDisk, index: u64) -> (agree: bool)
    requires
        left.deep_view().log().entry(index) is Some,
        right.deep_view().log().entry(index) is Some,
    ensures
        agree == (identity_of(left.deep_view().log().entry(index)->0) == identity_of(
            right.deep_view().log().entry(index)->0,
        )),
{
    match (left.entry(index), right.entry(index)) {
        (Some(a), Some(b)) => EntryIdentity::of(a).same(&EntryIdentity::of(b)),
        _ => false,
    }
}

/// The term of the entry at an index.
pub open spec fn entry_term(log: LogView, index: u64) -> Option<u64> {
    match log.entry(index) {
        Some(entry) => Some(entry.term),
        None => None,
    }
}

/// The last index after `low` up to `high` where two logs agree on the term; `low` where
/// there is none.
pub open spec fn last_agreed(left: LogView, right: LogView, low: u64, high: u64) -> u64
    decreases high,
{
    if high <= low {
        low
    } else if entry_term(left, high) == entry_term(right, high) {
        high
    } else {
        last_agreed(left, right, low, (high - 1) as u64)
    }
}

/// The greater of two numbers.
pub open spec fn greater(a: u64, b: u64) -> u64 {
    if a < b {
        b
    } else {
        a
    }
}

/// The lesser of two numbers.
pub open spec fn lesser(a: u64, b: u64) -> u64 {
    if a < b {
        a
    } else {
        b
    }
}

impl SimView {
    /// The nodes with a disk, in order.
    pub open spec fn listed_disks(self) -> Seq<NodeId> {
        ordered::<NodeId>(self.disks.dom())
    }

    /// Whether the log of a node has a hole at a position.
    pub open spec fn hole_check(self, node: NodeId, i: int) -> Option<Violation> {
        let disk = self.disks[node];
        let expected = disk.log().base_index + 1 + i;
        if disk.stable.entries[i].index != expected {
            Some(
                Violation::LogHole {
                    node,
                    expected: expected as u128,
                    found: disk.stable.entries[i].index,
                },
            )
        } else {
            None
        }
    }

    pub open spec fn hole_checks(self, node: NodeId) -> spec_fn(int) -> Option<Violation> {
        |i: int| self.hole_check(node, i)
    }

    /// Whether the entry that a node applied, at a position among those, is another one
    /// than was committed.
    pub open spec fn applied_check(self, node: NodeId, i: int) -> Option<Violation> {
        let disk = self.disks[node];
        let index = ordered::<u64>(disk.applied.dom())[i];
        if index > disk.stable.applied_index {
            Some(Violation::FutureApplied { node, index })
        } else if self.committed.contains_key(index) && self.committed[index]
            != disk.applied[index] {
            Some(Violation::AppliedDifferent { node, index })
        } else {
            None
        }
    }

    pub open spec fn applied_checks(self, node: NodeId) -> spec_fn(int) -> Option<Violation> {
        |i: int| self.applied_check(node, i)
    }

    /// What is wrong with the disk of a node, seen alone.
    pub open spec fn disk_check(self, node: NodeId) -> Option<Violation> {
        let disk = self.disks[node];
        let applied = disk.stable.applied_index;
        let commit = disk.stable.hard_state.commit_index;
        if applied > commit {
            Some(Violation::AppliedBeyondCommit { node, applied, commit })
        } else if commit > disk.log().last_index() {
            Some(Violation::CommittedBeyondLog { node, commit, last: disk.log().last_index() })
        } else {
            match first_of(self.hole_checks(node), disk.stable.entries.len() as int) {
                Some(violation) => Some(violation),
                None => first_of(
                    self.applied_checks(node),
                    ordered::<u64>(disk.applied.dom()).len() as int,
                ),
            }
        }
    }

    pub open spec fn disk_checks(self) -> spec_fn(int) -> Option<Violation> {
        |i: int| self.disk_check(self.listed_disks()[i])
    }

    /// Where the shared part of two logs begins.
    pub open spec fn shared_from(self, left: NodeId, right: NodeId) -> u64 {
        greater(self.disks[left].log().base_index, self.disks[right].log().base_index)
    }

    /// The last index where two logs agree on the term.
    pub open spec fn shared_to(self, left: NodeId, right: NodeId) -> u64 {
        let (a, b) = (self.disks[left].log(), self.disks[right].log());
        last_agreed(a, b, self.shared_from(left, right), lesser(a.last_index(), b.last_index()))
    }

    /// Whether two logs differ at a position of their shared part.
    pub open spec fn prefix_check(self, left: NodeId, right: NodeId, i: int) -> Option<Violation> {
        let (a, b) = (self.disks[left].log(), self.disks[right].log());
        let index = self.shared_to(left, right);
        let prefix = (self.shared_from(left, right) + 1 + i) as u64;
        if a.entry(prefix) is Some && b.entry(prefix) is Some && identity_of(a.entry(prefix)->0)
            != identity_of(b.entry(prefix)->0) {
            Some(Violation::Diverged { left, right, index, term: a.entry(index)->0.term, prefix })
        } else {
            None
        }
    }

    pub open spec fn prefix_checks(self, left: NodeId, right: NodeId) -> spec_fn(int) -> Option<
        Violation,
    > {
        |i: int| self.prefix_check(left, right, i)
    }

    /// Whether the logs of two nodes agree up to the last term that they share.
    pub open spec fn matching_check(self, left: NodeId, right: NodeId) -> Option<Violation> {
        first_of(
            self.prefix_checks(left, right),
            self.shared_to(left, right) - self.shared_from(left, right),
        )
    }

    pub open spec fn pair_checks(self, i: int) -> spec_fn(int) -> Option<Violation> {
        |k: int|
            if k <= i {
                None
            } else {
                self.matching_check(self.listed_disks()[i], self.listed_disks()[k])
            }
    }

    pub open spec fn matching_checks(self) -> spec_fn(int) -> Option<Violation> {
        |i: int| first_of(self.pair_checks(i), self.listed_disks().len() as int)
    }

    /// Whether a node holds another entry in the place of a committed one, which is given
    /// by its position among those.
    pub open spec fn kept_check(self, node: NodeId, i: int) -> Option<Violation> {
        let disk = self.disks[node];
        let index = ordered::<u64>(self.committed.dom())[i];
        if disk.log().base_index < index <= disk.stable.hard_state.commit_index && index
            <= disk.log().last_index() && disk.known_identity(index) is Some
            && disk.known_identity(index)->0 != self.committed[index] {
            Some(Violation::ReplacedCommitted { node, index })
        } else {
            None
        }
    }

    pub open spec fn kept_checks(self, node: NodeId) -> spec_fn(int) -> Option<Violation> {
        |i: int| self.kept_check(node, i)
    }

    /// Whether a node keeps what was committed.
    pub open spec fn keeping_check(self, node: NodeId) -> Option<Violation> {
        first_of(self.kept_checks(node), ordered::<u64>(self.committed.dom()).len() as int)
    }

    pub open spec fn keeping_checks(self) -> spec_fn(int) -> Option<Violation> {
        |i: int| self.keeping_check(self.listed_disks()[i])
    }

    /// Whether two nodes that have applied as much have the same state.
    pub open spec fn state_check(self, left: NodeId, right: NodeId) -> Option<Violation> {
        let (a, b) = (self.disks[left], self.disks[right]);
        if a.stable.applied_index == b.stable.applied_index && sha256(a.state_bytes) != sha256(
            b.state_bytes,
        ) {
            Some(Violation::StatesDisagree { left, right, applied: a.stable.applied_index })
        } else {
            None
        }
    }

    pub open spec fn pair_state_checks(self, i: int) -> spec_fn(int) -> Option<Violation> {
        |k: int|
            if k <= i {
                None
            } else {
                self.state_check(self.listed_disks()[i], self.listed_disks()[k])
            }
    }

    pub open spec fn state_checks(self) -> spec_fn(int) -> Option<Violation> {
        |i: int| first_of(self.pair_state_checks(i), self.listed_disks().len() as int)
    }

    /// The first safety property that does not hold: of each disk alone, of the logs of
    /// each two nodes, of the committed entries on each disk, of the states of each two
    /// nodes.
    pub open spec fn violation(self) -> Option<Violation> {
        let count = self.listed_disks().len() as int;
        match first_of(self.disk_checks(), count) {
            Some(violation) => Some(violation),
            None => match first_of(self.matching_checks(), count) {
                Some(violation) => Some(violation),
                None => match first_of(self.keeping_checks(), count) {
                    Some(violation) => Some(violation),
                    None => first_of(self.state_checks(), count),
                },
            },
        }
    }
}

proof fn agreed_last(a: LogView, b: LogView, low: u64, high: u64)
    ensures
        ({
            let at = last_agreed(a, b, low, high);
            &&& low <= at
            &&& at <= high || at == low
            &&& at > low ==> entry_term(a, at) == entry_term(b, at)
            &&& forall|index: u64|
                at < index <= high ==> #[trigger] entry_term(a, index) != entry_term(b, index)
        }),
    decreases high,
{
    if high > low && entry_term(a, high) != entry_term(b, high) {
        agreed_last(a, b, low, (high - 1) as u64);
    }
}

impl SimView {
    /// The logs of two nodes match where no position of their shared part differs.
    proof fn matching(self, left: NodeId, right: NodeId)
        requires
            unbroken(self.disks[left]),
            unbroken(self.disks[right]),
        ensures
            self.matching_check(left, right) is None <==> logs_match(
                self.disks[left].log(),
                self.disks[right].log(),
            ),
    {
        let (a, b) = (self.disks[left].log(), self.disks[right].log());
        let low = self.shared_from(left, right);
        let high = lesser(a.last_index(), b.last_index());
        let at = self.shared_to(left, right);
        let checks = self.prefix_checks(left, right);
        unbroken_counts(self.disks[left]);
        unbroken_counts(self.disks[right]);
        agreed_last(a, b, low, high);
        none_is_first(checks, at - low);
        assert forall|index: u64|
            low < index <= high <==> #[trigger] a.entry(index) is Some && b.entry(index) is Some by {}
        if self.matching_check(left, right) is None {
            assert forall|index: u64, below: u64|
                #![trigger a.entry(index), a.entry(below)]
                below <= index && a.entry(index) is Some && b.entry(index) is Some && a.entry(
                    index,
                )->0.term == b.entry(index)->0.term && a.entry(below) is Some && b.entry(
                    below,
                ) is Some implies identity_of(a.entry(below)->0) == identity_of(
                b.entry(below)->0,
            ) by {
                assert(entry_term(a, index) == entry_term(b, index));
                assert(index <= at);
                assert(checks(below - low - 1) is None);
            }
        } else {
            let i = choose|i: int| 0 <= i < at - low && (#[trigger] checks(i)) is Some;
            let below = (low + 1 + i) as u64;
            assert(entry_term(a, at) == entry_term(b, at));
            assert(a.entry(at) is Some && a.entry(below) is Some);
        }
    }
}

/// What is wrong with the shared part of the logs of two nodes.
fn matching_violation(
    state: Ghost<SimView>,
    left_id: NodeId,
    left: &SimDisk,
    right_id: NodeId,
    right: &SimDisk,
) -> (violation: Option<Violation>)
    requires
        state@.disks[left_id] == left.deep_view(),
        state@.disks[right_id] == right.deep_view(),
        unbroken(left.deep_view()),
        unbroken(right.deep_view()),
    ensures
        violation == state@.matching_check(left_id, right_id),
{
    let ghost a = left.deep_view().log();
    let ghost b = right.deep_view().log();
    let ghost checks = state@.prefix_checks(left_id, right_id);
    proof {
        unbroken_counts(left.deep_view());
        unbroken_counts(right.deep_view());
    }
    let (left_base, right_base) = (left.base_index(), right.base_index());
    let (left_last, right_last) = (left.last_index(), right.last_index());
    let low: u64 = if left_base < right_base {
        right_base
    } else {
        left_base
    };
    let high: u64 = if left_last < right_last {
        left_last
    } else {
        right_last
    };
    let mut boundary: u64 = if low < high {
        high
    } else {
        low
    };
    assert forall|index: u64|
        low < index <= high <==> #[trigger] a.entry(index) is Some && b.entry(index) is Some by {}
    while boundary > low && !entry_terms_agree(left, right, boundary)
        invariant
            a == left.deep_view().log(),
            b == right.deep_view().log(),
            low <= boundary,
            boundary <= high || boundary == low,
            forall|index: u64|
                low < index <= high <==> #[trigger] a.entry(index) is Some && b.entry(index) is Some,
            last_agreed(a, b, low, high) == last_agreed(a, b, low, boundary),
        decreases boundary,
    {
        boundary = boundary - 1;
    }
    assert(boundary == state@.shared_to(left_id, right_id));
    let mut index: u64 = low;
    while index < boundary
        invariant
            a == left.deep_view().log(),
            b == right.deep_view().log(),
            a == state@.disks[left_id].log(),
            b == state@.disks[right_id].log(),
            checks == state@.prefix_checks(left_id, right_id),
            low <= index <= boundary,
            low == state@.shared_from(left_id, right_id),
            boundary == state@.shared_to(left_id, right_id),
            boundary <= high || boundary == low,
            forall|at: u64|
                low < at <= high <==> #[trigger] a.entry(at) is Some && b.entry(at) is Some,
            first_of(checks, index - low) is None,
        decreases boundary - index,
    {
        index = index + 1;
        assert(a.entry(index) is Some && b.entry(index) is Some);
        assert(a.entry(boundary) is Some);
        assert(checks(index - low - 1) == state@.prefix_check(left_id, right_id, index - low - 1));
        if !entries_agree(left, right, index) {
            let term: u64 = match left.entry(boundary) {
                Some(entry) => entry.term,
                None => 0,
            };
            proof {
                first_stays(checks, index - low, boundary - low);
            }
            return Some(
                Violation::Diverged {
                    left: left_id,
                    right: right_id,
                    index: boundary,
                    term,
                    prefix: index,
                },
            );
        }
    }
    None
}

impl SimState {
    /// What is wrong with the disk of a node, seen alone.
    fn disk_violation(&self, node: NodeId, disk: &SimDisk) -> (violation: Option<Violation>)
        requires
            self.content().disks[node] == disk.deep_view(),
        ensures
            violation == self.content().disk_check(node),
            violation is None <==> self.content().disk_sound(disk.deep_view()),
    {
        let ghost state = self.content();
        let ghost view = disk.deep_view();
        let ghost holes = state.hole_checks(node);
        let ghost others = state.applied_checks(node);
        let applied = disk.stable.applied_index;
        let commit = disk.stable.hard_state.commit_index;
        let last = disk.last_index();
        if applied > commit {
            return Some(Violation::AppliedBeyondCommit { node, applied, commit });
        }
        if commit > last {
            return Some(Violation::CommittedBeyondLog { node, commit, last });
        }
        let base_index = disk.base_index();
        let mut i: usize = 0;
        while i < disk.stable.entries.len()
            invariant
                i <= disk.stable.entries@.len(),
                state == self.content(),
                view == disk.deep_view(),
                view.stable.applied_index <= view.stable.hard_state.commit_index,
                view.stable.hard_state.commit_index <= view.log().last_index(),
                view == state.disks[node],
                holes == state.hole_checks(node),
                base_index == view.log().base_index,
                first_of(holes, i as int) is None,
                forall|j: int|
                    0 <= j < i ==> (#[trigger] view.stable.entries[j]).index == base_index + 1 + j,
            decreases disk.stable.entries@.len() - i,
        {
            let found: u64 = disk.stable.entries[i].index;
            let expected: u128 = base_index as u128 + 1 + i as u128;
            assert(view.stable.entries[i as int] == disk.stable.entries@[i as int].deep_view());
            assert(holes(i as int) == state.hole_check(node, i as int));
            if found as u128 != expected {
                proof {
                    first_stays(holes, i + 1, view.stable.entries.len() as int);
                }
                return Some(Violation::LogHole { node, expected, found });
            }
            i = i + 1;
        }
        let count: usize = disk.applied.len();
        let ghost listed = disk.applied.keys();
        let mut k: usize = 0;
        while k < count
            invariant
                k <= count,
                count == listed.len(),
                listed == disk.applied.keys(),
                listed == ordered::<u64>(view.applied.dom()),
                lists::<u64>(listed, disk.applied.deep_view().dom()),
                state == self.content(),
                view == disk.deep_view(),
                view == state.disks[node],
                view.stable.applied_index <= view.stable.hard_state.commit_index,
                view.stable.hard_state.commit_index <= view.log().last_index(),
                first_of(state.hole_checks(node), view.stable.entries.len() as int) is None,
                others == state.applied_checks(node),
                first_of(others, k as int) is None,
                forall|j: int|
                    0 <= j < k ==> (#[trigger] listed[j]) <= view.stable.applied_index && (
                    state.committed.contains_key(listed[j]) ==> state.committed[listed[j]]
                        == view.applied[listed[j]]),
            decreases count - k,
        {
            let index = *disk.applied.key_at(k);
            let identity = disk.applied.value_at(k);
            assert(view.applied.contains_key(index));
            assert(others(k as int) == state.applied_check(node, k as int));
            if index > disk.stable.applied_index {
                proof {
                    first_stays(others, k + 1, count as int);
                }
                return Some(Violation::FutureApplied { node, index });
            }
            if let Some(committed) = self.committed.get(&index) {
                if !committed.same(identity) {
                    proof {
                        first_stays(others, k + 1, count as int);
                    }
                    return Some(Violation::AppliedDifferent { node, index });
                }
            }
            k = k + 1;
        }
        proof {
            assert forall|index: u64| #[trigger] view.applied.contains_key(index) implies index
                <= view.stable.applied_index && (state.committed.contains_key(index)
                ==> state.committed[index] == view.applied[index]) by {
                assert(view.applied.dom().contains(index));
                assert(listed.contains(index));
                let j = listed.index_of(index);
                assert(listed[j] == index);
            }
        }
        None
    }

    /// What a node holds in the place of a committed entry.
    fn keeping_violation(&self, node: NodeId, disk: &SimDisk) -> (violation: Option<Violation>)
        requires
            self.content().disks[node] == disk.deep_view(),
        ensures
            violation == self.content().keeping_check(node),
            violation is None <==> self.content().disk_keeps_committed(disk.deep_view()),
    {
        let ghost state = self.content();
        let ghost view = disk.deep_view();
        let ghost checks = state.kept_checks(node);
        let count: usize = self.committed.len();
        let ghost listed = self.committed.keys();
        let mut k: usize = 0;
        while k < count
            invariant
                k <= count,
                count == listed.len(),
                listed == self.committed.keys(),
                listed == ordered::<u64>(state.committed.dom()),
                lists::<u64>(listed, self.committed.deep_view().dom()),
                state == self.content(),
                view == disk.deep_view(),
                view == state.disks[node],
                checks == state.kept_checks(node),
                first_of(checks, k as int) is None,
                forall|j: int|
                    0 <= j < k && view.log().base_index < #[trigger] listed[j]
                        <= view.stable.hard_state.commit_index && listed[j]
                        <= view.log().last_index() ==> (view.known_identity(
                        listed[j],
                    ) matches Some(identity) ==> identity == state.committed[listed[j]]),
            decreases count - k,
        {
            let index = *self.committed.key_at(k);
            let committed = self.committed.value_at(k);
            assert(state.committed.contains_key(index));
            assert(checks(k as int) == state.kept_check(node, k as int));
            if index > disk.base_index() && index <= disk.stable.hard_state.commit_index && index
                <= disk.last_index() {
                if let Some(identity) = disk.known_identity(index) {
                    if !identity.same(committed) {
                        proof {
                            first_stays(checks, k + 1, count as int);
                        }
                        return Some(Violation::ReplacedCommitted { node, index });
                    }
                }
            }
            k = k + 1;
        }
        proof {
            assert forall|index: u64| #[trigger]
                state.committed.contains_key(index) && view.log().base_index < index
                    <= view.stable.hard_state.commit_index && index
                    <= view.log().last_index() implies (view.known_identity(
                index,
            ) matches Some(identity) ==> identity == state.committed[index]) by {
                assert(state.committed.dom().contains(index));
                assert(listed.contains(index));
                let j = listed.index_of(index);
                assert(listed[j] == index);
            }
        }
        None
    }

    /// The first disk that is wrong, seen alone.
    fn first_disk_violation(&self) -> (violation: Option<Violation>)
        ensures
            violation == first_of(
                self.content().disk_checks(),
                self.content().listed_disks().len() as int,
            ),
            violation is None <==> self.content().disks_sound(),
    {
        let ghost state = self.content();
        let ghost listed = state.listed_disks();
        let ghost checks = state.disk_checks();
        let count: usize = self.disks.len();
        let mut i: usize = 0;
        while i < count
            invariant
                i <= count,
                count == listed.len(),
                state == self.content(),
                listed == state.listed_disks(),
                lists::<NodeId>(listed, state.disks.dom()),
                checks == state.disk_checks(),
                first_of(checks, i as int) is None,
                forall|k: int| 0 <= k < i ==> state.disk_sound(state.disks[#[trigger] listed[k]]),
            decreases count - i,
        {
            let node = *self.disks.key_at(i);
            let disk = self.disks.value_at(i);
            assert(state.disks.contains_key(listed[i as int]));
            assert(checks(i as int) == state.disk_check(node));
            let violation = self.disk_violation(node, disk);
            if violation.is_some() {
                proof {
                    first_stays(checks, i + 1, count as int);
                    assert(!state.disk_sound(state.disks[listed[i as int]]));
                }
                return violation;
            }
            i = i + 1;
        }
        None
    }

    /// The first two nodes whose logs do not match.
    fn first_matching_violation(&self) -> (violation: Option<Violation>)
        requires
            self.content().disks_sound(),
        ensures
            violation == first_of(
                self.content().matching_checks(),
                self.content().listed_disks().len() as int,
            ),
            violation is None <==> self.content().logs_matching(),
    {
        let ghost state = self.content();
        let ghost listed = state.listed_disks();
        let ghost checks = state.matching_checks();
        let count: usize = self.disks.len();
        let mut i: usize = 0;
        while i < count
            invariant
                i <= count,
                count == listed.len(),
                state == self.content(),
                state.disks_sound(),
                listed == state.listed_disks(),
                lists::<NodeId>(listed, state.disks.dom()),
                checks == state.matching_checks(),
                first_of(checks, i as int) is None,
                forall|j: int, k: int|
                    0 <= j < i && j < k < count ==> #[trigger] state.pair_matches(j, k),
            decreases count - i,
        {
            let left_id = *self.disks.key_at(i);
            let left = self.disks.value_at(i);
            let ghost pairs = state.pair_checks(i as int);
            let mut k: usize = 0;
            while k < count
                invariant
                    i < count,
                    k <= count,
                    count == listed.len(),
                    state == self.content(),
                    state.disks_sound(),
                    listed == state.listed_disks(),
                    lists::<NodeId>(listed, state.disks.dom()),
                    left_id == listed[i as int],
                    left.deep_view() == state.disks[left_id],
                    checks == state.matching_checks(),
                    first_of(checks, i as int) is None,
                    pairs == state.pair_checks(i as int),
                    first_of(pairs, k as int) is None,
                    forall|j: int| i < j < k ==> #[trigger] state.pair_matches(i as int, j),
                decreases count - k,
            {
                if i < k {
                    let right_id = *self.disks.key_at(k);
                    let right = self.disks.value_at(k);
                    assert(state.disks.contains_key(listed[i as int]));
                    assert(state.disks.contains_key(listed[k as int]));
                    assert(pairs(k as int) == state.matching_check(left_id, right_id));
                    let violation = matching_violation(
                        Ghost(state),
                        left_id,
                        left,
                        right_id,
                        right,
                    );
                    proof {
                        state.matching(left_id, right_id);
                    }
                    if violation.is_some() {
                        proof {
                            first_stays(pairs, k + 1, count as int);
                            assert(checks(i as int) == violation);
                            first_stays(checks, i + 1, count as int);
                            state.pair_unmatched(i as int, k as int);
                        }
                        return violation;
                    }
                } else {
                    assert(pairs(k as int) is None);
                }
                k = k + 1;
            }
            assert(checks(i as int) is None);
            i = i + 1;
        }
        proof {
            state.pairs_matching();
        }
        None
    }

    /// The first node that does not keep what was committed.
    fn first_keeping_violation(&self) -> (violation: Option<Violation>)
        ensures
            violation == first_of(
                self.content().keeping_checks(),
                self.content().listed_disks().len() as int,
            ),
            violation is None <==> self.content().commits_kept(),
    {
        let ghost state = self.content();
        let ghost listed = state.listed_disks();
        let ghost checks = state.keeping_checks();
        let count: usize = self.disks.len();
        let mut i: usize = 0;
        while i < count
            invariant
                i <= count,
                count == listed.len(),
                state == self.content(),
                listed == state.listed_disks(),
                lists::<NodeId>(listed, state.disks.dom()),
                checks == state.keeping_checks(),
                first_of(checks, i as int) is None,
                forall|k: int|
                    0 <= k < i ==> state.disk_keeps_committed(state.disks[#[trigger] listed[k]]),
            decreases count - i,
        {
            let node = *self.disks.key_at(i);
            let disk = self.disks.value_at(i);
            assert(state.disks.contains_key(listed[i as int]));
            assert(checks(i as int) == state.keeping_check(node));
            let violation = self.keeping_violation(node, disk);
            if violation.is_some() {
                proof {
                    first_stays(checks, i + 1, count as int);
                    assert(!state.disk_keeps_committed(state.disks[listed[i as int]]));
                }
                return violation;
            }
            i = i + 1;
        }
        None
    }

    /// The first two nodes that have applied as much and have different states.
    fn first_state_violation(&self) -> (violation: Option<Violation>)
        ensures
            violation == first_of(
                self.content().state_checks(),
                self.content().listed_disks().len() as int,
            ),
            violation is None <==> self.content().states_agree(),
    {
        let ghost state = self.content();
        let ghost listed = state.listed_disks();
        let ghost checks = state.state_checks();
        let count: usize = self.disks.len();
        let mut i: usize = 0;
        while i < count
            invariant
                i <= count,
                count == listed.len(),
                state == self.content(),
                listed == state.listed_disks(),
                lists::<NodeId>(listed, state.disks.dom()),
                checks == state.state_checks(),
                first_of(checks, i as int) is None,
                forall|j: int, k: int|
                    0 <= j < i && j < k < count ==> #[trigger] state.pair_agrees(j, k),
            decreases count - i,
        {
            let left_id = *self.disks.key_at(i);
            let left = self.disks.value_at(i);
            let ghost pairs = state.pair_state_checks(i as int);
            let mut k: usize = 0;
            while k < count
                invariant
                    i < count,
                    k <= count,
                    count == listed.len(),
                    state == self.content(),
                    listed == state.listed_disks(),
                    lists::<NodeId>(listed, state.disks.dom()),
                    left_id == listed[i as int],
                    left.deep_view() == state.disks[left_id],
                    checks == state.state_checks(),
                    first_of(checks, i as int) is None,
                    pairs == state.pair_state_checks(i as int),
                    first_of(pairs, k as int) is None,
                    forall|j: int| i < j < k ==> #[trigger] state.pair_agrees(i as int, j),
                decreases count - k,
            {
                if i < k {
                    let right_id = *self.disks.key_at(k);
                    let right = self.disks.value_at(k);
                    assert(pairs(k as int) == state.state_check(left_id, right_id));
                    let applied = left.stable.applied_index;
                    if applied == right.stable.applied_index {
                        let (a, b) = (left.state_hash(), right.state_hash());
                        if !a.same(&b) {
                            let violation = Some(
                                Violation::StatesDisagree {
                                    left: left_id,
                                    right: right_id,
                                    applied,
                                },
                            );
                            proof {
                                first_stays(pairs, k + 1, count as int);
                                assert(checks(i as int) == violation);
                                first_stays(checks, i + 1, count as int);
                                state.pair_disagrees(i as int, k as int);
                            }
                            return violation;
                        }
                    }
                } else {
                    assert(pairs(k as int) is None);
                }
                k = k + 1;
            }
            assert(checks(i as int) is None);
            i = i + 1;
        }
        proof {
            state.pairs_agree();
        }
        None
    }

    /// Checks the safety properties of the group.
    pub(crate) fn assert_invariants(&self) -> (result: Result<(), SimError>)
        ensures
            result is Ok == self.content().safe(),
            result is Ok <==> self.content().violation() is None,
            result matches Err(error) ==> self.content().violated(self.content().violation()->0)
                == self.content().stopped(error.deep_view()),
    {
        if let Some(violation) = self.first_disk_violation() {
            return Err(self.violation_error(violation));
        }
        if let Some(violation) = self.first_matching_violation() {
            return Err(self.violation_error(violation));
        }
        if let Some(violation) = self.first_keeping_violation() {
            return Err(self.violation_error(violation));
        }
        if let Some(violation) = self.first_state_violation() {
            return Err(self.violation_error(violation));
        }
        Ok(())
    }
}

impl SimView {
    spec fn pair_matches(self, i: int, k: int) -> bool {
        let listed = self.listed_disks();
        logs_match(self.disks[listed[i]].log(), self.disks[listed[k]].log())
    }

    spec fn pair_agrees(self, i: int, k: int) -> bool {
        let (left, right) = (self.disks[self.listed_disks()[i]], self.disks[self.listed_disks()[k]]);
        left.stable.applied_index == right.stable.applied_index ==> sha256(left.state_bytes)
            == sha256(right.state_bytes)
    }

    /// Two nodes in order stand in order on the list.
    proof fn positions_of(self, left: NodeId, right: NodeId) -> (positions: (int, int))
        requires
            lists::<NodeId>(self.listed_disks(), self.disks.dom()),
            left < right,
            self.disks.contains_key(left),
            self.disks.contains_key(right),
        ensures
            0 <= positions.0 < positions.1 < self.listed_disks().len(),
            self.listed_disks()[positions.0] == left,
            self.listed_disks()[positions.1] == right,
    {
        let listed = self.listed_disks();
        assert(self.disks.dom().contains(left) && self.disks.dom().contains(right));
        assert(listed.contains(left) && listed.contains(right));
        let i = listed.index_of(left);
        let k = listed.index_of(right);
        assert(listed[i] == left && listed[k] == right);
        if k < i {
            assert(<NodeId as Key>::before(listed[k], listed[i]));
        }
        (i, k)
    }

    /// Nodes at two positions in order are in order.
    proof fn positions_in_order(self, i: int, k: int)
        requires
            lists::<NodeId>(self.listed_disks(), self.disks.dom()),
            0 <= i < k < self.listed_disks().len(),
        ensures
            self.listed_disks()[i] < self.listed_disks()[k],
            self.disks.contains_key(self.listed_disks()[i]),
            self.disks.contains_key(self.listed_disks()[k]),
    {
        let listed = self.listed_disks();
        assert(listed.contains(listed[i]) && listed.contains(listed[k]));
        assert(self.disks.dom().contains(listed[i]) && self.disks.dom().contains(listed[k]));
        assert(<NodeId as Key>::before(listed[i], listed[k]));
    }

    proof fn pairs_matching(self)
        requires
            lists::<NodeId>(self.listed_disks(), self.disks.dom()),
            forall|i: int, k: int|
                0 <= i < k < self.listed_disks().len() ==> #[trigger] self.pair_matches(i, k),
        ensures
            self.logs_matching(),
    {
        assert forall|left: NodeId, right: NodeId|
            left < right && #[trigger] self.disks.contains_key(left)
                && #[trigger] self.disks.contains_key(right) implies logs_match(
            self.disks[left].log(),
            self.disks[right].log(),
        ) by {
            let (i, k) = self.positions_of(left, right);
            assert(self.pair_matches(i, k));
        }
    }

    proof fn pair_unmatched(self, i: int, k: int)
        requires
            lists::<NodeId>(self.listed_disks(), self.disks.dom()),
            0 <= i < k < self.listed_disks().len(),
            !self.pair_matches(i, k),
        ensures
            !self.logs_matching(),
    {
        self.positions_in_order(i, k);
    }

    proof fn pairs_agree(self)
        requires
            lists::<NodeId>(self.listed_disks(), self.disks.dom()),
            forall|i: int, k: int|
                0 <= i < k < self.listed_disks().len() ==> #[trigger] self.pair_agrees(i, k),
        ensures
            self.states_agree(),
    {
        assert forall|left: NodeId, right: NodeId|
            left < right && #[trigger] self.disks.contains_key(left)
                && #[trigger] self.disks.contains_key(right) && self.disks[left].stable.applied_index
                == self.disks[right].stable.applied_index implies sha256(
            self.disks[left].state_bytes,
        ) == sha256(self.disks[right].state_bytes) by {
            let (i, k) = self.positions_of(left, right);
            assert(self.pair_agrees(i, k));
        }
    }

    proof fn pair_disagrees(self, i: int, k: int)
        requires
            lists::<NodeId>(self.listed_disks(), self.disks.dom()),
            0 <= i < k < self.listed_disks().len(),
            !self.pair_agrees(i, k),
        ensures
            !self.states_agree(),
    {
        self.positions_in_order(i, k);
    }
}

} // verus!
