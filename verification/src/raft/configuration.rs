//! The voters of a group, and what a quorum of them is.

use vstd::prelude::*;
use crate::model::Model;
use crate::ordmap::{OrdMap, OrdSet, lists};
use crate::types::NodeId;

verus! {

broadcast use crate::model::group_contents;

/// Why a configuration cannot be made.
#[derive(Debug, Clone, Copy, PartialEq, Eq, Structural)]
pub enum ConfigError {
    Empty,
    EmptyJointSide,
}

impl ConfigError {
    /// The error as people read it.
    pub open spec fn shown(self) -> Seq<char> {
        match self {
            ConfigError::Empty => "a Raft configuration must contain at least one voter"@,
            ConfigError::EmptyJointSide => {
                "both sides of a joint Raft configuration must contain a voter"@
            },
        }
    }

    /// The error as people read it.
    pub fn describe(&self) -> (text: String)
        ensures
            text@ == self.shown(),
    {
        match self {
            ConfigError::Empty => "a Raft configuration must contain at least one voter".to_owned(),
            ConfigError::EmptyJointSide => {
                "both sides of a joint Raft configuration must contain a voter".to_owned()
            },
        }
    }
}

/// The voters of a group. In a joint configuration a decision needs a majority
/// of the incoming voters and a majority of the outgoing ones.
#[derive(Debug, PartialEq, Eq)]
pub struct Configuration {
    participants: OrdSet<NodeId>,
    incoming: OrdSet<NodeId>,
    outgoing: Option<OrdSet<NodeId>>,
}

/// The content of a [`Configuration`].
#[verifier::ext_equal]
pub struct ConfigurationView {
    pub incoming: Set<NodeId>,
    pub outgoing: Option<Set<NodeId>>,
}

impl DeepView for Configuration {
    type V = ConfigurationView;

    closed spec fn deep_view(&self) -> ConfigurationView {
        ConfigurationView {
            incoming: self.incoming.deep_view(),
            outgoing: self.outgoing.deep_view(),
        }
    }
}

/// More than half of the members are among the votes.
pub open spec fn has_majority(members: Set<NodeId>, votes: Set<NodeId>) -> bool {
    2 * members.intersect(votes).len() > members.len()
}

impl ConfigurationView {
    /// All voters of either side.
    pub open spec fn voters(self) -> Set<NodeId> {
        match self.outgoing {
            Some(outgoing) => outgoing.union(self.incoming),
            None => self.incoming,
        }
    }

    /// Each side is a finite set of at least one voter.
    pub open spec fn valid(self) -> bool {
        &&& self.incoming.finite()
        &&& self.incoming.len() > 0
        &&& self.outgoing matches Some(outgoing) ==> outgoing.finite() && outgoing.len() > 0
    }

    /// The votes decide: they hold a majority of each side.
    pub open spec fn quorum(self, votes: Set<NodeId>) -> bool {
        &&& has_majority(self.incoming, votes)
        &&& self.outgoing matches Some(outgoing) ==> has_majority(outgoing, votes)
    }

    /// The voters that match the log up to an index.
    pub open spec fn reached(self, matched: Map<NodeId, u64>, index: u64) -> Set<NodeId> {
        self.voters().filter(|voter: NodeId| reach(matched, voter) >= index)
    }

    /// `index` is the highest that a quorum has reached.
    pub open spec fn is_quorum_index(self, matched: Map<NodeId, u64>, index: u64) -> bool {
        &&& self.quorum(self.reached(matched, index))
        &&& forall|higher: u64| higher > index ==> !self.quorum(#[trigger] self.reached(matched, higher))
    }

    /// The highest index that a quorum has reached.
    pub open spec fn quorum_index(self, matched: Map<NodeId, u64>) -> u64 {
        choose|index: u64| #[trigger] self.is_quorum_index(matched, index)
    }
}

/// The index up to which a node matches; one that is not known matches nothing.
pub open spec fn reach(matched: Map<NodeId, u64>, node: NodeId) -> u64 {
    if matched.contains_key(node) {
        matched[node]
    } else {
        0
    }
}

/// Two majorities of the same members share a member.
pub proof fn majorities_intersect(members: Set<NodeId>, a: Set<NodeId>, b: Set<NodeId>)
    requires
        members.finite(),
        has_majority(members, a),
        has_majority(members, b),
    ensures
        exists|node: NodeId|
            #![trigger members.contains(node)]
            members.contains(node) && a.contains(node) && b.contains(node),
{
    let x = members.intersect(a);
    let y = members.intersect(b);
    vstd::set_lib::lemma_len_subset(x, members);
    vstd::set_lib::lemma_len_subset(y, members);
    if x.disjoint(y) {
        vstd::set_lib::lemma_set_disjoint_lens(x, y);
        vstd::set_lib::lemma_len_subset(x.union(y), members);
    } else {
        let node = choose|node: NodeId| x.contains(node) && y.contains(node);
        assert(members.contains(node));
    }
}

/// Any two quorums of a configuration share a voter of every side.
pub proof fn quorums_intersect(configuration: ConfigurationView, a: Set<NodeId>, b: Set<NodeId>)
    requires
        configuration.valid(),
        configuration.quorum(a),
        configuration.quorum(b),
    ensures
        exists|node: NodeId|
            #![trigger configuration.incoming.contains(node)]
            configuration.incoming.contains(node) && a.contains(node) && b.contains(node),
        configuration.outgoing matches Some(outgoing) ==> exists|node: NodeId|
            #![trigger outgoing.contains(node)]
            outgoing.contains(node) && a.contains(node) && b.contains(node),
{
    majorities_intersect(configuration.incoming, a, b);
    if let Some(outgoing) = configuration.outgoing {
        majorities_intersect(outgoing, a, b);
    }
}

/// A quorum of a joint configuration is a quorum of each side by itself.
pub proof fn joint_quorum_holds_both_majorities(
    configuration: ConfigurationView,
    votes: Set<NodeId>,
)
    requires
        configuration.outgoing is Some,
        configuration.quorum(votes),
    ensures
        (ConfigurationView { incoming: configuration.incoming, outgoing: None }).quorum(votes),
        (ConfigurationView { incoming: configuration.outgoing->0, outgoing: None }).quorum(votes),
{
}

/// More votes do not undo a quorum.
pub proof fn quorum_grows(configuration: ConfigurationView, few: Set<NodeId>, many: Set<NodeId>)
    requires
        configuration.valid(),
        configuration.quorum(few),
        few.subset_of(many),
    ensures
        configuration.quorum(many),
{
    vstd::set_lib::lemma_len_subset(
        configuration.incoming.intersect(few),
        configuration.incoming.intersect(many),
    );
    if let Some(outgoing) = configuration.outgoing {
        vstd::set_lib::lemma_len_subset(outgoing.intersect(few), outgoing.intersect(many));
    }
}

proof fn highest_index_is_unique(
    configuration: ConfigurationView,
    matched: Map<NodeId, u64>,
    index: u64,
)
    requires
        configuration.is_quorum_index(matched, index),
    ensures
        configuration.quorum_index(matched) == index,
{
    let chosen = configuration.quorum_index(matched);
    assert(configuration.is_quorum_index(matched, chosen));
    if chosen < index {
        assert(!configuration.quorum(configuration.reached(matched, index)));
    }
    if chosen > index {
        assert(!configuration.quorum(configuration.reached(matched, chosen)));
    }
}

/// The quorum index is one that a quorum has reached.
pub proof fn quorum_index_is_reached(configuration: ConfigurationView, matched: Map<NodeId, u64>)
    requires
        configuration.valid(),
    ensures
        configuration.is_quorum_index(matched, configuration.quorum_index(matched)),
{
    all_voters_are_a_quorum(configuration);
    assert(configuration.reached(matched, 0) =~= configuration.voters());
    highest_reached(configuration, matched, 0, u64::MAX);
}

proof fn all_voters_are_a_quorum(configuration: ConfigurationView)
    requires
        configuration.valid(),
    ensures
        configuration.quorum(configuration.voters()),
{
    assert(configuration.incoming.intersect(configuration.voters()) =~= configuration.incoming);
    if let Some(outgoing) = configuration.outgoing {
        assert(outgoing.intersect(configuration.voters()) =~= outgoing);
    }
}

proof fn highest_reached(
    configuration: ConfigurationView,
    matched: Map<NodeId, u64>,
    low: u64,
    high: u64,
)
    requires
        low <= high,
        configuration.quorum(configuration.reached(matched, low)),
        forall|higher: u64|
            higher > high ==> !configuration.quorum(
                #[trigger] configuration.reached(matched, higher),
            ),
    ensures
        exists|index: u64| #[trigger] configuration.is_quorum_index(matched, index),
    decreases high - low,
{
    if configuration.quorum(configuration.reached(matched, high)) {
        assert(configuration.is_quorum_index(matched, high));
    } else {
        highest_reached(configuration, matched, low, (high - 1) as u64);
    }
}

/// A quorum that has reached an index has a voter among the given ones with
/// the lowest index of them.
proof fn lowest_reach(matched: Map<NodeId, u64>, nodes: Set<NodeId>) -> (lowest: NodeId)
    requires
        nodes.finite(),
        nodes.len() > 0,
    ensures
        nodes.contains(lowest),
        forall|node: NodeId| #[trigger]
            nodes.contains(node) ==> reach(matched, lowest) <= reach(matched, node),
    decreases nodes.len(),
{
    let node = nodes.choose();
    if nodes.len() == 1 {
        assert forall|other: NodeId| #[trigger] nodes.contains(other) implies other == node by {
            if other != node {
                assert(nodes.remove(node).contains(other));
                assert(nodes.remove(node).len() == 0);
            }
        }
        node
    } else {
        let rest = lowest_reach(matched, nodes.remove(node));
        if reach(matched, node) <= reach(matched, rest) {
            assert forall|other: NodeId| #[trigger] nodes.contains(other) implies reach(
                matched,
                node,
            ) <= reach(matched, other) by {
                if other != node {
                    assert(nodes.remove(node).contains(other));
                }
            }
            node
        } else {
            assert forall|other: NodeId| #[trigger] nodes.contains(other) implies reach(
                matched,
                rest,
            ) <= reach(matched, other) by {
                if other != node {
                    assert(nodes.remove(node).contains(other));
                }
            }
            rest
        }
    }
}

/// The common members of a set and the first `n` of a list.
spec fn common(listed: Seq<NodeId>, votes: Set<NodeId>, n: int) -> Set<NodeId> {
    listed.take(n).to_set().intersect(votes)
}

fn collect(nodes: &Vec<NodeId>) -> (set: OrdSet<NodeId>)
    ensures
        set.deep_view() == nodes@.to_set(),
{
    let mut set: OrdSet<NodeId> = OrdSet::new();
    let mut i: usize = 0;
    assert(nodes@.take(0).to_set() =~= Set::empty());
    while i < nodes.len()
        invariant
            i <= nodes@.len(),
            set.deep_view() == nodes@.take(i as int).to_set(),
        decreases nodes@.len() - i,
    {
        set.insert(nodes[i]);
        proof {
            let fewer = nodes@.take(i as int);
            let more = nodes@.take(i + 1);
            assert(more =~= fewer.push(nodes@[i as int]));
            assert forall|node: NodeId| more.to_set().contains(node) <==> fewer.to_set().insert(
                nodes@[i as int],
            ).contains(node) by {
                if fewer.contains(node) {
                    let k = fewer.index_of(node);
                    assert(more[k] == node);
                }
                assert(more[i as int] == nodes@[i as int]);
            }
            assert(more.to_set() =~= fewer.to_set().insert(nodes@[i as int]));
        }
        i = i + 1;
    }
    assert(nodes@.take(i as int) =~= nodes@);
    set
}

fn united(a: &OrdSet<NodeId>, b: &OrdSet<NodeId>) -> (set: OrdSet<NodeId>)
    ensures
        set.deep_view() == a.deep_view().union(b.deep_view()),
{
    let mut set = a.duplicate();
    let count: usize = b.len();
    let ghost listed = b.listed();
    let mut i: usize = 0;
    assert(set.deep_view() =~= a.deep_view().union(listed.take(0).to_set()));
    while i < count
        invariant
            i <= count,
            count == listed.len(),
            listed == b.listed(),
            set.deep_view() == a.deep_view().union(listed.take(i as int).to_set()),
        decreases count - i,
    {
        set.insert(*b.member_at(i));
        proof {
            let fewer = listed.take(i as int);
            let more = listed.take(i + 1);
            assert(more =~= fewer.push(listed[i as int]));
            assert forall|node: NodeId| more.to_set().contains(node) <==> fewer.to_set().insert(
                listed[i as int],
            ).contains(node) by {
                if fewer.contains(node) {
                    let k = fewer.index_of(node);
                    assert(more[k] == node);
                }
                assert(more[i as int] == listed[i as int]);
            }
            assert(set.deep_view() =~= a.deep_view().union(more.to_set()));
        }
        i = i + 1;
    }
    assert(listed.take(i as int) =~= listed);
    assert(listed.to_set() =~= b.deep_view());
    set
}

fn majority(members: &OrdSet<NodeId>, votes: &OrdSet<NodeId>) -> (decided: bool)
    ensures
        decided == has_majority(members.deep_view(), votes.deep_view()),
{
    let count: usize = members.len();
    let ghost listed = members.listed();
    let ghost cast = votes.deep_view();
    let mut common_votes: usize = 0;
    let mut i: usize = 0;
    assert(common(listed, cast, 0) =~= Set::empty());
    while i < count
        invariant
            i <= count,
            count == listed.len(),
            listed == members.listed(),
            lists::<NodeId>(listed, members.deep_view()),
            cast == votes.deep_view(),
            common(listed, cast, i as int).finite(),
            common_votes == common(listed, cast, i as int).len(),
            common_votes <= i,
        decreases count - i,
    {
        let member = members.member_at(i);
        let ghost fewer = listed.take(i as int);
        let ghost more = listed.take(i + 1);
        proof {
            assert(more =~= fewer.push(listed[i as int]));
            assert forall|node: NodeId| more.to_set().contains(node) <==> fewer.to_set().insert(
                listed[i as int],
            ).contains(node) by {
                if fewer.contains(node) {
                    let k = fewer.index_of(node);
                    assert(more[k] == node);
                }
                assert(more[i as int] == listed[i as int]);
            }
            if fewer.contains(listed[i as int]) {
                let k = fewer.index_of(listed[i as int]);
                assert(listed[k] == listed[i as int]);
                assert(<NodeId as crate::ordmap::Key>::before(listed[k], listed[i as int]));
            }
        }
        if votes.contains(member) {
            proof {
                assert(common(listed, cast, i + 1) =~= common(listed, cast, i as int).insert(
                    listed[i as int],
                ));
            }
            common_votes = common_votes + 1;
        } else {
            assert(common(listed, cast, i + 1) =~= common(listed, cast, i as int));
        }
        i = i + 1;
    }
    proof {
        assert(listed.take(i as int) =~= listed);
        assert(listed.to_set() =~= members.deep_view());
        assert(common(listed, cast, i as int) =~= members.deep_view().intersect(cast));
    }
    common_votes > count / 2
}

impl Configuration {
    #[verifier::type_invariant]
    pub(crate) closed spec fn consistent(self) -> bool {
        self.deep_view().valid() && self.participants.deep_view() == self.deep_view().voters()
    }

    /// A configuration with fixed voters.
    pub fn new(voters: Vec<NodeId>) -> (result: Result<Configuration, ConfigError>)
        ensures
            match result {
                Ok(configuration) => voters@.len() > 0 && configuration.deep_view() == (
                ConfigurationView { incoming: voters@.to_set(), outgoing: None })
                    && configuration.deep_view().valid(),
                Err(error) => voters@.len() == 0 && error == ConfigError::Empty,
            },
    {
        if voters.len() == 0 {
            return Err(ConfigError::Empty);
        }
        let set = collect(&voters);
        let count: usize = set.len();
        assert(set.deep_view().contains(voters@[0]));
        let configuration = Configuration {
            participants: set.duplicate(),
            incoming: set,
            outgoing: None,
        };
        Ok(configuration)
    }

    /// A group of one.
    pub(crate) fn single(id: NodeId) -> (configuration: Configuration)
        ensures
            configuration.deep_view() == (ConfigurationView {
                incoming: set![id],
                outgoing: None,
            }),
            configuration.deep_view().valid(),
    {
        let mut set: OrdSet<NodeId> = OrdSet::new();
        set.insert(id);
        let configuration = Configuration {
            participants: set.duplicate(),
            incoming: set,
            outgoing: None,
        };
        configuration
    }

    /// The joint phase between two sets of voters.
    pub fn joint(outgoing: Vec<NodeId>, incoming: Vec<NodeId>) -> (result: Result<
        Configuration,
        ConfigError,
    >)
        ensures
            match result {
                Ok(configuration) => outgoing@.len() > 0 && incoming@.len() > 0
                    && configuration.deep_view() == (ConfigurationView {
                    incoming: incoming@.to_set(),
                    outgoing: Some(outgoing@.to_set()),
                }) && configuration.deep_view().valid(),
                Err(error) => (outgoing@.len() == 0 || incoming@.len() == 0) && error
                    == ConfigError::EmptyJointSide,
            },
    {
        if outgoing.len() == 0 || incoming.len() == 0 {
            return Err(ConfigError::EmptyJointSide);
        }
        let outgoing_set = collect(&outgoing);
        let incoming_set = collect(&incoming);
        let old_count: usize = outgoing_set.len();
        let new_count: usize = incoming_set.len();
        assert(outgoing_set.deep_view().contains(outgoing@[0]));
        assert(incoming_set.deep_view().contains(incoming@[0]));
        let participants = united(&outgoing_set, &incoming_set);
        let configuration = Configuration {
            participants,
            incoming: incoming_set,
            outgoing: Some(outgoing_set),
        };
        Ok(configuration)
    }

    /// All voters of either side.
    pub fn voters(&self) -> (voters: &OrdSet<NodeId>)
        ensures
            voters.deep_view() == self.deep_view().voters(),
            self.deep_view().valid(),
    {
        proof {
            use_type_invariant(self);
        }
        &self.participants
    }

    pub fn incoming_voters(&self) -> (voters: &OrdSet<NodeId>)
        ensures
            voters.deep_view() == self.deep_view().incoming,
    {
        &self.incoming
    }

    pub fn outgoing_voters(&self) -> (voters: Option<&OrdSet<NodeId>>)
        ensures
            match voters {
                Some(voters) => self.deep_view().outgoing == Some(voters.deep_view()),
                None => self.deep_view().outgoing is None,
            },
    {
        self.outgoing.as_ref()
    }

    /// Whether two sets of voters decide together.
    pub fn is_joint(&self) -> (joint: bool)
        ensures
            joint == self.deep_view().outgoing is Some,
    {
        self.outgoing.is_some()
    }

    pub fn contains(&self, id: NodeId) -> (found: bool)
        ensures
            found == self.deep_view().voters().contains(id),
    {
        proof {
            use_type_invariant(self);
        }
        self.participants.contains(&id)
    }

    /// Whether the votes decide.
    pub fn quorum(&self, votes: &OrdSet<NodeId>) -> (decided: bool)
        ensures
            decided == self.deep_view().quorum(votes.deep_view()),
    {
        if !majority(&self.incoming, votes) {
            return false;
        }
        match &self.outgoing {
            Some(outgoing) => majority(outgoing, votes),
            None => true,
        }
    }

    fn reached(&self, matched: &OrdMap<NodeId, u64>, index: u64) -> (set: OrdSet<NodeId>)
        ensures
            set.deep_view() == self.deep_view().reached(matched.deep_view(), index),
    {
        proof {
            use_type_invariant(self);
        }
        let ghost map = matched.deep_view();
        let count: usize = self.participants.len();
        let ghost listed = self.participants.listed();
        let mut set: OrdSet<NodeId> = OrdSet::new();
        let mut i: usize = 0;
        assert(set.deep_view() =~= listed.take(0).to_set().filter(
            |voter: NodeId| reach(map, voter) >= index,
        ));
        while i < count
            invariant
                i <= count,
                count == listed.len(),
                listed == self.participants.listed(),
                map == matched.deep_view(),
                set.deep_view() == listed.take(i as int).to_set().filter(
                    |voter: NodeId| reach(map, voter) >= index,
                ),
            decreases count - i,
        {
            let voter = self.participants.member_at(i);
            let reach_of_voter: u64 = match matched.get(voter) {
                Some(reach) => *reach,
                None => 0,
            };
            let ghost before = set.deep_view();
            if reach_of_voter >= index {
                set.insert(*voter);
            }
            proof {
                let fewer = listed.take(i as int);
                let more = listed.take(i + 1);
                assert(more =~= fewer.push(listed[i as int]));
                assert forall|node: NodeId| more.to_set().contains(node)
                    <==> fewer.to_set().insert(listed[i as int]).contains(node) by {
                    if fewer.contains(node) {
                        let k = fewer.index_of(node);
                        assert(more[k] == node);
                    }
                    assert(more[i as int] == listed[i as int]);
                }
                assert(set.deep_view() =~= more.to_set().filter(
                    |voter: NodeId| reach(map, voter) >= index,
                ));
            }
            i = i + 1;
        }
        assert(listed.take(i as int) =~= listed);
        assert(listed.to_set() =~= self.participants.deep_view());
        set
    }

    /// The highest index that a quorum has reached, where `matched` says how
    /// far each voter has come.
    pub fn quorum_index(&self, matched: &OrdMap<NodeId, u64>) -> (index: u64)
        ensures
            index == self.deep_view().quorum_index(matched.deep_view()),
            self.deep_view().is_quorum_index(matched.deep_view(), index),
    {
        proof {
            use_type_invariant(self);
        }
        let ghost view = self.deep_view();
        let ghost map = matched.deep_view();
        let count: usize = self.participants.len();
        let ghost listed = self.participants.listed();
        let mut best: u64 = 0;
        let mut i: usize = 0;
        proof {
            all_voters_are_a_quorum(view);
            assert(view.reached(map, 0) =~= view.voters());
        }
        while i < count
            invariant
                i <= count,
                count == listed.len(),
                listed == self.participants.listed(),
                view == self.deep_view(),
                map == matched.deep_view(),
                view.quorum(view.reached(map, best)),
                forall|j: int|
                    0 <= j < i && view.quorum(view.reached(map, reach(map, #[trigger] listed[j])))
                        ==> reach(map, listed[j]) <= best,
            decreases count - i,
        {
            let voter = self.participants.member_at(i);
            let candidate: u64 = match matched.get(voter) {
                Some(reach) => *reach,
                None => 0,
            };
            if candidate > best {
                let voters = self.reached(matched, candidate);
                if self.quorum(&voters) {
                    best = candidate;
                }
            }
            i = i + 1;
        }
        proof {
            assert forall|higher: u64| higher > best implies !view.quorum(
                #[trigger] view.reached(map, higher),
            ) by {
                let voters = view.reached(map, higher);
                if view.quorum(voters) {
                    assert(voters.finite());
                    if voters.len() == 0 {
                        assert(view.incoming.intersect(voters) =~= Set::empty());
                    }
                    let lowest = lowest_reach(map, voters);
                    let index = reach(map, lowest);
                    assert(voters.subset_of(view.reached(map, index)));
                    quorum_grows(view, voters, view.reached(map, index));
                    assert(self.participants.deep_view().contains(lowest));
                    assert(listed.contains(lowest));
                    let j = listed.index_of(lowest);
                    assert(reach(map, listed[j]) <= best);
                }
            }
            highest_index_is_unique(view, map, best);
        }
        best
    }
}

impl Clone for Configuration {
    fn clone(&self) -> (copy: Self)
        ensures
            copy.deep_view() == self.deep_view(),
    {
        self.duplicate()
    }
}

impl Model for Configuration {
    fn duplicate(&self) -> (copy: Self) {
        proof {
            use_type_invariant(self);
        }
        let copy = Configuration {
            participants: self.participants.duplicate(),
            incoming: self.incoming.duplicate(),
            outgoing: self.outgoing.duplicate(),
        };
        copy
    }

    fn same(&self, other: &Self) -> (equal: bool) {
        self.incoming.same(&other.incoming) && self.outgoing.same(&other.outgoing)
    }
}

} // verus!
