//! The log behind a snapshot.

use vstd::prelude::*;
use crate::model::Model;
use crate::raft::types::{
    LogEntry, LogEntryView, PersistentSnapshot, PersistentSnapshotView,
};

verus! {

broadcast use crate::model::group_contents;

/// The entries after a snapshot, or after the start.
#[derive(Debug, Clone)]
pub struct RaftLog {
    base_index: u64,
    base_term: u64,
    entries: Vec<LogEntry>,
}

/// The content of a [`RaftLog`].
#[verifier::ext_equal]
pub struct LogView {
    pub base_index: u64,
    pub base_term: u64,
    pub entries: Seq<LogEntryView>,
}

impl DeepView for RaftLog {
    type V = LogView;

    closed spec fn deep_view(&self) -> LogView {
        LogView {
            base_index: self.base_index,
            base_term: self.base_term,
            entries: self.entries.deep_view(),
        }
    }
}

impl LogView {
    /// The indexes go up one by one from the base, and fit the machine.
    pub open spec fn contiguous(self) -> bool {
        &&& self.base_index + self.entries.len() <= u64::MAX
        &&& forall|i: int|
            0 <= i < self.entries.len() ==> (#[trigger] self.entries[i]).index == self.base_index
                + 1 + i
    }

    /// Terms never go down, and none is above `current`.
    pub open spec fn terms_ordered(self, current: u64) -> bool {
        &&& self.base_term <= current
        &&& forall|i: int|
            0 <= i < self.entries.len() ==> self.base_term <= (#[trigger] self.entries[i]).term
                <= current
        &&& forall|i: int, j: int|
            0 <= i < j < self.entries.len() ==> (#[trigger] self.entries[i]).term <= (
            #[trigger] self.entries[j]).term
    }

    pub open spec fn last_index(self) -> u64 {
        if self.entries.len() == 0 {
            self.base_index
        } else {
            self.entries.last().index
        }
    }

    pub open spec fn last_term(self) -> u64 {
        if self.entries.len() == 0 {
            self.base_term
        } else {
            self.entries.last().term
        }
    }

    /// The entry at an index, if the log holds it.
    pub open spec fn entry(self, index: u64) -> Option<LogEntryView> {
        if self.base_index < index <= self.base_index + self.entries.len() {
            Some(self.entries[index - self.base_index - 1])
        } else {
            None
        }
    }

    /// The term at an index, if the log knows it.
    pub open spec fn term(self, index: u64) -> Option<u64> {
        if index == self.base_index {
            Some(self.base_term)
        } else {
            match self.entry(index) {
                Some(entry) => Some(entry.term),
                None => None,
            }
        }
    }

    /// At most `limit` entries from an index on.
    pub open spec fn entries_from(self, index: u64, limit: int) -> Seq<LogEntryView> {
        let offset = index - self.base_index - 1;
        if offset < 0 || offset > self.entries.len() {
            Seq::empty()
        } else {
            let rest = self.entries.skip(offset);
            if limit < rest.len() {
                rest.take(limit)
            } else {
                rest
            }
        }
    }

    /// The log with more entries at its end.
    pub open spec fn appended(self, entries: Seq<LogEntryView>) -> LogView {
        LogView { entries: self.entries + entries, ..self }
    }

    /// The log with the entries from an index on replaced.
    pub open spec fn replaced_from(self, from: u64, entries: Seq<LogEntryView>) -> LogView {
        LogView { entries: self.entries.take(from - self.base_index - 1) + entries, ..self }
    }

    /// The lowest index of the run of a term that ends at `index`.
    pub open spec fn first_index_of_term(self, index: u64, term: u64) -> u64
        decreases index,
    {
        if index > self.base_index && self.term((index - 1) as u64) == Some(term) {
            self.first_index_of_term((index - 1) as u64, term)
        } else {
            index
        }
    }

    /// The highest index of a term among the first `n` entries and the base.
    pub open spec fn last_of_term(self, term: u64, n: int) -> Option<u64>
        decreases n,
    {
        if n <= 0 {
            if self.base_term == term {
                Some(self.base_index)
            } else {
                None
            }
        } else if self.entries[n - 1].term == term {
            Some(self.entries[n - 1].index)
        } else {
            self.last_of_term(term, n - 1)
        }
    }

    pub open spec fn last_index_of_term(self, term: u64) -> Option<u64> {
        self.last_of_term(term, self.entries.len() as int)
    }

    /// The log behind a new base, with the entries after it where they are
    /// kept.
    pub open spec fn compacted(self, index: u64, term: u64, retain_suffix: bool) -> LogView {
        LogView {
            base_index: index,
            base_term: term,
            entries: if retain_suffix {
                self.entries.skip(index - self.base_index)
            } else {
                Seq::empty()
            },
        }
    }
}

/// The log that stored state describes.
pub open spec fn stored_log(
    snapshot: Option<PersistentSnapshotView>,
    entries: Seq<LogEntryView>,
) -> LogView {
    match snapshot {
        Some(snapshot) => LogView {
            base_index: snapshot.metadata.last_included_index,
            base_term: snapshot.metadata.last_included_term,
            entries,
        },
        None => LogView { base_index: 0, base_term: 0, entries },
    }
}

/// The last index is the base plus the number of entries.
pub proof fn last_index_counts(log: LogView)
    requires
        log.contiguous(),
    ensures
        log.last_index() == log.base_index + log.entries.len(),
{
}

/// The last index of a term is an index of the log.
pub proof fn last_of_term_is_in_log(log: LogView, term: u64, n: int)
    requires
        log.contiguous(),
        0 <= n <= log.entries.len(),
    ensures
        log.last_of_term(term, n) matches Some(index) ==> log.base_index <= index
            <= log.last_index() && log.term(index) == Some(term),
    decreases n,
{
    if n > 0 {
        last_of_term_is_in_log(log, term, n - 1);
    }
}

/// The first index of a run of a term is not above its end.
pub proof fn first_index_of_term_bounds(log: LogView, index: u64, term: u64)
    requires
        log.base_index <= index,
    ensures
        log.base_index <= log.first_index_of_term(index, term) <= index,
    decreases index,
{
    if index > log.base_index && log.term((index - 1) as u64) == Some(term) {
        first_index_of_term_bounds(log, (index - 1) as u64, term);
    }
}

/// Copies of the entries from `start` up to `end`.
pub(crate) fn copied_range(entries: &Vec<LogEntry>, start: usize, end: usize) -> (copy: Vec<
    LogEntry,
>)
    requires
        start <= end <= entries@.len(),
    ensures
        copy.deep_view() == entries.deep_view().subrange(start as int, end as int),
{
    let mut copy: Vec<LogEntry> = Vec::with_capacity(end - start);
    let mut i: usize = start;
    while i < end
        invariant
            start <= i <= end <= entries@.len(),
            copy@.len() == i - start,
            forall|j: int|
                0 <= j < copy@.len() ==> (#[trigger] copy@[j]).deep_view() == entries@[start
                    + j].deep_view(),
        decreases end - i,
    {
        copy.push(entries[i].duplicate());
        i = i + 1;
    }
    assert(copy.deep_view() =~= entries.deep_view().subrange(start as int, end as int));
    copy
}

impl RaftLog {
    pub(crate) fn duplicate(&self) -> (copy: RaftLog)
        ensures
            copy.deep_view() == self.deep_view(),
    {
        RaftLog {
            base_index: self.base_index,
            base_term: self.base_term,
            entries: self.entries.duplicate(),
        }
    }

    pub(crate) fn same(&self, other: &RaftLog) -> (equal: bool)
        ensures
            equal == (self.deep_view() == other.deep_view()),
    {
        self.base_index == other.base_index && self.base_term == other.base_term
            && self.entries.same(&other.entries)
    }

    pub(crate) fn new(snapshot: Option<&PersistentSnapshot>, entries: Vec<LogEntry>) -> (log: RaftLog)
        ensures
            log.deep_view() == stored_log(
                match snapshot {
                    Some(snapshot) => Some(snapshot.deep_view()),
                    None => None,
                },
                entries.deep_view(),
            ),
    {
        match snapshot {
            Some(snapshot) => RaftLog {
                base_index: snapshot.metadata.last_included_index,
                base_term: snapshot.metadata.last_included_term,
                entries,
            },
            None => RaftLog { base_index: 0, base_term: 0, entries },
        }
    }

    pub(crate) fn base_index(&self) -> (index: u64)
        ensures
            index == self.deep_view().base_index,
    {
        self.base_index
    }

    pub(crate) fn base_term(&self) -> (term: u64)
        ensures
            term == self.deep_view().base_term,
    {
        self.base_term
    }

    pub(crate) fn last_index(&self) -> (index: u64)
        ensures
            index == self.deep_view().last_index(),
    {
        if self.entries.len() == 0 {
            self.base_index
        } else {
            self.entries[self.entries.len() - 1].index
        }
    }

    pub(crate) fn last_term(&self) -> (term: u64)
        ensures
            term == self.deep_view().last_term(),
    {
        if self.entries.len() == 0 {
            self.base_term
        } else {
            self.entries[self.entries.len() - 1].term
        }
    }

    pub(crate) fn entry(&self, index: u64) -> (entry: Option<&LogEntry>)
        ensures
            match entry {
                Some(entry) => self.deep_view().entry(index) == Some(entry.deep_view()),
                None => self.deep_view().entry(index) is None,
            },
    {
        if index <= self.base_index {
            return None;
        }
        let offset: u64 = index - self.base_index - 1;
        if offset < self.entries.len() as u64 {
            Some(&self.entries[offset as usize])
        } else {
            None
        }
    }

    pub(crate) fn term(&self, index: u64) -> (term: Option<u64>)
        ensures
            term == self.deep_view().term(index),
    {
        if index == self.base_index {
            return Some(self.base_term);
        }
        match self.entry(index) {
            Some(entry) => Some(entry.term),
            None => None,
        }
    }

    pub(crate) fn entries_from(&self, index: u64, limit: usize) -> (entries: Vec<LogEntry>)
        ensures
            entries.deep_view() == self.deep_view().entries_from(index, limit as int),
    {
        let count: usize = self.entries.len();
        if index <= self.base_index || index - self.base_index - 1 > count as u64 {
            let none: Vec<LogEntry> = Vec::new();
            assert(none.deep_view() =~= Seq::empty());
            return none;
        }
        let offset: usize = (index - self.base_index - 1) as usize;
        let end: usize = if limit < count - offset {
            offset + limit
        } else {
            count
        };
        let entries = copied_range(&self.entries, offset, end);
        assert(entries.deep_view() =~= self.deep_view().entries_from(index, limit as int));
        entries
    }

    pub(crate) fn all_entries(&self) -> (entries: Vec<LogEntry>)
        ensures
            entries.deep_view() == self.deep_view().entries,
    {
        self.entries.duplicate()
    }

    pub(crate) fn append(&mut self, entry: LogEntry)
        ensures
            final(self).deep_view() == old(self).deep_view().appended(seq![entry.deep_view()]),
    {
        let ghost before = self.entries.deep_view();
        self.entries.push(entry);
        assert(self.entries.deep_view() =~= before + seq![entry.deep_view()]);
    }

    pub(crate) fn truncate_and_append(&mut self, from: u64, entries: &Vec<LogEntry>)
        requires
            old(self).deep_view().base_index < from <= old(self).deep_view().base_index + old(
                self,
            ).deep_view().entries.len() + 1,
        ensures
            final(self).deep_view() == old(self).deep_view().replaced_from(
                from,
                entries.deep_view(),
            ),
    {
        let ghost before = self.entries.deep_view();
        let keep: usize = (from - self.base_index - 1) as usize;
        self.entries.truncate(keep);
        assert(self.entries.deep_view() =~= before.take(keep as int));
        let mut i: usize = 0;
        while i < entries.len()
            invariant
                i <= entries@.len(),
                keep <= before.len(),
                self.base_index == old(self).base_index,
                self.base_term == old(self).base_term,
                self.entries.deep_view() == before.take(keep as int) + entries.deep_view().take(
                    i as int,
                ),
            decreases entries@.len() - i,
        {
            let ghost so_far = self.entries.deep_view();
            self.entries.push(entries[i].duplicate());
            proof {
                assert(self.entries.deep_view() =~= so_far.push(entries@[i as int].deep_view()));
                assert(entries.deep_view().take(i + 1) =~= entries.deep_view().take(
                    i as int,
                ).push(entries.deep_view()[i as int]));
                assert(self.entries.deep_view() =~= before.take(keep as int)
                    + entries.deep_view().take(i + 1));
            }
            i = i + 1;
        }
        assert(entries.deep_view().take(i as int) =~= entries.deep_view());
    }

    pub(crate) fn first_index_of_term(&self, index: u64, term: u64) -> (first: u64)
        ensures
            first == self.deep_view().first_index_of_term(index, term),
    {
        let ghost log = self.deep_view();
        let mut cursor: u64 = index;
        while cursor > self.base_index && self.term(cursor - 1) == Some(term)
            invariant
                log == self.deep_view(),
                log.first_index_of_term(index, term) == log.first_index_of_term(cursor, term),
            decreases cursor,
        {
            cursor = cursor - 1;
        }
        cursor
    }

    pub(crate) fn last_index_of_term(&self, term: u64) -> (last: Option<u64>)
        ensures
            last == self.deep_view().last_index_of_term(term),
    {
        let ghost log = self.deep_view();
        let mut n: usize = self.entries.len();
        while n > 0
            invariant
                log == self.deep_view(),
                n <= self.entries@.len(),
                log.last_index_of_term(term) == log.last_of_term(term, n as int),
            decreases n,
        {
            assert(log.entries[n - 1] == self.entries@[n - 1].deep_view());
            if self.entries[n - 1].term == term {
                return Some(self.entries[n - 1].index);
            }
            n = n - 1;
        }
        if self.base_term == term {
            Some(self.base_index)
        } else {
            None
        }
    }

    pub(crate) fn compact(&mut self, index: u64, term: u64, retain_suffix: bool)
        requires
            retain_suffix ==> old(self).deep_view().base_index <= index <= old(
                self,
            ).deep_view().base_index + old(self).deep_view().entries.len(),
        ensures
            final(self).deep_view() == old(self).deep_view().compacted(index, term, retain_suffix),
    {
        let entries = if retain_suffix {
            let kept = copied_range(
                &self.entries,
                (index - self.base_index) as usize,
                self.entries.len(),
            );
            assert(kept.deep_view() =~= self.entries.deep_view().skip(index - self.base_index));
            kept
        } else {
            let none: Vec<LogEntry> = Vec::new();
            assert(none.deep_view() =~= Seq::empty());
            none
        };
        self.base_index = index;
        self.base_term = term;
        self.entries = entries;
    }
}

} // verus!
