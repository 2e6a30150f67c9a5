//! Pages that are written together.

use vstd::prelude::*;
use crate::db::error::{DatabaseError, DatabaseErrorKind, Result, StorageFailure};
use crate::model::{Model, outcome};
use crate::ordmap::{OrdMap, ordered};
use crate::text::decimal_text;
use crate::types::message;

verus! {

broadcast use crate::model::group_contents;

/// A page as it stands on the disk.
#[derive(Debug, Clone, PartialEq, Eq)]
pub struct PageImage {
    pub id: u64,
    pub bytes: Vec<u8>,
}

/// The content of a [`PageImage`].
#[verifier::ext_equal]
pub struct PageImageView {
    pub id: u64,
    pub bytes: Seq<u8>,
}

impl DeepView for PageImage {
    type V = PageImageView;

    open spec fn deep_view(&self) -> PageImageView {
        PageImageView {
            id: self.id.deep_view(),
            bytes: self.bytes.deep_view(),
        }
    }
}

impl Model for PageImage {
    fn duplicate(&self) -> (copy: Self) {
        PageImage {
            id: self.id.duplicate(),
            bytes: self.bytes.duplicate(),
        }
    }

    fn same(&self, other: &Self) -> (equal: bool) {
        self.id.same(&other.id)
            && self.bytes.same(&other.bytes)
    }
}

/// The pages of a change that is not yet made: they are kept apart from those on
/// the disk until they are all handed over.
#[derive(Debug)]
pub struct StagedPages {
    pages: OrdMap<u64, PageImage>,
    next_page_id: u64,
    finished: bool,
}

/// The content of [`StagedPages`].
#[verifier::ext_equal]
pub struct StagedPagesView {
    pub pages: Map<u64, PageImageView>,
    pub next_page_id: u64,
    pub finished: bool,
}

impl DeepView for StagedPages {
    type V = StagedPagesView;

    closed spec fn deep_view(&self) -> StagedPagesView {
        StagedPagesView {
            pages: self.pages.deep_view(),
            next_page_id: self.next_page_id,
            finished: self.finished,
        }
    }
}

fn storage_error(failure: StorageFailure, text: String) -> (error: DatabaseError)
    ensures
        error.deep_view() == DatabaseErrorKind::Storage(failure),
{
    DatabaseError::Storage { failure, text }
}

/// What was read from the disk as a page.
pub open spec fn read_as<R: FnOnce(u64) -> Result<PageImage>>(
    read: R,
    page_id: u64,
    answer: std::result::Result<PageImageView, DatabaseErrorKind>,
) -> bool {
    exists|returned: Result<PageImage>| #[trigger]
        call_ensures(read, (page_id,), returned) && outcome(returned) == answer
}

impl StagedPages {
    /// No page yet; the next new one gets the given id.
    pub fn new(next_page_id: u64) -> (staged: StagedPages)
        ensures
            staged.deep_view() == (StagedPagesView {
                pages: Map::empty(),
                next_page_id,
                finished: false,
            }),
    {
        StagedPages { pages: OrdMap::new(), next_page_id, finished: false }
    }

    /// A page as the change sees it: the staged one, or that on the disk, which
    /// has to be the page of that id.
    pub fn load<R: FnOnce(u64) -> Result<PageImage>>(&self, read: R, page_id: u64) -> (result:
        Result<PageImage>)
        requires
            call_requires(read, (page_id,)),
        ensures
            if self.deep_view().pages.contains_key(page_id) {
                outcome(result) == Ok::<PageImageView, DatabaseErrorKind>(
                    self.deep_view().pages[page_id],
                )
            } else {
                exists|answer: std::result::Result<PageImageView, DatabaseErrorKind>| #[trigger]
                    read_as(read, page_id, answer) && outcome(result) == match answer {
                        Ok(page) if page.id != page_id => Err(
                            DatabaseErrorKind::Storage(StorageFailure::InvalidPage),
                        ),
                        other => other,
                    }
            },
    {
        if let Some(page) = self.pages.get(&page_id) {
            return Ok(page.duplicate());
        }
        let answer = read(page_id);
        assert(read_as(read, page_id, outcome(answer)));
        match answer {
            Ok(page) => {
                if page.id != page_id {
                    return Err(
                        storage_error(
                            StorageFailure::InvalidPage,
                            message(
                                &[
                                    "physical page ",
                                    &decimal_text(page_id),
                                    " contains page ",
                                    &decimal_text(page.id),
                                ],
                            ),
                        ),
                    );
                }
                Ok(page)
            },
            Err(error) => Err(error),
        }
    }

    /// Stages a page.
    pub fn save(&mut self, page: PageImage) -> (result: Result<()>)
        ensures
            if old(self).deep_view().finished {
                final(self).deep_view() == old(self).deep_view() && outcome(result) == Err::<
                    (),
                    DatabaseErrorKind,
                >(DatabaseErrorKind::Storage(StorageFailure::Invariant))
            } else {
                final(self).deep_view() == (StagedPagesView {
                    pages: old(self).deep_view().pages.insert(page.id, page.deep_view()),
                    ..old(self).deep_view()
                }) && outcome(result) == Ok::<(), DatabaseErrorKind>(())
            },
    {
        if self.finished {
            return Err(
                storage_error(
                    StorageFailure::Invariant,
                    "cannot save after staged page store is consumed".to_owned(),
                ),
            );
        }
        let _ = self.pages.insert(page.id, page);
        Ok(())
    }

    /// The id of a new page.
    pub fn allocate(&mut self) -> (result: Result<u64>)
        ensures
            if old(self).deep_view().finished || old(self).deep_view().next_page_id == u64::MAX {
                final(self).deep_view() == old(self).deep_view() && outcome(result) == Err::<
                    u64,
                    DatabaseErrorKind,
                >(DatabaseErrorKind::Storage(StorageFailure::Invariant))
            } else {
                final(self).deep_view() == (StagedPagesView {
                    next_page_id: (old(self).deep_view().next_page_id + 1) as u64,
                    ..old(self).deep_view()
                }) && outcome(result) == Ok::<u64, DatabaseErrorKind>(
                    old(self).deep_view().next_page_id,
                )
            },
    {
        if self.finished {
            return Err(
                storage_error(
                    StorageFailure::Invariant,
                    "cannot allocate after staged page store is consumed".to_owned(),
                ),
            );
        }
        if self.next_page_id == u64::MAX {
            return Err(
                storage_error(StorageFailure::Invariant, "page id space exhausted".to_owned()),
            );
        }
        let allocated = self.next_page_id;
        self.next_page_id = allocated + 1;
        Ok(allocated)
    }

    /// Hands over the pages in the order of their ids, and the id of the next new
    /// page. Nothing can be staged afterwards.
    pub fn finish(&mut self) -> (result: Result<(Vec<PageImage>, u64)>)
        ensures
            if old(self).deep_view().finished {
                final(self).deep_view() == old(self).deep_view() && (result matches Err(error)
                    && error.deep_view() == DatabaseErrorKind::Invariant)
            } else {
                final(self).deep_view() == (StagedPagesView {
                    pages: Map::empty(),
                    finished: true,
                    ..old(self).deep_view()
                }) && (result matches Ok((pages, next)) && next
                    == old(self).deep_view().next_page_id && pages.deep_view()
                    == in_order(old(self).deep_view().pages))
            },
    {
        if self.finished {
            return Err(
                DatabaseError::Invariant("staged page store was already consumed".to_owned()),
            );
        }
        let mut staged: OrdMap<u64, PageImage> = OrdMap::new();
        std::mem::swap(&mut staged, &mut self.pages);
        self.finished = true;
        let count: usize = staged.len();
        let ghost all = in_order(staged.deep_view());
        let mut pages: Vec<PageImage> = Vec::with_capacity(count);
        let mut i: usize = 0;
        while i < count
            invariant
                i <= count,
                count == staged.keys().len(),
                all == in_order(staged.deep_view()),
                pages@.len() == i,
                forall|j: int| 0 <= j < i ==> (#[trigger] pages@[j]).deep_view() == all[j],
            decreases count - i,
        {
            pages.push(staged.value_at(i).duplicate());
            i = i + 1;
        }
        assert(pages.deep_view() =~= all);
        Ok((pages, self.next_page_id))
    }
}

/// Pages in the order of their ids.
pub open spec fn in_order(pages: Map<u64, PageImageView>) -> Seq<PageImageView> {
    let ids = ordered::<u64>(pages.dom());
    Seq::new(ids.len(), |i: int| pages[ids[i]])
}

} // verus!
