//! An artifact mapped read-only: what its length and the kernel's answers
//! come to.

use vstd::prelude::*;

use crate::fault::{Fault, Step, Unmapped};
use crate::weights::{align_up, lemma_align_up};

verus! {

/// The size of a page, as the system says, and a usual one where it says
/// none.
pub fn page(said: i64) -> (page: usize)
    requires
        said <= usize::MAX,
    ensures
        page == if said > 0 { said as int } else { 4096 },
        page > 0,
{
    if said > 0 {
        said as usize
    } else {
        4096
    }
}

/// How an artifact of `len` bytes is mapped: over whole pages.
pub open spec fn spans(len: Result<u64, String>, page: usize, what: String) -> Result<(u64, usize), Fault> {
    match len {
        Err(why) => Err(Fault::Mapped { step: Step::Stat, file: what, reason: Unmapped::Said(why) }),
        Ok(len) => if len == 0 {
            Err(Fault::Mapped { step: Step::Size, file: what, reason: Unmapped::Empty })
        } else if align_up(len as int, page as int) > usize::MAX {
            Err(Fault::Mapped { step: Step::Size, file: what, reason: Unmapped::TooLong(len) })
        } else {
            Ok((len, align_up(len as int, page as int) as usize))
        },
    }
}

/// What mapping a file answered.
#[derive(Debug)]
pub enum Answer {
    Failed(String),
    Null,
    At(u64),
}

/// A mapped artifact.
#[derive(Debug)]
pub struct Mapping {
    pub at: u64,
    pub span: usize,
    pub len: u64,
    pub path: String,
}

impl Mapping {
    /// Some bytes, all of them inside the span.
    pub open spec fn wf(&self) -> bool {
        0 < self.len <= self.span
    }

    /// The length an artifact is read at and the span it is mapped over, its
    /// metadata having said `len`.
    pub fn spanned(len: Result<u64, String>, page: usize, what: &String) -> (spanned: Result<
        (u64, usize),
        Fault,
    >)
        requires
            page > 0,
        ensures
            spanned == spans(len, page, *what),
    {
        let len: u64 = match len {
            Ok(len) => len,
            Err(why) => {
                return Err(
                    Fault::Mapped {
                        step: Step::Stat,
                        file: what.clone(),
                        reason: Unmapped::Said(why),
                    },
                );
            },
        };
        if len == 0 {
            return Err(
                Fault::Mapped { step: Step::Size, file: what.clone(), reason: Unmapped::Empty },
            );
        }
        proof {
            lemma_align_up(len as int, page as int);
        }
        let over: u64 = len % page as u64;
        let span: Option<u64> = if over == 0 {
            Some(len)
        } else {
            len.checked_add(page as u64 - over)
        };
        let most: u64 = usize::MAX as u64;
        match span {
            Some(span) => if span <= most {
                return Ok((len, span as usize));
            },
            None => {},
        }
        Err(Fault::Mapped { step: Step::Size, file: what.clone(), reason: Unmapped::TooLong(len) })
    }

    /// The mapping, once the kernel has answered for these bytes over this
    /// span.
    pub fn of_file(len: u64, span: usize, answer: Answer, named: String) -> (mapping: Result<
        Mapping,
        Fault,
    >)
        requires
            0 < len <= span,
        ensures
            match answer {
                Answer::Failed(why) => mapping == Err::<Mapping, Fault>(
                    Fault::Mapped { step: Step::Place, file: named, reason: Unmapped::Said(why) },
                ),
                Answer::Null => mapping == Err::<Mapping, Fault>(
                    Fault::Mapped { step: Step::Place, file: named, reason: Unmapped::Null },
                ),
                Answer::At(at) => mapping == Ok::<Mapping, Fault>(
                    Mapping { at, span, len, path: named },
                ) && mapping->Ok_0.wf(),
            },
    {
        match answer {
            Answer::Failed(why) => Err(
                Fault::Mapped { step: Step::Place, file: named, reason: Unmapped::Said(why) },
            ),
            Answer::Null => Err(
                Fault::Mapped { step: Step::Place, file: named, reason: Unmapped::Null },
            ),
            Answer::At(at) => Ok(Mapping { at, span, len, path: named }),
        }
    }

    pub fn len(&self) -> (len: u64)
        ensures
            len == self.len,
    {
        self.len
    }

    pub fn is_empty(&self) -> (empty: bool)
        ensures
            empty == (self.len == 0),
            self.wf() ==> !empty,
    {
        self.len == 0
    }

    pub fn span(&self) -> (span: usize)
        ensures
            span == self.span,
    {
        self.span
    }

    pub fn path(&self) -> (path: &String)
        ensures
            *path == self.path,
    {
        &self.path
    }
}

/// A span that is given covers every byte of the artifact in whole pages,
/// and less than a page more.
pub proof fn a_span_covers_the_artifact(len: u64, page: usize, what: String)
    requires
        page > 0,
    ensures
        spans(Ok(len), page, what) matches Ok((n, span)) ==> {
            &&& n == len
            &&& 0 < len <= span < len + page
            &&& span % page == 0
        },
{
    lemma_align_up(len as int, page as int);
}

/// An artifact is mapped whenever it has a byte and its pages can be
/// counted, over the fewest whole pages that hold it.
pub proof fn an_artifact_is_mapped_over_whole_pages(len: u64, page: usize, what: String)
    requires
        page > 0,
        0 < len,
        len + page <= usize::MAX,
    ensures
        spans(Ok(len), page, what) matches Ok((n, span)) && n == len && span % page == 0 && span >= len
            && span - page < len,
        spans(Ok(0), page, what) is Err,
{
    lemma_align_up(len as int, page as int);
}

} // verus!
