use vstd::prelude::*;

verus! {

/// The value of a link that points nowhere; real allocation never yields it.
pub const NO_LINK: usize = usize::MAX;

/// A handle naming one slot of a [`crate::ListContainer`].
#[derive(Clone, Copy, Debug, Hash, PartialEq, Eq, Structural, PartialOrd, Ord)]
pub struct Index(usize);

impl View for Index {
    type V = usize;

    /// The slot that the handle names.
    closed spec fn view(&self) -> usize {
        self.0
    }
}

impl Index {
    pub(crate) fn new(slot: usize) -> (r: Index)
        ensures
            r@ == slot,
    {
        Index(slot)
    }

    pub(crate) fn slot(self) -> (r: usize)
        ensures
            r == self@,
    {
        self.0
    }

    /// The handle that stands for "no link".
    pub(crate) fn sentinel() -> (r: Index)
        ensures
            r@ == NO_LINK,
    {
        Index(usize::MAX)
    }

    pub(crate) fn is_sentinel(&self) -> (r: bool)
        ensures
            r == (self@ == NO_LINK),
    {
        self.0 == usize::MAX
    }

    /// `None` for the sentinel, the handle itself otherwise.
    pub(crate) fn into_option(self) -> (r: Option<Index>)
        ensures
            r == (if self@ == NO_LINK { None } else { Some(self) }),
    {
        if self.is_sentinel() {
            None
        } else {
            Some(self)
        }
    }
}

/// The slot that an optional handle names, if any.
pub open spec fn slot_of(link: Option<Index>) -> Option<usize> {
    match link {
        Some(i) => Some(i@),
        None => None,
    }
}

} // verus!
