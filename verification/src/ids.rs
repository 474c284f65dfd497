//! Identifiers of pages, slots and rows, and the kinds of page.

use vstd::prelude::*;
use vstd::std_specs::convert::{FromSpecImpl, TryFromSpecImpl};

verus! {

/// Identifier of a page, stable for the page's lifetime.
#[derive(Clone, Copy, Debug, PartialEq, Eq, Hash, Structural)]
pub struct PageID(pub u64);

/// Index into the slot directory of one page.
#[derive(Clone, Copy, Debug, PartialEq, Eq, Hash, Structural)]
pub struct SlotID(pub u16);

/// Handle to a stored record: the page that holds it and its slot there.
#[derive(Clone, Copy, Debug, PartialEq, Eq, Hash, Structural)]
pub struct RowID {
    p: PageID,
    s: SlotID,
}

impl RowID {
    /// The row under slot `s` of page `p`.
    pub fn new(p: PageID, s: SlotID) -> (row: RowID)
        ensures
            row.page_id() == p,
            row.slot_id() == s,
    {
        RowID { p, s }
    }

    /// The page that holds the row.
    pub closed spec fn page_id(&self) -> PageID {
        self.p
    }

    /// The slot of the row in its page.
    pub closed spec fn slot_id(&self) -> SlotID {
        self.s
    }

    /// The page that holds the row.
    pub fn page(&self) -> (p: PageID)
        ensures
            p == self.page_id(),
    {
        self.p
    }

    /// The slot of the row in its page.
    pub fn slot(&self) -> (s: SlotID)
        ensures
            s == self.slot_id(),
    {
        self.s
    }
}

/// Kind of a page within a tree.
#[derive(Clone, Copy, Debug, PartialEq, Eq, Structural)]
pub enum PageType {
    /// A page of keys and the children they lead to.
    Internal,
    /// A page of keys and their values.
    Leaf,
}

/// The byte that stands for a page type in a page header.
pub open spec fn page_type_byte(t: PageType) -> u8 {
    match t {
        PageType::Internal => 1,
        PageType::Leaf => 2,
    }
}

/// The page type that a header byte stands for, if any.
pub open spec fn page_type_of_byte(b: u8) -> Option<PageType> {
    if b == 1 {
        Some(PageType::Internal)
    } else if b == 2 {
        Some(PageType::Leaf)
    } else {
        None
    }
}

impl TryFrom<u8> for PageType {
    type Error = ();

    fn try_from(value: u8) -> (r: Result<Self, Self::Error>)
    {
        match value {
            1 => Ok(PageType::Internal),
            2 => Ok(PageType::Leaf),
            _ => Err(()),
        }
    }
}

impl TryFromSpecImpl<u8> for PageType {
    open spec fn obeys_try_from_spec() -> bool {
        true
    }

    open spec fn try_from_spec(value: u8) -> Result<Self, Self::Error> {
        match page_type_of_byte(value) {
            Some(t) => Ok(t),
            None => Err(()),
        }
    }
}

impl From<PageType> for u8 {
    fn from(value: PageType) -> (r: Self)
    {
        match value {
            PageType::Internal => 1,
            PageType::Leaf => 2,
        }
    }
}

impl FromSpecImpl<PageType> for u8 {
    open spec fn obeys_from_spec() -> bool {
        true
    }

    open spec fn from_spec(value: PageType) -> Self {
        page_type_byte(value)
    }
}

} // verus!
