use vstd::prelude::*;
use crate::util::PAGE_SIZE;

verus! {

/// Role a page can play in the file layout.
#[derive(Debug, Clone, Copy, PartialEq, Eq, Structural)]
pub enum PageType {
    Free,
    Table,
    Index,
}

/// One fixed-size page image together with its identifier.
#[derive(Debug)]
pub struct Page {
    pub id: u32,
    pub data: [u8; PAGE_SIZE],
}

} // verus!
