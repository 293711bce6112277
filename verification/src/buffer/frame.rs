//! A slot of the buffer pool.
use crate::storage::page::{Page, PageView};
use vstd::prelude::*;

verus! {

pub struct Frame {
    pub page: Option<Page>,
    pub pin_count: u32,
    pub is_dirty: bool,
}

/// The mathematical counterpart of `Frame`.
#[verifier::ext_equal]
pub struct FrameView {
    pub page: Option<PageView>,
    pub pins: u32,
    pub dirty: bool,
}

impl View for Frame {
    type V = FrameView;

    open spec fn view(&self) -> FrameView {
        FrameView {
            page: match self.page {
                Some(p) => Some(p@),
                None => None,
            },
            pins: self.pin_count,
            dirty: self.is_dirty,
        }
    }
}

/// A frame that holds no page.
pub open spec fn empty_frame() -> FrameView {
    FrameView { page: None, pins: 0, dirty: false }
}

impl Frame {
    pub fn new() -> (f: Self)
        ensures
            f@ == empty_frame(),
    {
        Self { page: None, pin_count: 0, is_dirty: false }
    }

    pub fn is_empty(&self) -> (b: bool)
        ensures
            b == (self@.page is None),
    {
        self.page.is_none()
    }

    pub fn page_id(&self) -> (id: Option<u32>)
        ensures
            id == (match self@.page {
                Some(p) => Some(p.id),
                None => None,
            }),
    {
        match &self.page {
            Some(p) => Some(p.id),
            None => None,
        }
    }
}

} // verus!
