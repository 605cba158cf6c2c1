use vstd::prelude::*;

use crate::config::{PageId, PAGE_SIZE};

verus! {

/// What a frame holds, as a mathematical value.
pub struct PageModel {
    pub page_id: Option<PageId>,
    pub data: Seq<u8>,
    pub dirty: bool,
    pub pin_count: nat,
}

/// The contents of one frame: identity, bytes, dirty flag and pin count.
pub struct Page {
    page_id: Option<PageId>,
    data: Vec<u8>,
    is_dirty: bool,
    pin_count: usize,
}

impl View for Page {
    type V = PageModel;

    closed spec fn view(&self) -> PageModel {
        PageModel {
            page_id: self.page_id,
            data: self.data@,
            dirty: self.is_dirty,
            pin_count: self.pin_count as nat,
        }
    }
}

impl Page {
    /// The buffer always holds exactly one page of bytes.
    pub closed spec fn wf(&self) -> bool {
        self.data@.len() == PAGE_SIZE
    }

    /// A clean, unpinned, zero-filled page.
    pub fn new(page_id: Option<PageId>) -> (r: Page)
        ensures
            r.wf(),
            r@.page_id == page_id,
            r@.data == Seq::new(PAGE_SIZE as nat, |i: int| 0u8),
            !r@.dirty,
            r@.pin_count == 0,
    {
        let r = Page { page_id, data: vec![0u8; PAGE_SIZE], is_dirty: false, pin_count: 0 };
        assert(r@.data =~= Seq::new(PAGE_SIZE as nat, |i: int| 0u8));
        r
    }

    pub fn get_page_id(&self) -> (r: Option<PageId>)
        ensures
            r == self@.page_id,
    {
        self.page_id
    }

    pub fn set_page_id(&mut self, page_id: PageId)
        ensures
            final(self)@ == (PageModel { page_id: Some(page_id), ..old(self)@ }),
            final(self).wf() == old(self).wf(),
    {
        self.page_id = Some(page_id);
    }

    /// The page's bytes.
    pub fn get_data(&self) -> (r: &Vec<u8>)
        ensures
            r@ == self@.data,
    {
        &self.data
    }

    /// Replaces the page's bytes.
    pub fn set_data(&mut self, data: Vec<u8>)
        requires
            data@.len() == PAGE_SIZE,
        ensures
            final(self)@ == (PageModel { data: data@, ..old(self)@ }),
            final(self).wf(),
    {
        self.data = data;
    }

    pub fn is_dirty(&self) -> (r: bool)
        ensures
            r == self@.dirty,
    {
        self.is_dirty
    }

    pub fn set_dirty(&mut self, is_dirty: bool)
        ensures
            final(self)@ == (PageModel { dirty: is_dirty, ..old(self)@ }),
            final(self).wf() == old(self).wf(),
    {
        self.is_dirty = is_dirty;
    }

    pub fn get_pin_count(&self) -> (r: usize)
        ensures
            r as nat == self@.pin_count,
    {
        self.pin_count
    }

    pub fn increment_pin_count(&mut self)
        requires
            old(self)@.pin_count < usize::MAX,
        ensures
            final(self)@ == (PageModel { pin_count: old(self)@.pin_count + 1, ..old(self)@ }),
            final(self).wf() == old(self).wf(),
    {
        self.pin_count = self.pin_count + 1;
    }

    /// Decrementing an unpinned page is a caller error, excluded here.
    pub fn decrement_pin_count(&mut self)
        requires
            old(self)@.pin_count > 0,
        ensures
            final(self)@ == (PageModel { pin_count: (old(self)@.pin_count - 1) as nat, ..old(self)@ }),
            final(self).wf() == old(self).wf(),
    {
        self.pin_count = self.pin_count - 1;
    }
}

} // verus!
