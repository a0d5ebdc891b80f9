use vstd::prelude::*;

verus! {

/// Number of bytes held by one page.
pub const PAGE_SIZE: usize = 4096;

/// One frame of the buffer pool: a page's bytes, the id of the page it holds
/// (none while the frame is free), a dirty flag and a pin count.
pub struct Page {
    pub data: [u8; PAGE_SIZE],
    pub page_id: Option<usize>,
    pub is_dirty: bool,
    pub pin_count: u32,
}

/// `PAGE_SIZE` zero bytes.
pub open spec fn zero_page() -> Seq<u8> {
    Seq::new(PAGE_SIZE as nat, |i: int| 0u8)
}

impl Page {
    /// A free frame: zeroed bytes, no page id, clean and unpinned.
    pub fn new() -> (r: Page)
        ensures
            r.data@ == zero_page(),
            r.page_id.is_none(),
            !r.is_dirty,
            r.pin_count == 0,
    {
        let data = [0u8; PAGE_SIZE];
        assert(data@ =~= zero_page());
        Page { data, page_id: None, is_dirty: false, pin_count: 0 }
    }

    /// Hands the page's bytes to `f`, which gives back the bytes the page is
    /// to hold from then on together with a result; returns that result.
    /// (The bytes go by value because what a function does through a
    /// `&mut [u8]` argument cannot be stated in a contract.)
    pub fn access_page_data<F, R>(&mut self, f: F) -> (r: R)
        where F: FnOnce([u8; PAGE_SIZE]) -> ([u8; PAGE_SIZE], R),
        requires
            f.requires((old(self).data,)),
        ensures
            f.ensures((old(self).data,), (final(self).data, r)),
            final(self).page_id == old(self).page_id,
            final(self).is_dirty == old(self).is_dirty,
            final(self).pin_count == old(self).pin_count,
    {
        let (data, r) = f(self.data);
        self.data = data;
        r
    }

    pub fn get_page_id(&self) -> (r: Option<usize>)
        ensures
            r == self.page_id,
    {
        self.page_id
    }

    pub fn set_page_id(&mut self, page_id: usize)
        ensures
            *final(self) == (Page { page_id: Some(page_id), ..*old(self) }),
    {
        self.page_id = Some(page_id);
    }

    pub fn is_dirty(&self) -> (r: bool)
        ensures
            r == self.is_dirty,
    {
        self.is_dirty
    }

    pub fn set_dirty(&mut self, is_dirty: bool)
        ensures
            *final(self) == (Page { is_dirty, ..*old(self) }),
    {
        self.is_dirty = is_dirty;
    }

    pub fn get_pin_count(&self) -> (r: u32)
        ensures
            r == self.pin_count,
    {
        self.pin_count
    }

    pub fn pin(&mut self)
        requires
            old(self).pin_count < u32::MAX,
        ensures
            *final(self) == (Page { pin_count: (old(self).pin_count + 1) as u32, ..*old(self) }),
    {
        self.pin_count = self.pin_count + 1;
    }

    /// Drops one pin; the page must be pinned.
    pub fn unpin(&mut self)
        requires
            old(self).pin_count > 0,
        ensures
            *final(self) == (Page { pin_count: (old(self).pin_count - 1) as u32, ..*old(self) }),
    {
        self.pin_count = self.pin_count - 1;
    }

    /// Frees the frame: zeroes its bytes, drops its page id and clears the
    /// dirty flag; the pin count stays.
    pub fn reset(&mut self)
        ensures
            final(self).data@ == zero_page(),
            final(self).page_id.is_none(),
            !final(self).is_dirty,
            final(self).pin_count == old(self).pin_count,
    {
        let data = [0u8; PAGE_SIZE];
        assert(data@ =~= zero_page());
        self.data = data;
        self.page_id = None;
        self.is_dirty = false;
    }
}

} // verus!
