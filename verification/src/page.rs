use vstd::prelude::*;

verus! {

/// Size in bytes of one stored page.
pub const PAGE_SIZE: usize = 8192;

/// One page of stored data: exactly 8192 opaque bytes.
#[derive(Clone, Debug, PartialEq, Eq)]
pub struct Page(pub Vec<u8>);

impl View for Page {
    type V = Seq<u8>;

    open spec fn view(&self) -> Seq<u8> {
        self.0@
    }
}

impl Page {
    /// A page holds exactly one page worth of bytes.
    pub open spec fn wf(self) -> bool {
        self@.len() == PAGE_SIZE
    }

    /// Wrap a buffer of exactly one page of bytes.
    pub fn new(data: Vec<u8>) -> (r: Page)
        requires
            data@.len() == PAGE_SIZE,
        ensures
            r@ == data@,
            r.wf(),
    {
        Page(data)
    }

    /// Borrow the page's bytes.
    pub fn as_bytes(&self) -> (r: &[u8])
        ensures
            r@ == self@,
    {
        self.0.as_slice()
    }
}

} // verus!
