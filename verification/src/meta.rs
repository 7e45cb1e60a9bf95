use crate::set::Handle;
use vstd::prelude::*;

verus! {

/// Network socket metadata.
///
/// This holds what only code outside the socket is interested in, but which is
/// more conveniently stored inside the socket itself.
#[derive(Debug, Default)]
pub struct Meta {
    /// Handle of this socket within its enclosing socket set.
    pub handle: Handle,
}

impl Meta {
    /// Records the handle under which the socket is stored.
    pub fn update(&mut self, handle: Handle)
        ensures
            final(self).handle == handle,
    {
        self.handle = handle;
    }
}

} // verus!
