//! Storage handles: what a cursor reads its document from.

use std::sync::Arc;
use vstd::prelude::*;

verus! {

/// A handle on a read-only byte buffer that is cheap to hand on.
///
/// A cursor keeps one handle and gives each sub-cursor another, so a handle
/// should share the buffer, not copy it.
pub trait Storage: Sized {
    /// The bytes of the buffer.
    spec fn bytes(&self) -> Seq<u8>;

    /// Borrows the buffer.
    fn as_slice(&self) -> (res: &[u8])
        ensures
            res@ == self.bytes(),
    ;

    /// Another handle on the same buffer.
    fn share(&self) -> (res: Self)
        ensures
            res.bytes() == self.bytes(),
    ;
}

impl<'a> Storage for &'a [u8] {
    open spec fn bytes(&self) -> Seq<u8> {
        (*self)@
    }

    fn as_slice(&self) -> (res: &[u8]) {
        *self
    }

    fn share(&self) -> (res: Self) {
        *self
    }
}

/// Clones a shared buffer by `Arc::clone`, which makes another pointer to the
/// same allocation.
#[verifier::external_body]
fn arc_clone(buffer: &Arc<[u8]>) -> (res: Arc<[u8]>)
    ensures
        res == *buffer,
{
    Arc::clone(buffer)
}

impl Storage for Arc<[u8]> {
    open spec fn bytes(&self) -> Seq<u8> {
        (**self)@
    }

    fn as_slice(&self) -> (res: &[u8]) {
        &**self
    }

    fn share(&self) -> (res: Self) {
        arc_clone(self)
    }
}

} // verus!
