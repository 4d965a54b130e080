//! Reference-counted values: sharing one, and getting one to change.
use vstd::prelude::*;
use std::sync::Arc;

verus! {

/// Another handle on the same value.
///
/// Calls `Arc::clone`. Claims that the handle points at the same value.
#[verifier::external_body]
pub(crate) fn share<T>(a: &Arc<T>) -> (r: Arc<T>)
    ensures
        r == *a,
{
    Arc::clone(a)
}

/// The value behind a handle, for change in place.
///
/// Calls `Arc::make_mut`. Claims that the reference starts at the value
/// behind the handle or, when other handles share it, at a clone of it, and
/// that the handle ends at what the reference ends at. Other handles are
/// not affected.
#[verifier::external_body]
pub(crate) fn unshare<T: Clone>(a: &mut Arc<T>) -> (r: &mut T)
    ensures
        *r == **old(a) || cloned(**old(a), *r),
        **final(a) == *final(r),
{
    Arc::make_mut(a)
}

/// The value behind a handle, given up by the handle.
///
/// Calls `Arc::unwrap_or_clone`. Claims that it gives the value behind the
/// handle or, when other handles share it, a clone of it.
#[verifier::external_body]
pub(crate) fn unwrap<T: Clone>(a: Arc<T>) -> (r: T)
    ensures
        r == *a || cloned(*a, r),
{
    Arc::unwrap_or_clone(a)
}

} // verus!
