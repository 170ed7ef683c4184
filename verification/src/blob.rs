//! A cell for one value of any type, which is had back by naming its type,
//! and references to such a value.

use vstd::prelude::*;
use std::any::Any;

verus! {

/// One value of some type, behind std's `Any`. What the cell holds is not
/// known to the verifier: every access names a type and may find another.
#[verifier::external_body]
pub struct BlobCell {
    value: Box<dyn Any + Send + Sync>,
}

impl BlobCell {
    /// `Box::new`, with the box then held as `dyn Any`: a cell around `value`.
    #[verifier::external_body]
    pub(crate) fn new<T: Send + Sync + 'static>(value: T) -> BlobCell {
        BlobCell { value: Box::new(value) }
    }

    /// `<dyn Any>::downcast_ref`: the value, where it is of the type `T`.
    #[verifier::external_body]
    pub(crate) fn value<T: 'static>(&self) -> Option<&T> {
        self.value.downcast_ref::<T>()
    }
}

/// A reference to one value of some type, behind std's `Any`. What it
/// refers to is not known to the verifier.
#[verifier::external_body]
pub struct BlobRef<'a> {
    value: &'a (dyn Any + Send + Sync),
}

impl<'a> BlobRef<'a> {
    /// A reference as a reference to `dyn Any`, as std lets any reference to
    /// a `'static` value be taken.
    #[verifier::external_body]
    pub(crate) fn of<T: Send + Sync + 'static>(value: &'a T) -> BlobRef<'a> {
        BlobRef { value }
    }

    /// `<dyn Any>::downcast_ref`: the value, where it is of the type `T`.
    #[verifier::external_body]
    pub(crate) fn get<T: 'static>(self) -> Option<&'a T> {
        self.value.downcast_ref::<T>()
    }
}

/// A reference to one value of some type that lets the value be changed,
/// behind std's `Any`. What it refers to is not known to the verifier.
#[verifier::external_body]
pub struct BlobMut<'a> {
    value: &'a mut (dyn Any + Send + Sync),
}

impl<'a> BlobMut<'a> {
    /// A reference as a reference to `dyn Any`, as std lets any reference to
    /// a `'static` value be taken.
    #[verifier::external_body]
    pub(crate) fn of<T: Send + Sync + 'static>(value: &'a mut T) -> BlobMut<'a> {
        BlobMut { value }
    }

    /// `<dyn Any>::downcast_mut`: the value, where it is of the type `T`, to
    /// be changed in place.
    #[verifier::external_body]
    pub(crate) fn get<T: 'static>(self) -> Option<&'a mut T> {
        self.value.downcast_mut::<T>()
    }
}

} // verus!
