//! Type identities and type-erased component values.
//!
//! Component values of arbitrary Rust types live in the world behind a
//! type-erased box, a `Box<dyn Any>`. The box is an opaque value here, and
//! the few std calls that create and inspect it are trusted wrappers.
//! Everything the world does with these values (where they are stored,
//! moved, dropped and handed out) is verified in terms of the opaque values
//! themselves.
use vstd::prelude::*;
use std::any::{Any, TypeId};

verus! {

/// `std::any::TypeId`, an opaque identity of a Rust type.
#[verifier::external_type_specification]
#[verifier::external_body]
pub struct ExTypeId(TypeId);

/// A value of some `'static` Rust type, with its type erased: a
/// `Box<dyn Any>`, kept opaque.
#[verifier::external_body]
pub struct ErasedBox {
    inner: Box<dyn Any>,
}

/// `std::any::TypeId::of::<T>()`. Nothing is claimed of the identity it
/// returns; callers only compare identities with [`same_type_id`].
#[verifier::external_body]
pub(crate) fn type_id_of<T: ?Sized + 'static>() -> TypeId {
    TypeId::of::<T>()
}

/// `TypeId::of` for the two hierarchy edge types, the transform-dirty
/// marker and the scene back-reference. They are four distinct types, and
/// `TypeId::of` gives distinct types distinct identities, so the four
/// identities differ; nothing else is claimed of them.
#[verifier::external_body]
pub(crate) fn edge_type_ids() -> (r: (TypeId, TypeId, TypeId, TypeId))
    ensures
        r.0 != r.1,
        r.0 != r.2,
        r.0 != r.3,
        r.1 != r.2,
        r.1 != r.3,
        r.2 != r.3,
{
    (
        TypeId::of::<crate::go::hierarchy::Parent>(),
        TypeId::of::<crate::go::hierarchy::Children>(),
        TypeId::of::<crate::go::global_transform::TransformDirty>(),
        TypeId::of::<crate::go::scene_ref::SceneRef>(),
    )
}

/// `<TypeId as PartialEq>::eq`: two type identities compare equal exactly
/// when they are the same identity.
#[verifier::external_body]
pub(crate) fn same_type_id(a: &TypeId, b: &TypeId) -> (r: bool)
    ensures
        r == (*a == *b),
{
    *a == *b
}

impl ErasedBox {
    /// `Box::new(value)` coerced to `Box<dyn Any>`. Nothing is claimed of
    /// the opaque result.
    #[verifier::external_body]
    pub(crate) fn new<T: 'static>(value: T) -> ErasedBox {
        ErasedBox { inner: Box::new(value) }
    }

    /// `<dyn Any>::downcast_ref::<T>`: `Some` when the boxed value is a `T`.
    /// Nothing is claimed of which case occurs.
    #[verifier::external_body]
    pub(crate) fn downcast_ref<T: 'static>(&self) -> Option<&T> {
        self.inner.downcast_ref::<T>()
    }

    /// `<dyn Any>::downcast_mut::<T>`: `Some` when the boxed value is a `T`.
    /// Nothing is claimed of which case occurs nor of the box afterwards.
    #[verifier::external_body]
    pub(crate) fn downcast_mut<T: 'static>(&mut self) -> Option<&mut T> {
        self.inner.downcast_mut::<T>()
    }
}

/// `<dyn Any>::downcast_mut::<Option<T>>` on an optional value of type `S`,
/// then `Option::take` on it: when `S` is `T`, the value is moved out and
/// `s` is left `None`. When `None` comes back, `s` is untouched. Nothing is
/// claimed of which case occurs.
#[verifier::external_body]
pub(crate) fn cast_value<S: 'static, T: 'static>(s: &mut Option<S>) -> (r: Option<T>)
    ensures
        r is None ==> *final(s) == *old(s),
        r is Some ==> (*final(s)) is None,
{
    (s as &mut dyn Any).downcast_mut::<Option<T>>().and_then(Option::take)
}

/// `<dyn Any>::downcast_ref::<T>` on a value of a known type `S`: `Some`
/// exactly when `S` and `T` are the same type. Nothing is claimed of which
/// case occurs.
#[verifier::external_body]
pub(crate) fn cast_ref<S: 'static, T: 'static>(s: &S) -> Option<&T> {
    (s as &dyn Any).downcast_ref::<T>()
}

/// `<dyn Any>::downcast_mut::<T>` on a value of a known type `S`. Nothing is
/// claimed of which case occurs nor of `s` afterwards.
#[verifier::external_body]
pub(crate) fn cast_mut<S: 'static, T: 'static>(s: &mut S) -> Option<&mut T> {
    (s as &mut dyn Any).downcast_mut::<T>()
}

} // verus!
