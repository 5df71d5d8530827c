//! A three-state optional value that remembers whether it was forced.

use vstd::prelude::*;
use vstd::std_specs::convert::FromSpecImpl;

verus! {

/// Similar to an `Option`, but has a third case that signals the forced nature of some value.
#[derive(Clone, Debug, Eq, Hash, PartialEq)]
pub enum Force<T> {
    /// A forced value.
    Forced(T),
    /// A regular value.
    Value(T),
    /// No value.
    Absent,
}

impl<T> Force<T> {
    /// The payload, if there is one, without its tag.
    pub open spec fn payload(self) -> Option<T> {
        match self {
            Force::Forced(v) => Option::Some(v),
            Force::Value(v) => Option::Some(v),
            Force::Absent => Option::None,
        }
    }

    /// The value that carries `value` under the tag of `self`.
    pub open spec fn retagged<V>(self, value: V) -> Force<V> {
        match self {
            Force::Forced(_) => Force::Forced(value),
            Force::Value(_) => Force::Value(value),
            Force::Absent => Force::Absent,
        }
    }

    /// Creates a new `Force` value, forced if `force` is set.
    #[inline]
    pub fn new(value: T, force: bool) -> (res: Force<T>)
        ensures
            res == (if force {
                Force::Forced(value)
            } else {
                Force::Value(value)
            }),
    {
        if force {
            Self::Forced(value)
        } else {
            Self::Value(value)
        }
    }

    /// Wraps a value in a `Force` with the same degree of force as an existing `Force`.
    ///
    /// The tag of `self` is preserved and its payload replaced; where `self`
    /// holds nothing, `value` is dropped and the result holds nothing either.
    #[inline]
    pub fn same<V>(&self, value: V) -> (res: Force<V>)
        ensures
            res == self.retagged(value),
    {
        match self {
            Force::Forced(_) => Force::Forced(value),
            Force::Value(_) => Force::Value(value),
            Force::Absent => Force::Absent,
        }
    }

    /// Takes the value out, leaving `Force::Absent` in its place.
    #[inline]
    pub fn take(&mut self) -> (res: Force<T>)
        ensures
            res == *old(self),
            *final(self) == Force::<T>::Absent,
    {
        let mut taken = Self::Absent;
        core::mem::swap(self, &mut taken);
        taken
    }
}

impl<T> Default for Force<T> {
    #[inline]
    fn default() -> (res: Self)
        ensures
            res == Force::<T>::Absent,
    {
        Self::Absent
    }
}

impl<T> FromSpecImpl<Option<Force<T>>> for Force<T> {
    open spec fn obeys_from_spec() -> bool {
        true
    }

    open spec fn from_spec(value: Option<Force<T>>) -> Self {
        match value {
            Option::None => Force::Absent,
            Option::Some(inner) => inner,
        }
    }
}

impl<T> From<Option<Force<T>>> for Force<T> {
    fn from(value: Option<Force<T>>) -> (res: Self) {
        match value {
            Option::None => Force::Absent,
            Option::Some(inner) => inner,
        }
    }
}

/// Retagging keeps the tag and never invents a payload: the result holds
/// `value` exactly when `f` held something.
pub proof fn lemma_same_preserves_tag<T, V>(f: Force<T>, value: V)
    ensures
        f.retagged(value) is Forced <==> f is Forced,
        f.retagged(value) is Value <==> f is Value,
        f.retagged(value) is Absent <==> f is Absent,
        f.retagged(value).payload() == (if f is Absent {
            Option::<V>::None
        } else {
            Option::Some(value)
        }),
{
}

} // verus!
