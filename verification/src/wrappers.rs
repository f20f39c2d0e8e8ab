//! The cross-cutting wrapper types of the serialization bridge. Wrapping
//! a value in [`HumanReadable`] signals that it and everything beneath it
//! should take each type's human-readable form; once set for a subtree
//! the mode is inherited by all descendants. Wrapping in
//! [`Utf8LossyDeserialization`] signals that, only while decoding from
//! raw bytes, ill-formed UTF-8 inside strings is repaired with the
//! replacement character instead of rejected.

use vstd::prelude::*;

verus! {

/// Marks a value and all values beneath it for the human-readable
/// representation: date-times as formatted text rather than raw
/// millisecond counts. The flag, once set, is not resettable by a nested
/// value choosing otherwise.
#[derive(Clone, Copy, PartialEq, Eq, Debug)]
pub struct HumanReadable<T>(pub T);

impl<T> HumanReadable<T> {
    /// Wraps a value.
    pub fn new(value: T) -> (r: HumanReadable<T>)
        ensures
            r.0 == value,
    {
        HumanReadable(value)
    }

    /// Gives the wrapped value up.
    pub fn into_inner(self) -> (r: T)
        ensures
            r == self.0,
    {
        self.0
    }

    /// The wrapped value.
    pub fn get(&self) -> (r: &T)
        ensures
            r == self.0,
    {
        &self.0
    }
}

impl<T> From<T> for HumanReadable<T> {
    fn from(value: T) -> (r: HumanReadable<T>) {
        HumanReadable(value)
    }
}

impl<T> vstd::std_specs::convert::FromSpecImpl<T> for HumanReadable<T> {
    open spec fn obeys_from_spec() -> bool {
        true
    }

    open spec fn from_spec(value: T) -> HumanReadable<T> {
        HumanReadable(value)
    }
}

/// Marks a value so that, while it is decoded from raw bytes, ill-formed
/// UTF-8 inside strings is replaced with the replacement character
/// instead of failing the decode. The wrapper has no effect on encoding.
#[derive(Clone, Copy, PartialEq, Eq, Debug)]
pub struct Utf8LossyDeserialization<T>(pub T);

impl<T> Utf8LossyDeserialization<T> {
    /// Wraps a value.
    pub fn new(value: T) -> (r: Utf8LossyDeserialization<T>)
        ensures
            r.0 == value,
    {
        Utf8LossyDeserialization(value)
    }

    /// Gives the wrapped value up.
    pub fn into_inner(self) -> (r: T)
        ensures
            r == self.0,
    {
        self.0
    }

    /// The wrapped value.
    pub fn get(&self) -> (r: &T)
        ensures
            r == self.0,
    {
        &self.0
    }
}

impl<T> From<T> for Utf8LossyDeserialization<T> {
    fn from(value: T) -> (r: Utf8LossyDeserialization<T>) {
        Utf8LossyDeserialization(value)
    }
}

impl<T> vstd::std_specs::convert::FromSpecImpl<T> for Utf8LossyDeserialization<T> {
    open spec fn obeys_from_spec() -> bool {
        true
    }

    open spec fn from_spec(value: T) -> Utf8LossyDeserialization<T> {
        Utf8LossyDeserialization(value)
    }
}

} // verus!
