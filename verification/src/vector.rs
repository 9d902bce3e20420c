//! The [`Vector`] type: an owned, dense embedding.
//!
//! The component type is a parameter: the engine stores `f32` components, while
//! everything the index does with a vector (store it, hand it back, count its
//! dimension) is independent of what the components are. The dimension is
//! `dim()`: not encoded in the type, since it is a per-collection runtime
//! property validated at the insert/query boundary.
use vstd::prelude::*;

verus! {

/// An owned dense embedding. Thin wrapper over `Vec<T>`.
#[derive(Debug, Clone, PartialEq)]
pub struct Vector<T>(Vec<T>);

impl<T> View for Vector<T> {
    type V = Seq<T>;

    closed spec fn view(&self) -> Seq<T> {
        self.0@
    }
}

impl<T> Vector<T> {
    /// Build a `Vector` from its components.
    pub fn new(data: Vec<T>) -> (v: Self)
        ensures
            v@ == data@,
    {
        Vector(data)
    }

    /// The dimension of the vector (number of components).
    pub fn dim(&self) -> (d: usize)
        ensures
            d == self@.len(),
    {
        self.0.len()
    }

    /// Borrow the underlying components as a slice.
    pub fn as_slice(&self) -> (s: &[T])
        ensures
            s@ == self@,
    {
        self.0.as_slice()
    }
}

impl<T> core::ops::Deref for Vector<T> {
    type Target = [T];

    fn deref(&self) -> (s: &[T])
        ensures
            s@ == self@,
    {
        self.0.as_slice()
    }
}

impl<T> From<Vec<T>> for Vector<T> {
    fn from(data: Vec<T>) -> (v: Self)
        ensures
            v@ == data@,
    {
        Vector(data)
    }
}

impl<T> vstd::std_specs::convert::FromSpecImpl<Vec<T>> for Vector<T> {
    open spec fn obeys_from_spec() -> bool {
        true
    }

    closed spec fn from_spec(data: Vec<T>) -> Self {
        Vector(data)
    }
}

impl<T: Copy, const N: usize> From<[T; N]> for Vector<T> {
    fn from(data: [T; N]) -> (v: Self)
        ensures
            v@ == data@,
    {
        let mut out: Vec<T> = Vec::new();
        let mut i: usize = 0;
        while i < N
            invariant
                i <= N,
                out@ == data@.take(i as int),
            decreases N - i,
        {
            out.push(data[i]);
            i = i + 1;
            assert(out@ =~= data@.take(i as int));
        }
        Vector(out)
    }
}

/// A vector built from an array has the array's components; no spec value of
/// the type is named for it, the conversion's own `ensures` says what it gives.
impl<T: Copy, const N: usize> vstd::std_specs::convert::FromSpecImpl<[T; N]> for Vector<T> {
    open spec fn obeys_from_spec() -> bool {
        false
    }

    closed spec fn from_spec(data: [T; N]) -> Self {
        arbitrary()
    }
}

} // verus!
