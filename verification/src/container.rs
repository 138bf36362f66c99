use vstd::prelude::*;

verus! {

/// A collection that knows how many items it holds.
pub trait HasLength {
    /// The number of items held.
    spec fn spec_len(&self) -> nat;

    fn len(&self) -> (n: usize)
        ensures
            n == self.spec_len(),
    ;

    fn is_empty(&self) -> (b: bool)
        ensures
            b <==> self.spec_len() == 0,
    {
        self.len() == 0
    }
}

/// A collection that takes values in and tells whether it holds one.
pub trait Insertable<T>: Sized {
    /// A collection that holds nothing.
    fn new() -> Self;

    /// Takes `value` in.
    fn insert(&mut self, value: T);

    /// Whether the collection holds `value`.
    fn contains(&self, value: &T) -> bool;
}

/// A collection that can be filled, asked for a value, and measured.
pub trait Container<T>: HasLength + Insertable<T> {

}

} // verus!
