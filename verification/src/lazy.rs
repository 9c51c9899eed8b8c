//! Lazy resolution of named values.

use vstd::prelude::*;

verus! {

/// A source of values registered under names; a symbolic reference asks one
/// of these for the value it stands for.
pub trait LazyResolve<T> {
    /// The value registered under `name`, where one exists.
    fn resolve(&mut self, name: &str) -> (r: Option<T>);
}

} // verus!
