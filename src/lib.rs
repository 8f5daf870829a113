use vstd::prelude::*;

pub mod fib;
pub mod iterator_extensions;
pub mod numerics;

pub use fib::Fib;
pub use iterator_extensions::{IteratorExtensions, MemoizedIteraror, MemoizedSequence, Terms};
pub use numerics::BigInteger;

verus! {

} // verus!
