//! What can go wrong while nodes are introduced to each other.

use vstd::prelude::*;

verus! {

/// `J` is a JavaScript value that was thrown, `E` any error of the program itself.
#[derive(Debug)]
pub enum Error<J, E> {
    Js(J),
    Rust(E),
    AlreadyInitialized(u64),
}

} // verus!
