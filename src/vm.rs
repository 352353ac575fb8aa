//! The vocabulary shared with the machine that will run the code.
use vstd::prelude::*;

verus! {

/// A classified unit of source text, carrying the text it was read from.
#[derive(Clone, Copy, Debug, PartialEq, Eq)]
pub enum Token<T> {
    /// A maximal run of ASCII letters, exactly as written.
    Word(T),
}

} // verus!
