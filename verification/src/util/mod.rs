pub mod concurrency;
pub mod data;
pub mod errors;
pub mod fen;
pub mod zobrist;

use vstd::prelude::*;
use std::ops::ControlFlow;

verus! {

/// Appends one character to a string (`String::push`).
#[verifier::external_body]
pub(crate) fn push_char(s: &mut String, c: char)
    ensures
        final(s)@ == old(s)@.push(c),
{
    s.push(c);
}

/// Gives back what a value holds, whichever of its forms it takes.
pub trait UnwrapsAll<T> {
    fn unwrap_all(self) -> T;
}

impl<T> UnwrapsAll<T> for ControlFlow<T, T> {
    fn unwrap_all(self) -> (t: T)
        ensures
            t == match self {
                ControlFlow::Continue(c) => c,
                ControlFlow::Break(b) => b,
            },
    {
        match self {
            ControlFlow::Continue(t) => t,
            ControlFlow::Break(t) => t,
        }
    }
}

} // verus!
