//! Instruction streams: what a program is, and the two builders.

use vstd::prelude::*;

pub mod basic;
pub mod semicolon_compressed;

verus! {

/// A loop bracket that has no partner: the stream holding it is no program.
#[derive(Copy, Clone, Eq, PartialEq, Debug)]
pub struct Unbalanced {
    /// Where the bracket stands in the stream.
    pub index: usize,
}

/// An immutable, 0-indexed stream of instructions of type `T`.
pub trait Program<T> {
    /// The stream itself.
    spec fn instructions(&self) -> Seq<T>;

    /// The instruction at `index`, or `None` past the end of the stream.
    fn get(&self, index: usize) -> (instruction: Option<T>)
        ensures
            self.instructions().len() <= usize::MAX,
            instruction == if index < self.instructions().len() {
                Some(self.instructions()[index as int])
            } else {
                None
            },
    ;

    /// How many instructions the stream holds.
    fn len(&self) -> (length: usize)
        ensures
            length == self.instructions().len(),
    ;

    /// Whether the stream holds no instruction at all.
    fn is_empty(&self) -> (empty: bool)
        ensures
            empty == (self.instructions().len() == 0),
    ;
}

} // verus!
