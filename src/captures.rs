use vstd::prelude::*;

use crate::span::Match;

verus! {

/// A caller-owned set of capture slots, reused across queries.
///
/// Slot 0 stands for the whole match; slot `i` is `None` when group `i`
/// took no part in the match.
pub trait Captures {
    /// The slots, in order.
    ///
    /// A set of slots verified against this trait defines it; the default
    /// says nothing of what is held.
    open spec fn slots(&self) -> Seq<Option<Match>> {
        arbitrary()
    }

    /// The number of slots, slot 0 included.
    fn len(&self) -> (r: usize)
        ensures
            r == self.slots().len(),
    ;

    /// The span held in slot `i`, or `None` where the slot is empty or
    /// does not exist.
    fn get(&self, i: usize) -> (r: Option<Match>)
        ensures
            r == (if i < self.slots().len() {
                self.slots()[i as int]
            } else {
                None
            }),
    ;

    /// The overall match, held in slot 0.
    fn as_match(&self) -> (r: Match)
        requires
            0 < self.slots().len(),
            self.slots()[0] is Some,
        ensures
            self.slots()[0] == Some(r),
    {
        self.get(0).unwrap()
    }

    fn is_empty(&self) -> (r: bool)
        ensures
            r == (self.slots().len() == 0),
    {
        self.len() == 0
    }

    /// Writes `replacement` into `dst`, with each group reference in it
    /// resolved through `name_to_index` and replaced by that group's bytes of
    /// `haystack`.
    fn interpolate<F>(
        &self,
        name_to_index: F,
        haystack: &[u8],
        replacement: &[u8],
        dst: &mut [u8],
    ) where F: FnMut(&str) -> Option<usize>
    ;
}

} // verus!
