use vstd::prelude::*;
use vstd::string::StringSliceAdditionalSpecFns;

verus! {

/// A half-open range `[start, end)` of byte offsets into a haystack.
///
/// Every value satisfies `start <= end`; the constructors refuse any other pair.
#[derive(Clone, Copy, Debug, Eq, Hash, PartialEq, Structural)]
pub struct Match {
    start: usize,
    end: usize,
}

impl Match {
    #[verifier::type_invariant]
    spec fn ordered(self) -> bool {
        self.start <= self.end
    }

    /// The offset at which the span begins.
    pub closed spec fn spec_start(self) -> nat {
        self.start as nat
    }

    /// The offset at which the span ends (exclusive).
    pub closed spec fn spec_end(self) -> nat {
        self.end as nat
    }

    /// The number of bytes the span covers.
    pub open spec fn spec_len(self) -> nat {
        (self.spec_end() - self.spec_start()) as nat
    }

    /// Whether the span covers no byte at all.
    pub open spec fn spec_is_empty(self) -> bool {
        self.spec_start() == self.spec_end()
    }

    /// Creates the span `[start, end)`.
    pub fn new(start: usize, end: usize) -> (r: Match)
        requires
            start <= end,
        ensures
            r.spec_start() == start,
            r.spec_end() == end,
    {
        Match { start, end }
    }

    /// The offset at which the span begins.
    pub fn start(&self) -> (r: usize)
        ensures
            r == self.spec_start(),
            r <= self.spec_end(),
    {
        proof {
            use_type_invariant(self);
        }
        self.start
    }

    /// The offset at which the span ends (exclusive).
    pub fn end(&self) -> (r: usize)
        ensures
            r == self.spec_end(),
            self.spec_start() <= r,
    {
        proof {
            use_type_invariant(self);
        }
        self.end
    }

    /// Creates the empty span `[offset, offset)`.
    pub fn zero(offset: usize) -> (r: Match)
        ensures
            r.spec_start() == offset,
            r.spec_end() == offset,
    {
        Match { start: offset, end: offset }
    }

    /// Returns this span with its start replaced.
    pub fn with_start(&self, start: usize) -> (r: Match)
        requires
            start <= self.spec_end(),
        ensures
            r.spec_start() == start,
            r.spec_end() == self.spec_end(),
    {
        Match { start, end: self.end }
    }

    /// Returns this span with its end replaced.
    pub fn with_end(&self, end: usize) -> (r: Match)
        requires
            self.spec_start() <= end,
        ensures
            r.spec_start() == self.spec_start(),
            r.spec_end() == end,
    {
        Match { start: self.start, end }
    }

    /// Returns this span shifted right by `amount`; both ends must stay
    /// within `usize`.
    pub fn offset(&self, amount: usize) -> (r: Match)
        requires
            self.spec_end() + amount <= usize::MAX,
        ensures
            r.spec_start() == self.spec_start() + amount,
            r.spec_end() == self.spec_end() + amount,
    {
        proof {
            use_type_invariant(self);
        }
        Match { start: self.start + amount, end: self.end + amount }
    }

    /// The number of bytes the span covers.
    pub fn len(&self) -> (r: usize)
        ensures
            r == self.spec_len(),
    {
        proof {
            use_type_invariant(self);
        }
        self.end - self.start
    }

    /// Whether the span covers no byte at all.
    pub fn is_empty(&self) -> (r: bool)
        ensures
            r == self.spec_is_empty(),
    {
        proof {
            use_type_invariant(self);
        }
        self.len() == 0
    }
}


/// A span is determined by its two ends: spans with the same start and the
/// same end are equal.
pub proof fn lemma_ends_determine(a: Match, b: Match)
    requires
        a.spec_start() == b.spec_start(),
        a.spec_end() == b.spec_end(),
    ensures
        a == b,
{
}

impl std::ops::Index<Match> for [u8] {
    type Output = [u8];

    fn index(&self, index: Match) -> (r: &[u8])
        ensures
            r@ == self@.subrange(index.spec_start() as int, index.spec_end() as int),
    {
        proof {
            use_type_invariant(&index);
        }
        &self[index.start..index.end]
    }
}

impl vstd::std_specs::core::IndexSpecImpl<Match> for [u8] {
    open spec fn index_req(&self, index: &Match) -> bool {
        index.spec_end() <= self@.len()
    }
}

impl std::ops::Index<Match> for str {
    type Output = str;

    fn index(&self, index: Match) -> (r: &str)
        ensures
            r.spec_bytes() == self.spec_bytes().subrange(index.spec_start() as int, index.spec_end() as int),
    {
        proof {
            use_type_invariant(&index);
        }
        let (_, rest) = self.split_at(index.start);
        let (piece, _) = rest.split_at(index.end - index.start);
        piece
    }
}

/// The span must lie within the string, start at a character boundary, and
/// end at a character boundary of the text from its start on (which it does
/// where it ends at a boundary of the whole string).
impl vstd::std_specs::core::IndexSpecImpl<Match> for str {
    open spec fn index_req(&self, index: &Match) -> bool {
        &&& index.spec_end() <= self.spec_bytes().len()
        &&& vstd::utf8::is_char_boundary(self.spec_bytes(), index.spec_start() as int)
        &&& vstd::utf8::is_char_boundary(
            self.spec_bytes().subrange(index.spec_start() as int, self.spec_bytes().len() as int),
            index.spec_len() as int,
        )
    }
}

} // verus!
