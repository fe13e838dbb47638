use crate::context::Contextual;
use vstd::prelude::*;

verus! {

pub type SpanIndex = u32;

/// A half-open range of byte offsets into the content of one source.
/// The start never lies behind the end.
#[derive(Debug, Clone, Copy, PartialEq, Eq, Structural)]
pub struct Span {
    start: SpanIndex,
    end: SpanIndex,
}

impl Span {
    #[verifier::type_invariant]
    spec fn ordered(self) -> bool {
        self.start <= self.end
    }

    /// The offset of the first byte.
    pub closed spec fn spec_start(self) -> nat {
        self.start as nat
    }

    /// The offset behind the last byte.
    pub closed spec fn spec_end(self) -> nat {
        self.end as nat
    }

    /// The number of bytes covered.
    pub open spec fn spec_len(self) -> int {
        self.spec_end() - self.spec_start()
    }

    /// Two spans with the same start and the same end are the same span.
    pub proof fn lemma_equal(self, other: Span)
        requires
            self.spec_start() == other.spec_start(),
            self.spec_end() == other.spec_end(),
        ensures
            self == other,
    {
    }

    /// The offsets of a span are 32-bit numbers.
    pub proof fn lemma_bounds(self)
        ensures
            self.spec_start() <= u32::MAX,
            self.spec_end() <= u32::MAX,
    {
    }

    /// The span from `start` to `end`, or nothing when `end` lies before `start`.
    pub fn new(start: SpanIndex, end: SpanIndex) -> (r: Option<Self>)
        ensures
            r is Some <==> start <= end,
            r matches Some(s) ==> s.spec_start() == start && s.spec_end() == end,
    {
        if start <= end {
            Some(Span { start, end })
        } else {
            None
        }
    }

    pub fn start(self) -> (r: SpanIndex)
        ensures
            r == self.spec_start(),
            r <= self.spec_end(),
    {
        proof {
            use_type_invariant(self);
        }
        self.start
    }

    pub fn end(self) -> (r: SpanIndex)
        ensures
            r == self.spec_end(),
            self.spec_start() <= r,
    {
        proof {
            use_type_invariant(self);
        }
        self.end
    }
}

/// A value together with the span that it came from.
pub type Spanned<Val> = Contextual<Span, Val>;

} // verus!
