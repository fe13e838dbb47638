use vstd::prelude::*;
use vstd::std_specs::convert::{FromSpec, FromSpecImpl};

verus! {

pub type LocationIndex = u32;

/// A place in a source: line and column, both counted from 0.
#[derive(Debug, Clone, Copy, PartialEq, Eq, Structural)]
pub struct Location {
    line: LocationIndex,
    column: LocationIndex,
}

impl Location {
    pub closed spec fn spec_line(self) -> LocationIndex {
        self.line
    }

    pub closed spec fn spec_column(self) -> LocationIndex {
        self.column
    }

    /// Two locations with the same line and the same column are the same
    /// location.
    pub proof fn lemma_equal(self, other: Location)
        requires
            self.spec_line() == other.spec_line(),
            self.spec_column() == other.spec_column(),
        ensures
            self == other,
    {
    }

    /// The location at `line` and `column`.
    pub fn new(line: LocationIndex, column: LocationIndex) -> (r: Self)
        ensures
            r.spec_line() == line,
            r.spec_column() == column,
    {
        Self { line, column }
    }

    pub fn line(self) -> (r: LocationIndex)
        ensures
            r == self.spec_line(),
    {
        self.line
    }

    pub fn column(self) -> (r: LocationIndex)
        ensures
            r == self.spec_column(),
    {
        self.column
    }
}

impl From<(LocationIndex, LocationIndex)> for Location {
    fn from(value: (LocationIndex, LocationIndex)) -> (r: Self) {
        Self { line: value.0, column: value.1 }
    }
}

impl FromSpecImpl<(LocationIndex, LocationIndex)> for Location {
    open spec fn obeys_from_spec() -> bool {
        true
    }

    closed spec fn from_spec(value: (LocationIndex, LocationIndex)) -> Self {
        Self { line: value.0, column: value.1 }
    }
}

/// A location made from a pair holds the first of the pair as its line and
/// the second as its column.
pub proof fn lemma_location_from_pair(value: (LocationIndex, LocationIndex))
    ensures
        <Location as FromSpec<(LocationIndex, LocationIndex)>>::from_spec(value).spec_line()
            == value.0,
        <Location as FromSpec<(LocationIndex, LocationIndex)>>::from_spec(value).spec_column()
            == value.1,
{
}

} // verus!
