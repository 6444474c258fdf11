//! What can go wrong while a trace is put together.
use crate::trace::metrics::MetricsRange;
use vstd::prelude::*;

verus! {

#[derive(Debug, Copy, Clone, PartialEq, Eq, Hash, Structural)]
pub enum Error {
    /// The range does not fit between the chunks that are there already.
    InvalidRange(MetricsRange),
    /// Occurences of an event were not given in the order of their times.
    NotSorted,
}

impl Error {
    /// A range in the error has an end that can be held in a sample.
    pub open spec fn printable(self) -> bool {
        match self {
            Error::InvalidRange(range) => range.fits(),
            Error::NotSorted => true,
        }
    }

    pub open spec fn text(self) -> Seq<char> {
        match self {
            Error::InvalidRange(range) => "Invalid range: "@ + range.text(),
            Error::NotSorted => "Occurences are not sorted by timestamp"@,
        }
    }

    pub fn to_string(&self) -> (result: String)
        requires
            self.printable(),
        ensures
            result@ == self.text(),
    {
        let mut out = String::new();
        match self {
            Error::InvalidRange(range) => {
                out.append("Invalid range: ");
                out.append(range.to_string().as_str());
            },
            Error::NotSorted => {
                out.append("Occurences are not sorted by timestamp");
            },
        }
        assert(out@ =~= self.text());
        out
    }
}

} // verus!
