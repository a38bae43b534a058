use vstd::prelude::*;

verus! {

/// How the number of centroids that a spacing gives compares with the number
/// wanted.
#[derive(Clone, Copy, Debug, PartialEq, Eq, Structural)]
pub enum Verdict {
    /// Within the tolerance.
    Close,
    /// Too few: the spacing is too wide.
    TooFew,
    /// Too many: the spacing is too narrow.
    TooMany,
}

/// The search for a spacing by halving: the spacing lies between `lower` and
/// `upper`, and `steps_left` more spacings may be tried. The bounds are
/// carried as the bit patterns of single-precision numbers; the search itself
/// never looks into them.
#[derive(Clone, Copy, Debug, PartialEq, Eq, Structural)]
pub struct Search {
    pub lower: u32,
    pub upper: u32,
    pub steps_left: usize,
}

/// What a tried spacing leads to.
#[derive(Clone, Copy, Debug, PartialEq, Eq, Structural)]
pub enum Outcome {
    /// The search ends with this spacing.
    Found(u32),
    /// The search goes on in a narrower interval.
    Narrowed(Search),
}

impl Search {
    /// What follows the verdict on the spacing `mid`: the search ends with
    /// `mid` where it is close and where no further spacing may be tried; else
    /// `mid` becomes the upper bound where it gives too few centroids and the
    /// lower bound where it gives too many.
    pub open spec fn after(self, mid: u32, verdict: Verdict) -> Outcome {
        if verdict == Verdict::Close || self.steps_left <= 1 {
            Outcome::Found(mid)
        } else if verdict == Verdict::TooFew {
            Outcome::Narrowed(
                Search { lower: self.lower, upper: mid, steps_left: (self.steps_left - 1) as usize },
            )
        } else {
            Outcome::Narrowed(
                Search { lower: mid, upper: self.upper, steps_left: (self.steps_left - 1) as usize },
            )
        }
    }

    /// A search between `lower` and `upper` that may try `steps` spacings.
    pub fn new(lower: u32, upper: u32, steps: usize) -> (search: Search)
        ensures
            search == (Search { lower, upper, steps_left: steps }),
    {
        Search { lower, upper, steps_left: steps }
    }

    /// Takes in the verdict on the spacing `mid`.
    pub fn narrow(self, mid: u32, verdict: Verdict) -> (outcome: Outcome)
        ensures
            outcome == self.after(mid, verdict),
    {
        if self.steps_left <= 1 {
            return Outcome::Found(mid);
        }
        match verdict {
            Verdict::Close => Outcome::Found(mid),
            Verdict::TooFew => Outcome::Narrowed(
                Search { lower: self.lower, upper: mid, steps_left: self.steps_left - 1 },
            ),
            Verdict::TooMany => Outcome::Narrowed(
                Search { lower: mid, upper: self.upper, steps_left: self.steps_left - 1 },
            ),
        }
    }
}

/// What the search has come to after the first `upto` of the tried spacings,
/// each given with its verdict.
pub open spec fn outcome_after(search: Search, tried: Seq<(u32, Verdict)>, upto: int) -> Outcome
    decreases upto,
{
    if upto <= 0 {
        Outcome::Narrowed(search)
    } else {
        match outcome_after(search, tried, upto - 1) {
            Outcome::Found(mid) => Outcome::Found(mid),
            Outcome::Narrowed(narrower) => narrower.after(tried[upto - 1].0, tried[upto - 1].1),
        }
    }
}

/// The search is bounded: whatever the verdicts, it has ended once as many
/// spacings were tried as it had steps, and after one where it had none.
pub proof fn lemma_search_ends(search: Search, tried: Seq<(u32, Verdict)>, upto: int)
    requires
        1 <= upto <= tried.len(),
        search.steps_left <= upto,
    ensures
        outcome_after(search, tried, upto) is Found,
{
    lemma_search_counts(search, tried, upto - 1);
}

/// While the search goes on, each tried spacing uses up one step.
pub proof fn lemma_search_counts(search: Search, tried: Seq<(u32, Verdict)>, upto: int)
    requires
        0 <= upto <= tried.len(),
    ensures
        outcome_after(search, tried, upto) matches Outcome::Narrowed(narrower)
            ==> narrower.steps_left == search.steps_left - upto && (upto > 0
            ==> narrower.steps_left >= 1),
    decreases upto,
{
    if upto > 0 {
        lemma_search_counts(search, tried, upto - 1);
    }
}

} // verus!
