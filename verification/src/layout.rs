use vstd::prelude::*;

verus! {

/// Whether a graph layout has settled.
#[derive(Clone, Copy, Debug, PartialEq, Eq, Structural)]
pub enum EmbedderHasConverged {
    Yes,
    No,
}

impl EmbedderHasConverged {
    /// Converged only if both are.
    pub fn and_also(self, other: Self) -> (r: Self)
        ensures
            r == (if self == EmbedderHasConverged::Yes {
                other
            } else {
                EmbedderHasConverged::No
            }),
    {
        match self {
            Self::Yes => other,
            Self::No => Self::No,
        }
    }

    pub fn converged(self) -> (b: bool)
        ensures
            b == (self == EmbedderHasConverged::Yes),
    {
        match self {
            Self::Yes => true,
            Self::No => false,
        }
    }
}

/// How much a round of layout iterations moved the nodes.
#[derive(Clone, Copy, Debug, PartialEq, Eq, Structural)]
pub enum LayoutMadeProgress {
    YesALot,
    YesALittle,
    NoJustTiny,
}

/// The rank of a progress value: more movement ranks higher.
pub open spec fn progress_rank(p: LayoutMadeProgress) -> int {
    match p {
        LayoutMadeProgress::NoJustTiny => 0,
        LayoutMadeProgress::YesALittle => 1,
        LayoutMadeProgress::YesALot => 2,
    }
}

impl LayoutMadeProgress {
    /// `*self |= rhs`: keep the larger of the two amounts of progress.
    pub fn bitor_assign(&mut self, rhs: Self)
        ensures
            *final(self) == (if progress_rank(*old(self)) >= progress_rank(rhs) {
                *old(self)
            } else {
                rhs
            }),
    {
        match (*self, rhs) {
            (Self::NoJustTiny, _) => *self = rhs,
            (Self::YesALittle, Self::YesALot) => *self = Self::YesALot,
            (..) => {},
        }
    }
}

/// Combining progress with `|=` keeps the larger amount, whatever the order.
pub proof fn law_progress_join_commutes(a: LayoutMadeProgress, b: LayoutMadeProgress)
    ensures
        (if progress_rank(a) >= progress_rank(b) {
            a
        } else {
            b
        }) == (if progress_rank(b) >= progress_rank(a) {
            b
        } else {
            a
        }),
{
}

/// Which of the model's graphs the interface shows.
#[derive(Clone, Copy, Debug, PartialEq, Eq, Structural)]
pub enum GraphToView {
    RawBlock,
    CompressedBlock,
    State,
    MergedBlock,
    CompressedMergedBlock,
}

/// The number by which a view is stored.
pub open spec fn view_number(v: GraphToView) -> u8 {
    match v {
        GraphToView::RawBlock => 0,
        GraphToView::CompressedBlock => 1,
        GraphToView::State => 2,
        GraphToView::MergedBlock => 3,
        GraphToView::CompressedMergedBlock => 4,
    }
}

impl GraphToView {
    /// The number by which a view is stored.
    pub fn to_raw(self) -> (n: u8)
        ensures
            n == view_number(self),
    {
        match self {
            Self::RawBlock => 0,
            Self::CompressedBlock => 1,
            Self::State => 2,
            Self::MergedBlock => 3,
            Self::CompressedMergedBlock => 4,
        }
    }

    /// The view stored as `num`; numbers past the last view are no view.
    pub fn from_raw(num: u8) -> (v: Self)
        requires
            num <= 4,
        ensures
            view_number(v) == num,
    {
        match num {
            0 => Self::RawBlock,
            1 => Self::CompressedBlock,
            2 => Self::State,
            3 => Self::MergedBlock,
            _ => Self::CompressedMergedBlock,
        }
    }

    /// The title under which the view is shown.
    pub fn name(&self) -> (s: &'static str)
        ensures
            s@ == view_name(*self)@,
    {
        match self {
            Self::RawBlock => "Raw Basic Block Graph",
            Self::CompressedBlock => "Compressed Block Graph",
            Self::State => "State Graph",
            Self::MergedBlock => "Merged Basic Block Graph",
            Self::CompressedMergedBlock => "Compressed Merged Basic Block Graph",
        }
    }
}

/// The title under which a view is shown.
pub open spec fn view_name(v: GraphToView) -> &'static str {
    match v {
        GraphToView::RawBlock => "Raw Basic Block Graph",
        GraphToView::CompressedBlock => "Compressed Block Graph",
        GraphToView::State => "State Graph",
        GraphToView::MergedBlock => "Merged Basic Block Graph",
        GraphToView::CompressedMergedBlock => "Compressed Merged Basic Block Graph",
    }
}

/// Storing a view as its number and reading it back gives the same view.
pub proof fn law_view_number_roundtrip(v: GraphToView, n: u8)
    requires
        n == view_number(v),
    ensures
        n <= 4,
        forall|w: GraphToView| view_number(w) == n ==> w == v,
{
}

} // verus!
