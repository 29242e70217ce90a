//! Segments of an output contig and the assembly each one is taken from.

use vstd::prelude::*;

verus! {

/// The assembly a segment is taken from.
#[derive(Clone, Copy, Debug, PartialEq, Eq, Structural)]
pub enum ContigType {
    /// The reference assembly.
    Target,
    /// The query assembly.
    Query,
}

/// One contiguous slice `[start, stop)` of the contig `name` of the assembly
/// `category`.
#[derive(Clone, Debug, PartialEq, Eq)]
pub struct Contig {
    pub name: String,
    pub start: u32,
    pub stop: u32,
    pub category: ContigType,
}

/// The mathematical value of a [`Contig`].
pub ghost struct ContigView {
    pub name: Seq<char>,
    pub start: int,
    pub stop: int,
    pub category: ContigType,
}

impl View for Contig {
    type V = ContigView;

    open spec fn view(&self) -> ContigView {
        ContigView {
            name: self.name@,
            start: self.start as int,
            stop: self.stop as int,
            category: self.category,
        }
    }
}

impl ContigView {
    /// A segment holds at least one base.
    pub open spec fn nonempty(self) -> bool {
        self.start < self.stop
    }

    /// Number of bases of the segment.
    pub open spec fn span(self) -> int {
        self.stop - self.start
    }
}

impl Contig {
    pub fn new(name: String, start: u32, stop: u32, category: ContigType) -> (seg: Contig)
        ensures
            seg@ == (ContigView { name: name@, start: start as int, stop: stop as int, category }),
    {
        Contig { name, start, stop, category }
    }

    /// A copy of the segment.
    pub fn duplicate(&self) -> (seg: Contig)
        ensures
            seg@ == self@,
    {
        Contig {
            name: self.name.clone(),
            start: self.start,
            stop: self.stop,
            category: self.category,
        }
    }

    /// Whether the segment holds at least one base.
    pub fn is_nonempty(&self) -> (b: bool)
        ensures
            b == self@.nonempty(),
    {
        self.start < self.stop
    }
}

/// An output contig: its name and the segments it is made of, in output order.
#[derive(Clone, Debug, PartialEq, Eq)]
pub struct ConsensusContig {
    pub name: String,
    pub segments: Vec<Contig>,
}

/// The mathematical value of a [`ConsensusContig`].
pub ghost struct ConsensusView {
    pub name: Seq<char>,
    pub segments: Seq<ContigView>,
}

/// The values of a list of segments.
pub open spec fn segment_views(segments: Seq<Contig>) -> Seq<ContigView> {
    Seq::new(segments.len(), |i: int| segments[i]@)
}

impl View for ConsensusContig {
    type V = ConsensusView;

    open spec fn view(&self) -> ConsensusView {
        ConsensusView { name: self.name@, segments: segment_views(self.segments@) }
    }
}

/// Segments of the query lie in the order of their coordinates and do not
/// overlap.
pub open spec fn query_ordered(segs: Seq<ContigView>) -> bool {
    forall|i: int, j: int|
        0 <= i < j < segs.len() && (#[trigger] segs[i]).category == ContigType::Query
            && (#[trigger] segs[j]).category == ContigType::Query ==> segs[i].stop
            <= segs[j].start
}

/// The values of a list of output contigs.
pub open spec fn consensus_views(contigs: Seq<ConsensusContig>) -> Seq<ConsensusView> {
    Seq::new(contigs.len(), |i: int| contigs[i]@)
}

} // verus!
