//! Stretching the first and the last segment of every output contig to the
//! ends of the contigs they are taken from.

use vstd::prelude::*;
use crate::segment::{consensus_views, query_ordered};
use crate::segment::{ConsensusContig, ConsensusView, ContigType, ContigView};

verus! {

/// The full length of the contig `name` of one assembly.
#[derive(Clone, Debug, PartialEq, Eq)]
pub struct ContigLength {
    pub name: String,
    pub length: u64,
}

/// The mathematical value of a [`ContigLength`].
pub ghost struct LengthView {
    pub name: Seq<char>,
    pub length: int,
}

impl View for ContigLength {
    type V = LengthView;

    open spec fn view(&self) -> LengthView {
        LengthView { name: self.name@, length: self.length as int }
    }
}

/// The values of a table of lengths.
pub open spec fn length_views(table: Seq<ContigLength>) -> Seq<LengthView> {
    Seq::new(table.len(), |i: int| table[i]@)
}

/// The length that `table` gives for the contig `name`. Where the name stands
/// more than once the last entry counts.
pub open spec fn length_of(table: Seq<LengthView>, name: Seq<char>) -> Option<int>
    decreases table.len(),
{
    if table.len() == 0 {
        None
    } else if table.last().name == name {
        Some(table.last().length)
    } else {
        length_of(table.drop_last(), name)
    }
}

/// Looks the contig `name` up in `table`.
pub fn lookup_length(table: &Vec<ContigLength>, name: &String) -> (length: Option<u64>)
    ensures
        match length {
            Some(n) => length_of(length_views(table@), name@) == Some(n as int),
            None => length_of(length_views(table@), name@).is_none(),
        },
{
    let ghost all = length_views(table@);
    let mut at: usize = table.len();
    proof {
        assert(all.take(at as int) =~= all);
    }
    while at > 0
        invariant
            at <= table@.len(),
            all == length_views(table@),
            length_of(all, name@) == length_of(all.take(at as int), name@),
        decreases at,
    {
        proof {
            assert(all.take(at as int).drop_last() =~= all.take(at as int - 1));
            assert(all.take(at as int).last() == table@[at as int - 1]@);
        }
        if table[at - 1].name == *name {
            return Some(table[at - 1].length);
        }
        at -= 1;
    }
    None
}

/// The full length of the contig that the segment is taken from: looked up
/// among the reference's contigs for a segment of the reference, among the
/// query's for one of the query.
pub open spec fn source_length(seg: ContigView, ref_lengths: Seq<LengthView>, qry_lengths: Seq<LengthView>)
    -> Option<int> {
    match seg.category {
        ContigType::Target => length_of(ref_lengths, seg.name),
        ContigType::Query => length_of(qry_lengths, seg.name),
    }
}

/// What stands in the way of stretching a contig, if anything: the contig of
/// its last segment is unknown, or longer than a coordinate can say.
pub open spec fn obstacle(c: ConsensusView, ref_lengths: Seq<LengthView>, qry_lengths: Seq<LengthView>)
    -> Option<BoundaryFault> {
    if c.segments.len() == 0 {
        None
    } else {
        match source_length(c.segments.last(), ref_lengths, qry_lengths) {
            None => Some(BoundaryFault::Unknown),
            Some(n) => if n > u32::MAX {
                Some(BoundaryFault::TooLong)
            } else {
                None
            },
        }
    }
}

/// The contig with its first segment begun at 0 and its last segment ended at
/// the full length of the contig it is taken from. A contig without segments
/// stays as it is.
pub open spec fn stretched(c: ConsensusView, ref_lengths: Seq<LengthView>, qry_lengths: Seq<LengthView>)
    -> ConsensusView {
    if c.segments.len() == 0 {
        c
    } else {
        let begun = c.segments.update(0, ContigView { start: 0, ..c.segments[0] });
        let last = begun.len() - 1;
        let stop = source_length(begun[last], ref_lengths, qry_lengths).unwrap();
        ConsensusView { name: c.name, segments: begun.update(last, ContigView { stop, ..begun[last] }) }
    }
}

/// A stretched contig begins at 0 and ends at the full length of the contig
/// that its last segment is taken from. Nothing else changes: it has the same
/// segments in the same order, from the same contigs, and all other
/// coordinates are as they were; the segments of the query are still in
/// ascending order and do not overlap, if they were and did not before.
pub proof fn lemma_stretched(c: ConsensusView, ref_lengths: Seq<LengthView>, qry_lengths: Seq<LengthView>)
    requires
        c.segments.len() > 0,
        source_length(c.segments.last(), ref_lengths, qry_lengths).is_some(),
    ensures
        stretched(c, ref_lengths, qry_lengths).name == c.name,
        stretched(c, ref_lengths, qry_lengths).segments.len() == c.segments.len(),
        stretched(c, ref_lengths, qry_lengths).segments[0].start == 0,
        Some(stretched(c, ref_lengths, qry_lengths).segments.last().stop) == source_length(
            c.segments.last(),
            ref_lengths,
            qry_lengths,
        ),
        forall|i: int|
            0 <= i < c.segments.len() ==> {
                let now = #[trigger] stretched(c, ref_lengths, qry_lengths).segments[i];
                &&& now.name == c.segments[i].name
                &&& now.category == c.segments[i].category
                &&& i > 0 ==> now.start == c.segments[i].start
                &&& i < c.segments.len() - 1 ==> now.stop == c.segments[i].stop
            },
        query_ordered(c.segments) ==> query_ordered(
            stretched(c, ref_lengths, qry_lengths).segments,
        ),
{
    let begun = c.segments.update(0, ContigView { start: 0, ..c.segments[0] });
    let last = begun.len() - 1;
    assert(begun[last].name == c.segments.last().name);
    assert(begun[last].category == c.segments.last().category);
    let now = stretched(c, ref_lengths, qry_lengths).segments;
    if query_ordered(c.segments) {
        assert forall|i: int, j: int|
            0 <= i < j < now.len() && (#[trigger] now[i]).category == ContigType::Query
                && (#[trigger] now[j]).category == ContigType::Query implies now[i].stop
            <= now[j].start by {
            assert(c.segments[i].category == ContigType::Query);
            assert(c.segments[j].category == ContigType::Query);
            assert(c.segments[i].stop <= c.segments[j].start);
        }
    }
}

/// The two ways in which a contig cannot be stretched.
#[derive(Clone, Copy, Debug, PartialEq, Eq, Structural)]
pub enum BoundaryFault {
    /// The table of lengths does not know the contig.
    Unknown,
    /// The contig is longer than a coordinate can say.
    TooLong,
}

/// Why the boundaries were not updated.
#[derive(Clone, Debug, PartialEq, Eq)]
pub struct BoundaryError {
    /// The place, among the output contigs, of the first that cannot be
    /// stretched.
    pub contig: usize,
    /// The contig that its last segment is taken from.
    pub name: String,
    /// The assembly of that contig.
    pub category: ContigType,
    pub fault: BoundaryFault,
}

/// No contig before place `k` has an obstacle.
pub open spec fn clear_before(
    contigs: Seq<ConsensusView>,
    ref_lengths: Seq<LengthView>,
    qry_lengths: Seq<LengthView>,
    k: int,
) -> bool {
    forall|j: int|
        0 <= j < k ==> obstacle(#[trigger] contigs[j], ref_lengths, qry_lengths).is_none()
}

/// The new end of the last segment of contig `c`, where it has one.
fn new_stop(c: &ConsensusContig, ref_lengths: &Vec<ContigLength>, qry_lengths: &Vec<ContigLength>) -> (res:
    Result<Option<u32>, BoundaryFault>)
    ensures
        match res {
            Ok(None) => c@.segments.len() == 0,
            Ok(Some(stop)) => c@.segments.len() > 0 && obstacle(
                c@,
                length_views(ref_lengths@),
                length_views(qry_lengths@),
            ).is_none() && source_length(
                c@.segments.last(),
                length_views(ref_lengths@),
                length_views(qry_lengths@),
            ) == Some(stop as int),
            Err(fault) => obstacle(c@, length_views(ref_lengths@), length_views(qry_lengths@))
                == Some(fault),
        },
{
    if c.segments.len() == 0 {
        return Ok(None);
    }
    let last = &c.segments[c.segments.len() - 1];
    assert(c@.segments.last() == last@);
    let found = match last.category {
        ContigType::Target => lookup_length(ref_lengths, &last.name),
        ContigType::Query => lookup_length(qry_lengths, &last.name),
    };
    match found {
        None => Err(BoundaryFault::Unknown),
        Some(n) => if n > 4294967295 {
            Err(BoundaryFault::TooLong)
        } else {
            Ok(Some(n as u32))
        },
    }
}

/// Stretches every output contig to the ends of its sources: the first segment
/// then begins at 0, and the last one ends at the full length of the contig it
/// is taken from. A contig without segments stays as it is.
///
/// Nothing is changed unless every contig can be stretched.
pub fn update_contig_boundaries(
    ctgs: &mut Vec<ConsensusContig>,
    ref_lengths: &Vec<ContigLength>,
    qry_lengths: &Vec<ContigLength>,
) -> (res: Result<(), BoundaryError>)
    ensures
        final(ctgs)@.len() == old(ctgs)@.len(),
        match res {
            Ok(()) => clear_before(
                consensus_views(old(ctgs)@),
                length_views(ref_lengths@),
                length_views(qry_lengths@),
                old(ctgs)@.len() as int,
            ) && forall|i: int|
                0 <= i < old(ctgs)@.len() ==> (#[trigger] final(ctgs)@[i])@ == stretched(
                    old(ctgs)@[i]@,
                    length_views(ref_lengths@),
                    length_views(qry_lengths@),
                ),
            Err(e) => consensus_views(final(ctgs)@) == consensus_views(old(ctgs)@) && e.contig < old(
                ctgs,
            )@.len() && clear_before(
                consensus_views(old(ctgs)@),
                length_views(ref_lengths@),
                length_views(qry_lengths@),
                e.contig as int,
            ) && obstacle(
                old(ctgs)@[e.contig as int]@,
                length_views(ref_lengths@),
                length_views(qry_lengths@),
            ) == Some(e.fault) && e.name@ == old(ctgs)@[e.contig as int]@.segments.last().name
                && e.category == old(ctgs)@[e.contig as int]@.segments.last().category,
        },
{
    let ghost before = consensus_views(ctgs@);
    let ghost rl = length_views(ref_lengths@);
    let ghost ql = length_views(qry_lengths@);
    let mut stops: Vec<Option<u32>> = Vec::new();
    let mut i: usize = 0;
    while i < ctgs.len()
        invariant
            i <= ctgs@.len(),
            ctgs@ == old(ctgs)@,
            before == consensus_views(ctgs@),
            rl == length_views(ref_lengths@),
            ql == length_views(qry_lengths@),
            stops@.len() == i,
            clear_before(before, rl, ql, i as int),
            forall|j: int|
                0 <= j < i ==> match #[trigger] stops@[j] {
                    None => before[j].segments.len() == 0,
                    Some(stop) => before[j].segments.len() > 0 && source_length(
                        before[j].segments.last(),
                        rl,
                        ql,
                    ) == Some(stop as int),
                },
        decreases ctgs@.len() - i,
    {
        assert(before[i as int] == ctgs@[i as int]@);
        match new_stop(&ctgs[i], ref_lengths, qry_lengths) {
            Ok(stop) => {
                stops.push(stop);
            },
            Err(fault) => {
                let last = &ctgs[i].segments[ctgs[i].segments.len() - 1];
                assert(last@ == before[i as int].segments.last());
                return Err(
                    BoundaryError {
                        contig: i,
                        name: last.name.clone(),
                        category: last.category,
                        fault,
                    },
                );
            },
        }
        i += 1;
    }
    let mut i: usize = 0;
    while i < ctgs.len()
        invariant
            i <= ctgs@.len(),
            ctgs@.len() == old(ctgs)@.len(),
            before == consensus_views(old(ctgs)@),
            stops@.len() == ctgs@.len(),
            forall|j: int|
                0 <= j < ctgs@.len() ==> match #[trigger] stops@[j] {
                    None => before[j].segments.len() == 0,
                    Some(stop) => before[j].segments.len() > 0 && source_length(
                        before[j].segments.last(),
                        rl,
                        ql,
                    ) == Some(stop as int),
                },
            forall|j: int| 0 <= j < i ==> (#[trigger] ctgs@[j])@ == stretched(before[j], rl, ql),
            forall|j: int| i <= j < ctgs@.len() ==> (#[trigger] ctgs@[j])@ == before[j],
        decreases ctgs@.len() - i,
    {
        let ghost was = ctgs@[i as int]@;
        assert(was == before[i as int]);
        match stops[i] {
            None => {},
            Some(stop) => {
                let n = ctgs[i].segments.len();
                ctgs[i].segments[0].start = 0;
                ctgs[i].segments[n - 1].stop = stop;
                proof {
                    let begun = was.segments.update(0, ContigView { start: 0, ..was.segments[0] });
                    assert(begun[n - 1].category == was.segments.last().category);
                    assert(begun[n - 1].name == was.segments.last().name);
                    assert(ctgs@[i as int]@.segments =~= begun.update(
                        n - 1,
                        ContigView { stop: stop as int, ..begun[n - 1] },
                    ));
                }
            },
        }
        i += 1;
    }
    Ok(())
}

} // verus!
