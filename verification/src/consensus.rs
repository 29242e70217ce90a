//! The consensus segmentation: which stretches of a query contig stay, and
//! which are replaced by the reference they are aligned to.

use vstd::prelude::*;
use vstd::multiset::Multiset;
use crate::align::{block_views, blocks_of, contigs_of, lemma_blocks_of};
use crate::align::{AlignmentIndex, AlignmentRecord, BlockView};
use crate::interval::{holds, overlapping, region_views, Region, RegionIntervalTrees, RegionView};
use crate::runs::{covered, covered_at, run_views, runs, split_runs, tiles, Run, RunView};
use crate::runs::{lemma_runs_congruent, lemma_runs_constant, lemma_runs_cover, lemma_runs_tile};
use crate::runs::lemma_tiles_ordered;
use crate::segment::{consensus_views, query_ordered, segment_views};
use crate::segment::{ConsensusContig, ConsensusView, Contig, ContigType, ContigView};

verus! {

/// Some interval of `regions` holds position `p`.
pub open spec fn marked(regions: Multiset<RegionView>, p: int) -> bool {
    exists|r: RegionView| regions.count(r) > 0 && #[trigger] holds(r, p)
}

/// The annotations of one kind, as a function of the contig's name.
pub type Annotation = spec_fn(Seq<char>) -> Multiset<RegionView>;

/// The source rule. The query position `p` of block `b` is taken from the
/// reference where the reference position it is aligned to lies in a region of
/// interest, or else where `p` itself lies in a misassembly of the query.
/// Everywhere else the query is kept.
pub open spec fn substituted(
    b: BlockView,
    roi: Multiset<RegionView>,
    misasm: Multiset<RegionView>,
    p: int,
) -> bool {
    marked(roi, p + b.shift()) || marked(misasm, p)
}

/// `substituted` as a function of the query position.
pub open spec fn source_at(b: BlockView, roi: Multiset<RegionView>, misasm: Multiset<RegionView>)
    -> spec_fn(int) -> bool {
    |p: int| substituted(b, roi, misasm, p)
}

/// The segment that a run of query positions of block `b` gives: the run
/// itself on the query where the query is kept, the stretch it is aligned to on
/// the reference where it is replaced.
pub open spec fn run_segment(b: BlockView, r: RunView) -> ContigView {
    if r.on {
        ContigView {
            name: b.target_name,
            start: r.lo + b.shift(),
            stop: r.hi + b.shift(),
            category: ContigType::Target,
        }
    } else {
        ContigView { name: b.query_name, start: r.lo, stop: r.hi, category: ContigType::Query }
    }
}

/// The segments of the query positions `[lo, hi)` of block `b`.
pub open spec fn block_segments(
    b: BlockView,
    roi: Multiset<RegionView>,
    misasm: Multiset<RegionView>,
    lo: int,
    hi: int,
) -> Seq<ContigView> {
    runs(source_at(b, roi, misasm), lo, hi).map_values(|r: RunView| run_segment(b, r))
}

/// Position `p` lies in one of `hits`.
pub open spec fn hit(hits: Seq<RegionView>, p: int) -> bool {
    exists|k: int| 0 <= k < hits.len() && holds(#[trigger] hits[k], p)
}

/// Inside the range that was asked for, the answer of an overlap query marks
/// the same positions as all the intervals do.
pub proof fn lemma_hits_mark(
    hits: Seq<RegionView>,
    all: Multiset<RegionView>,
    start: int,
    end: int,
    p: int,
)
    requires
        hits.to_multiset() == all.filter(overlapping(start, end)),
        start <= p < end,
    ensures
        hit(hits, p) == marked(all, p),
{
    broadcast use vstd::multiset::group_multiset_axioms;

    if hit(hits, p) {
        let k = choose|k: int| 0 <= k < hits.len() && holds(#[trigger] hits[k], p);
        vstd::seq_lib::to_multiset_contains(hits, hits[k]);
        assert(hits.contains(hits[k]));
        assert(all.count(hits[k]) > 0);
        assert(holds(hits[k], p));
    }
    if marked(all, p) {
        let r = choose|r: RegionView| all.count(r) > 0 && #[trigger] holds(r, p);
        assert(overlapping(start, end)(r));
        vstd::seq_lib::to_multiset_contains(hits, r);
        let k = choose|k: int| 0 <= k < hits.len() && hits[k] == r;
        assert(holds(hits[k], p));
    }
}

/// The intervals of `hits`, moved by `-shift`, behind `marks`.
fn push_marks(marks: &mut Vec<(i64, i64)>, hits: &Vec<Region>, shift: i64)
    requires
        -4294967296 <= shift <= 4294967296,
    ensures
        final(marks)@.len() == old(marks)@.len() + hits@.len(),
        forall|k: int| 0 <= k < old(marks)@.len() ==> final(marks)@[k] == old(marks)@[k],
        forall|k: int|
            0 <= k < hits@.len() ==> (#[trigger] final(marks)@[old(marks)@.len() + k]) == ((
                hits@[k].first - shift) as i64, (hits@[k].last - shift) as i64),
{
    let ghost before = marks@;
    let mut k: usize = 0;
    while k < hits.len()
        invariant
            k <= hits@.len(),
            -4294967296 <= shift <= 4294967296,
            marks@.len() == before.len() + k,
            forall|j: int| 0 <= j < before.len() ==> marks@[j] == before[j],
            forall|j: int|
                0 <= j < k ==> (#[trigger] marks@[before.len() + j]) == ((hits@[j].first
                    - shift) as i64, (hits@[j].last - shift) as i64),
        decreases hits@.len() - k,
    {
        marks.push((hits[k].first as i64 - shift, hits[k].last as i64 - shift));
        k += 1;
    }
}

/// The intervals, in query positions, on which block `b` is replaced by the
/// reference, as far as they matter on `[lo, hi)`.
fn block_marks(
    b: &AlignmentRecord,
    lo: u32,
    hi: u32,
    roi: &RegionIntervalTrees,
    misasm: &RegionIntervalTrees,
) -> (marks: Vec<(i64, i64)>)
    ensures
        forall|p: int|
            lo <= p < hi ==> covered(marks@, p) == #[trigger] substituted(
                b@,
                roi.regions(b@.target_name),
                misasm.regions(b@.query_name),
                p,
            ),
{
    let shift: i64 = b.target_start as i64 - b.query_start as i64;
    let roi_hits = roi.overlap(&b.target_name, lo as i64 + shift, hi as i64 + shift);
    let mis_hits = misasm.overlap(&b.query_name, lo as i64, hi as i64);
    let mut marks: Vec<(i64, i64)> = Vec::new();
    push_marks(&mut marks, &roi_hits, shift);
    push_marks(&mut marks, &mis_hits, 0);
    proof {
        let rv = region_views(roi_hits@);
        let mv = region_views(mis_hits@);
        let n = roi_hits@.len() as int;
        assert forall|p: int| lo <= p < hi implies covered(marks@, p) == #[trigger] substituted(
            b@,
            roi.regions(b@.target_name),
            misasm.regions(b@.query_name),
            p,
        ) by {
            lemma_hits_mark(rv, roi.regions(b@.target_name), lo + shift, hi + shift, p + shift);
            lemma_hits_mark(mv, misasm.regions(b@.query_name), lo as int, hi as int, p);
            if covered(marks@, p) {
                let k = choose|k: int|
                    0 <= k < marks@.len() && (#[trigger] marks@[k]).0 <= p < marks@[k].1;
                if k < n {
                    assert(marks@[0 + k] == ((roi_hits@[k].first - shift) as i64, (
                        roi_hits@[k].last - shift) as i64));
                    assert(holds(rv[k], p + shift));
                } else {
                    assert(marks@[n + (k - n)] == ((mis_hits@[k - n].first - 0) as i64, (
                        mis_hits@[k - n].last - 0) as i64));
                    assert(holds(mv[k - n], p));
                }
            }
            if hit(rv, p + shift) {
                let k = choose|k: int| 0 <= k < rv.len() && holds(#[trigger] rv[k], p + shift);
                assert(marks@[0 + k] == ((roi_hits@[k].first - shift) as i64, (roi_hits@[k].last
                    - shift) as i64));
                assert(marks@[k].0 <= p < marks@[k].1);
            }
            if hit(mv, p) {
                let k = choose|k: int| 0 <= k < mv.len() && holds(#[trigger] mv[k], p);
                assert(marks@[n + k] == ((mis_hits@[k].first - 0) as i64, (mis_hits@[k].last
                    - 0) as i64));
                assert(marks@[n + k].0 <= p < marks@[n + k].1);
            }
        }
    }
    marks
}

/// The block can be laid on the reference: the stretch that its query range is
/// aligned to ends within the coordinates that a segment can hold.
pub open spec fn fits(b: BlockView) -> bool {
    b.query_start < b.query_end ==> b.target_start + (b.query_end - b.query_start) <= u32::MAX
}

/// Appends the segments of the query positions `[lo, hi)` of block `b`.
fn push_block_segments(
    out: &mut Vec<Contig>,
    b: &AlignmentRecord,
    lo: u32,
    hi: u32,
    roi: &RegionIntervalTrees,
    misasm: &RegionIntervalTrees,
)
    requires
        fits(b@),
        b.query_start <= lo,
        hi <= b.query_end,
    ensures
        segment_views(final(out)@) == segment_views(old(out)@) + block_segments(
            b@,
            roi.regions(b@.target_name),
            misasm.regions(b@.query_name),
            lo as int,
            hi as int,
        ),
{
    let ghost before = segment_views(out@);
    let ghost f = source_at(b@, roi.regions(b@.target_name), misasm.regions(b@.query_name));
    let ghost all = runs(f, lo as int, hi as int);
    let ghost to_segment = |r: RunView| run_segment(b@, r);
    let marks = block_marks(b, lo, hi, roi, misasm);
    let pieces = split_runs(&marks, lo as i64, hi as i64);
    proof {
        lemma_runs_congruent(covered_at(marks@), f, lo as int, hi as int);
        lemma_runs_tile(f, lo as int, hi as int);
        assert(run_views(pieces@) == all);
        assert(segment_views(out@) =~= before + all.take(0).map_values(to_segment));
    }
    let shift: i64 = b.target_start as i64 - b.query_start as i64;
    let mut k: usize = 0;
    while k < pieces.len()
        invariant
            k <= pieces@.len(),
            run_views(pieces@) == all,
            tiles(all, f, lo as int, hi as int),
            fits(b@),
            b.query_start <= lo,
            hi <= b.query_end,
            shift == b@.shift(),
            to_segment == (|r: RunView| run_segment(b@, r)),
            segment_views(out@) == before + all.take(k as int).map_values(to_segment),
        decreases pieces@.len() - k,
    {
        let ghost sofar = segment_views(out@);
        let piece = pieces[k];
        proof {
            assert(all[k as int] == piece@);
            assert(lo <= piece.lo < piece.hi <= hi);
        }
        let seg = if piece.on {
            Contig {
                name: b.target_name.clone(),
                start: (piece.lo + shift) as u32,
                stop: (piece.hi + shift) as u32,
                category: ContigType::Target,
            }
        } else {
            Contig {
                name: b.query_name.clone(),
                start: piece.lo as u32,
                stop: piece.hi as u32,
                category: ContigType::Query,
            }
        };
        proof {
            assert(seg@ == run_segment(b@, piece@));
        }
        out.push(seg);
        proof {
            assert(all.take(k as int + 1) =~= all.take(k as int).push(piece@));
            assert(all.take(k as int + 1).map_values(to_segment) =~= all.take(k as int).map_values(
                to_segment,
            ).push(to_segment(piece@)));
            assert(segment_views(out@) =~= sofar.push(seg@));
            assert(segment_views(out@) =~= before + all.take(k as int + 1).map_values(to_segment));
        }
        k += 1;
    }
    proof {
        assert(all.take(k as int) =~= all);
    }
}

/// How far along the query contig `blocks` reach: the largest end of any of
/// them, and 0 where there is none.
pub open spec fn reach(blocks: Seq<BlockView>) -> int
    decreases blocks.len(),
{
    if blocks.len() == 0 {
        0
    } else {
        let before = reach(blocks.drop_last());
        if blocks.last().query_end > before {
            blocks.last().query_end
        } else {
            before
        }
    }
}

/// Where block `k` of `blocks` begins to count: at its own start, or where the
/// blocks before it have already reached, whichever is later. Of two blocks
/// that overlap on the query, the earlier one keeps the positions they share.
pub open spec fn entry(blocks: Seq<BlockView>, k: int) -> int {
    let before = reach(blocks.take(k));
    if blocks[k].query_start > before {
        blocks[k].query_start
    } else {
        before
    }
}

/// The segments of a query contig with the alignment blocks `blocks`, which are
/// taken in their order: those of the first block, then those of the second
/// as far as it passes the first, and so on. Segments of two blocks stay
/// apart, also where they are taken from the same assembly.
pub open spec fn contig_segments(blocks: Seq<BlockView>, roi: Annotation, misasm: Annotation) -> Seq<
    ContigView,
>
    decreases blocks.len(),
{
    if blocks.len() == 0 {
        Seq::empty()
    } else {
        let b = blocks.last();
        contig_segments(blocks.drop_last(), roi, misasm) + block_segments(
            b,
            roi(b.target_name),
            misasm(b.query_name),
            entry(blocks, blocks.len() - 1),
            b.query_end,
        )
    }
}

impl RegionIntervalTrees {
    /// The annotations as a function of the contig's name.
    pub open spec fn annotation(&self) -> Annotation {
        |name: Seq<char>| self.regions(name)
    }
}

/// Every block fits.
pub open spec fn all_fit(blocks: Seq<BlockView>) -> bool {
    forall|k: int| 0 <= k < blocks.len() ==> fits(#[trigger] blocks[k])
}

/// The segments of one query contig from its alignment blocks, which are taken
/// in their order.
pub fn build_contig(
    blocks: &Vec<AlignmentRecord>,
    roi: &RegionIntervalTrees,
    misasm: &RegionIntervalTrees,
) -> (out: Vec<Contig>)
    requires
        all_fit(block_views(blocks@)),
    ensures
        segment_views(out@) == contig_segments(
            block_views(blocks@),
            roi.annotation(),
            misasm.annotation(),
        ),
{
    let ghost all = block_views(blocks@);
    let mut out: Vec<Contig> = Vec::new();
    let mut cursor: u32 = 0;
    let mut k: usize = 0;
    proof {
        assert(segment_views(out@) =~= contig_segments(
            all.take(0),
            roi.annotation(),
            misasm.annotation(),
        ));
    }
    while k < blocks.len()
        invariant
            k <= blocks@.len(),
            all == block_views(blocks@),
            all_fit(all),
            cursor == reach(all.take(k as int)),
            segment_views(out@) == contig_segments(
                all.take(k as int),
                roi.annotation(),
                misasm.annotation(),
            ),
        decreases blocks@.len() - k,
    {
        let b = &blocks[k];
        let ghost next = all.take(k as int + 1);
        proof {
            assert(next.drop_last() =~= all.take(k as int));
            assert(next.take(k as int) =~= all.take(k as int));
            assert(next.last() == b@);
            assert(all[k as int] == b@);
            assert(fits(b@));
        }
        let lo = if b.query_start > cursor {
            b.query_start
        } else {
            cursor
        };
        let hi = b.query_end;
        if lo < hi {
            push_block_segments(&mut out, b, lo, hi, roi, misasm);
        } else {
            proof {
                assert(block_segments(
                    b@,
                    roi.regions(b@.target_name),
                    misasm.regions(b@.query_name),
                    lo as int,
                    hi as int,
                ) =~= Seq::<ContigView>::empty());
            }
        }
        proof {
            assert(lo == entry(next, k as int));
        }
        if hi > cursor {
            cursor = hi;
        }
        k += 1;
    }
    proof {
        assert(all.take(k as int) =~= all);
    }
    out
}

/// Blocks reach no negative position.
pub proof fn lemma_reach_nonnegative(blocks: Seq<BlockView>)
    ensures
        0 <= reach(blocks),
    decreases blocks.len(),
{
    if blocks.len() > 0 {
        lemma_reach_nonnegative(blocks.drop_last());
    }
}

/// The stretch of the query contig that each segment stands for, in the order
/// of the segments.
pub open spec fn footprints(blocks: Seq<BlockView>, roi: Annotation, misasm: Annotation) -> Seq<
    RunView,
>
    decreases blocks.len(),
{
    if blocks.len() == 0 {
        Seq::empty()
    } else {
        let b = blocks.last();
        footprints(blocks.drop_last(), roi, misasm) + runs(
            source_at(b, roi(b.target_name), misasm(b.query_name)),
            entry(blocks, blocks.len() - 1),
            b.query_end,
        )
    }
}

/// The segments `segs` lie along the query contig as `prints` say: one stretch
/// for each segment, none empty, each behind the one before and none passing
/// `end`; a segment is as long as its stretch, a segment of the query is its
/// stretch, and a segment is taken from the reference exactly where its stretch
/// is marked.
pub open spec fn laid_out(segs: Seq<ContigView>, prints: Seq<RunView>, end: int) -> bool {
    &&& segs.len() == prints.len()
    &&& forall|i: int| 0 <= i < prints.len() ==> 0 <= (#[trigger] prints[i]).lo < prints[i].hi <= end
    &&& forall|i: int, j: int|
        0 <= i < j < prints.len() ==> (#[trigger] prints[i]).hi <= (#[trigger] prints[j]).lo
    &&& forall|i: int|
        0 <= i < segs.len() ==> (#[trigger] segs[i]).stop - segs[i].start == prints[i].hi
            - prints[i].lo
    &&& forall|i: int|
        0 <= i < segs.len() && (#[trigger] segs[i]).category == ContigType::Query
            ==> segs[i].start == prints[i].lo && segs[i].stop == prints[i].hi
    &&& forall|i: int|
        0 <= i < segs.len() ==> ((#[trigger] segs[i]).category == ContigType::Target)
            == prints[i].on
}

/// The segments of a contig are strictly ordered along the query contig and
/// do not overlap, and none of them is empty.
pub proof fn lemma_contig_laid_out(blocks: Seq<BlockView>, roi: Annotation, misasm: Annotation)
    ensures
        laid_out(
            contig_segments(blocks, roi, misasm),
            footprints(blocks, roi, misasm),
            reach(blocks),
        ),
        forall|i: int|
            0 <= i < contig_segments(blocks, roi, misasm).len() ==> (#[trigger] contig_segments(
                blocks,
                roi,
                misasm,
            )[i]).nonempty(),
    decreases blocks.len(),
{
    if blocks.len() > 0 {
        let rest = blocks.drop_last();
        let b = blocks.last();
        lemma_contig_laid_out(rest, roi, misasm);
        lemma_reach_nonnegative(rest);
        assert(blocks.take(blocks.len() - 1) =~= rest);
        let lo = entry(blocks, blocks.len() - 1);
        let hi = b.query_end;
        let f = source_at(b, roi(b.target_name), misasm(b.query_name));
        let rs = runs(f, lo, hi);
        lemma_runs_tile(f, lo, hi);
        let old_segs = contig_segments(rest, roi, misasm);
        let old_prints = footprints(rest, roi, misasm);
        let segs = contig_segments(blocks, roi, misasm);
        let prints = footprints(blocks, roi, misasm);
        let n = old_prints.len() as int;
        assert(segs == old_segs + block_segments(b, roi(b.target_name), misasm(b.query_name), lo, hi));
        assert(prints == old_prints + rs);
        assert forall|i: int| 0 <= i < prints.len() implies 0 <= (#[trigger] prints[i]).lo
            < prints[i].hi <= reach(blocks) by {
            if i >= n {
                assert(prints[i] == rs[i - n]);
            } else {
                assert(prints[i] == old_prints[i]);
            }
        }
        assert forall|i: int, j: int| 0 <= i < j < prints.len() implies (#[trigger] prints[i]).hi
            <= (#[trigger] prints[j]).lo by {
            if j < n {
                assert(prints[i] == old_prints[i] && prints[j] == old_prints[j]);
            } else if i < n {
                assert(prints[i] == old_prints[i] && prints[j] == rs[j - n]);
            } else {
                assert(prints[i] == rs[i - n] && prints[j] == rs[j - n]);
                lemma_tiles_ordered(rs, f, lo, hi, i - n, j - n);
            }
        }
        assert forall|i: int| 0 <= i < segs.len() implies {
            &&& (#[trigger] segs[i]).stop - segs[i].start == prints[i].hi - prints[i].lo
            &&& segs[i].category == ContigType::Query ==> segs[i].start == prints[i].lo
                && segs[i].stop == prints[i].hi
            &&& (segs[i].category == ContigType::Target) == prints[i].on
            &&& segs[i].nonempty()
        } by {
            if i >= n {
                assert(prints[i] == rs[i - n]);
                assert(segs[i] == run_segment(b, rs[i - n]));
                assert(rs[i - n].lo < rs[i - n].hi);
            } else {
                assert(prints[i] == old_prints[i]);
                assert(segs[i] == old_segs[i]);
                assert(old_segs[i].nonempty());
            }
        }
    }
}

/// The segments that a contig keeps from the query are in ascending order and
/// do not overlap.
pub proof fn lemma_contig_query_ordered(blocks: Seq<BlockView>, roi: Annotation, misasm: Annotation)
    ensures
        query_ordered(contig_segments(blocks, roi, misasm)),
{
    lemma_contig_laid_out(blocks, roi, misasm);
    let segs = contig_segments(blocks, roi, misasm);
    let prints = footprints(blocks, roi, misasm);
    assert forall|i: int, j: int|
        0 <= i < j < segs.len() && (#[trigger] segs[i]).category == ContigType::Query
            && (#[trigger] segs[j]).category == ContigType::Query implies segs[i].stop
        <= segs[j].start by {
        assert(prints[i].hi <= prints[j].lo);
    }
}

/// The spans of the query contig that `blocks` cover, block by block, each as
/// a segment of the query: a block counts from where the blocks before it have
/// reached.
pub open spec fn covered_spans(blocks: Seq<BlockView>) -> Seq<ContigView>
    decreases blocks.len(),
{
    if blocks.len() == 0 {
        Seq::empty()
    } else {
        let b = blocks.last();
        let lo = entry(blocks, blocks.len() - 1);
        covered_spans(blocks.drop_last()) + if lo < b.query_end {
            seq![
                ContigView {
                    name: b.query_name,
                    start: lo,
                    stop: b.query_end,
                    category: ContigType::Query,
                },
            ]
        } else {
            Seq::empty()
        }
    }
}

/// Without a region of interest on the reference contigs and without a
/// misassembly on the query contig nothing is replaced: the segments are the
/// spans that the blocks cover, all of them taken from the query.
pub proof fn lemma_unannotated(blocks: Seq<BlockView>, roi: Annotation, misasm: Annotation)
    requires
        forall|k: int|
            0 <= k < blocks.len() ==> roi((#[trigger] blocks[k]).target_name) == Multiset::<
                RegionView,
            >::empty() && misasm(blocks[k].query_name) == Multiset::<RegionView>::empty(),
    ensures
        contig_segments(blocks, roi, misasm) == covered_spans(blocks),
    decreases blocks.len(),
{
    broadcast use vstd::multiset::group_multiset_axioms;

    if blocks.len() > 0 {
        let rest = blocks.drop_last();
        let b = blocks.last();
        assert forall|k: int| 0 <= k < rest.len() implies roi((#[trigger] rest[k]).target_name)
            == Multiset::<RegionView>::empty() && misasm(rest[k].query_name) == Multiset::<
            RegionView,
        >::empty() by {
            assert(rest[k] == blocks[k]);
        }
        lemma_unannotated(rest, roi, misasm);
        assert(b == blocks[blocks.len() - 1]);
        let lo = entry(blocks, blocks.len() - 1);
        let hi = b.query_end;
        let none = Multiset::<RegionView>::empty();
        let f = source_at(b, none, none);
        if lo < hi {
            assert forall|p: int| lo <= p < hi implies #[trigger] f(p) == false by {
                assert(!marked(none, p + b.shift()));
                assert(!marked(none, p));
            }
            lemma_runs_constant(f, lo, hi, false);
            assert(block_segments(b, none, none, lo, hi) =~= seq![
                ContigView {
                    name: b.query_name,
                    start: lo,
                    stop: b.query_end,
                    category: ContigType::Query,
                },
            ]);
        } else {
            assert(block_segments(b, none, none, lo, hi) =~= Seq::<ContigView>::empty());
        }
    }
}

/// Within a block the segments follow each other without a gap on the query,
/// and no two neighbours are taken from the same assembly.
pub proof fn lemma_block_alternates(
    b: BlockView,
    roi: Multiset<RegionView>,
    misasm: Multiset<RegionView>,
    lo: int,
    hi: int,
)
    ensures
        block_segments(b, roi, misasm, lo, hi).len() == runs(source_at(b, roi, misasm), lo, hi).len(),
        forall|i: int|
            0 <= i && i + 1 < block_segments(b, roi, misasm, lo, hi).len() ==> (
            #[trigger] block_segments(b, roi, misasm, lo, hi)[i]).category != block_segments(
                b,
                roi,
                misasm,
                lo,
                hi,
            )[i + 1].category,
        forall|i: int|
            0 <= i && i + 1 < runs(source_at(b, roi, misasm), lo, hi).len() ==> (#[trigger] runs(
                source_at(b, roi, misasm),
                lo,
                hi,
            )[i]).hi == runs(source_at(b, roi, misasm), lo, hi)[i + 1].lo,
{
    let f = source_at(b, roi, misasm);
    let rs = runs(f, lo, hi);
    let segs = block_segments(b, roi, misasm, lo, hi);
    lemma_runs_tile(f, lo, hi);
    assert forall|i: int| 0 <= i && i + 1 < segs.len() implies (#[trigger] segs[i]).category
        != segs[i + 1].category by {
        assert(rs[i].on != rs[i + 1].on);
        assert(segs[i] == run_segment(b, rs[i]));
        assert(segs[i + 1] == run_segment(b, rs[i + 1]));
    }
}

/// The conflict rule. Where a position of a block is aligned to a region of
/// interest of the reference, the segment that covers it is taken from the
/// reference, whether or not the query is misassembled there.
pub proof fn lemma_roi_outranks(
    b: BlockView,
    roi: Multiset<RegionView>,
    misasm: Multiset<RegionView>,
    lo: int,
    hi: int,
    p: int,
) -> (i: int)
    requires
        lo <= p < hi,
        marked(roi, p + b.shift()),
    ensures
        0 <= i < block_segments(b, roi, misasm, lo, hi).len(),
        block_segments(b, roi, misasm, lo, hi)[i].category == ContigType::Target,
        block_segments(b, roi, misasm, lo, hi)[i].name == b.target_name,
        block_segments(b, roi, misasm, lo, hi)[i].start <= p + b.shift() < block_segments(
            b,
            roi,
            misasm,
            lo,
            hi,
        )[i].stop,
{
    let f = source_at(b, roi, misasm);
    assert(f(p));
    lemma_runs_cover(f, lo, hi, p)
}

/// The source rule for every position. Each query position of `[lo, hi)` is
/// covered by one segment of the block: by one of the reference, at the
/// position it is aligned to, where it is replaced, and by one of the query
/// where it is kept.
pub proof fn lemma_position_source(
    b: BlockView,
    roi: Multiset<RegionView>,
    misasm: Multiset<RegionView>,
    lo: int,
    hi: int,
    p: int,
) -> (i: int)
    requires
        lo <= p < hi,
    ensures
        0 <= i < block_segments(b, roi, misasm, lo, hi).len(),
        block_segments(b, roi, misasm, lo, hi)[i] == run_segment(
            b,
            runs(source_at(b, roi, misasm), lo, hi)[i],
        ),
        runs(source_at(b, roi, misasm), lo, hi)[i].lo <= p < runs(
            source_at(b, roi, misasm),
            lo,
            hi,
        )[i].hi,
        runs(source_at(b, roi, misasm), lo, hi)[i].on == substituted(b, roi, misasm, p),
{
    lemma_runs_cover(source_at(b, roi, misasm), lo, hi, p)
}

/// The output contigs that `records` give: one for each query contig with an
/// accepted record, in the order in which the contigs first appear, with the
/// segments of its blocks.
pub open spec fn consensus_of(records: Seq<BlockView>, roi: Annotation, misasm: Annotation) -> Seq<
    ConsensusView,
> {
    Seq::new(
        contigs_of(records).len(),
        |g: int|
            ConsensusView {
                name: contigs_of(records)[g],
                segments: contig_segments(blocks_of(records, contigs_of(records)[g]), roi, misasm),
            },
    )
}

/// Every accepted record before place `k` fits.
pub open spec fn fit_before(records: Seq<BlockView>, k: int) -> bool {
    forall|j: int| 0 <= j < k ==> (#[trigger] records[j]).accepted() ==> fits(records[j])
}

/// Why no consensus was built.
#[derive(Clone, Debug, PartialEq, Eq)]
pub enum ConsensusError {
    /// The accepted record at this place of the input is aligned to a stretch
    /// of the reference that ends behind the largest coordinate.
    OutOfRange { record: usize },
}

/// Whether the block can be laid on the reference.
pub fn block_fits(b: &AlignmentRecord) -> (ok: bool)
    ensures
        ok == fits(b@),
{
    b.query_start >= b.query_end || b.target_start as u64 + (b.query_end - b.query_start) as u64
        <= 4294967295
}

/// Builds the consensus of all query contigs that have an accepted alignment.
///
/// Each such contig is cut, block by block, into segments that are taken from
/// the reference where a region of interest of the reference or a misassembly
/// of the query says so, and from the query everywhere else. A region of
/// interest decides before a misassembly does. The misassemblies of the
/// reference change nothing: a stretch that is taken from the reference stays
/// so where the reference is itself in doubt, for there is no third assembly.
#[allow(unused_variables)]
pub fn get_consensus(
    records: &Vec<AlignmentRecord>,
    ref_roi: &RegionIntervalTrees,
    ref_misasm: &RegionIntervalTrees,
    qry_misasm: &RegionIntervalTrees,
) -> (res: Result<Vec<ConsensusContig>, ConsensusError>)
    ensures
        match res {
            Ok(contigs) => fit_before(block_views(records@), records@.len() as int)
                && consensus_views(contigs@) == consensus_of(
                block_views(records@),
                ref_roi.annotation(),
                qry_misasm.annotation(),
            ),
            Err(ConsensusError::OutOfRange { record }) => record < records@.len() && records@[record as int]@.accepted()
                && !fits(records@[record as int]@) && fit_before(
                block_views(records@),
                record as int,
            ),
        },
{
    let ghost all = block_views(records@);
    let mut r: usize = 0;
    while r < records.len()
        invariant
            r <= records@.len(),
            all == block_views(records@),
            fit_before(all, r as int),
        decreases records@.len() - r,
    {
        if records[r].is_accepted() && !block_fits(&records[r]) {
            return Err(ConsensusError::OutOfRange { record: r });
        }
        r += 1;
    }
    let index = AlignmentIndex::build(records);
    let ghost names = contigs_of(all);
    let mut contigs: Vec<ConsensusContig> = Vec::new();
    let mut g: usize = 0;
    while g < index.groups.len()
        invariant
            g <= index.groups@.len(),
            all == block_views(records@),
            names == contigs_of(all),
            fit_before(all, records@.len() as int),
            index.indexes(all),
            contigs@.len() == g,
            forall|h: int|
                0 <= h < g ==> (#[trigger] contigs@[h])@ == (ConsensusView {
                    name: names[h],
                    segments: contig_segments(
                        blocks_of(all, names[h]),
                        ref_roi.annotation(),
                        qry_misasm.annotation(),
                    ),
                }),
        decreases index.groups@.len() - g,
    {
        let group = &index.groups[g];
        proof {
            assert(index.names()[g as int] == group.name@);
            assert(block_views(group.blocks@) == blocks_of(all, group.name@));
            lemma_blocks_of(all, group.name@);
            assert forall|k: int| 0 <= k < block_views(group.blocks@).len() implies fits(
                #[trigger] block_views(group.blocks@)[k],
            ) by {
                let b = blocks_of(all, group.name@)[k];
                let j = choose|j: int| 0 <= j < all.len() && all[j] == b;
                assert(all[j].accepted());
            }
        }
        let segments = build_contig(&group.blocks, ref_roi, qry_misasm);
        contigs.push(ConsensusContig { name: group.name.clone(), segments });
        g += 1;
    }
    proof {
        assert(index.names().len() == names.len());
        assert(consensus_views(contigs@) =~= consensus_of(
            all,
            ref_roi.annotation(),
            qry_misasm.annotation(),
        ));
    }
    Ok(contigs)
}

} // verus!
