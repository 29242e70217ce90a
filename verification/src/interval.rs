//! Annotated intervals and the per-contig index that answers overlap queries.

use vstd::prelude::*;
use vstd::multiset::Multiset;
use coitrees::IntervalTree;

verus! {

/// An annotated interval `[first, last)` on some contig, with an optional label.
#[derive(Clone, Debug, PartialEq, Eq)]
pub struct Region {
    pub first: i32,
    pub last: i32,
    pub label: Option<String>,
}

/// The mathematical value of a [`Region`].
pub ghost struct RegionView {
    pub first: i32,
    pub last: i32,
    pub label: Option<Seq<char>>,
}

impl View for Region {
    type V = RegionView;

    open spec fn view(&self) -> RegionView {
        RegionView {
            first: self.first,
            last: self.last,
            label: match self.label {
                Some(s) => Some(s@),
                None => None,
            },
        }
    }
}

/// The values of a list of intervals.
pub open spec fn region_views(regions: Seq<Region>) -> Seq<RegionView> {
    Seq::new(regions.len(), |i: int| regions[i]@)
}

/// Position `p` lies in the interval.
pub open spec fn holds(r: RegionView, p: int) -> bool {
    r.first <= p < r.last
}

/// The interval and the range `[start, end)` share a position.
pub open spec fn overlaps(r: RegionView, start: int, end: int) -> bool {
    r.first < r.last && start < end && r.first < end && start < r.last
}

/// `overlaps` as a function of the interval.
pub open spec fn overlapping(start: int, end: int) -> spec_fn(RegionView) -> bool {
    |r: RegionView| overlaps(r, start, end)
}

/// Closed overlap, as the tree understands it: `[first, last]` and the
/// interval, both taken with their end, share a position.
pub open spec fn touches(r: RegionView, first: int, last: int) -> bool {
    r.first <= last && first <= r.last
}

/// An interval that the tree can take. The tree adds up, in 32 bits, how far
/// its intervals span from the lowest start to the highest end, both counted
/// in; with these bounds no such sum passes the largest number, and none is
/// negative.
pub open spec fn tame(r: RegionView) -> bool {
    0 <= r.first <= r.last < i32::MAX
}

/// The interval tree of one contig, a `coitrees::BasicCOITree` whose metadata
/// is the label. It never changes once built.
#[verifier::external_body]
pub struct RegionTree {
    tree: coitrees::BasicCOITree<Option<String>, usize>,
}

/// The intervals that a tree holds, each as often as it was given.
pub uninterp spec fn tree_regions(tree: RegionTree) -> Multiset<RegionView>;

/// Builds the tree of `regions` with `coitrees::BasicCOITree::new`, which
/// copies every interval with its label into the tree. The call panics when
/// there are as many intervals as the index type can count, and its sums of
/// spans can overflow or fail a check of the crate on intervals that are not
/// tame, hence the bounds.
#[verifier::external_body]
pub(crate) fn tree_from_regions(regions: &Vec<Region>) -> (tree: RegionTree)
    requires
        regions@.len() < usize::MAX,
        forall|i: int| 0 <= i < regions@.len() ==> tame(#[trigger] regions@[i]@),
    ensures
        tree_regions(tree) == region_views(regions@).to_multiset(),
{
    let nodes: Vec<coitrees::Interval<Option<String>>> = regions
        .iter()
        .map(|r| coitrees::Interval::new(r.first, r.last, r.label.clone()))
        .collect();
    RegionTree { tree: coitrees::BasicCOITree::new(&nodes) }
}

/// Asks the tree with `coitrees::BasicCOITree::query`, which visits every
/// interval of the tree that touches `[first, last]` once, in no stated order.
#[verifier::external_body]
pub(crate) fn tree_query(tree: &RegionTree, first: i32, last: i32) -> (hits: Vec<Region>)
    requires
        first <= last,
    ensures
        region_views(hits@).to_multiset() == tree_regions(*tree).filter(
            |r: RegionView| touches(r, first as int, last as int),
        ),
{
    let mut hits: Vec<Region> = Vec::new();
    tree.tree.query(first, last, |node| push_region(&mut hits, node.first, node.last, &node.metadata));
    hits
}

/// Lists the tree with `coitrees::BasicCOITree::iter`, which yields every
/// interval of the tree once.
#[verifier::external_body]
pub(crate) fn tree_list(tree: &RegionTree) -> (held: Vec<Region>)
    ensures
        region_views(held@).to_multiset() == tree_regions(*tree),
{
    let mut held: Vec<Region> = Vec::new();
    for node in tree.tree.iter() {
        push_region(&mut held, node.first, node.last, node.metadata);
    }
    held
}

/// Appends the interval `[first, last)` with a copy of `label`.
fn push_region(regions: &mut Vec<Region>, first: i32, last: i32, label: &Option<String>)
    ensures
        final(regions)@.len() == old(regions)@.len() + 1,
        region_views(final(regions)@) == region_views(old(regions)@).push(
            RegionView {
                first,
                last,
                label: match label {
                    Some(s) => Some(s@),
                    None => None,
                },
            },
        ),
{
    let ghost before = region_views(regions@);
    let label = match label {
        Some(s) => Some(s.clone()),
        None => None,
    };
    let region = Region { first, last, label };
    regions.push(region);
    assert(region_views(regions@) =~= before.push(region@));
}

impl Region {
    /// A copy of the interval.
    pub fn duplicate(&self) -> (r: Region)
        ensures
            r@ == self@,
    {
        let label = match &self.label {
            Some(s) => Some(s.clone()),
            None => None,
        };
        Region { first: self.first, last: self.last, label }
    }

    /// Whether the interval and the range `[start, end)` share a position.
    pub fn overlaps(&self, start: i64, end: i64) -> (b: bool)
        ensures
            b == overlaps(self@, start as int, end as int),
    {
        self.first < self.last && start < end && (self.first as i64) < end && start < (
        self.last as i64)
    }
}

/// The intervals of the tree that share a position with `[start, end)`.
pub fn tree_overlap(tree: &RegionTree, start: i64, end: i64) -> (hits: Vec<Region>)
    ensures
        region_views(hits@).to_multiset() == tree_regions(*tree).filter(
            overlapping(start as int, end as int),
        ),
{
    broadcast use vstd::multiset::group_multiset_axioms;

    let ghost pred = overlapping(start as int, end as int);
    let mut hits: Vec<Region> = Vec::new();
    if start >= end || start >= 2147483647 || end <= -2147483648 {
        proof {
            vstd::seq_lib::to_multiset_len(region_views(hits@));
            assert(region_views(hits@).to_multiset() =~= tree_regions(*tree).filter(pred));
        }
        return hits;
    }
    let first: i32 = if start < -2147483648 {
        -2147483648
    } else {
        start as i32
    };
    let last: i32 = if end > 2147483647 {
        2147483647
    } else {
        end as i32
    };
    let raw = tree_query(tree, first, last);
    let ghost all = region_views(raw@);
    let mut i: usize = 0;
    proof {
        vstd::seq_lib::to_multiset_len(region_views(hits@));
        vstd::seq_lib::to_multiset_len(all.take(0));
        assert(region_views(hits@).to_multiset() =~= all.take(0).to_multiset().filter(pred));
    }
    while i < raw.len()
        invariant
            i <= raw@.len(),
            all == region_views(raw@),
            pred == overlapping(start as int, end as int),
            region_views(hits@).to_multiset() == all.take(i as int).to_multiset().filter(pred),
        decreases raw@.len() - i,
    {
        let ghost before = region_views(hits@);
        proof {
            assert(all.take(i as int + 1) =~= all.take(i as int).push(raw@[i as int]@));
            vstd::seq_lib::to_multiset_build(all.take(i as int), raw@[i as int]@);
        }
        if raw[i].overlaps(start, end) {
            hits.push(raw[i].duplicate());
            proof {
                assert(region_views(hits@) =~= before.push(raw@[i as int]@));
                vstd::seq_lib::to_multiset_build(before, raw@[i as int]@);
            }
        }
        proof {
            assert(region_views(hits@).to_multiset() =~= all.take(i as int + 1).to_multiset().filter(
                pred,
            ));
        }
        i += 1;
    }
    proof {
        assert(all.take(i as int) =~= all);
        assert(region_views(hits@).to_multiset() =~= tree_regions(*tree).filter(pred));
    }
    hits
}

/// The intervals of `regions` that share a position with `[start, end)`,
/// behind `hits`.
fn push_overlapping(hits: &mut Vec<Region>, regions: &Vec<Region>, start: i64, end: i64)
    ensures
        region_views(final(hits)@).to_multiset() == region_views(old(hits)@).to_multiset().add(
            region_views(regions@).to_multiset().filter(overlapping(start as int, end as int)),
        ),
{
    broadcast use vstd::multiset::group_multiset_axioms;

    let ghost pred = overlapping(start as int, end as int);
    let ghost before = region_views(hits@).to_multiset();
    let ghost all = region_views(regions@);
    let mut i: usize = 0;
    proof {
        vstd::seq_lib::to_multiset_len(all.take(0));
        assert(region_views(hits@).to_multiset() =~= before.add(
            all.take(0).to_multiset().filter(pred),
        ));
    }
    while i < regions.len()
        invariant
            i <= regions@.len(),
            all == region_views(regions@),
            pred == overlapping(start as int, end as int),
            region_views(hits@).to_multiset() == before.add(
                all.take(i as int).to_multiset().filter(pred),
            ),
        decreases regions@.len() - i,
    {
        let ghost sofar = region_views(hits@);
        proof {
            assert(all.take(i as int + 1) =~= all.take(i as int).push(regions@[i as int]@));
            vstd::seq_lib::to_multiset_build(all.take(i as int), regions@[i as int]@);
        }
        if regions[i].overlaps(start, end) {
            hits.push(regions[i].duplicate());
            proof {
                assert(region_views(hits@) =~= sofar.push(regions@[i as int]@));
                vstd::seq_lib::to_multiset_build(sofar, regions@[i as int]@);
            }
        }
        proof {
            assert(region_views(hits@).to_multiset() =~= before.add(
                all.take(i as int + 1).to_multiset().filter(pred),
            ));
        }
        i += 1;
    }
    proof {
        assert(all.take(i as int) =~= all);
    }
}

/// The annotations of the contig `name`: a tree of the intervals that a tree
/// can take, and the few others beside it.
pub struct ContigTree {
    pub name: String,
    pub tree: RegionTree,
    pub rest: Vec<Region>,
}

impl ContigTree {
    /// The intervals annotated on the contig, each as often as it was given.
    pub open spec fn regions(&self) -> Multiset<RegionView> {
        tree_regions(self.tree).add(region_views(self.rest@).to_multiset())
    }

    /// Gathers the annotations `regions` of the contig `name`.
    pub fn build(name: String, regions: &Vec<Region>) -> (entry: ContigTree)
        requires
            regions@.len() < usize::MAX,
        ensures
            entry.name@ == name@,
            entry.regions() == region_views(regions@).to_multiset(),
    {
        broadcast use vstd::multiset::group_multiset_axioms;

        let ghost all = region_views(regions@);
        let mut fit: Vec<Region> = Vec::new();
        let mut rest: Vec<Region> = Vec::new();
        let mut i: usize = 0;
        proof {
            vstd::seq_lib::to_multiset_len(all.take(0));
            vstd::seq_lib::to_multiset_len(region_views(fit@));
            vstd::seq_lib::to_multiset_len(region_views(rest@));
            assert(region_views(fit@).to_multiset().add(region_views(rest@).to_multiset())
                =~= all.take(0).to_multiset());
        }
        while i < regions.len()
            invariant
                i <= regions@.len(),
                all == region_views(regions@),
                fit@.len() <= i,
                forall|j: int| 0 <= j < fit@.len() ==> tame(#[trigger] fit@[j]@),
                region_views(fit@).to_multiset().add(region_views(rest@).to_multiset())
                    == all.take(i as int).to_multiset(),
            decreases regions@.len() - i,
        {
            let ghost fit_before = region_views(fit@);
            let ghost rest_before = region_views(rest@);
            let r = &regions[i];
            proof {
                assert(all.take(i as int + 1) =~= all.take(i as int).push(r@));
                vstd::seq_lib::to_multiset_build(all.take(i as int), r@);
            }
            if 0 <= r.first && r.first <= r.last && r.last < 2147483647 {
                fit.push(r.duplicate());
                proof {
                    assert(region_views(fit@) =~= fit_before.push(r@));
                    vstd::seq_lib::to_multiset_build(fit_before, r@);
                }
            } else {
                rest.push(r.duplicate());
                proof {
                    assert(region_views(rest@) =~= rest_before.push(r@));
                    vstd::seq_lib::to_multiset_build(rest_before, r@);
                }
            }
            proof {
                assert(region_views(fit@).to_multiset().add(region_views(rest@).to_multiset())
                    =~= all.take(i as int + 1).to_multiset());
            }
            i += 1;
        }
        proof {
            assert(all.take(i as int) =~= all);
        }
        let tree = tree_from_regions(&fit);
        ContigTree { name, tree, rest }
    }

    /// All intervals of the contig, in no particular order.
    pub fn listing(&self) -> (held: Vec<Region>)
        ensures
            region_views(held@).to_multiset() == self.regions(),
    {
        broadcast use vstd::multiset::group_multiset_axioms;

        let mut held = tree_list(&self.tree);
        let ghost listed = region_views(held@);
        let ghost rest = region_views(self.rest@);
        let mut i: usize = 0;
        proof {
            vstd::seq_lib::to_multiset_len(rest.take(0));
            assert(region_views(held@).to_multiset() =~= listed.to_multiset().add(
                rest.take(0).to_multiset(),
            ));
        }
        while i < self.rest.len()
            invariant
                i <= self.rest@.len(),
                rest == region_views(self.rest@),
                region_views(held@).to_multiset() == listed.to_multiset().add(
                    rest.take(i as int).to_multiset(),
                ),
            decreases self.rest@.len() - i,
        {
            let ghost sofar = region_views(held@);
            held.push(self.rest[i].duplicate());
            proof {
                assert(region_views(held@) =~= sofar.push(self.rest@[i as int]@));
                assert(rest.take(i as int + 1) =~= rest.take(i as int).push(self.rest@[i as int]@));
                vstd::seq_lib::to_multiset_build(sofar, self.rest@[i as int]@);
                vstd::seq_lib::to_multiset_build(rest.take(i as int), self.rest@[i as int]@);
                assert(region_views(held@).to_multiset() =~= listed.to_multiset().add(
                    rest.take(i as int + 1).to_multiset(),
                ));
            }
            i += 1;
        }
        proof {
            assert(rest.take(i as int) =~= rest);
        }
        held
    }

    /// The intervals of the contig that share a position with `[start, end)`,
    /// in no particular order.
    pub fn overlap(&self, start: i64, end: i64) -> (hits: Vec<Region>)
        ensures
            region_views(hits@).to_multiset() == self.regions().filter(
                overlapping(start as int, end as int),
            ),
    {
        broadcast use vstd::multiset::group_multiset_axioms;

        let mut hits = tree_overlap(&self.tree, start, end);
        push_overlapping(&mut hits, &self.rest, start, end);
        proof {
            assert(region_views(hits@).to_multiset() =~= self.regions().filter(
                overlapping(start as int, end as int),
            ));
        }
        hits
    }
}

/// The annotations of one kind, one tree for each contig that has any.
pub struct RegionIntervalTrees {
    pub entries: Vec<ContigTree>,
}

impl RegionIntervalTrees {
    /// The contigs that have a tree, in the order of the entries.
    pub open spec fn names(&self) -> Seq<Seq<char>> {
        Seq::new(self.entries@.len(), |e: int| self.entries@[e].name@)
    }

    /// No contig has two trees.
    pub open spec fn wf(&self) -> bool {
        self.names().no_duplicates()
    }

    /// The intervals annotated on the contig `name`: those of its first entry,
    /// and none where it has no entry.
    pub open spec fn regions(&self, name: Seq<char>) -> Multiset<RegionView> {
        match self.names().index_of_first(name) {
            Some(e) => self.entries@[e].regions(),
            None => Multiset::empty(),
        }
    }

    /// An index without any annotation.
    pub fn new() -> (index: RegionIntervalTrees)
        ensures
            index.wf(),
            index.entries@.len() == 0,
            forall|name: Seq<char>| index.regions(name) == Multiset::<RegionView>::empty(),
    {
        let index = RegionIntervalTrees { entries: Vec::new() };
        proof {
            assert forall|name: Seq<char>| index.regions(name) == Multiset::<RegionView>::empty() by {
                index.names().index_of_first_ensures(name);
            }
        }
        index
    }

    /// The place of the tree of `name`, if it has one.
    pub fn find(&self, name: &String) -> (place: Option<usize>)
        ensures
            match place {
                Some(e) => e < self.entries@.len() && self.names()[e as int] == name@
                    && forall|h: int| 0 <= h < e ==> self.names()[h] != name@,
                None => !self.names().contains(name@),
            },
    {
        let mut e: usize = 0;
        while e < self.entries.len()
            invariant
                e <= self.entries@.len(),
                forall|h: int| 0 <= h < e ==> self.names()[h] != name@,
            decreases self.entries@.len() - e,
        {
            if self.entries[e].name == *name {
                return Some(e);
            }
            e += 1;
        }
        None
    }

    /// The intervals annotated on the contig `name` that share a position with
    /// `[start, end)`, in no particular order.
    pub fn overlap(&self, name: &String, start: i64, end: i64) -> (hits: Vec<Region>)
        ensures
            region_views(hits@).to_multiset() == self.regions(name@).filter(
                overlapping(start as int, end as int),
            ),
    {
        broadcast use vstd::multiset::group_multiset_axioms;

        proof {
            self.names().index_of_first_ensures(name@);
        }
        match self.find(name) {
            Some(e) => {
                proof {
                    assert(self.names().contains(name@));
                    assert(self.names().index_of_first(name@) == Some(e as int));
                }
                self.entries[e].overlap(start, end)
            },
            None => {
                let hits: Vec<Region> = Vec::new();
                proof {
                    vstd::seq_lib::to_multiset_len(region_views(hits@));
                    assert(region_views(hits@).to_multiset() =~= self.regions(name@).filter(
                        overlapping(start as int, end as int),
                    ));
                }
                hits
            },
        }
    }
}

} // verus!
