//! Cutting a range of positions into maximal runs on which a mark is constant.

use vstd::prelude::*;

verus! {

/// A stretch `[lo, hi)` of positions that are all marked (`on`) or all unmarked.
#[derive(Clone, Copy, Debug, PartialEq, Eq, Structural)]
pub struct Run {
    pub lo: i64,
    pub hi: i64,
    pub on: bool,
}

/// The mathematical value of a [`Run`].
pub ghost struct RunView {
    pub lo: int,
    pub hi: int,
    pub on: bool,
}

impl View for Run {
    type V = RunView;

    open spec fn view(&self) -> RunView {
        RunView { lo: self.lo as int, hi: self.hi as int, on: self.on }
    }
}

/// The values of a list of runs.
pub open spec fn run_views(runs: Seq<Run>) -> Seq<RunView> {
    Seq::new(runs.len(), |i: int| runs[i]@)
}

/// How many positions from `p` on, below `hi`, carry the mark `on` without a
/// break.
pub open spec fn stretch(f: spec_fn(int) -> bool, on: bool, p: int, hi: int) -> nat
    decreases hi - p,
{
    if p >= hi || f(p) != on {
        0
    } else {
        1 + stretch(f, on, p + 1, hi)
    }
}

/// The maximal runs of `f` on `[lo, hi)`, from left to right.
pub open spec fn runs(f: spec_fn(int) -> bool, lo: int, hi: int) -> Seq<RunView>
    decreases hi - lo,
    via runs_decreases
{
    if lo >= hi {
        Seq::empty()
    } else {
        let end = lo + 1 + stretch(f, f(lo), lo + 1, hi);
        seq![RunView { lo, hi: end, on: f(lo) }] + runs(f, end, hi)
    }
}

#[via_fn]
proof fn runs_decreases(f: spec_fn(int) -> bool, lo: int, hi: int) {
    if lo < hi {
        lemma_stretch_bound(f, f(lo), lo + 1, hi);
    }
}

/// Position `p` lies in one of the half-open intervals `marks`.
pub open spec fn covered(marks: Seq<(i64, i64)>, p: int) -> bool {
    exists|k: int| 0 <= k < marks.len() && (#[trigger] marks[k]).0 <= p < marks[k].1
}

/// `covered` as a function of the position.
pub open spec fn covered_at(marks: Seq<(i64, i64)>) -> spec_fn(int) -> bool {
    |p: int| covered(marks, p)
}

/// No interval of `marks` starts or ends strictly between `a` and `b`.
pub open spec fn edge_free(marks: Seq<(i64, i64)>, a: int, b: int) -> bool {
    forall|k: int|
        0 <= k < marks.len() ==> !(a < (#[trigger] marks[k]).0 < b) && !(a < marks[k].1 < b)
}

/// A stretch never passes `hi`.
pub proof fn lemma_stretch_bound(f: spec_fn(int) -> bool, on: bool, p: int, hi: int)
    requires
        p <= hi,
    ensures
        p + stretch(f, on, p, hi) <= hi,
    decreases hi - p,
{
    if p < hi && f(p) == on {
        lemma_stretch_bound(f, on, p + 1, hi);
    }
}

/// Positions that carry the mark are counted one by one.
pub proof fn lemma_stretch_skip(f: spec_fn(int) -> bool, on: bool, a: int, b: int, hi: int)
    requires
        a <= b <= hi,
        forall|p: int| a <= p < b ==> #[trigger] f(p) == on,
    ensures
        stretch(f, on, a, hi) == (b - a) + stretch(f, on, b, hi),
    decreases b - a,
{
    if a < b {
        lemma_stretch_skip(f, on, a + 1, b, hi);
    }
}

/// Two marks that agree on `[lo, hi)` have the same runs there.
pub proof fn lemma_stretch_congruent(
    f: spec_fn(int) -> bool,
    g: spec_fn(int) -> bool,
    on: bool,
    p: int,
    hi: int,
)
    requires
        forall|q: int| p <= q < hi ==> #[trigger] f(q) == g(q),
    ensures
        stretch(f, on, p, hi) == stretch(g, on, p, hi),
    decreases hi - p,
{
    if p < hi && f(p) == on {
        lemma_stretch_congruent(f, g, on, p + 1, hi);
    }
}

/// Two marks that agree on `[lo, hi)` have the same runs there.
pub proof fn lemma_runs_congruent(f: spec_fn(int) -> bool, g: spec_fn(int) -> bool, lo: int, hi: int)
    requires
        forall|q: int| lo <= q < hi ==> #[trigger] f(q) == g(q),
    ensures
        runs(f, lo, hi) == runs(g, lo, hi),
    decreases hi - lo,
{
    if lo < hi {
        lemma_stretch_congruent(f, g, f(lo), lo + 1, hi);
        lemma_stretch_bound(f, f(lo), lo + 1, hi);
        let end = lo + 1 + stretch(f, f(lo), lo + 1, hi);
        lemma_runs_congruent(f, g, end, hi);
    }
}

/// Every position of a stretch carries the mark, and the position behind it,
/// if it is below `hi`, does not.
pub proof fn lemma_stretch_marks(f: spec_fn(int) -> bool, on: bool, a: int, hi: int)
    requires
        a <= hi,
    ensures
        forall|p: int| a <= p < a + stretch(f, on, a, hi) ==> #[trigger] f(p) == on,
        a + stretch(f, on, a, hi) < hi ==> f(a + stretch(f, on, a, hi)) != on,
    decreases hi - a,
{
    if a < hi && f(a) == on {
        lemma_stretch_marks(f, on, a + 1, hi);
    }
}

/// `runs` tile `[lo, hi)` from left to right with stretches that are not
/// empty, on each of which `f` has the value `on`, and of which no two
/// neighbours have the same value.
pub open spec fn tiles(s: Seq<RunView>, f: spec_fn(int) -> bool, lo: int, hi: int) -> bool {
    &&& lo >= hi ==> s.len() == 0
    &&& lo < hi ==> s.len() > 0 && s[0].lo == lo && s.last().hi == hi
    &&& forall|i: int| 0 <= i < s.len() ==> lo <= (#[trigger] s[i]).lo < s[i].hi <= hi
    &&& forall|i: int|
        0 <= i && i + 1 < s.len() ==> (#[trigger] s[i]).hi == s[i + 1].lo && s[i].on != s[i
            + 1].on
    &&& forall|i: int, p: int|
        0 <= i < s.len() && s[i].lo <= p < s[i].hi ==> #[trigger] f(p) == (#[trigger] s[i]).on
}

/// The runs of `f` on `[lo, hi)` tile that range.
pub proof fn lemma_runs_tile(f: spec_fn(int) -> bool, lo: int, hi: int)
    ensures
        tiles(runs(f, lo, hi), f, lo, hi),
    decreases hi - lo,
{
    if lo < hi {
        let on = f(lo);
        let end = lo + 1 + stretch(f, on, lo + 1, hi);
        lemma_stretch_bound(f, on, lo + 1, hi);
        lemma_stretch_marks(f, on, lo + 1, hi);
        lemma_runs_tile(f, end, hi);
        let first = RunView { lo, hi: end, on };
        let rest = runs(f, end, hi);
        let s = runs(f, lo, hi);
        assert(s == seq![first] + rest);
        assert(s[0] == first);
        assert forall|i: int| 1 <= i < s.len() implies #[trigger] s[i] == rest[i - 1] by {}
        if rest.len() > 0 {
            assert(s.last() == rest.last());
            assert(s[1] == rest[0]);
        }
        assert forall|i: int| 0 <= i < s.len() implies lo <= (#[trigger] s[i]).lo < s[i].hi
            <= hi by {
            if i > 0 {
                assert(s[i] == rest[i - 1]);
            }
        }
        assert forall|i: int| 0 <= i && i + 1 < s.len() implies (#[trigger] s[i]).hi == s[i
            + 1].lo && s[i].on != s[i + 1].on by {
            if i > 0 {
                assert(s[i] == rest[i - 1]);
                assert(s[i + 1] == rest[i]);
            } else {
                assert(s[1] == rest[0]);
                assert(rest[0].lo == end);
                assert(rest[0].on == f(end));
            }
        }
        assert forall|i: int, p: int| 0 <= i < s.len() && s[i].lo <= p < s[i].hi implies #[trigger] f(
            p,
        ) == (#[trigger] s[i]).on by {
            if i > 0 {
                assert(s[i] == rest[i - 1]);
            }
        }
    }
}

/// Runs that tile a range come one behind the other.
pub proof fn lemma_tiles_ordered(s: Seq<RunView>, f: spec_fn(int) -> bool, lo: int, hi: int, i: int, j: int)
    requires
        tiles(s, f, lo, hi),
        0 <= i < j < s.len(),
    ensures
        s[i].hi <= s[j].lo,
    decreases j - i,
{
    if i + 1 < j {
        lemma_tiles_ordered(s, f, lo, hi, i, j - 1);
        assert(s[j - 1].hi == s[j - 1 + 1].lo);
        assert(s[j - 1].lo < s[j - 1].hi);
    } else {
        assert(s[i].hi == s[i + 1].lo);
    }
}

/// Every position of `[lo, hi)` lies in one of the runs, which has the value
/// of `f` there.
pub proof fn lemma_runs_cover(f: spec_fn(int) -> bool, lo: int, hi: int, p: int) -> (i: int)
    requires
        lo <= p < hi,
    ensures
        0 <= i < runs(f, lo, hi).len(),
        runs(f, lo, hi)[i].lo <= p < runs(f, lo, hi)[i].hi,
        runs(f, lo, hi)[i].on == f(p),
    decreases hi - lo,
{
    let on = f(lo);
    let end = lo + 1 + stretch(f, on, lo + 1, hi);
    lemma_stretch_bound(f, on, lo + 1, hi);
    lemma_stretch_marks(f, on, lo + 1, hi);
    let first = RunView { lo, hi: end, on };
    let rest = runs(f, end, hi);
    assert(runs(f, lo, hi) == seq![first] + rest);
    if p < end {
        assert(runs(f, lo, hi)[0] == first);
        if p > lo {
            assert(f(p) == on);
        }
        0
    } else {
        let j = lemma_runs_cover(f, end, hi, p);
        assert(runs(f, lo, hi)[j + 1] == rest[j]);
        j + 1
    }
}

/// Where `f` is the same all over `[lo, hi)`, that range is a single run.
pub proof fn lemma_runs_constant(f: spec_fn(int) -> bool, lo: int, hi: int, on: bool)
    requires
        lo < hi,
        forall|p: int| lo <= p < hi ==> #[trigger] f(p) == on,
    ensures
        runs(f, lo, hi) == seq![RunView { lo, hi, on }],
{
    assert(f(lo) == on);
    lemma_stretch_skip(f, on, lo + 1, hi, hi);
    assert(stretch(f, on, hi, hi) == 0);
    assert(runs(f, hi, hi) =~= Seq::<RunView>::empty());
    assert(runs(f, lo, hi) =~= seq![RunView { lo, hi, on }]);
}

/// Between two neighbouring edges the mark does not change.
pub proof fn lemma_constant_between_edges(marks: Seq<(i64, i64)>, a: int, b: int, p: int)
    requires
        edge_free(marks, a, b),
        a <= p < b,
    ensures
        covered(marks, p) == covered(marks, a),
{
    if covered(marks, p) {
        let k = choose|k: int| 0 <= k < marks.len() && (#[trigger] marks[k]).0 <= p < marks[k].1;
        assert(marks[k].0 <= a < marks[k].1);
    }
    if covered(marks, a) {
        let k = choose|k: int| 0 <= k < marks.len() && (#[trigger] marks[k]).0 <= a < marks[k].1;
        assert(marks[k].0 <= p < marks[k].1);
    }
}

/// Whether position `p` lies in one of the intervals.
pub fn is_covered(marks: &Vec<(i64, i64)>, p: i64) -> (b: bool)
    ensures
        b == covered(marks@, p as int),
{
    let mut k: usize = 0;
    while k < marks.len()
        invariant
            k <= marks@.len(),
            forall|j: int| 0 <= j < k ==> !((#[trigger] marks@[j]).0 <= p < marks@[j].1),
        decreases marks@.len() - k,
    {
        if marks[k].0 <= p && p < marks[k].1 {
            return true;
        }
        k += 1;
    }
    false
}

/// The first edge of `marks` behind `a`, or `hi` if none comes before it.
pub fn next_break(marks: &Vec<(i64, i64)>, a: i64, hi: i64) -> (b: i64)
    requires
        a < hi,
    ensures
        a < b <= hi,
        edge_free(marks@, a as int, b as int),
        b == hi || exists|k: int|
            0 <= k < marks@.len() && ((#[trigger] marks@[k]).0 == b || marks@[k].1 == b),
{
    let mut b: i64 = hi;
    let mut k: usize = 0;
    while k < marks.len()
        invariant
            k <= marks@.len(),
            a < b <= hi,
            forall|j: int|
                0 <= j < k ==> !(a < (#[trigger] marks@[j]).0 < b) && !(a < marks@[j].1 < b),
            b == hi || exists|j: int|
                0 <= j < marks@.len() && ((#[trigger] marks@[j]).0 == b || marks@[j].1 == b),
        decreases marks@.len() - k,
    {
        let (s, e) = marks[k];
        if a < s && s < b {
            b = s;
        }
        if a < e && e < b {
            b = e;
        }
        k += 1;
    }
    b
}

/// Cuts `[lo, hi)` into the maximal runs of positions that the intervals
/// `marks` cover or leave out.
pub fn split_runs(marks: &Vec<(i64, i64)>, lo: i64, hi: i64) -> (out: Vec<Run>)
    ensures
        run_views(out@) == runs(covered_at(marks@), lo as int, hi as int),
{
    let ghost f = covered_at(marks@);
    let mut out: Vec<Run> = Vec::new();
    if lo >= hi {
        assert(run_views(out@) =~= Seq::<RunView>::empty());
        return out;
    }
    let mut cur: i64 = lo;
    assert(run_views(out@) + runs(f, cur as int, hi as int) =~= runs(f, lo as int, hi as int));
    while cur < hi
        invariant
            lo <= cur <= hi,
            f == covered_at(marks@),
            run_views(out@) + runs(f, cur as int, hi as int) == runs(f, lo as int, hi as int),
        decreases hi - cur,
    {
        let on = is_covered(marks, cur);
        let mut x: i64 = next_break(marks, cur, hi);
        proof {
            assert forall|p: int| cur <= p < x implies #[trigger] f(p) == on by {
                lemma_constant_between_edges(marks@, cur as int, x as int, p);
            }
        }
        loop
            invariant
                cur < x <= hi,
                f == covered_at(marks@),
                on == f(cur as int),
                forall|p: int| cur <= p < x ==> #[trigger] f(p) == on,
            ensures
                cur < x <= hi,
                forall|p: int| cur <= p < x ==> #[trigger] f(p) == on,
                x == hi || f(x as int) != on,
            decreases hi - x,
        {
            if x >= hi {
                break;
            }
            if is_covered(marks, x) != on {
                break;
            }
            let y = next_break(marks, x, hi);
            proof {
                assert forall|p: int| cur <= p < y implies #[trigger] f(p) == on by {
                    if p >= x {
                        lemma_constant_between_edges(marks@, x as int, y as int, p);
                    }
                }
            }
            x = y;
        }
        let ghost before = run_views(out@);
        proof {
            lemma_stretch_skip(f, on, cur + 1, x as int, hi as int);
            assert(stretch(f, on, x as int, hi as int) == 0);
            assert(runs(f, cur as int, hi as int) == seq![
                RunView { lo: cur as int, hi: x as int, on },
            ] + runs(f, x as int, hi as int));
        }
        out.push(Run { lo: cur, hi: x, on });
        proof {
            assert(run_views(out@) =~= before.push(RunView { lo: cur as int, hi: x as int, on }));
            assert(run_views(out@) + runs(f, x as int, hi as int) =~= before + runs(
                f,
                cur as int,
                hi as int,
            ));
        }
        cur = x;
    }
    proof {
        assert(run_views(out@) + runs(f, cur as int, hi as int) =~= run_views(out@));
    }
    out
}

} // verus!
