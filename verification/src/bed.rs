//! Reading tab-separated interval annotations, one interval to a line.

use vstd::prelude::*;
use vstd::std_specs::iter::IteratorSpec;
use vstd::multiset::Multiset;
use crate::interval::region_views;
use crate::interval::{ContigTree, Region, RegionIntervalTrees, RegionView};

verus! {

/// The characters of `s`, one by one.
pub fn chars_of(s: &str) -> (chars: Vec<char>)
    ensures
        chars@ == s@,
{
    broadcast use vstd::string::axiom_spec_iter, vstd::string::next_postcondition;

    let mut chars: Vec<char> = Vec::new();
    let mut it = s.chars();
    assert(it.remaining() == s@);
    loop
        invariant
            it.obeys_prophetic_iter_laws(),
            it.decrease() is Some,
            chars@ + it.remaining() == s@,
        ensures
            chars@ == s@,
        decreases it.decrease()->0,
    {
        let ghost before = it;
        let ghost sofar = chars@;
        match it.next() {
            Some(c) => {
                chars.push(c);
                assert(chars@ + it.remaining() =~= sofar + before.remaining());
            },
            None => {
                assert(chars@ + it.remaining() =~= chars@);
                break;
            },
        }
    }
    chars
}

/// Where the field that begins at `from` ends: at the next tab, or at the end
/// of the line.
pub open spec fn field_end(line: Seq<char>, from: int) -> int
    decreases line.len() - from,
{
    if from >= line.len() {
        line.len() as int
    } else if line[from] == '\t' {
        from
    } else {
        field_end(line, from + 1)
    }
}

/// The fields of a line: contig, start, stop, and whatever follows the third
/// tab, tabs included.
pub ghost struct BedFields {
    pub name: Seq<char>,
    pub start: Seq<char>,
    pub stop: Seq<char>,
    pub rest: Seq<char>,
}

/// The fields of a line, if it has at least three. A line of three fields has
/// an empty rest.
pub open spec fn bed_fields(line: Seq<char>) -> Option<BedFields> {
    let t1 = field_end(line, 0);
    let t2 = field_end(line, t1 + 1);
    let t3 = field_end(line, t2 + 1);
    if t1 >= line.len() || t2 >= line.len() {
        None
    } else {
        Some(
            BedFields {
                name: line.subrange(0, t1),
                start: line.subrange(t1 + 1, t2),
                stop: line.subrange(t2 + 1, t3),
                rest: if t3 < line.len() {
                    line.subrange(t3 + 1, line.len() as int)
                } else {
                    Seq::empty()
                },
            },
        )
    }
}

/// A decimal digit.
pub open spec fn is_digit(c: char) -> bool {
    48 <= c as u32 <= 57
}

/// The number that a row of digits writes.
pub open spec fn digits_value(digits: Seq<char>) -> int
    decreases digits.len(),
{
    if digits.len() == 0 {
        0
    } else {
        digits_value(digits.drop_last()) * 10 + (digits.last() as u32 - 48)
    }
}

/// The digits of a number, without its sign.
pub open spec fn unsigned_part(text: Seq<char>) -> Seq<char> {
    if text.len() > 0 && (text[0] == '-' || text[0] == '+') {
        text.subrange(1, text.len() as int)
    } else {
        text
    }
}

/// The number that `text` writes: an optional sign and at least one digit,
/// nothing else, and a value that 32 bits can hold.
pub open spec fn parse_i32(text: Seq<char>) -> Option<i32> {
    let digits = unsigned_part(text);
    let value = if text.len() > 0 && text[0] == '-' {
        -digits_value(digits)
    } else {
        digits_value(digits)
    };
    if digits.len() > 0 && (forall|i: int| 0 <= i < digits.len() ==> is_digit(#[trigger] digits[i]))
        && i32::MIN <= value <= i32::MAX {
        Some(value as i32)
    } else {
        None
    }
}

/// More digits never write a smaller number.
pub proof fn lemma_digits_grow(digits: Seq<char>, k: int)
    requires
        0 <= k <= digits.len(),
        forall|i: int| 0 <= i < digits.len() ==> is_digit(#[trigger] digits[i]),
    ensures
        0 <= digits_value(digits.take(k)) <= digits_value(digits),
    decreases digits.len() - k,
{
    if k == digits.len() {
        assert(digits.take(k) =~= digits);
        lemma_digits_nonnegative(digits);
    } else {
        lemma_digits_grow(digits, k + 1);
        assert(digits.take(k + 1).drop_last() =~= digits.take(k));
        assert(is_digit(digits[k]));
        assert(digits.take(k + 1).last() == digits[k]);
        lemma_digits_nonnegative(digits.take(k));
    }
}

/// A row of digits writes no negative number.
pub proof fn lemma_digits_nonnegative(digits: Seq<char>)
    requires
        forall|i: int| 0 <= i < digits.len() ==> is_digit(#[trigger] digits[i]),
    ensures
        0 <= digits_value(digits),
    decreases digits.len(),
{
    if digits.len() > 0 {
        assert(is_digit(digits[digits.len() - 1]));
        assert forall|i: int| 0 <= i < digits.drop_last().len() implies is_digit(
            #[trigger] digits.drop_last()[i],
        ) by {
            assert(digits.drop_last()[i] == digits[i]);
        }
        lemma_digits_nonnegative(digits.drop_last());
    }
}

/// The end of the field that begins at `from`.
pub fn next_tab(line: &Vec<char>, from: usize) -> (end: usize)
    requires
        from <= line@.len(),
    ensures
        end == field_end(line@, from as int),
        from <= end <= line@.len(),
{
    let mut at: usize = from;
    while at < line.len() && line[at] != '\t'
        invariant
            from <= at <= line@.len(),
            field_end(line@, from as int) == field_end(line@, at as int),
        decreases line@.len() - at,
    {
        at += 1;
    }
    at
}

/// Reads the number that the characters `[from, to)` of `line` write.
pub fn parse_number(line: &Vec<char>, from: usize, to: usize) -> (number: Option<i32>)
    requires
        from <= to <= line@.len(),
    ensures
        number == parse_i32(line@.subrange(from as int, to as int)),
{
    let ghost text = line@.subrange(from as int, to as int);
    let ghost digits = unsigned_part(text);
    if from == to {
        return None;
    }
    let negative = line[from] == '-';
    let begin: usize = if negative || line[from] == '+' {
        from + 1
    } else {
        from
    };
    assert(text[0] == line@[from as int]);
    assert(digits =~= line@.subrange(begin as int, to as int));
    if begin == to {
        return None;
    }
    let mut at: usize = begin;
    while at < to
        invariant
            begin <= at <= to <= line@.len(),
            text == line@.subrange(from as int, to as int),
            digits == unsigned_part(text),
            digits == line@.subrange(begin as int, to as int),
            forall|i: int| 0 <= i < at - begin ==> is_digit(#[trigger] digits[i]),
        decreases to - at,
    {
        let c = line[at];
        assert(digits[at - begin] == c);
        if !(c as u32 >= 48 && c as u32 <= 57) {
            assert(!is_digit(digits[at - begin]));
            return None;
        }
        at += 1;
    }
    let mut value: i64 = 0;
    let mut at: usize = begin;
    assert(digits.take(0) =~= Seq::<char>::empty());
    while at < to
        invariant
            begin <= at <= to <= line@.len(),
            text == line@.subrange(from as int, to as int),
            digits == unsigned_part(text),
            digits == line@.subrange(begin as int, to as int),
            forall|i: int| 0 <= i < digits.len() ==> is_digit(#[trigger] digits[i]),
            value == digits_value(digits.take(at - begin)),
            0 <= value <= 2147483648,
        decreases to - at,
    {
        let c = line[at];
        proof {
            assert(digits[at - begin] == c);
            assert(is_digit(digits[at - begin]));
            assert(digits.take(at - begin + 1).drop_last() =~= digits.take(at - begin));
            assert(digits.take(at - begin + 1).last() == c);
            lemma_digits_grow(digits, at - begin + 1);
        }
        value = value * 10 + (c as u32 - 48) as i64;
        assert(value == digits_value(digits.take(at - begin + 1)));
        if value > 2147483648 {
            assert(digits_value(digits) > 2147483648);
            return None;
        }
        at += 1;
    }
    assert(digits.take(to - begin) =~= digits);
    if negative {
        Some((-value) as i32)
    } else if value > 2147483647 {
        None
    } else {
        Some(value as i32)
    }
}

/// What a line is good for.
#[derive(Clone, Debug, PartialEq, Eq)]
pub enum BedLine {
    /// Fewer than three fields: the line is passed over.
    Skipped,
    /// Three fields or more, but a start or a stop that is no number.
    Malformed,
    /// An interval on the contig `name`.
    Record { name: String, region: Region },
}

/// The mathematical value of a [`BedLine`].
pub ghost enum BedLineView {
    Skipped,
    Malformed,
    Record { name: Seq<char>, region: RegionView },
}

impl View for BedLine {
    type V = BedLineView;

    open spec fn view(&self) -> BedLineView {
        match self {
            BedLine::Skipped => BedLineView::Skipped,
            BedLine::Malformed => BedLineView::Malformed,
            BedLine::Record { name, region } => BedLineView::Record {
                name: name@,
                region: region@,
            },
        }
    }
}

/// What the line is good for. With `keep_label` the interval is labelled with
/// the rest of the line behind the stop (empty if there is none), else not at
/// all.
pub open spec fn bed_line(line: Seq<char>, keep_label: bool) -> BedLineView {
    match bed_fields(line) {
        None => BedLineView::Skipped,
        Some(fields) => match (parse_i32(fields.start), parse_i32(fields.stop)) {
            (Some(first), Some(last)) => BedLineView::Record {
                name: fields.name,
                region: RegionView {
                    first,
                    last,
                    label: if keep_label {
                        Some(fields.rest)
                    } else {
                        None
                    },
                },
            },
            _ => BedLineView::Malformed,
        },
    }
}

/// Reads one line.
pub fn parse_bed_line(line: &str, keep_label: bool) -> (parsed: BedLine)
    ensures
        parsed@ == bed_line(line@, keep_label),
{
    let chars = chars_of(line);
    let n = chars.len();
    let t1 = next_tab(&chars, 0);
    if t1 >= n {
        return BedLine::Skipped;
    }
    let t2 = next_tab(&chars, t1 + 1);
    if t2 >= n {
        return BedLine::Skipped;
    }
    let t3 = next_tab(&chars, t2 + 1);
    let first = match parse_number(&chars, t1 + 1, t2) {
        Some(first) => first,
        None => {
            return BedLine::Malformed;
        },
    };
    let last = match parse_number(&chars, t2 + 1, t3) {
        Some(last) => last,
        None => {
            return BedLine::Malformed;
        },
    };
    let label = if keep_label {
        if t3 < n {
            Some(line.substring_char(t3 + 1, n).to_owned())
        } else {
            let rest = String::new();
            Some(rest)
        }
    } else {
        None
    };
    let name = line.substring_char(0, t1).to_owned();
    BedLine::Record { name, region: Region { first, last, label } }
}

/// The characters of each line.
pub open spec fn line_views(lines: Seq<String>) -> Seq<Seq<char>> {
    Seq::new(lines.len(), |i: int| lines[i]@)
}

/// The contigs that have an interval, each once, in the order in which they
/// first appear.
pub open spec fn bed_contigs(lines: Seq<Seq<char>>, keep_label: bool) -> Seq<Seq<char>>
    decreases lines.len(),
{
    if lines.len() == 0 {
        Seq::empty()
    } else {
        let rest = bed_contigs(lines.drop_last(), keep_label);
        match bed_line(lines.last(), keep_label) {
            BedLineView::Record { name, region } => if rest.contains(name) {
                rest
            } else {
                rest.push(name)
            },
            _ => rest,
        }
    }
}

/// The intervals of the contig `name`, in the order of their lines.
pub open spec fn bed_regions(lines: Seq<Seq<char>>, keep_label: bool, name: Seq<char>) -> Seq<
    RegionView,
>
    decreases lines.len(),
{
    if lines.len() == 0 {
        Seq::empty()
    } else {
        let rest = bed_regions(lines.drop_last(), keep_label, name);
        match bed_line(lines.last(), keep_label) {
            BedLineView::Record { name: contig, region } => if contig == name {
                rest.push(region)
            } else {
                rest
            },
            _ => rest,
        }
    }
}

/// None of the first `k` lines is malformed.
pub open spec fn sound_before(lines: Seq<Seq<char>>, keep_label: bool, k: int) -> bool {
    forall|j: int| 0 <= j < k ==> bed_line(#[trigger] lines[j], keep_label) != BedLineView::Malformed
}

/// No contig is listed twice.
pub proof fn lemma_bed_contigs_distinct(lines: Seq<Seq<char>>, keep_label: bool)
    ensures
        bed_contigs(lines, keep_label).no_duplicates(),
    decreases lines.len(),
{
    if lines.len() > 0 {
        lemma_bed_contigs_distinct(lines.drop_last(), keep_label);
    }
}

/// A contig that is not listed has no interval, and a contig has no more
/// intervals than there are lines.
pub proof fn lemma_bed_regions(lines: Seq<Seq<char>>, keep_label: bool, name: Seq<char>)
    ensures
        bed_regions(lines, keep_label, name).len() <= lines.len(),
        !bed_contigs(lines, keep_label).contains(name) ==> bed_regions(lines, keep_label, name)
            == Seq::<RegionView>::empty(),
    decreases lines.len(),
{
    if lines.len() > 0 {
        lemma_bed_regions(lines.drop_last(), keep_label, name);
        let rest = bed_contigs(lines.drop_last(), keep_label);
        match bed_line(lines.last(), keep_label) {
            BedLineView::Record { name: contig, region } => {
                if !rest.contains(contig) {
                    assert(rest.push(contig).last() == contig);
                    assert forall|n: Seq<char>| rest.contains(n) implies rest.push(contig).contains(
                        n,
                    ) by {
                        let i = choose|i: int| 0 <= i < rest.len() && rest[i] == n;
                        assert(rest.push(contig)[i] == n);
                    }
                }
            },
            _ => {},
        }
    }
}

/// The intervals of the contig `name`, in the order of their lines.
#[derive(Clone, Debug, PartialEq, Eq)]
pub struct ContigRegions {
    pub name: String,
    pub regions: Vec<Region>,
}

/// The names of the groups, in their order.
pub open spec fn group_names(groups: Seq<ContigRegions>) -> Seq<Seq<char>> {
    Seq::new(groups.len(), |g: int| groups[g].name@)
}

/// The groups hold exactly the intervals of `lines`, contig by contig.
pub open spec fn groups_hold(groups: Seq<ContigRegions>, lines: Seq<Seq<char>>, keep_label: bool) -> bool {
    &&& group_names(groups) == bed_contigs(lines, keep_label)
    &&& forall|g: int|
        0 <= g < groups.len() ==> region_views(#[trigger] groups[g].regions@) == bed_regions(
            lines,
            keep_label,
            groups[g].name@,
        )
}

/// Why the annotations were not read.
#[derive(Clone, Debug, PartialEq, Eq)]
pub struct BedError {
    /// The place of the first line whose start or stop is no number.
    pub line: usize,
}

/// The place of the group of `name`, if there is one.
fn find_group(groups: &Vec<ContigRegions>, name: &String) -> (place: Option<usize>)
    ensures
        match place {
            Some(g) => g < groups@.len() && group_names(groups@)[g as int] == name@,
            None => !group_names(groups@).contains(name@),
        },
{
    let mut g: usize = 0;
    while g < groups.len()
        invariant
            g <= groups@.len(),
            forall|h: int| 0 <= h < g ==> group_names(groups@)[h] != name@,
        decreases groups@.len() - g,
    {
        if groups[g].name == *name {
            return Some(g);
        }
        g += 1;
    }
    None
}

/// Reads the lines and gathers the intervals of each contig.
pub fn group_bed(lines: &Vec<String>, keep_label: bool) -> (res: Result<Vec<ContigRegions>, BedError>)
    ensures
        match res {
            Ok(groups) => sound_before(line_views(lines@), keep_label, lines@.len() as int)
                && groups_hold(groups@, line_views(lines@), keep_label),
            Err(e) => e.line < lines@.len() && sound_before(
                line_views(lines@),
                keep_label,
                e.line as int,
            ) && bed_line(lines@[e.line as int]@, keep_label) == BedLineView::Malformed,
        },
{
    let ghost all = line_views(lines@);
    let mut groups: Vec<ContigRegions> = Vec::new();
    let mut k: usize = 0;
    proof {
        assert(group_names(groups@) =~= bed_contigs(all.take(0), keep_label));
    }
    while k < lines.len()
        invariant
            k <= lines@.len(),
            all == line_views(lines@),
            sound_before(all, keep_label, k as int),
            groups_hold(groups@, all.take(k as int), keep_label),
        decreases lines@.len() - k,
    {
        let ghost seen = all.take(k as int);
        let ghost next = all.take(k as int + 1);
        let ghost names = group_names(groups@);
        let ghost was = groups@;
        proof {
            assert(next.drop_last() =~= seen);
            assert(next.last() == lines@[k as int]@);
            assert(all[k as int] == lines@[k as int]@);
        }
        match parse_bed_line(lines[k].as_str(), keep_label) {
            BedLine::Skipped => {},
            BedLine::Malformed => {
                return Err(BedError { line: k });
            },
            BedLine::Record { name, region } => {
                match find_group(&groups, &name) {
                    Some(g) => {
                        let ghost held = region_views(groups@[g as int].regions@);
                        proof {
                            assert(names[g as int] == name@);
                            assert(names.contains(name@));
                            lemma_bed_contigs_distinct(seen, keep_label);
                        }
                        groups[g].regions.push(region);
                        proof {
                            assert(region_views(groups@[g as int].regions@) =~= held.push(region@));
                            assert forall|h: int| 0 <= h < was.len() implies groups@[h].name@
                                == was[h].name@ by {}
                            assert(group_names(groups@) =~= names);
                            assert forall|h: int| 0 <= h < groups@.len() implies region_views(
                                #[trigger] groups@[h].regions@,
                            ) == bed_regions(next, keep_label, groups@[h].name@) by {
                                assert(region_views(was[h].regions@) == bed_regions(
                                    seen,
                                    keep_label,
                                    was[h].name@,
                                ));
                                if h != g {
                                    assert(names[h] != names[g as int]);
                                    assert(groups@[h] == was[h]);
                                }
                            }
                        }
                    },
                    None => {
                        let mut regions: Vec<Region> = Vec::new();
                        regions.push(region);
                        proof {
                            lemma_bed_regions(seen, keep_label, name@);
                            assert(region_views(regions@) =~= Seq::<RegionView>::empty().push(
                                region@,
                            ));
                        }
                        groups.push(ContigRegions { name, regions });
                        proof {
                            assert(group_names(groups@) =~= names.push(name@));
                            assert forall|h: int| 0 <= h < groups@.len() implies region_views(
                                #[trigger] groups@[h].regions@,
                            ) == bed_regions(next, keep_label, groups@[h].name@) by {
                                if h < was.len() {
                                    assert(groups@[h] == was[h]);
                                    assert(region_views(was[h].regions@) == bed_regions(
                                        seen,
                                        keep_label,
                                        was[h].name@,
                                    ));
                                    assert(names[h] == was[h].name@);
                                    assert(names.contains(names[h]));
                                }
                            }
                        }
                    },
                }
            },
        }
        k += 1;
    }
    proof {
        assert(all.take(k as int) =~= all);
    }
    Ok(groups)
}

/// The intervals that the lines annotate on the contig `name`, each as often
/// as it is given.
pub open spec fn bed_annotation(lines: Seq<Seq<char>>, keep_label: bool, name: Seq<char>) -> Multiset<
    RegionView,
> {
    bed_regions(lines, keep_label, name).to_multiset()
}

/// Reads the annotations of one kind and builds the interval tree of every
/// contig that has any. Without lines there is no annotation at all.
///
/// A line with fewer than three fields is passed over. A line whose start or
/// stop is no number ends the reading with an error.
pub fn read_bed(bed: Option<&Vec<String>>, keep_label: bool) -> (res: Result<
    RegionIntervalTrees,
    BedError,
>)
    requires
        bed.is_some() ==> bed.unwrap()@.len() < usize::MAX,
    ensures
        match (bed, res) {
            (None, Ok(trees)) => trees.wf() && trees.entries@.len() == 0,
            (None, Err(_)) => false,
            (Some(lines), Ok(trees)) => {
                &&& trees.wf()
                &&& sound_before(line_views(lines@), keep_label, lines@.len() as int)
                &&& trees.names() == bed_contigs(line_views(lines@), keep_label)
                &&& forall|name: Seq<char>| #[trigger]
                    trees.regions(name) == bed_annotation(line_views(lines@), keep_label, name)
            },
            (Some(lines), Err(e)) => e.line < lines@.len() && sound_before(
                line_views(lines@),
                keep_label,
                e.line as int,
            ) && bed_line(lines@[e.line as int]@, keep_label) == BedLineView::Malformed,
        },
{
    let lines = match bed {
        Some(lines) => lines,
        None => {
            return Ok(RegionIntervalTrees::new());
        },
    };
    let groups = match group_bed(lines, keep_label) {
        Ok(groups) => groups,
        Err(e) => {
            return Err(e);
        },
    };
    let ghost all = line_views(lines@);
    let mut trees = RegionIntervalTrees::new();
    let mut g: usize = 0;
    while g < groups.len()
        invariant
            g <= groups@.len(),
            all == line_views(lines@),
            lines@.len() < usize::MAX,
            groups_hold(groups@, all, keep_label),
            trees.entries@.len() == g,
            forall|h: int|
                0 <= h < g ==> (#[trigger] trees.entries@[h]).name@ == groups@[h].name@
                    && trees.entries@[h].regions() == region_views(
                    groups@[h].regions@,
                ).to_multiset(),
        decreases groups@.len() - g,
    {
        proof {
            lemma_bed_regions(all, keep_label, groups@[g as int].name@);
            assert(region_views(groups@[g as int].regions@).len() == groups@[g as int].regions@.len());
        }
        let entry = ContigTree::build(groups[g].name.clone(), &groups[g].regions);
        trees.entries.push(entry);
        g += 1;
    }
    proof {
        let names = bed_contigs(all, keep_label);
        lemma_bed_contigs_distinct(all, keep_label);
        assert(trees.names() =~= names);
        assert forall|name: Seq<char>| #[trigger]
            trees.regions(name) == bed_annotation(all, keep_label, name) by {
            lemma_bed_regions(all, keep_label, name);
            names.index_of_first_ensures(name);
            if names.contains(name) {
                let e = names.index_of_first(name).unwrap();
                assert(groups@[e].name@ == name);
                assert(region_views(groups@[e].regions@) == bed_regions(all, keep_label, name));
            } else {
                vstd::seq_lib::to_multiset_len(Seq::<RegionView>::empty());
                assert(Seq::<RegionView>::empty().to_multiset() =~= Multiset::<RegionView>::empty());
            }
        }
    }
    Ok(trees)
}

} // verus!
