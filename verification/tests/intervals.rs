use asm_consensus::bed::{group_bed, parse_bed_line, read_bed, BedError, BedLine};
use asm_consensus::interval::{tree_overlap, ContigTree, Region, RegionIntervalTrees};

fn lines(text: &[&str]) -> Vec<String> {
    text.iter().map(|l| l.to_string()).collect()
}

fn region(first: i32, last: i32, label: Option<&str>) -> Region {
    Region { first, last, label: label.map(|l| l.to_string()) }
}

fn sorted(mut hits: Vec<Region>) -> Vec<Region> {
    hits.sort_by(|a, b| (a.first, a.last, &a.label).cmp(&(b.first, b.last, &b.label)));
    hits
}

#[test]
fn line_with_two_fields_is_skipped_and_later_lines_count() {
    let bed = lines(&["chr1\t100", "chr1\t5\t10\tfirst", "", "chr1", "chr1\t20\t30\tsecond"]);
    assert_eq!(parse_bed_line(&bed[0], true), BedLine::Skipped);
    assert_eq!(parse_bed_line(&bed[2], true), BedLine::Skipped);
    assert_eq!(parse_bed_line(&bed[3], true), BedLine::Skipped);
    let trees = read_bed(Some(&bed), true).unwrap();
    assert_eq!(
        sorted(trees.overlap(&"chr1".to_string(), 0, 1000)),
        vec![region(5, 10, Some("first")), region(20, 30, Some("second"))]
    );
}

#[test]
fn line_with_three_fields_has_an_empty_label() {
    assert_eq!(
        parse_bed_line("chr1\t5\t10", true),
        BedLine::Record { name: "chr1".to_string(), region: region(5, 10, Some("")) }
    );
    assert_eq!(
        parse_bed_line("chr1\t5\t10\t", true),
        BedLine::Record { name: "chr1".to_string(), region: region(5, 10, Some("")) }
    );
    assert_eq!(
        parse_bed_line("chr1\t5\t10", false),
        BedLine::Record { name: "chr1".to_string(), region: region(5, 10, None) }
    );
}

#[test]
fn label_is_the_rest_of_the_line() {
    assert_eq!(
        parse_bed_line("chr1\t5\t10\tgap\t0\t+", true),
        BedLine::Record { name: "chr1".to_string(), region: region(5, 10, Some("gap\t0\t+")) }
    );
    assert_eq!(
        parse_bed_line("chr1\t5\t10\tgap\t0\t+", false),
        BedLine::Record { name: "chr1".to_string(), region: region(5, 10, None) }
    );
    assert_eq!(
        parse_bed_line("\t5\t10\t\t", true),
        BedLine::Record { name: String::new(), region: region(5, 10, Some("\t")) }
    );
}

#[test]
fn names_and_labels_may_hold_any_character() {
    assert_eq!(
        parse_bed_line("染色体 1\t5\t10\tπ≈3", true),
        BedLine::Record { name: "染色体 1".to_string(), region: region(5, 10, Some("π≈3")) }
    );
}

#[test]
fn numbers_are_read_as_signed_decimals() {
    let parsed = |start: &str, stop: &str| parse_bed_line(&format!("c\t{start}\t{stop}"), false);
    let record = |first: i32, last: i32| BedLine::Record {
        name: "c".to_string(),
        region: region(first, last, None),
    };
    assert_eq!(parsed("0", "007"), record(0, 7));
    assert_eq!(parsed("+5", "-0"), record(5, 0));
    assert_eq!(parsed("-12", "+0012"), record(-12, 12));
    assert_eq!(parsed("2147483647", "-2147483648"), record(2147483647, -2147483648));
    assert_eq!(parsed("-2147483647", "00000000002147483647"), record(-2147483647, 2147483647));
    for bad in [
        "", "+", "-", "--1", "+-1", "1 ", " 1", "1.0", "1e3", "0x10", "2147483648", "-2147483649",
        "99999999999999999999999", "-99999999999999999999999", "١٢", "1_000", "1,000", "１",
    ] {
        assert_eq!(parsed(bad, "1"), BedLine::Malformed, "start {bad:?}");
        assert_eq!(parsed("1", bad), BedLine::Malformed, "stop {bad:?}");
        assert_eq!(bad.parse::<i32>().ok(), None);
    }
}

#[test]
fn numbers_agree_with_the_standard_reading() {
    for text in ["0", "-0", "+0", "10", "-10", "+10", "2147483646", "-2147483647", "000", "9", "19"]
    {
        let expected = text.parse::<i32>().unwrap();
        assert_eq!(
            parse_bed_line(&format!("c\t{text}\t{text}"), false),
            BedLine::Record { name: "c".to_string(), region: region(expected, expected, None) }
        );
    }
}

#[test]
fn malformed_number_ends_the_reading() {
    let bed = lines(&["chr1\t5\t10", "short", "chr1\tfive\t10", "chr1\t5\tten"]);
    assert_eq!(read_bed(Some(&bed), true).err(), Some(BedError { line: 2 }));
    assert_eq!(group_bed(&bed, false).err(), Some(BedError { line: 2 }));
    let bed = lines(&["chr1\t5\t10", "chr1\t5\tten\tlabel"]);
    assert_eq!(read_bed(Some(&bed), false).err(), Some(BedError { line: 1 }));
}

#[test]
fn no_file_gives_no_annotation() {
    let trees = read_bed(None, true).unwrap();
    assert!(trees.entries.is_empty());
    assert!(trees.overlap(&"chr1".to_string(), 0, 100).is_empty());
    let empty = read_bed(Some(&Vec::new()), true).unwrap();
    assert!(empty.entries.is_empty());
}

#[test]
fn intervals_are_grouped_by_contig_in_input_order() {
    let bed = lines(&["b\t1\t2\tx", "a\t3\t4\ty", "b\t5\t6\tz", "b\t1\t2\tx"]);
    let groups = group_bed(&bed, true).unwrap();
    assert_eq!(groups.len(), 2);
    assert_eq!(groups[0].name, "b");
    assert_eq!(
        groups[0].regions,
        vec![region(1, 2, Some("x")), region(5, 6, Some("z")), region(1, 2, Some("x"))]
    );
    assert_eq!(groups[1].name, "a");
    assert_eq!(groups[1].regions, vec![region(3, 4, Some("y"))]);
    let trees = read_bed(Some(&bed), true).unwrap();
    assert_eq!(trees.entries.len(), 2);
    assert_eq!(trees.find(&"a".to_string()), Some(1));
    assert_eq!(trees.find(&"b".to_string()), Some(0));
    assert_eq!(trees.find(&"c".to_string()), None);
    assert_eq!(
        sorted(trees.overlap(&"b".to_string(), 0, 10)),
        vec![region(1, 2, Some("x")), region(1, 2, Some("x")), region(5, 6, Some("z"))]
    );
}

#[test]
fn overlap_is_half_open() {
    let bed = lines(&["c\t10\t20\ta", "c\t20\t30\tb", "c\t15\t15\tempty", "c\t28\t22\tinverted"]);
    let trees = read_bed(Some(&bed), true).unwrap();
    let name = "c".to_string();
    assert_eq!(sorted(trees.overlap(&name, 0, 10)), vec![]);
    assert_eq!(sorted(trees.overlap(&name, 0, 11)), vec![region(10, 20, Some("a"))]);
    assert_eq!(sorted(trees.overlap(&name, 19, 20)), vec![region(10, 20, Some("a"))]);
    assert_eq!(sorted(trees.overlap(&name, 20, 21)), vec![region(20, 30, Some("b"))]);
    assert_eq!(
        sorted(trees.overlap(&name, 19, 21)),
        vec![region(10, 20, Some("a")), region(20, 30, Some("b"))]
    );
    assert_eq!(sorted(trees.overlap(&name, 30, 40)), vec![]);
    assert_eq!(sorted(trees.overlap(&name, 15, 15)), vec![]);
    assert_eq!(sorted(trees.overlap(&name, 25, 12)), vec![]);
    assert_eq!(sorted(trees.overlap(&"d".to_string(), 0, 100)), vec![]);
}

#[test]
fn overlap_reaches_beyond_the_coordinates_of_intervals() {
    let bed = lines(&["c\t-2147483648\t-2147483640", "c\t2147483640\t2147483647", "c\t0\t1"]);
    let trees = read_bed(Some(&bed), false).unwrap();
    let name = "c".to_string();
    assert_eq!(
        sorted(trees.overlap(&name, i64::MIN, i64::MAX)),
        vec![
            region(-2147483648, -2147483640, None),
            region(0, 1, None),
            region(2147483640, 2147483647, None),
        ]
    );
    assert_eq!(
        sorted(trees.overlap(&name, 2147483646, 2147483648)),
        vec![region(2147483640, 2147483647, None)]
    );
    assert_eq!(sorted(trees.overlap(&name, 2147483647, 2147483660)), vec![]);
    assert_eq!(sorted(trees.overlap(&name, 2147483648, 2147483660)), vec![]);
    assert_eq!(sorted(trees.overlap(&name, -3000000000, -2147483648)), vec![]);
    assert_eq!(
        sorted(trees.overlap(&name, -3000000000, -2147483647)),
        vec![region(-2147483648, -2147483640, None)]
    );
}

#[test]
fn overlap_agrees_with_a_plain_search_on_many_intervals() {
    let mut bed = Vec::new();
    let mut all = Vec::new();
    let mut x: i64 = 12345;
    for i in 0..500 {
        x = (x * 1103515245 + 12345) % 2147483648;
        let first = (x % 10000) as i32;
        x = (x * 1103515245 + 12345) % 2147483648;
        let last = first + (x % 300) as i32 - 20;
        bed.push(format!("c\t{first}\t{last}\tn{i}"));
        all.push(Region { first, last, label: Some(format!("n{i}")) });
    }
    let trees = read_bed(Some(&bed), true).unwrap();
    let name = "c".to_string();
    for (start, end) in [(0, 10000), (0, 1), (500, 700), (5000, 5001), (9990, 20000), (-5, 3), (42, 42)]
    {
        let expected: Vec<Region> = all
            .iter()
            .filter(|r| {
                r.first < r.last && start < end && (r.first as i64) < end && start < r.last as i64
            })
            .cloned()
            .collect();
        assert_eq!(sorted(trees.overlap(&name, start, end)), sorted(expected.clone()));
        assert_eq!(sorted(trees.entries[0].overlap(start, end)), sorted(expected.clone()));
        let in_tree: Vec<Region> =
            expected.into_iter().filter(|r| 0 <= r.first && r.last < i32::MAX).collect();
        assert_eq!(sorted(tree_overlap(&trees.entries[0].tree, start, end)), sorted(in_tree));
    }
    assert_eq!(
        trees.overlap(&name, 0, 10000).len(),
        all.iter().filter(|r| r.first < r.last).count()
    );
    assert!(!trees.entries[0].rest.is_empty());
}

#[test]
fn region_overlap_and_copy() {
    let r = region(10, 20, Some("x"));
    assert_eq!(r.duplicate(), r);
    assert!(r.overlaps(19, 25));
    assert!(!r.overlaps(20, 25));
    assert!(!r.overlaps(0, 10));
    assert!(r.overlaps(0, 11));
    assert!(!r.overlaps(15, 15));
    assert!(!region(20, 10, None).overlaps(0, 100));
    let index = RegionIntervalTrees::new();
    assert!(index.entries.is_empty());
}

#[test]
fn listing_gives_every_interval_once() {
    let mut bed = Vec::new();
    let mut all = Vec::new();
    for i in 0..300 {
        let first = (i * 7919) % 1000 - 3;
        let last = first + (i % 11) - 1;
        bed.push(format!("c\t{first}\t{last}\tn{i}"));
        all.push(Region { first, last, label: Some(format!("n{i}")) });
    }
    bed.push("d\t1\t2".to_string());
    let trees = read_bed(Some(&bed), true).unwrap();
    assert_eq!(sorted(trees.entries[0].listing()), sorted(all.clone()));
    assert_eq!(trees.entries[1].listing(), vec![region(1, 2, Some(""))]);
    let entry = ContigTree::build("c".to_string(), &all);
    assert_eq!(entry.name, "c");
    assert_eq!(sorted(entry.listing()), sorted(all));
    assert_eq!(ContigTree::build("e".to_string(), &Vec::new()).listing(), Vec::new());
}
