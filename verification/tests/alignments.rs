use asm_consensus::align::{read_paf, AlignmentIndex, AlignmentRecord, TOP_QUALITY};

fn record(q: &str, qs: u32, qe: u32, strand: char, mapq: u8) -> AlignmentRecord {
    AlignmentRecord {
        query_name: q.to_string(),
        query_start: qs,
        query_end: qe,
        strand,
        target_name: "R".to_string(),
        target_start: qs,
        target_end: qe,
        mapping_quality: mapq,
    }
}

#[test]
fn only_forward_records_of_top_quality_are_kept() {
    assert_eq!(TOP_QUALITY, 60);
    let records = vec![
        record("a", 0, 10, '+', 60),
        record("a", 10, 20, '-', 60),
        record("b", 0, 10, '+', 59),
        record("b", 10, 20, '+', 255),
        record("c", 0, 10, '+', 0),
        record("c", 10, 20, '*', 60),
        record("d", 5, 6, '+', 60),
    ];
    assert!(records[0].is_accepted());
    assert!(!records[1].is_accepted());
    assert!(!records[2].is_accepted());
    assert!(!records[3].is_accepted());
    let kept = read_paf(records.clone());
    assert_eq!(kept, vec![records[0].clone(), records[6].clone()]);
    assert_eq!(read_paf(Vec::new()), Vec::new());
}

#[test]
fn index_groups_by_contig_and_orders_by_start() {
    let records = vec![
        record("b", 50, 60, '+', 60),
        record("a", 30, 40, '+', 60),
        record("b", 10, 20, '+', 60),
        record("a", 30, 35, '+', 60),
        record("c", 0, 10, '-', 60),
        record("b", 50, 55, '+', 60),
        record("a", 0, 5, '+', 60),
        record("b", 70, 80, '+', 1),
    ];
    let index = AlignmentIndex::build(&records);
    assert_eq!(index.groups.len(), 2);
    assert_eq!(index.groups[0].name, "b");
    assert_eq!(
        index.groups[0].blocks,
        vec![records[2].clone(), records[0].clone(), records[5].clone()]
    );
    assert_eq!(index.groups[1].name, "a");
    assert_eq!(
        index.groups[1].blocks,
        vec![records[6].clone(), records[1].clone(), records[3].clone()]
    );
    assert_eq!(index.find(&"a".to_string()), Some(1));
    assert_eq!(index.find(&"b".to_string()), Some(0));
    assert_eq!(index.find(&"c".to_string()), None);
    assert_eq!(records[1].duplicate(), records[1]);
    assert_eq!(index.blocks_for(&"a".to_string()), index.groups[1].blocks);
    assert_eq!(index.blocks_for(&"b".to_string()), index.groups[0].blocks);
    assert_eq!(index.blocks_for(&"c".to_string()), Vec::new());
    let names: Vec<String> = ["c", "a", "d", "b", "c"].iter().map(|n| n.to_string()).collect();
    assert_eq!(index.unaligned(&names), vec!["c".to_string(), "d".to_string(), "c".to_string()]);
}

#[test]
fn index_of_nothing_is_empty() {
    assert!(AlignmentIndex::build(&Vec::new()).groups.is_empty());
    assert!(AlignmentIndex::build(&vec![record("a", 0, 1, '-', 60)]).groups.is_empty());
}
