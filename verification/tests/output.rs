use asm_consensus::output::{fetch_positions, materializable, write_consensus_fa};
use asm_consensus::runs::{is_covered, next_break, split_runs, Run};
use asm_consensus::segment::{ConsensusContig, Contig, ContigType};

fn seg(name: &str, start: u32, stop: u32, category: ContigType) -> Contig {
    Contig::new(name.to_string(), start, stop, category)
}

#[test]
fn only_segments_with_a_base_are_written() {
    let contig = ConsensusContig {
        name: "out".to_string(),
        segments: vec![
            seg("Q1", 0, 400, ContigType::Query),
            seg("R1", 500, 500, ContigType::Target),
            seg("R1", 700, 600, ContigType::Target),
            seg("Q1", 999, 1000, ContigType::Query),
        ],
    };
    let kept = materializable(&contig);
    assert_eq!(
        kept,
        vec![seg("Q1", 0, 400, ContigType::Query), seg("Q1", 999, 1000, ContigType::Query)]
    );
    for s in kept.iter() {
        assert!(s.start < s.stop);
    }
    let empty = ConsensusContig { name: "out".to_string(), segments: Vec::new() };
    assert!(materializable(&empty).is_empty());
}

#[test]
fn positions_count_from_one_and_include_the_last_base() {
    assert_eq!(fetch_positions(0, 400), Some((1, 400)));
    assert_eq!(fetch_positions(400, 600), Some((401, 600)));
    assert_eq!(fetch_positions(7, 8), Some((8, 8)));
    assert_eq!(fetch_positions(4294967294, 4294967295), Some((4294967295, 4294967295)));
    assert_eq!(fetch_positions(5, 5), None);
    assert_eq!(fetch_positions(6, 5), None);
    assert_eq!(fetch_positions(0, 0), None);
}

#[test]
fn record_is_header_sequence_and_empty_line() {
    let contig = ConsensusContig {
        name: "chr1_patched".to_string(),
        segments: vec![
            seg("chr1", 0, 4, ContigType::Query),
            seg("ref 1", 10, 10, ContigType::Target),
            seg("ref 1", 10, 4294967295, ContigType::Target),
        ],
    };
    let sequences = vec![b"ACGT".to_vec(), Vec::new(), b"nn".to_vec()];
    let record = write_consensus_fa(&contig, &sequences).unwrap();
    assert_eq!(record.fasta, b">chr1_patched\nACGTnn\n\n".to_vec());
    assert_eq!(
        record.provenance,
        b"chr1\t0\t4\tQuery\tchr1_patched\nref 1\t10\t4294967295\tTarget\tchr1_patched\n".to_vec()
    );
}

#[test]
fn record_without_sequence() {
    let contig = ConsensusContig {
        name: "é".to_string(),
        segments: vec![seg("s", 5, 5, ContigType::Query)],
    };
    let record = write_consensus_fa(&contig, &Vec::new()).unwrap();
    assert_eq!(record.fasta, ">é\n\n\n".as_bytes().to_vec());
    assert!(record.provenance.is_empty());
}

#[test]
fn contig_without_segments_is_not_written() {
    let contig = ConsensusContig { name: "out".to_string(), segments: Vec::new() };
    assert_eq!(write_consensus_fa(&contig, &Vec::new()), None);
    assert_eq!(write_consensus_fa(&contig, &vec![b"ACGT".to_vec()]), None);
}

#[test]
fn numbers_are_written_in_decimal() {
    for (start, stop) in [(0, 1), (9, 10), (99, 100), (1000, 1001), (123456789, 4294967295)] {
        let contig = ConsensusContig {
            name: "o".to_string(),
            segments: vec![seg("s", start, stop, ContigType::Target)],
        };
        let record = write_consensus_fa(&contig, &Vec::new()).unwrap();
        assert_eq!(record.provenance, format!("s\t{start}\t{stop}\tTarget\to\n").into_bytes());
        assert_eq!(format!("{:?}", ContigType::Target), "Target");
        assert_eq!(format!("{:?}", ContigType::Query), "Query");
    }
}

#[test]
fn runs_change_where_the_cover_changes() {
    let marks = vec![(10, 20), (15, 30), (40, 40), (50, 45), (60, 1000), (-5, 2)];
    assert_eq!(
        split_runs(&marks, 0, 100),
        vec![
            Run { lo: 0, hi: 2, on: true },
            Run { lo: 2, hi: 10, on: false },
            Run { lo: 10, hi: 30, on: true },
            Run { lo: 30, hi: 60, on: false },
            Run { lo: 60, hi: 100, on: true },
        ]
    );
    assert_eq!(split_runs(&marks, 12, 18), vec![Run { lo: 12, hi: 18, on: true }]);
    assert_eq!(split_runs(&marks, 30, 31), vec![Run { lo: 30, hi: 31, on: false }]);
    assert_eq!(split_runs(&marks, 5, 5), Vec::new());
    assert_eq!(split_runs(&marks, 9, 3), Vec::new());
    assert_eq!(split_runs(&Vec::new(), -3, 3), vec![Run { lo: -3, hi: 3, on: false }]);
    assert!(is_covered(&marks, 19));
    assert!(is_covered(&marks, 29));
    assert!(!is_covered(&marks, 30));
    assert!(!is_covered(&marks, 40));
    assert!(!is_covered(&marks, 47));
    assert_eq!(next_break(&marks, 0, 100), 2);
    assert_eq!(next_break(&marks, 2, 100), 10);
    assert_eq!(next_break(&marks, 30, 100), 40);
    assert_eq!(next_break(&marks, 60, 100), 100);
    assert_eq!(next_break(&marks, 60, 2000), 1000);
}
