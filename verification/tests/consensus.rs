use asm_consensus::align::AlignmentRecord;
use asm_consensus::bed::read_bed;
use asm_consensus::boundary::{update_contig_boundaries, ContigLength};
use asm_consensus::consensus::{block_fits, build_contig, get_consensus, ConsensusError};
use asm_consensus::interval::RegionIntervalTrees;
use asm_consensus::segment::{ConsensusContig, Contig, ContigType};

fn block(q: &str, qs: u32, qe: u32, t: &str, ts: u32, te: u32) -> AlignmentRecord {
    AlignmentRecord {
        query_name: q.to_string(),
        query_start: qs,
        query_end: qe,
        strand: '+',
        target_name: t.to_string(),
        target_start: ts,
        target_end: te,
        mapping_quality: 60,
    }
}

fn trees(lines: &[&str]) -> RegionIntervalTrees {
    let lines: Vec<String> = lines.iter().map(|l| l.to_string()).collect();
    read_bed(Some(&lines), true).unwrap()
}

fn seg(name: &str, start: u32, stop: u32, category: ContigType) -> Contig {
    Contig::new(name.to_string(), start, stop, category)
}

fn none() -> RegionIntervalTrees {
    RegionIntervalTrees::new()
}

#[test]
fn single_misassembly_is_replaced_by_the_reference() {
    let records = vec![block("Q1", 0, 1000, "R1", 0, 1000)];
    let misasm = trees(&["Q1\t400\t600\tcollapse"]);
    let mut out = get_consensus(&records, &none(), &none(), &misasm).unwrap();
    let expected = vec![ConsensusContig {
        name: "Q1".to_string(),
        segments: vec![
            seg("Q1", 0, 400, ContigType::Query),
            seg("R1", 400, 600, ContigType::Target),
            seg("Q1", 600, 1000, ContigType::Query),
        ],
    }];
    assert_eq!(out, expected);
    let ref_lengths = vec![ContigLength { name: "R1".to_string(), length: 1000 }];
    let qry_lengths = vec![ContigLength { name: "Q1".to_string(), length: 1000 }];
    update_contig_boundaries(&mut out, &ref_lengths, &qry_lengths).unwrap();
    assert_eq!(out, expected);
}

#[test]
fn region_of_interest_outranks_misassembly() {
    let records = vec![block("Q1", 0, 1000, "R1", 0, 1000)];
    let roi = trees(&["R1\t450\t550"]);
    let misasm = trees(&["Q1\t400\t600\tcollapse"]);
    let out = get_consensus(&records, &roi, &none(), &misasm).unwrap();
    assert_eq!(
        out[0].segments,
        vec![
            seg("Q1", 0, 400, ContigType::Query),
            seg("R1", 400, 600, ContigType::Target),
            seg("Q1", 600, 1000, ContigType::Query),
        ]
    );
}

#[test]
fn region_of_interest_alone_is_taken_from_the_reference() {
    let records = vec![block("Q1", 0, 1000, "R1", 0, 1000)];
    let roi = trees(&["R1\t450\t550"]);
    let out = get_consensus(&records, &roi, &none(), &none()).unwrap();
    assert_eq!(
        out[0].segments,
        vec![
            seg("Q1", 0, 450, ContigType::Query),
            seg("R1", 450, 550, ContigType::Target),
            seg("Q1", 550, 1000, ContigType::Query),
        ]
    );
}

#[test]
fn coordinates_follow_the_offset_of_the_block() {
    let records = vec![block("Q1", 100, 200, "R1", 1000, 1100)];
    let roi = trees(&["R1\t1050\t1060"]);
    let misasm = trees(&["Q1\t120\t130\tgap"]);
    let out = get_consensus(&records, &roi, &none(), &misasm).unwrap();
    assert_eq!(
        out[0].segments,
        vec![
            seg("Q1", 100, 120, ContigType::Query),
            seg("R1", 1020, 1030, ContigType::Target),
            seg("Q1", 130, 150, ContigType::Query),
            seg("R1", 1050, 1060, ContigType::Target),
            seg("Q1", 160, 200, ContigType::Query),
        ]
    );
}

#[test]
fn reference_ahead_of_query_shifts_backwards() {
    let records = vec![block("Q1", 1000, 1100, "R1", 10, 110)];
    let misasm = trees(&["Q1\t1000\t1010\tgap"]);
    let out = get_consensus(&records, &none(), &none(), &misasm).unwrap();
    assert_eq!(
        out[0].segments,
        vec![seg("R1", 10, 20, ContigType::Target), seg("Q1", 1010, 1100, ContigType::Query)]
    );
}

#[test]
fn touching_and_overlapping_annotations_give_one_segment() {
    let records = vec![block("Q1", 0, 1000, "R1", 0, 1000)];
    let roi = trees(&["R1\t400\t500", "R1\t450\t480"]);
    let misasm = trees(&["Q1\t500\t600\tx", "Q1\t590\t700\ty"]);
    let out = get_consensus(&records, &roi, &none(), &misasm).unwrap();
    assert_eq!(
        out[0].segments,
        vec![
            seg("Q1", 0, 400, ContigType::Query),
            seg("R1", 400, 700, ContigType::Target),
            seg("Q1", 700, 1000, ContigType::Query),
        ]
    );
}

#[test]
fn annotations_are_clipped_to_the_block() {
    let records = vec![block("Q1", 100, 200, "R1", 100, 200)];
    let roi = trees(&["R1\t0\t110", "R1\t190\t5000"]);
    let out = get_consensus(&records, &roi, &none(), &none()).unwrap();
    assert_eq!(
        out[0].segments,
        vec![
            seg("R1", 100, 110, ContigType::Target),
            seg("Q1", 110, 190, ContigType::Query),
            seg("R1", 190, 200, ContigType::Target),
        ]
    );
}

#[test]
fn whole_block_inside_a_region_of_interest() {
    let records = vec![block("Q1", 100, 200, "R1", 300, 400)];
    let roi = trees(&["R1\t0\t1000"]);
    let out = get_consensus(&records, &roi, &none(), &none()).unwrap();
    assert_eq!(out[0].segments, vec![seg("R1", 300, 400, ContigType::Target)]);
}

#[test]
fn without_annotations_the_query_is_kept() {
    let records = vec![
        block("Q1", 0, 100, "R1", 0, 100),
        block("Q1", 200, 300, "R1", 500, 600),
        block("Q2", 5, 50, "R2", 0, 45),
    ];
    let out = get_consensus(&records, &none(), &none(), &none()).unwrap();
    assert_eq!(
        out,
        vec![
            ConsensusContig {
                name: "Q1".to_string(),
                segments: vec![
                    seg("Q1", 0, 100, ContigType::Query),
                    seg("Q1", 200, 300, ContigType::Query),
                ],
            },
            ConsensusContig {
                name: "Q2".to_string(),
                segments: vec![seg("Q2", 5, 50, ContigType::Query)],
            },
        ]
    );
}

#[test]
fn annotations_of_other_contigs_change_nothing() {
    let records = vec![block("Q1", 0, 100, "R1", 0, 100)];
    let roi = trees(&["R2\t0\t100"]);
    let misasm = trees(&["Q2\t0\t100\tx", "R1\t0\t100\ty"]);
    let out = get_consensus(&records, &roi, &none(), &misasm).unwrap();
    assert_eq!(out[0].segments, vec![seg("Q1", 0, 100, ContigType::Query)]);
}

#[test]
fn misassemblies_of_the_reference_change_nothing() {
    let records = vec![block("Q1", 0, 1000, "R1", 0, 1000)];
    let misasm = trees(&["Q1\t400\t600\tcollapse"]);
    let ref_misasm = trees(&["R1\t0\t1000\tbad", "Q1\t0\t1000\tbad"]);
    let with = get_consensus(&records, &none(), &ref_misasm, &misasm).unwrap();
    let without = get_consensus(&records, &none(), &none(), &misasm).unwrap();
    assert_eq!(with, without);
    assert_eq!(with[0].segments[1], seg("R1", 400, 600, ContigType::Target));
}

#[test]
fn the_earlier_of_two_overlapping_blocks_keeps_what_they_share() {
    let records = vec![
        block("Q1", 0, 100, "R1", 0, 100),
        block("Q1", 50, 150, "R1", 1050, 1150),
        block("Q1", 60, 90, "R1", 0, 30),
    ];
    let roi = trees(&["R1\t1000\t1110"]);
    let out = get_consensus(&records, &roi, &none(), &none()).unwrap();
    assert_eq!(
        out[0].segments,
        vec![
            seg("Q1", 0, 100, ContigType::Query),
            seg("R1", 1100, 1110, ContigType::Target),
            seg("Q1", 110, 150, ContigType::Query),
        ]
    );
}

#[test]
fn blocks_are_taken_in_the_order_of_their_query_start() {
    let records = vec![
        block("Q1", 200, 300, "R1", 0, 100),
        block("Q1", 0, 100, "R1", 500, 600),
    ];
    let out = get_consensus(&records, &none(), &none(), &none()).unwrap();
    assert_eq!(
        out[0].segments,
        vec![seg("Q1", 0, 100, ContigType::Query), seg("Q1", 200, 300, ContigType::Query)]
    );
}

#[test]
fn records_of_low_quality_or_reverse_strand_give_no_segment() {
    let mut low = block("Q1", 0, 1000, "R1", 0, 1000);
    low.mapping_quality = 59;
    let mut reverse = block("Q2", 0, 1000, "R1", 0, 1000);
    reverse.strand = '-';
    let kept = block("Q3", 0, 10, "R1", 0, 10);
    let misasm = trees(&["Q1\t400\t600\tx", "Q2\t400\t600\tx"]);
    let out = get_consensus(&vec![low, reverse, kept], &none(), &none(), &misasm).unwrap();
    assert_eq!(
        out,
        vec![ConsensusContig {
            name: "Q3".to_string(),
            segments: vec![seg("Q3", 0, 10, ContigType::Query)],
        }]
    );
}

#[test]
fn contig_without_alignment_gives_no_output_contig() {
    let records = vec![block("Q1", 0, 100, "R1", 0, 100)];
    let misasm = trees(&["Q9\t0\t50\tx", "Q1\t10\t20\ty"]);
    let out = get_consensus(&records, &none(), &none(), &misasm).unwrap();
    assert_eq!(out.len(), 1);
    assert_eq!(out[0].name, "Q1");
    let nothing = get_consensus(&Vec::new(), &none(), &none(), &misasm).unwrap();
    assert!(nothing.is_empty());
}

#[test]
fn empty_block_gives_a_contig_without_segments() {
    let records = vec![block("Q1", 100, 100, "R1", 0, 0), block("Q2", 9, 3, "R1", 0, 0)];
    let out = get_consensus(&records, &none(), &none(), &none()).unwrap();
    assert_eq!(out.len(), 2);
    assert!(out[0].segments.is_empty());
    assert!(out[1].segments.is_empty());
}

#[test]
fn empty_and_inverted_intervals_mark_nothing() {
    let records = vec![block("Q1", 0, 100, "R1", 0, 100)];
    let roi = trees(&["R1\t50\t50", "R1\t70\t60"]);
    let out = get_consensus(&records, &roi, &none(), &none()).unwrap();
    assert_eq!(out[0].segments, vec![seg("Q1", 0, 100, ContigType::Query)]);
}

#[test]
fn intervals_with_negative_coordinates_are_clipped() {
    let records = vec![block("Q1", 0, 100, "R1", 0, 100)];
    let misasm = trees(&["Q1\t-50\t10\tx"]);
    let out = get_consensus(&records, &none(), &none(), &misasm).unwrap();
    assert_eq!(
        out[0].segments,
        vec![seg("R1", 0, 10, ContigType::Target), seg("Q1", 10, 100, ContigType::Query)]
    );
}

#[test]
fn block_behind_the_coordinates_of_intervals() {
    let records = vec![block("Q1", 4000000000, 4000000100, "R1", 2147483600, 2147483700)];
    let roi = trees(&["R1\t2147483640\t2147483647"]);
    let out = get_consensus(&records, &roi, &none(), &none()).unwrap();
    assert_eq!(
        out[0].segments,
        vec![
            seg("Q1", 4000000000, 4000000040, ContigType::Query),
            seg("R1", 2147483640, 2147483647, ContigType::Target),
            seg("Q1", 4000000047, 4000000100, ContigType::Query),
        ]
    );
}

#[test]
fn block_that_passes_the_largest_coordinate_is_an_error() {
    let fine = block("Q1", 0, 100, "R1", 4294967195, 4294967295);
    let bad = block("Q1", 0, 101, "R1", 4294967195, 4294967295);
    assert!(block_fits(&fine));
    assert!(!block_fits(&bad));
    assert!(block_fits(&block("Q1", 7, 7, "R1", 4294967295, 4294967295)));
    let mut ignored = block("Q1", 0, 4000, "R1", 4294967195, 4294967295);
    ignored.strand = '-';
    let out = get_consensus(&vec![ignored.clone(), fine.clone()], &none(), &none(), &none());
    assert_eq!(
        out.unwrap()[0].segments,
        vec![seg("Q1", 0, 100, ContigType::Query)]
    );
    let out = get_consensus(&vec![ignored, fine, bad], &none(), &none(), &none());
    assert_eq!(out, Err(ConsensusError::OutOfRange { record: 2 }));
}

#[test]
fn segment_at_the_largest_coordinate() {
    let records = vec![block("Q1", 0, 100, "R1", 4294967195, 4294967295)];
    let misasm = trees(&["Q1\t90\t200\tx"]);
    let out = get_consensus(&records, &none(), &none(), &misasm).unwrap();
    assert_eq!(
        out[0].segments,
        vec![
            seg("Q1", 0, 90, ContigType::Query),
            seg("R1", 4294967285, 4294967295, ContigType::Target),
        ]
    );
}

#[test]
fn build_contig_takes_blocks_as_given() {
    let blocks = vec![block("Q1", 0, 10, "R1", 100, 110), block("Q1", 10, 20, "R1", 110, 120)];
    let roi = trees(&["R1\t105\t115"]);
    let segments = build_contig(&blocks, &roi, &none());
    assert_eq!(
        segments,
        vec![
            seg("Q1", 0, 5, ContigType::Query),
            seg("R1", 105, 110, ContigType::Target),
            seg("R1", 110, 115, ContigType::Target),
            seg("Q1", 15, 20, ContigType::Query),
        ]
    );
}

#[test]
fn segments_are_ordered_and_not_empty() {
    let records = vec![
        block("Q1", 0, 500, "R1", 1000, 1500),
        block("Q1", 400, 900, "R2", 0, 500),
        block("Q1", 900, 1000, "R1", 0, 100),
    ];
    let roi = trees(&["R1\t1100\t1200", "R2\t150\t160", "R2\t158\t170", "R1\t10\t20"]);
    let misasm = trees(&["Q1\t0\t5\ta", "Q1\t495\t505\tb", "Q1\t950\t2000\tc"]);
    let out = get_consensus(&records, &roi, &none(), &misasm).unwrap();
    let segments = &out[0].segments;
    let mut covered: u64 = 0;
    let mut last_query_stop = 0;
    for s in segments.iter() {
        assert!(s.start < s.stop);
        covered += (s.stop - s.start) as u64;
        if s.category == ContigType::Query {
            assert_eq!(s.name, "Q1");
            assert!(last_query_stop <= s.start);
            last_query_stop = s.stop;
        }
    }
    assert_eq!(covered, 1000);
    assert_eq!(segments[0], seg("R1", 1000, 1005, ContigType::Target));
    assert_eq!(segments[segments.len() - 1], seg("R1", 50, 100, ContigType::Target));
}
