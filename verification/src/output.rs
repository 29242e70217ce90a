//! Turning the segments of an output contig into what is written: the ranges
//! to fetch, the sequence record, and the lines that say where each stretch came
//! from.

use vstd::prelude::*;
use vstd::utf8::encode_utf8;
use crate::segment::{segment_views, ConsensusContig, ConsensusView, Contig, ContigType, ContigView};

verus! {

/// The segments that hold a base, in their order.
pub open spec fn nonempty_segments(segments: Seq<ContigView>) -> Seq<ContigView> {
    segments.filter(|s: ContigView| s.nonempty())
}

/// The segments of `contig` that are fetched and written: those that hold at
/// least one base, in their order.
pub fn materializable(contig: &ConsensusContig) -> (kept: Vec<Contig>)
    ensures
        segment_views(kept@) == nonempty_segments(contig@.segments),
        forall|i: int| 0 <= i < kept@.len() ==> (#[trigger] kept@[i]).start < kept@[i].stop,
{
    let ghost pred = |s: ContigView| s.nonempty();
    let ghost all = contig@.segments;
    let mut kept: Vec<Contig> = Vec::new();
    let mut i: usize = 0;
    proof {
        reveal(Seq::filter);
        assert(all.take(0) =~= Seq::<ContigView>::empty());
        assert(segment_views(kept@) =~= all.take(0).filter(pred));
    }
    while i < contig.segments.len()
        invariant
            i <= contig.segments@.len(),
            all == contig@.segments,
            pred == (|s: ContigView| s.nonempty()),
            segment_views(kept@) == all.take(i as int).filter(pred),
            forall|j: int| 0 <= j < kept@.len() ==> (#[trigger] kept@[j]).start < kept@[j].stop,
        decreases contig.segments@.len() - i,
    {
        let ghost before = segment_views(kept@);
        proof {
            reveal(Seq::filter);
            assert(all.take(i as int + 1).drop_last() =~= all.take(i as int));
            assert(all.take(i as int + 1).last() == contig.segments@[i as int]@);
        }
        if contig.segments[i].is_nonempty() {
            kept.push(contig.segments[i].duplicate());
            assert(segment_views(kept@) =~= before.push(contig.segments@[i as int]@));
        }
        i += 1;
    }
    proof {
        assert(all.take(i as int) =~= all);
    }
    kept
}

/// The bases `[start, stop)` of a contig, counted from 1 and with the last
/// one included: what a reader of indexed sequences is asked for. A range
/// without a base gives nothing to ask for.
pub open spec fn span_positions(start: int, stop: int) -> Option<(int, int)> {
    if start < stop {
        Some((start + 1, stop))
    } else {
        None
    }
}

/// The first and the last base of `[start, stop)`, counted from 1.
pub fn fetch_positions(start: u32, stop: u32) -> (positions: Option<(usize, usize)>)
    ensures
        match positions {
            Some((first, last)) => span_positions(start as int, stop as int) == Some(
                (first as int, last as int),
            ),
            None => span_positions(start as int, stop as int).is_none(),
        },
{
    if start < stop {
        Some(((start + 1) as usize, stop as usize))
    } else {
        None
    }
}

/// The digits of `n`, without leading zeros.
pub open spec fn decimal(n: nat) -> Seq<u8>
    decreases n,
{
    if n < 10 {
        seq![(48 + n) as u8]
    } else {
        decimal(n / 10).push((48 + n % 10) as u8)
    }
}

/// The name of a category, as it is written.
pub open spec fn category_label(category: ContigType) -> Seq<u8> {
    match category {
        ContigType::Target => seq![84u8, 97u8, 114u8, 103u8, 101u8, 116u8],
        ContigType::Query => seq![81u8, 117u8, 101u8, 114u8, 121u8],
    }
}

/// Appends `bytes` to `out`.
fn append_bytes(out: &mut Vec<u8>, bytes: &[u8])
    ensures
        final(out)@ == old(out)@ + bytes@,
{
    let ghost before = out@;
    let mut i: usize = 0;
    assert(out@ =~= before + bytes@.take(0));
    while i < bytes.len()
        invariant
            i <= bytes@.len(),
            out@ == before + bytes@.take(i as int),
        decreases bytes@.len() - i,
    {
        out.push(bytes[i]);
        assert(out@ =~= before + bytes@.take(i as int + 1));
        i += 1;
    }
    assert(bytes@.take(i as int) =~= bytes@);
}

/// Appends the digits of `n` to `out`.
fn append_decimal(out: &mut Vec<u8>, n: u32)
    ensures
        final(out)@ == old(out)@ + decimal(n as nat),
    decreases n,
{
    if n < 10 {
        let ghost before = out@;
        out.push(48 + n as u8);
        assert(out@ =~= before + decimal(n as nat));
    } else {
        append_decimal(out, n / 10);
        let ghost before = out@;
        out.push(48 + (n % 10) as u8);
        assert(out@ =~= old(out)@ + decimal(n as nat));
    }
}

/// Appends the name of the category to `out`.
fn append_category(out: &mut Vec<u8>, category: ContigType)
    ensures
        final(out)@ == old(out)@ + category_label(category),
{
    let ghost before = out@;
    match category {
        ContigType::Target => {
            out.push(84);
            out.push(97);
            out.push(114);
            out.push(103);
            out.push(101);
            out.push(116);
        },
        ContigType::Query => {
            out.push(81);
            out.push(117);
            out.push(101);
            out.push(114);
            out.push(121);
        },
    }
    assert(out@ =~= before + category_label(category));
}

/// The line that says where the segment `seg` of the output contig `contig`
/// came from: source contig, start, stop, category and output contig, with a
/// tab between them and a line feed at the end.
pub open spec fn provenance_line(seg: ContigView, contig: Seq<char>) -> Seq<u8> {
    encode_utf8(seg.name) + seq![9u8] + decimal(seg.start as nat) + seq![9u8] + decimal(
        seg.stop as nat,
    ) + seq![9u8] + category_label(seg.category) + seq![9u8] + encode_utf8(contig) + seq![10u8]
}

/// The lines of all `segments`, one behind the other.
pub open spec fn provenance_lines(segments: Seq<ContigView>, contig: Seq<char>) -> Seq<u8>
    decreases segments.len(),
{
    if segments.len() == 0 {
        Seq::empty()
    } else {
        provenance_lines(segments.drop_last(), contig) + provenance_line(segments.last(), contig)
    }
}

/// The record of the output contig `name` with the sequence `pieces`, piece
/// after piece: the header line, the sequence on one line, and an empty line.
pub open spec fn fasta_record(name: Seq<char>, pieces: Seq<Seq<u8>>) -> Seq<u8> {
    seq![62u8] + encode_utf8(name) + seq![10u8] + pieces.flatten() + seq![10u8, 10u8]
}

/// The bytes of each piece.
pub open spec fn piece_views(pieces: Seq<Vec<u8>>) -> Seq<Seq<u8>> {
    Seq::new(pieces.len(), |i: int| pieces[i]@)
}

/// What is written for one output contig.
#[derive(Clone, Debug, PartialEq, Eq)]
pub struct ConsensusRecord {
    /// The sequence record.
    pub fasta: Vec<u8>,
    /// One line for each segment that was written.
    pub provenance: Vec<u8>,
}

/// Appends the line of the segment `seg` of the output contig `contig`.
fn append_provenance_line(out: &mut Vec<u8>, seg: &Contig, contig: &str)
    ensures
        final(out)@ == old(out)@ + provenance_line(seg@, contig@),
{
    let ghost before = out@;
    append_bytes(out, seg.name.as_str().as_bytes());
    out.push(9);
    append_decimal(out, seg.start);
    out.push(9);
    append_decimal(out, seg.stop);
    out.push(9);
    append_category(out, seg.category);
    out.push(9);
    append_bytes(out, contig.as_bytes());
    out.push(10);
    assert(out@ =~= before + provenance_line(seg@, contig@));
}

/// Puts together what is written for the output contig `contig`, whose
/// segments that hold a base have been fetched as `sequences`, one for each in
/// their order. Nothing is written for a contig without segments.
pub fn write_consensus_fa(contig: &ConsensusContig, sequences: &Vec<Vec<u8>>) -> (record: Option<
    ConsensusRecord,
>)
    ensures
        match record {
            None => contig@.segments.len() == 0,
            Some(record) => {
                &&& contig@.segments.len() > 0
                &&& record.fasta@ == fasta_record(contig@.name, piece_views(sequences@))
                &&& record.provenance@ == provenance_lines(
                    nonempty_segments(contig@.segments),
                    contig@.name,
                )
            },
        },
{
    if contig.segments.len() == 0 {
        return None;
    }
    let mut fasta: Vec<u8> = Vec::new();
    fasta.push(62);
    append_bytes(&mut fasta, contig.name.as_str().as_bytes());
    fasta.push(10);
    let ghost head = fasta@;
    let ghost pieces = piece_views(sequences@);
    let mut i: usize = 0;
    assert(pieces.take(0) =~= Seq::<Seq<u8>>::empty());
    assert(fasta@ =~= head + pieces.take(0).flatten());
    while i < sequences.len()
        invariant
            i <= sequences@.len(),
            pieces == piece_views(sequences@),
            fasta@ == head + pieces.take(i as int).flatten(),
        decreases sequences@.len() - i,
    {
        proof {
            assert(pieces.take(i as int + 1) =~= pieces.take(i as int).push(sequences@[i as int]@));
            pieces.take(i as int).lemma_flatten_push(sequences@[i as int]@);
        }
        append_bytes(&mut fasta, sequences[i].as_slice());
        assert(fasta@ =~= head + pieces.take(i as int + 1).flatten());
        i += 1;
    }
    assert(pieces.take(i as int) =~= pieces);
    fasta.push(10);
    fasta.push(10);
    assert(fasta@ =~= fasta_record(contig@.name, pieces));

    let kept = materializable(contig);
    let ghost lines = segment_views(kept@);
    let mut provenance: Vec<u8> = Vec::new();
    let mut k: usize = 0;
    assert(lines.take(0) =~= Seq::<ContigView>::empty());
    while k < kept.len()
        invariant
            k <= kept@.len(),
            lines == segment_views(kept@),
            provenance@ == provenance_lines(lines.take(k as int), contig@.name),
        decreases kept@.len() - k,
    {
        proof {
            assert(lines.take(k as int + 1).drop_last() =~= lines.take(k as int));
            assert(lines.take(k as int + 1).last() == kept@[k as int]@);
        }
        append_provenance_line(&mut provenance, &kept[k], contig.name.as_str());
        k += 1;
    }
    assert(lines.take(k as int) =~= lines);
    Some(ConsensusRecord { fasta, provenance })
}

} // verus!
