use vstd::prelude::*;

use crate::oracle::{find_next_record_offset, oracle_verdict};
use crate::planner::segment_file_into_offsets;
use crate::sample::{
    find_max_record_size_from_sample, header_info, max_sample_size, SAMPLE_RECORD_COUNT,
};
use crate::tokenizer::{csv_header, csv_records};
use crate::verdict::NextRecord;
use crate::window::{bounded_records, collect_record_infos, lemma_stream_len_bound, tail_buffer};
use vstd::arithmetic::mul::{lemma_mul_inequality, lemma_mul_is_distributive_add_other_way};

verus! {

/// The verdict the driver assigns to a candidate offset: byte 0 needs
/// no resync, every other candidate is resolved by the oracle.
pub open spec fn resolved_verdict(
    bytes: Seq<u8>,
    offset: u64,
    max_record_size: u64,
    efc: usize,
) -> NextRecord {
    if offset == 0 {
        NextRecord::Start
    } else {
        oracle_verdict(bytes, offset, max_record_size, efc)
    }
}

/// The boundary byte a verdict pins as a segment's end: byte 0 for
/// `Start`, the resolved byte for `Offset`, and none for the
/// verdicts that end no segment (the worker then reads to end of
/// input).  A duplicated candidate — possible for tiny files — thus
/// closes its segment where it begins, and the segment stays empty.
pub open spec fn boundary_byte(v: NextRecord) -> Option<u64> {
    match v {
        NextRecord::Start => Some(0),
        NextRecord::Offset(q, b) => Some(b),
        _ => None,
    }
}

/// The upper bound a worker reads to, translated to positions
/// relative to `base`: the boundary byte of the following verdict,
/// or no bound when that verdict carries none.
pub open spec fn shifted_bound(next: NextRecord, base: u64) -> Option<int> {
    match boundary_byte(next) {
        None => None,
        Some(b) => Some(b - base),
    }
}

/// Number of records the worker for the segment between `current`
/// and `next` observes: records of the whole buffer (header skipped)
/// up to the next boundary when the segment starts the file, or
/// records of the tail from the resolved offset, counted while they
/// start before the next boundary.
pub open spec fn segment_record_count(bytes: Seq<u8>, current: NextRecord, next: NextRecord) -> int {
    match current {
        NextRecord::Start => bounded_records(
            csv_records(bytes, true),
            shifted_bound(next, 0),
        ).len() as int,
        NextRecord::Offset(q, o) => bounded_records(
            csv_records(bytes.skip(o as int), false),
            shifted_bound(next, o),
        ).len() as int,
        _ => 0,
    }
}

/// Sum of the per-segment counts over all adjacent verdict pairs.
pub open spec fn total_count(bytes: Seq<u8>, verdicts: Seq<NextRecord>) -> int
    decreases verdicts.len(),
{
    if verdicts.len() < 2 {
        0
    } else {
        segment_record_count(bytes, verdicts[0], verdicts[1]) + total_count(
            bytes,
            verdicts.drop_first(),
        )
    }
}

/// Counts the records of one segment: the worker's job.  The segment
/// begins at the resolved boundary of `current` (byte 0 for `Start`)
/// and ends where a record first starts at or past the boundary of
/// `next`, or at end of input when `next` carries no boundary.
pub fn count_records_in_segment(bytes: &Vec<u8>, current: &NextRecord, next: &NextRecord) -> (r:
    u64)
    requires
        (*current matches NextRecord::Start) || (*current matches NextRecord::Offset(_, _)),
        *current matches NextRecord::Offset(q, o) ==> o <= bytes@.len(),
    ensures
        r as int == segment_record_count(bytes@, *current, *next),
        r as int <= bytes@.len() + 1,
{
    let next_bound: Option<u64> = match next {
        NextRecord::Start => Some(0),
        NextRecord::Offset(_, b) => Some(*b),
        _ => None,
    };
    proof {
        assert(next_bound == boundary_byte(*next));
    }
    match current {
        NextRecord::Start => {
            let buf = tail_buffer(bytes, 0);
            proof {
                assert(bytes@.skip(0) =~= bytes@);
            }
            let infos = collect_record_infos(buf, true, next_bound);
            proof {
                lemma_stream_len_bound(csv_records(bytes@, true), bytes@.len());
            }
            infos.len() as u64
        },
        NextRecord::Offset(_, o) => {
            let tail = tail_buffer(bytes, *o);
            let ghost s = csv_records(bytes@.skip(*o as int), false);
            let rel_bound: Option<u64> = match next_bound {
                Some(b) => if b >= *o {
                    Some(b - *o)
                } else {
                    Some(0)
                },
                None => None,
            };
            let infos = collect_record_infos(tail, false, rel_bound);
            proof {
                lemma_stream_len_bound(s, (bytes@.len() - *o as int) as nat);
                match boundary_byte(*next) {
                    Some(b) => {
                        if b < *o {
                            // Both bounds cut the stream to nothing: no
                            // record starts before a non-positive bound.
                            assert(bounded_records(s, Some(0int)) =~= bounded_records(
                                s,
                                Some(b - *o),
                            ));
                        }
                    },
                    None => {},
                }
            }
            infos.len() as u64
        },
        _ => {
            proof {
                assert(false);
            }
            0
        },
    }
}

/// Whether a verdict list can drive the segmented scan: every
/// non-terminal verdict is `Start` or a resolved boundary inside the
/// buffer.
pub open spec fn segmentable(bytes: Seq<u8>, verdicts: Seq<NextRecord>) -> bool {
    forall|i: int|
        0 <= i < verdicts.len() - 1 ==> ((#[trigger] verdicts[i]) matches NextRecord::Start || (
        verdicts[i] matches NextRecord::Offset(q, o) && o <= bytes.len()))
}

/// Reduces the segmented scan: counts each adjacent verdict pair's
/// segment independently and sums the partial counts.
#[verifier::loop_isolation(false)]
pub fn count_records_with_verdicts(bytes: &Vec<u8>, verdicts: &Vec<NextRecord>) -> (r: u64)
    requires
        segmentable(bytes@, verdicts@),
        verdicts@.len() * (bytes@.len() + 1) <= u64::MAX as int,
    ensures
        r as int == total_count(bytes@, verdicts@),
{
    if verdicts.len() < 2 {
        return 0;
    }
    let mut sum: u64 = 0;
    let mut i: usize = 0;
    proof {
        assert(verdicts@.skip(0) =~= verdicts@);
    }
    while i + 1 < verdicts.len()
        invariant
            0 <= i as int <= verdicts@.len() - 1,
            sum as int + total_count(bytes@, verdicts@.skip(i as int)) == total_count(
                bytes@,
                verdicts@,
            ),
            sum as int <= i as int * (bytes@.len() + 1),
        decreases verdicts@.len() - i as int,
    {
        let c = count_records_in_segment(bytes, &verdicts[i], &verdicts[i + 1]);
        proof {
            let rest = verdicts@.skip(i as int);
            assert(rest.drop_first() =~= verdicts@.skip(i as int + 1));
            assert(rest[0] == verdicts@[i as int]);
            assert(rest[1] == verdicts@[i as int + 1]);
            lemma_mul_is_distributive_add_other_way(bytes@.len() as int + 1, i as int, 1);
            lemma_mul_inequality(i as int + 1, verdicts@.len() as int, bytes@.len() as int + 1);
        }
        sum = sum + c;
        i += 1;
    }
    sum
}

/// Counts every data record of the buffer in one sequential scan.
pub fn count_records_serial(bytes: &Vec<u8>) -> (r: u64)
    ensures
        r as int == csv_records(bytes@, true).len(),
{
    let buf = tail_buffer(bytes, 0);
    proof {
        assert(bytes@.skip(0) =~= bytes@);
    }
    let infos = collect_record_infos(buf, true, None);
    infos.len() as u64
}

/// Candidate probe offsets for `threads` segments over `file_len`
/// bytes.
pub open spec fn candidate_offsets(file_len: u64, threads: usize) -> Seq<u64> {
    if threads < 2 {
        seq![0u64]
    } else {
        Seq::new(
            threads as nat,
            |i: int| crate::planner::planned_offset(file_len, threads, i) as u64,
        )
    }
}

/// The verdict list the driver derives for `threads` segments: each
/// candidate resolved, then the terminal `EndOfFile`.
pub open spec fn resolved_verdicts(
    bytes: Seq<u8>,
    threads: usize,
    max_record_size: u64,
    efc: usize,
) -> Seq<NextRecord> {
    candidate_offsets(bytes.len() as u64, threads).map_values(
        |off: u64| resolved_verdict(bytes, off, max_record_size, efc),
    ).push(NextRecord::EndOfFile)
}

/// The record count the driver owes for a buffer: the segmented scan
/// over the resolved verdict list, except that a file with no data
/// record to sample (maximum sampled record size zero) or a verdict
/// list with an undetermined or end-of-file boundary in its middle
/// falls back to the sequential count.
pub open spec fn driver_count(bytes: Seq<u8>, threads: usize) -> int {
    let header = csv_header(bytes);
    let max = max_sample_size(csv_records(bytes, true), header.0, SAMPLE_RECORD_COUNT as nat);
    if max <= 0 {
        csv_records(bytes, true).len() as int
    } else {
        let verdicts = resolved_verdicts(bytes, threads, max as u64, header.1);
        if segmentable(bytes, verdicts) {
            total_count(bytes, verdicts)
        } else {
            csv_records(bytes, true).len() as int
        }
    }
}

/// The whole pipeline on an in-memory buffer: sample the leading
/// records, plan candidate offsets, resolve each through the oracle,
/// and count per segment; falls back to the sequential scan when the
/// sample gives no window or some candidate could not be resolved.
pub fn count_records(bytes: &Vec<u8>, threads: usize) -> (r: u64)
    requires
        bytes@.len() <= u64::MAX / 16,
        (threads as int + 2) * (bytes@.len() + 1) <= u64::MAX as int,
    ensures
        r as int == driver_count(bytes@, threads),
{
    let header = header_info(bytes);
    let expected_field_count = header.1;
    let max_record_size = find_max_record_size_from_sample(bytes, SAMPLE_RECORD_COUNT);
    if max_record_size == 0 {
        return count_records_serial(bytes);
    }
    let file_len = bytes.len() as u64;
    let offsets = segment_file_into_offsets(file_len, threads);
    let ghost planned = candidate_offsets(file_len, threads);
    proof {
        assert(planned.len() == offsets@.len());
        assert(forall|i: int| 0 <= i < offsets@.len() ==> planned[i] == offsets@[i]);
    }
    let mut verdicts: Vec<NextRecord> = Vec::new();
    let mut i: usize = 0;
    #[verifier::loop_isolation(false)]
    while i < offsets.len()
        invariant
            0 <= i as int <= offsets@.len(),
            verdicts@.len() == i as int,
            forall|k: int|
                0 <= k < i as int ==> (#[trigger] verdicts@[k]) == resolved_verdict(
                    bytes@,
                    offsets@[k],
                    max_record_size,
                    expected_field_count,
                ),
            forall|k: int|
                0 <= k < i as int ==> ((#[trigger] verdicts@[k]) matches NextRecord::Offset(q, b)
                    ==> b <= bytes@.len()),
        decreases offsets@.len() - i as int,
    {
        let off = offsets[i];
        let v = if off == 0 {
            NextRecord::Start
        } else {
            find_next_record_offset(bytes, off, max_record_size, expected_field_count)
        };
        verdicts.push(v);
        i += 1;
    }
    verdicts.push(NextRecord::EndOfFile);
    let ghost all = resolved_verdicts(bytes@, threads, max_record_size, expected_field_count);
    proof {
        assert(verdicts@ =~= all);
    }
    let mut ok = true;
    let mut j: usize = 0;
    proof {
        assert(verdicts@.len() >= 2);
    }
    #[verifier::loop_isolation(false)]
    while j < verdicts.len() - 1
        invariant
            0 <= j as int <= verdicts@.len() - 1,
            ok == (forall|k: int|
                0 <= k < j as int ==> ((#[trigger] verdicts@[k]) matches NextRecord::Start || (
                verdicts@[k] matches NextRecord::Offset(q, b) && b <= bytes@.len()))),
        decreases verdicts@.len() - j as int,
    {
        match verdicts[j] {
            NextRecord::Start => {},
            NextRecord::Offset(_, _) => {},
            _ => {
                ok = false;
            },
        }
        j += 1;
    }
    if !ok {
        return count_records_serial(bytes);
    }
    proof {
        lemma_mul_inequality(
            verdicts@.len() as int,
            threads as int + 2,
            bytes@.len() as int + 1,
        );
    }
    count_records_with_verdicts(bytes, &verdicts)
}

/// Conservation for the single-segment scan: a verdict list that
/// covers the whole file with the one pair `Start`–`EndOfFile`
/// yields exactly the sequential count.
pub proof fn lemma_single_segment_conservation(bytes: Seq<u8>)
    ensures
        total_count(bytes, seq![NextRecord::Start, NextRecord::EndOfFile]) == csv_records(
            bytes,
            true,
        ).len(),
{
    let v = seq![NextRecord::Start, NextRecord::EndOfFile];
    assert(v.drop_first().len() == 1);
    assert(total_count(bytes, v.drop_first()) == 0);
    assert(segment_record_count(bytes, NextRecord::Start, NextRecord::EndOfFile) == csv_records(
        bytes,
        true,
    ).len());
}

/// Part of the tiling property: the planned candidates begin at
/// byte 0, stay inside the file, and are monotone; for a file at
/// least as long as the thread count they are strictly increasing,
/// so the candidate boundaries are pairwise distinct.
pub proof fn lemma_candidate_offsets_tile(file_len: u64, threads: usize)
    ensures
        ({
            let offs = candidate_offsets(file_len, threads);
            &&& offs.len() >= 1
            &&& offs[0] == 0
            &&& forall|i: int| 0 <= i < offs.len() ==> (#[trigger] offs[i]) <= file_len
            &&& forall|i: int, j: int| 0 <= i <= j < offs.len() ==> offs[i] <= offs[j]
            &&& (2 <= threads && threads as int <= file_len as int) ==> forall|i: int, j: int|
                0 <= i < j < offs.len() ==> offs[i] < offs[j]
        }),
{
    let offs = candidate_offsets(file_len, threads);
    if threads >= 2 {
        let l = file_len as int;
        let t = threads as int;
        assert forall|i: int| 0 <= i < offs.len() implies (#[trigger] offs[i]) <= file_len by {
            lemma_mul_inequality(i, t, l);
            vstd::arithmetic::mul::lemma_mul_is_commutative(t, l);
            vstd::arithmetic::div_mod::lemma_multiply_divide_le(i * l, t, l);
            vstd::arithmetic::div_mod::lemma_div_pos_is_pos(i * l, t);
            vstd::arithmetic::mul::lemma_mul_nonnegative(i, l);
        }
        assert forall|i: int, j: int| 0 <= i <= j < offs.len() implies offs[i] <= offs[j] by {
            lemma_mul_inequality(i, j, l);
            vstd::arithmetic::div_mod::lemma_div_is_ordered(i * l, j * l, t);
            vstd::arithmetic::div_mod::lemma_div_pos_is_pos(i * l, t);
            vstd::arithmetic::mul::lemma_mul_nonnegative(i, l);
            vstd::arithmetic::mul::lemma_mul_is_commutative(t, l);
            lemma_mul_inequality(j, t, l);
            vstd::arithmetic::div_mod::lemma_multiply_divide_le(j * l, t, l);
        }
        if 2 <= threads && t <= l {
            assert forall|i: int, j: int| 0 <= i < j < offs.len() implies offs[i] < offs[j] by {
                crate::planner::lemma_planned_offsets_strict(file_len, threads, i, j);
                vstd::arithmetic::div_mod::lemma_div_pos_is_pos(i * l, t);
                vstd::arithmetic::mul::lemma_mul_nonnegative(i, l);
                vstd::arithmetic::mul::lemma_mul_nonnegative(j, l);
                vstd::arithmetic::div_mod::lemma_div_pos_is_pos(j * l, t);
                vstd::arithmetic::mul::lemma_mul_is_commutative(t, l);
                lemma_mul_inequality(i, t, l);
                lemma_mul_inequality(j, t, l);
                vstd::arithmetic::div_mod::lemma_multiply_divide_le(i * l, t, l);
                vstd::arithmetic::div_mod::lemma_multiply_divide_le(j * l, t, l);
            }
        }
    }
}

/// Conservation for a single thread: with fewer than two threads the
/// planner emits the sole candidate `0`, the oracle is never
/// consulted, and the driver's count equals the sequential count.
pub proof fn lemma_single_thread_conservation(bytes: Seq<u8>, threads: usize)
    requires
        threads < 2,
    ensures
        driver_count(bytes, threads) == csv_records(bytes, true).len(),
{
    let header = csv_header(bytes);
    let max = max_sample_size(csv_records(bytes, true), header.0, SAMPLE_RECORD_COUNT as nat);
    if max > 0 {
        let verdicts = resolved_verdicts(bytes, threads, max as u64, header.1);
        assert(verdicts =~= seq![NextRecord::Start, NextRecord::EndOfFile]);
        assert(segmentable(bytes, verdicts));
        lemma_single_segment_conservation(bytes);
    }
}

} // verus!
