use vstd::prelude::*;

use crate::tokenizer::csv_records;
use crate::verdict::NextRecord;
use crate::window::{
    collect_record_infos, lemma_stream_pos_lower_bound, quoted_tail_buffer, tail_buffer,
    take_until, QUOTE_BYTE,
};
use vstd::arithmetic::mul::lemma_mul_inequality;

verus! {

/// How many maximum record sizes the oracle reads ahead of a probe.
/// The multiplier gives statistical confidence that a run of
/// fixed-arity records is genuine and not a coincidence inside a
/// quoted block.
pub const WINDOW_MULTIPLIER: u64 = 16;

/// Whether every record after the first in window `l` has exactly
/// `efc` fields.  The first record is always suspect: the head of its
/// first field was not read, so its field count says nothing.
pub open spec fn all_expected(l: Seq<(u64, u64, usize)>, efc: usize) -> bool {
    forall|i: int| 1 <= i < l.len() ==> (#[trigger] l[i]).2 == efc
}

/// The records the unquoted pass sees: the stream of the tail of
/// `bytes` from `offset` on, cut at the window bound.  Positions are
/// relative to the probe.
pub open spec fn unquoted_window(bytes: Seq<u8>, offset: u64, max_record_size: u64) -> Seq<
    (u64, u64, usize),
> {
    take_until(
        csv_records(bytes.skip(offset as int), false),
        (WINDOW_MULTIPLIER as int) * (max_record_size as int),
    )
}

/// The records the quoted pass sees: the same tail with one synthetic
/// quote byte prepended, the window widened by that byte.  Positions
/// are relative to the start of the synthetic stream.
pub open spec fn quoted_window(bytes: Seq<u8>, offset: u64, max_record_size: u64) -> Seq<
    (u64, u64, usize),
> {
    take_until(
        csv_records(seq![QUOTE_BYTE] + bytes.skip(offset as int), false),
        (WINDOW_MULTIPLIER as int) * (max_record_size as int) + 1,
    )
}

/// The verdict the resync oracle owes for a probe at `offset`: with
/// fewer than two windowed records there is no trustworthy boundary
/// before end of input; a consistent unquoted run puts the boundary
/// at the second record's start; otherwise a consistent run behind a
/// synthetic quote puts it there after translating stream positions
/// back to file offsets (the `- 1` drops the synthetic byte); and
/// with neither the oracle cannot decide.  The quoted boundary is
/// kept only when the second synthetic-stream record starts at byte
/// two or later — the synthetic quote and a terminator always precede
/// it, so an earlier start is a degenerate stream the tokenizer
/// cannot produce, and it yields no verdict rather than a boundary
/// at or before the probe.
pub open spec fn oracle_verdict(
    bytes: Seq<u8>,
    offset: u64,
    max_record_size: u64,
    efc: usize,
) -> NextRecord {
    let l1 = unquoted_window(bytes, offset, max_record_size);
    if l1.len() < 2 {
        NextRecord::EndOfFile
    } else if all_expected(l1, efc) {
        NextRecord::Offset(false, (offset + l1[1].0) as u64)
    } else {
        let l2 = quoted_window(bytes, offset, max_record_size);
        if l2.len() < 2 {
            NextRecord::EndOfFile
        } else if all_expected(l2, efc) && l2[1].0 >= 2 {
            NextRecord::Offset(true, (offset + l2[1].0 - 1) as u64)
        } else {
            NextRecord::Fail
        }
    }
}

/// Whether every record after the first of `infos` has exactly
/// `expected_field_count` fields.
fn all_after_first_match(infos: &Vec<(u64, u64, usize)>, expected_field_count: usize) -> (r: bool)
    ensures
        r == all_expected(infos@, expected_field_count),
{
    let mut ok = true;
    let mut i: usize = 1;
    while i < infos.len()
        invariant
            1 <= i as int,
            ok == (forall|t: int|
                1 <= t < i as int && t < infos@.len() ==> (#[trigger] infos@[t]).2
                    == expected_field_count),
        decreases infos@.len() - i as int,
    {
        if infos[i].2 != expected_field_count {
            ok = false;
        }
        i += 1;
    }
    ok
}

/// The resync oracle: from an arbitrary probe `offset`, finds the
/// start of the next genuine record boundary, or reports that none
/// can be determined.  The first pass reads the raw tail; if the
/// post-first records do not all match the expected arity, the probe
/// may sit inside a quoted field, and a second pass retries behind a
/// synthetic quote byte.  An `Offset` verdict lies strictly after the
/// probe, strictly inside the forward window, and never passes the
/// end of the buffer.
pub fn find_next_record_offset(
    bytes: &Vec<u8>,
    offset: u64,
    max_record_size: u64,
    expected_field_count: usize,
) -> (r: NextRecord)
    requires
        offset <= bytes@.len(),
        max_record_size <= u64::MAX / 16,
    ensures
        r == oracle_verdict(bytes@, offset, max_record_size, expected_field_count),
        r matches NextRecord::Offset(q, b) ==> offset < b <= bytes@.len() && (b as int) < offset
            + (WINDOW_MULTIPLIER as int) * (max_record_size as int),
{
    let blen: usize = bytes.len();
    proof {
        lemma_mul_inequality(
            max_record_size as int,
            (u64::MAX / 16) as int,
            WINDOW_MULTIPLIER as int,
        );
    }
    let up_to = max_record_size * WINDOW_MULTIPLIER;
    let tail = tail_buffer(bytes, offset);
    let ghost tail_view = tail@;
    let ghost s1 = csv_records(tail@, false);
    let record_infos = collect_record_infos(tail, false, Some(up_to));
    if record_infos.len() < 2 {
        return NextRecord::EndOfFile;
    }
    if all_after_first_match(&record_infos, expected_field_count) {
        let second = record_infos[1].0;
        proof {
            assert(record_infos@[1] == s1[1]);
            lemma_stream_pos_lower_bound(s1, tail_view.len(), 1);
        }
        return NextRecord::Offset(false, offset + second);
    }
    let qtail = quoted_tail_buffer(bytes, offset);
    let ghost qtail_view = qtail@;
    let ghost s2 = csv_records(qtail@, false);
    let up_to_quoted = up_to + 1;
    let record_infos_quoted = collect_record_infos(qtail, false, Some(up_to_quoted));
    if record_infos_quoted.len() < 2 {
        return NextRecord::EndOfFile;
    }
    if all_after_first_match(&record_infos_quoted, expected_field_count) {
        let second = record_infos_quoted[1].0;
        proof {
            assert(record_infos_quoted@[1] == s2[1]);
            lemma_stream_pos_lower_bound(s2, qtail_view.len(), 1);
        }
        if second >= 2 {
            return NextRecord::Offset(true, offset + (second - 1));
        }
    }
    NextRecord::Fail
}

/// Idempotence of the oracle: the verdict is a function of the buffer
/// and the probe's parameters alone, so two runs of
/// `find_next_record_offset` on the same offset — each pinned to
/// `oracle_verdict` by its postcondition — yield the same verdict.
pub proof fn lemma_oracle_idempotent(
    bytes: Seq<u8>,
    offset: u64,
    max_record_size: u64,
    expected_field_count: usize,
    r1: NextRecord,
    r2: NextRecord,
)
    requires
        r1 == oracle_verdict(bytes, offset, max_record_size, expected_field_count),
        r2 == oracle_verdict(bytes, offset, max_record_size, expected_field_count),
    ensures
        r1 == r2,
{
}

} // verus!
