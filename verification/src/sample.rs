use vstd::prelude::*;

use crate::tokenizer::{csv_header, csv_records, stream_well_formed, Tokenizer};
use crate::window::tail_buffer;

verus! {

/// Default number of leading records the sample scanner reads.
pub const SAMPLE_RECORD_COUNT: usize = 64;

/// Reads the header row of the buffer and returns the byte position
/// just past it together with its field count, the expected arity of
/// every data record.
pub fn header_info(bytes: &Vec<u8>) -> (r: (u64, usize))
    ensures
        r == csv_header(bytes@),
        r.0 <= bytes@.len(),
{
    let buf = tail_buffer(bytes, 0);
    proof {
        assert(bytes@.skip(0) =~= bytes@);
    }
    let mut tok = Tokenizer::new(buf, true);
    tok.read_header()
}

/// Record end positions strictly increase and never fall below the
/// post-header position `base`.
pub open spec fn record_ends_ascend(s: Seq<(u64, u64, usize)>, base: u64) -> bool {
    &&& forall|i: int| 0 <= i < s.len() ==> base <= (#[trigger] s[i]).1
    &&& forall|i: int, j: int| 0 <= i < j < s.len() ==> s[i].1 < s[j].1
}

/// The largest record byte size over the first `n` records of stream
/// `s`: each record's size is the difference between the reader's
/// position just past it and the position just past its predecessor
/// (`base`, the byte just past the header, for the first one), so
/// every sampled record is measured, the last one included, with its
/// terminator.
pub open spec fn max_sample_size(s: Seq<(u64, u64, usize)>, base: u64, n: nat) -> int
    decreases n,
{
    if n == 0 || s.len() == 0 {
        0
    } else {
        let d = s[0].1 - base;
        let rest = max_sample_size(s.drop_first(), s[0].1, (n - 1) as nat);
        if d > rest {
            d
        } else {
            rest
        }
    }
}

/// Over ascending end positions every measured size is non-negative,
/// so the maximum is too.
pub proof fn lemma_max_sample_nonneg(s: Seq<(u64, u64, usize)>, base: u64, n: nat)
    requires
        record_ends_ascend(s, base),
    ensures
        0 <= max_sample_size(s, base, n),
    decreases n,
{
    if n > 0 && s.len() > 0 {
        let rest = s.drop_first();
        assert(forall|i: int| 0 <= i < rest.len() ==> (#[trigger] rest[i]).1 == s[i + 1].1);
        lemma_max_sample_nonneg(rest, s[0].1, (n - 1) as nat);
    }
}

/// When at least one record is sampled, the maximum is at least the
/// first record's size.
pub proof fn lemma_max_sample_at_least_first(s: Seq<(u64, u64, usize)>, base: u64, n: nat)
    requires
        n >= 1,
        s.len() >= 1,
    ensures
        max_sample_size(s, base, n) >= s[0].1 - base,
{
}

/// Reads up to `max_records_to_read` records from the start of the
/// buffer (skipping the header) and returns the maximum observed
/// record size in bytes; `0` exactly when no record was sampled.
/// The result is used solely as a conservative window bound for the
/// resync oracle.
pub fn find_max_record_size_from_sample(bytes: &Vec<u8>, max_records_to_read: usize) -> (r: u64)
    ensures
        r as int == max_sample_size(
            csv_records(bytes@, true),
            csv_header(bytes@).0,
            max_records_to_read as nat,
        ),
        r <= bytes@.len(),
        csv_records(bytes@, true).len() == 0 ==> r == 0,
        max_records_to_read >= 1 && csv_records(bytes@, true).len() > 0 ==> r >= 1,
{
    let ghost s = csv_records(bytes@, true);
    let ghost n = max_records_to_read as nat;
    let buf = tail_buffer(bytes, 0);
    proof {
        assert(bytes@.skip(0) =~= bytes@);
    }
    let mut tok = Tokenizer::new(buf, true);
    let header = tok.read_header();
    let ghost base = csv_header(bytes@).0;
    let ghost total = max_sample_size(s, base, n);
    proof {
        assert forall|i: int| 0 <= i < s.len() implies base <= (#[trigger] s[i]).1 by {
            if i > 0 {
                assert(s[0].1 < s[i].1);
            }
        }
        lemma_max_sample_nonneg(s, base, n);
        assert(s.skip(0) =~= s);
        if n >= 1 && s.len() >= 1 {
            lemma_max_sample_at_least_first(s, base, n);
        }
    }
    let mut last_offset: u64 = header.0;
    let mut i: usize = 0;
    let mut max_record_size: u64 = 0;
    let mut more = true;
    while more && i < max_records_to_read
        invariant
            tok.bytes@ == bytes@,
            tok.headed@ == true,
            s == csv_records(bytes@, true),
            base == csv_header(bytes@).0,
            n == max_records_to_read as nat,
            total == max_sample_size(s, base, n),
            record_ends_ascend(s, base),
            stream_well_formed(s, bytes@.len()),
            i as int <= n,
            i as int <= s.len(),
            tok.reads@ == i as nat,
            !more ==> i as int == s.len(),
            last_offset == (if i == 0 {
                base
            } else {
                s[i - 1].1
            }),
            last_offset <= bytes@.len(),
            max_record_size <= bytes@.len(),
            ({
                let m = max_sample_size(s.skip(i as int), last_offset, (n - i) as nat);
                (if max_record_size as int > m {
                    max_record_size as int
                } else {
                    m
                }) == total
            }),
        decreases n - i + (if more {
            1int
        } else {
            0int
        }),
    {
        match tok.read_next() {
            Some(info) => {
                proof {
                    assert(info == s[i as int]);
                    assert(s.skip(i as int).drop_first() =~= s.skip(i as int + 1));
                    assert(s.skip(i as int)[0] == s[i as int]);
                    if i > 0 {
                        assert(s[i - 1].1 < s[i as int].1);
                    }
                }
                let pos = info.1;
                let record_size = pos - last_offset;
                if record_size > max_record_size {
                    max_record_size = record_size;
                }
                i += 1;
                last_offset = pos;
            },
            None => {
                more = false;
            },
        }
    }
    max_record_size
}

} // verus!
