use vstd::prelude::*;

use crate::tokenizer::{csv_records, stream_well_formed, Tokenizer};

verus! {

/// The quote character assumed by the tokenizer: a double quote.
pub const QUOTE_BYTE: u8 = 34;

/// The longest prefix of record stream `s` whose records all start
/// before `bound`.
pub open spec fn take_until(s: Seq<(u64, u64, usize)>, bound: int) -> Seq<(u64, u64, usize)>
    decreases s.len(),
{
    if s.len() == 0 {
        Seq::empty()
    } else if s[0].0 >= bound {
        Seq::empty()
    } else {
        seq![s[0]] + take_until(s.drop_first(), bound)
    }
}

/// A record stream cut at an optional window bound; `None` keeps the
/// whole stream.
pub open spec fn bounded_records(s: Seq<(u64, u64, usize)>, bound: Option<int>) -> Seq<(u64, u64, usize)> {
    match bound {
        None => s,
        Some(b) => take_until(s, b),
    }
}

/// Whether position `p` lies below the optional bound.
pub open spec fn below_bound(p: int, bound: Option<int>) -> bool {
    match bound {
        None => true,
        Some(b) => p < b,
    }
}

/// If the first `i` records start before `bound` and record `i` (when
/// it exists) does not, then the window holds exactly those `i`
/// records.
pub proof fn lemma_take_until_prefix(s: Seq<(u64, u64, usize)>, bound: int, i: int)
    requires
        0 <= i <= s.len(),
        forall|j: int| 0 <= j < i ==> s[j].0 < bound,
        i == s.len() || s[i].0 >= bound,
    ensures
        take_until(s, bound) == s.subrange(0, i),
    decreases i,
{
    if i == 0 {
        assert(s.subrange(0, 0) =~= Seq::<(u64, u64, usize)>::empty());
    } else {
        let rest = s.drop_first();
        assert(forall|j: int| 0 <= j < i - 1 ==> rest[j].0 == s[j + 1].0);
        lemma_take_until_prefix(rest, bound, i - 1);
        assert(seq![s[0]] + rest.subrange(0, i - 1) =~= s.subrange(0, i));
    }
}

/// In a well-formed stream the `i`-th record starts at or after
/// position `i`, because start positions strictly increase.
pub proof fn lemma_stream_pos_lower_bound(s: Seq<(u64, u64, usize)>, len: nat, i: int)
    requires
        stream_well_formed(s, len),
        0 <= i < s.len(),
    ensures
        s[i].0 >= i,
    decreases i,
{
    if i > 0 {
        lemma_stream_pos_lower_bound(s, len, i - 1);
    }
}

/// A well-formed stream over a buffer of `len` bytes holds at most
/// `len + 1` records.
pub proof fn lemma_stream_len_bound(s: Seq<(u64, u64, usize)>, len: nat)
    requires
        stream_well_formed(s, len),
    ensures
        s.len() <= len + 1,
{
    if s.len() > len + 1 {
        lemma_stream_pos_lower_bound(s, len, len as int + 1);
    }
}

/// Reads one record through the tokenizer and reports its positions
/// and field count, unless the stream is exhausted or the record
/// starts at or past `up_to`; a record past the bound is consumed
/// but not reported.
pub fn read_byte_record_up_to(tok: &mut Tokenizer, up_to: Option<u64>) -> (r: Option<(u64, u64, usize)>)
    ensures
        ({
            let s = csv_records(old(tok).bytes@, old(tok).headed@);
            let k = old(tok).reads@ as int;
            &&& final(tok).bytes@ == old(tok).bytes@
            &&& final(tok).headed@ == old(tok).headed@
            &&& stream_well_formed(s, old(tok).bytes@.len())
            &&& if old(tok).reads@ < s.len() {
                &&& final(tok).reads@ == old(tok).reads@ + 1
                &&& r == (match up_to {
                    Some(b) => if s[k].0 < b {
                        Some(s[k])
                    } else {
                        None::<(u64, u64, usize)>
                    },
                    None => Some(s[k]),
                })
            } else {
                &&& final(tok).reads@ == old(tok).reads@
                &&& r is None
            }
        }),
{
    match tok.read_next() {
        Some(info) => match up_to {
            Some(b) => if info.0 >= b {
                None
            } else {
                Some(info)
            },
            None => Some(info),
        },
        None => None,
    }
}

/// Builds a tokenizer over `buf` and collects the start position,
/// end position and field count of every record in the window: up to
/// end of input, or up to the first record that starts at or past
/// the bound.
pub fn collect_record_infos(buf: Vec<u8>, has_headers: bool, up_to: Option<u64>) -> (r: Vec<
    (u64, u64, usize),
>)
    ensures
        ({
            let s = csv_records(buf@, has_headers);
            let bound = match up_to {
                Some(b) => Some(b as int),
                None => None::<int>,
            };
            &&& r@ == bounded_records(s, bound)
            &&& r@.len() <= s.len()
            &&& r@ == s.subrange(0, r@.len() as int)
            &&& stream_well_formed(s, buf@.len())
            &&& (match up_to {
                Some(b) => forall|j: int| 0 <= j < r@.len() ==> (#[trigger] r@[j]).0 < b,
                None => true,
            })
        }),
{
    let ghost buf_view = buf@;
    let ghost s = csv_records(buf@, has_headers);
    let ghost bound = match up_to {
        Some(b) => Some(b as int),
        None => None::<int>,
    };
    let mut tok = Tokenizer::new(buf, has_headers);
    let mut record_infos: Vec<(u64, u64, usize)> = Vec::new();
    let mut more = true;
    proof {
        assert(record_infos@ =~= s.subrange(0, 0));
    }
    while more
        invariant
            tok.bytes@ == buf_view,
            tok.headed@ == has_headers,
            s == csv_records(buf_view, has_headers),
            bound == (match up_to {
                Some(b) => Some(b as int),
                None => None::<int>,
            }),
            record_infos@.len() <= tok.reads@ <= s.len(),
            record_infos@ == s.subrange(0, record_infos@.len() as int),
            forall|j: int| 0 <= j < record_infos@.len() ==> below_bound((#[trigger] s[j]).0 as int, bound),
            more ==> tok.reads@ == record_infos@.len(),
            !more ==> (tok.reads@ == s.len() && record_infos@.len() == tok.reads@) || (
            tok.reads@ == record_infos@.len() + 1 && record_infos@.len() < s.len()
                && !below_bound(s[record_infos@.len() as int].0 as int, bound)),
            !more ==> stream_well_formed(s, buf_view.len()),
        decreases s.len() - tok.reads@ + (if more { 1int } else { 0int }),
    {
        let ghost n = record_infos@.len() as int;
        match read_byte_record_up_to(&mut tok, up_to) {
            Some(info) => {
                proof {
                    assert(info == s[n]);
                    assert(below_bound(s[n].0 as int, bound));
                }
                record_infos.push(info);
                proof {
                    assert(record_infos@ =~= s.subrange(0, n + 1));
                    assert(forall|j: int|
                        0 <= j < record_infos@.len() ==> below_bound(
                            (#[trigger] s[j]).0 as int,
                            bound,
                        ));
                }
            },
            None => {
                more = false;
                proof {
                    if tok.reads@ == n + 1 {
                        assert(!below_bound(s[n].0 as int, bound));
                    }
                }
            },
        }
    }
    proof {
        let n = record_infos@.len() as int;
        match bound {
            Some(b) => {
                lemma_take_until_prefix(s, b, n);
                assert(forall|j: int|
                    0 <= j < record_infos@.len() ==> ((#[trigger] record_infos@[j]).0 as int)
                        < b);
            },
            None => {
                assert(n == s.len());
                assert(s.subrange(0, n) =~= s);
            },
        }
    }
    record_infos
}

/// Copies the tail of `bytes` from `offset` on into a fresh buffer.
pub fn tail_buffer(bytes: &Vec<u8>, offset: u64) -> (r: Vec<u8>)
    requires
        offset <= bytes@.len(),
    ensures
        r@ == bytes@.skip(offset as int),
{
    let mut out: Vec<u8> = Vec::new();
    let blen: usize = bytes.len();
    let mut i: usize = offset as usize;
    proof {
        assert(out@ =~= bytes@.subrange(offset as int, offset as int));
    }
    while i < blen
        invariant
            blen == bytes@.len(),
            offset as int <= i as int <= bytes@.len(),
            out@ == bytes@.subrange(offset as int, i as int),
        decreases bytes@.len() - i as int,
    {
        out.push(bytes[i]);
        proof {
            assert(out@ =~= bytes@.subrange(offset as int, i as int + 1));
        }
        i += 1;
    }
    proof {
        assert(bytes@.subrange(offset as int, bytes@.len() as int) =~= bytes@.skip(offset as int));
    }
    out
}

/// The tail of `bytes` from `offset` on, with a single synthetic
/// quote byte prepended: if the probe landed inside a quoted field,
/// the prefix closes the open quote so the tokenizer re-latches onto
/// the next real delimiter.
pub fn quoted_tail_buffer(bytes: &Vec<u8>, offset: u64) -> (r: Vec<u8>)
    requires
        offset <= bytes@.len(),
    ensures
        r@ == seq![QUOTE_BYTE] + bytes@.skip(offset as int),
{
    let mut out: Vec<u8> = Vec::new();
    out.push(QUOTE_BYTE);
    let blen: usize = bytes.len();
    let mut i: usize = offset as usize;
    proof {
        assert(out@ =~= seq![QUOTE_BYTE] + bytes@.subrange(offset as int, offset as int));
    }
    while i < blen
        invariant
            blen == bytes@.len(),
            offset as int <= i as int <= bytes@.len(),
            out@ == seq![QUOTE_BYTE] + bytes@.subrange(offset as int, i as int),
        decreases bytes@.len() - i as int,
    {
        out.push(bytes[i]);
        proof {
            assert(out@ =~= seq![QUOTE_BYTE] + bytes@.subrange(offset as int, i as int + 1));
        }
        i += 1;
    }
    proof {
        let whole_tail = seq![QUOTE_BYTE] + bytes@.skip(offset as int);
        assert(seq![QUOTE_BYTE] + bytes@.subrange(offset as int, bytes@.len() as int)
            =~= whole_tail);
    }
    out
}

} // verus!
