use vstd::prelude::*;

verus! {

// The underlying CSV tokenizer is the `csv` crate's byte-record
// reader, driven over an in-memory buffer.  Verus is told about the
// two foreign types that appear in the adapter's field, and the
// adapter's methods carry the contracts that the rest of the crate is
// verified against.

#[verifier::external_type_specification]
#[verifier::external_body]
#[verifier::reject_recursive_types(R)]
pub struct ExCsvReader<R>(csv::Reader<R>);

#[verifier::external_type_specification]
#[verifier::external_body]
#[verifier::reject_recursive_types(T)]
pub struct ExCursor<T>(std::io::Cursor<T>);

/// The stream of data records that the `csv` crate's byte-record
/// reader, in flexible mode with the default delimiter and quote
/// character, yields for `bytes`: for each record in order, its start
/// position in the buffer, the reader's position just past it (where
/// the following record begins), and its field count.  With
/// `has_headers` the first row is consumed as the header and is not
/// part of the stream.  The stream is a function of the buffer alone.
pub uninterp spec fn csv_records(bytes: Seq<u8>, has_headers: bool) -> Seq<(u64, u64, usize)>;

/// What the `csv` crate's byte-record reader reports for the header
/// row of `bytes`: the byte position just past the header, and the
/// header's field count.  For an empty buffer both are zero-like:
/// the position is the buffer end and the count is the field count of
/// an empty record.
pub uninterp spec fn csv_header(bytes: Seq<u8>) -> (u64, usize);

/// The positions of a record stream are consumed-byte counts of the
/// reader: each record spans at least one byte and ends within the
/// buffer, each record begins where its predecessor ended, and both
/// start and end positions strictly increase along the stream.
pub open spec fn stream_well_formed(s: Seq<(u64, u64, usize)>, len: nat) -> bool {
    &&& forall|i: int| 0 <= i < s.len() ==> (#[trigger] s[i]).0 < s[i].1 <= len
    &&& forall|i: int| 0 <= i && i + 1 < s.len() ==> (#[trigger] s[i]).1 == s[i + 1].0
    &&& forall|i: int, j: int| 0 <= i < j < s.len() ==> s[i].0 < s[j].0 && s[i].1 < s[j].1
}

/// Adapter over the `csv` crate's byte-record reader for one
/// in-memory buffer.  The ghost fields model the reader: the buffer
/// it was built over, whether the first row is interpreted as a
/// header, and how many data records have been read so far.
pub struct Tokenizer {
    pub reader: csv::Reader<std::io::Cursor<Vec<u8>>>,
    pub bytes: Ghost<Seq<u8>>,
    pub headed: Ghost<bool>,
    pub reads: Ghost<nat>,
}

impl Tokenizer {
    /// The record stream this tokenizer walks.
    pub open spec fn stream(self) -> Seq<(u64, u64, usize)> {
        csv_records(self.bytes@, self.headed@)
    }

    /// Relies on `csv::ReaderBuilder`: `flexible(true)` permits
    /// variable field counts, `has_headers` selects header
    /// interpretation, and `from_reader` starts reading at the first
    /// byte of the buffer.
    #[verifier::external_body]
    pub fn new(bytes: Vec<u8>, has_headers: bool) -> (t: Tokenizer)
        ensures
            t.bytes@ == bytes@,
            t.headed@ == has_headers,
            t.reads@ == 0,
    {
        let ghost_bytes: Ghost<Seq<u8>> = Ghost(bytes@);
        Tokenizer {
            reader: csv::ReaderBuilder::new()
                .flexible(true)
                .has_headers(has_headers)
                .from_reader(std::io::Cursor::new(bytes)),
            bytes: ghost_bytes,
            headed: Ghost(has_headers),
            reads: Ghost(0),
        }
    }

    /// Relies on `csv::Reader::byte_headers` to read the header row
    /// and `csv::Reader::position` for the byte position just past
    /// it.  In flexible mode over an in-memory cursor the read cannot
    /// fail; the reader's position only advances, so record start
    /// positions strictly increase, never pass the buffer end, and
    /// the first data record starts at or after the end of the
    /// header.
    #[verifier::external_body]
    pub fn read_header(&mut self) -> (r: (u64, usize))
        requires
            old(self).headed@ == true,
            old(self).reads@ == 0,
        ensures
            ({
                &&& final(self).bytes@ == old(self).bytes@
                &&& final(self).headed@ == old(self).headed@
                &&& final(self).reads@ == 0
                &&& r == csv_header(old(self).bytes@)
                &&& r.0 <= old(self).bytes@.len()
                &&& stream_well_formed(
                    csv_records(old(self).bytes@, old(self).headed@),
                    old(self).bytes@.len(),
                )
                &&& old(self).stream().len() > 0 ==> r.0 <= old(self).stream()[0].0
            }),
    {
        let n = match self.reader.byte_headers() {
            Ok(h) => h.len(),
            Err(_) => 0,
        };
        (self.reader.position().byte(), n)
    }

    /// Relies on `csv::Reader::read_byte_record`, together with
    /// `csv::ByteRecord::position`, `csv::Reader::position` and
    /// `csv::ByteRecord::len`, to yield the next data record's start
    /// position, the position just past it, and its field count, or
    /// nothing at end of input.  In flexible mode over an in-memory
    /// cursor the read cannot fail; the reader's position is its
    /// consumed-byte count, stamped on each record before it is
    /// parsed, so a record starts where its predecessor ended,
    /// spans at least one byte, and ends within the buffer.
    #[verifier::external_body]
    pub fn read_next(&mut self) -> (r: Option<(u64, u64, usize)>)
        ensures
            ({
                let s = csv_records(old(self).bytes@, old(self).headed@);
                &&& final(self).bytes@ == old(self).bytes@
                &&& final(self).headed@ == old(self).headed@
                &&& stream_well_formed(s, old(self).bytes@.len())
                &&& if old(self).reads@ < s.len() {
                    &&& final(self).reads@ == old(self).reads@ + 1
                    &&& r == Some(s[old(self).reads@ as int])
                } else {
                    &&& final(self).reads@ == old(self).reads@
                    &&& r is None
                }
            }),
    {
        let mut record = csv::ByteRecord::new();
        match self.reader.read_byte_record(&mut record) {
            Ok(true) => match record.position() {
                Some(p) => Some((p.byte(), self.reader.position().byte(), record.len())),
                None => None,
            },
            _ => None,
        }
    }
}

} // verus!
