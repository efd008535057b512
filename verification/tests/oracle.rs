use csv_resync::oracle::find_next_record_offset;
use csv_resync::verdict::NextRecord;
use csv_resync::window::collect_record_infos;

fn simple_file() -> Vec<u8> {
    b"a,b\n1,2\n3,4\n".to_vec()
}

#[test]
fn probe_after_first_record_returns_second_boundary() {
    // Records start at 4 and 8; a probe at 4 must skip the suspect
    // first record and return the following record's start.
    let bytes = simple_file();
    let verdict = find_next_record_offset(&bytes, 4, 4, 2);
    assert_eq!(verdict, NextRecord::Offset(false, 8));
}

#[test]
fn probe_inside_quoted_field_resyncs() {
    // The probe at byte 6 sits inside the quoted field "x,y".  The
    // resolved boundary is byte 12, the start of the record `3,4`.
    // The unquoted pass already re-latches here: only records after
    // the suspect first one are arity-checked, and they all have two
    // fields, so the verdict is unquoted.
    let bytes = b"a,b\n\"x,y\",2\n3,4\n".to_vec();
    let verdict = find_next_record_offset(&bytes, 6, 8, 2);
    assert_eq!(verdict, NextRecord::Offset(false, 12));
}

#[test]
fn probe_inside_quoted_field_with_embedded_newline() {
    // The quoted field holds an embedded newline, so the unquoted
    // pass reads ragged pseudo-records and fails; only the quoted
    // pass, behind the synthetic quote, re-latches.  The resolved
    // boundary is the start of the record `4,5,6`.
    let bytes = b"a,b,c\n1,\"x\ny\",3\n4,5,6\n".to_vec();
    let verdict = find_next_record_offset(&bytes, 9, 8, 3);
    assert_eq!(verdict, NextRecord::Offset(true, 16));
}

#[test]
fn probe_at_true_record_start_returns_next_start() {
    // A probe exactly at the start of `3,4` attributes that record
    // to the preceding segment and returns the start of `5,6`.
    let bytes = b"a,b\n1,2\n3,4\n5,6\n".to_vec();
    let verdict = find_next_record_offset(&bytes, 8, 4, 2);
    assert_eq!(verdict, NextRecord::Offset(false, 12));
}

#[test]
fn probe_in_last_record_returns_end_of_file() {
    let bytes = simple_file();
    let verdict = find_next_record_offset(&bytes, 9, 4, 2);
    assert_eq!(verdict, NextRecord::EndOfFile);
}

#[test]
fn probe_at_last_byte_returns_end_of_file() {
    let bytes = simple_file();
    let verdict = find_next_record_offset(&bytes, 11, 4, 2);
    assert_eq!(verdict, NextRecord::EndOfFile);
}

#[test]
fn probe_inside_header_resyncs_to_first_data_record() {
    let bytes = simple_file();
    let verdict = find_next_record_offset(&bytes, 1, 4, 2);
    assert_eq!(verdict, NextRecord::Offset(false, 4));
}

#[test]
fn unterminated_quote_in_tail_yields_fail() {
    // The stray quote makes both passes see ragged field counts, so
    // the oracle cannot determine a boundary.
    let bytes = b"a,b\nx\"y\n1,2,3\n4\n".to_vec();
    let verdict = find_next_record_offset(&bytes, 4, 8, 2);
    assert_eq!(verdict, NextRecord::Fail);
}

#[test]
fn oracle_is_idempotent_on_same_probe() {
    let bytes = b"a,b\n\"x\ny\",2\n3,4\n".to_vec();
    for probe in [1u64, 4, 5, 6, 8, 12] {
        let first = find_next_record_offset(&bytes, probe, 8, 2);
        let second = find_next_record_offset(&bytes, probe, 8, 2);
        assert_eq!(first, second);
    }
}

#[test]
fn round_trip_split_reproduces_whole_parse() {
    // Splitting the parse at a resolved boundary and concatenating
    // both halves reproduces the whole file's record sequence.
    let bytes = simple_file();
    let verdict = find_next_record_offset(&bytes, 4, 4, 2);
    let boundary = verdict.offset().expect("oracle must resolve this probe");
    let whole = collect_record_infos(bytes.clone(), false, None);
    let head = collect_record_infos(bytes.clone(), false, Some(boundary));
    let tail: Vec<u8> = bytes[boundary as usize..].to_vec();
    let rest = collect_record_infos(tail, false, None);
    let mut stitched = head.clone();
    for (start, end, fields) in rest {
        stitched.push((start + boundary, end + boundary, fields));
    }
    assert_eq!(stitched, whole);
}

#[test]
fn window_covering_true_record_size_never_fails() {
    // With the window bound at least the true maximum record size,
    // every probe resolves to a boundary or to end of file.
    let mut bytes = b"h1,h2,h3\n".to_vec();
    for i in 0..200u32 {
        bytes.extend_from_slice(format!("{},{},{}\n", i, i + 1, i + 2).as_bytes());
    }
    let max_record_size = 12u64;
    for probe in 0..bytes.len() as u64 {
        let verdict = find_next_record_offset(&bytes, probe, max_record_size, 3);
        assert!(!matches!(verdict, NextRecord::Fail));
    }
}

#[test]
fn resolved_boundary_is_a_true_record_start() {
    let mut bytes = b"a,b,c\n".to_vec();
    for i in 0..1000u32 {
        bytes.extend_from_slice(format!("{},{},{}\n", i, i * 2, i * 3).as_bytes());
    }
    let starts: Vec<u64> = collect_record_infos(bytes.clone(), true, None)
        .into_iter()
        .map(|(start, _, _)| start)
        .collect();
    let verdict = find_next_record_offset(&bytes, 100, 16, 3);
    match verdict {
        NextRecord::Offset(quoted, byte) => {
            assert!(!quoted);
            assert!(byte > 100);
            assert!(starts.contains(&byte));
        }
        other => panic!("expected a resolved boundary, got {:?}", other),
    }
}
