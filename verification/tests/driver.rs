use csv_resync::driver::{
    count_records, count_records_in_segment, count_records_serial, count_records_with_verdicts,
};
use csv_resync::verdict::NextRecord;

fn thousand_records() -> Vec<u8> {
    let mut bytes = b"a,b,c\n".to_vec();
    for i in 0..1000u32 {
        bytes.extend_from_slice(format!("{},{},{}\n", i, i * 2, i * 3).as_bytes());
    }
    bytes
}

#[test]
fn serial_count_of_small_file() {
    let bytes = b"a,b\n1,2\n3,4\n".to_vec();
    assert_eq!(count_records_serial(&bytes), 2);
}

#[test]
fn header_only_file_counts_zero() {
    let bytes = b"a\n".to_vec();
    assert_eq!(count_records_serial(&bytes), 0);
    assert_eq!(count_records(&bytes, 4), 0);
}

#[test]
fn empty_input_counts_zero() {
    let bytes = Vec::new();
    assert_eq!(count_records_serial(&bytes), 0);
    assert_eq!(count_records(&bytes, 4), 0);
}

#[test]
fn two_segments_count_two_records() {
    // Segment [0, 8) owns the record at 4; segment [8, end) owns the
    // record at 8.
    let bytes = b"a,b\n1,2\n3,4\n".to_vec();
    let verdicts = vec![
        NextRecord::Start,
        NextRecord::Offset(false, 8),
        NextRecord::EndOfFile,
    ];
    assert_eq!(count_records_in_segment(&bytes, &verdicts[0], &verdicts[1]), 1);
    assert_eq!(count_records_in_segment(&bytes, &verdicts[1], &verdicts[2]), 1);
    assert_eq!(count_records_with_verdicts(&bytes, &verdicts), 2);
}

#[test]
fn parallel_count_equals_serial_small() {
    let bytes = b"a,b\n1,2\n3,4\n".to_vec();
    assert_eq!(count_records(&bytes, 2), 2);
    assert_eq!(count_records(&bytes, 2), count_records_serial(&bytes));
}

#[test]
fn parallel_count_equals_serial_thousand() {
    let bytes = thousand_records();
    assert_eq!(count_records_serial(&bytes), 1000);
    assert_eq!(count_records(&bytes, 8), 1000);
}

#[test]
fn conservation_across_thread_counts() {
    let bytes = thousand_records();
    let serial = count_records_serial(&bytes);
    for threads in [1usize, 2, 3, 4, 7, 8, 16, 64] {
        assert_eq!(count_records(&bytes, threads), serial);
    }
}

#[test]
fn conservation_with_quoted_fields() {
    let mut bytes = b"name,comment,id\n".to_vec();
    for i in 0..100u32 {
        bytes.extend_from_slice(
            format!("r{},\"one\ntwo,x,y,z {}\",{}\n", i, i, i).as_bytes(),
        );
    }
    let serial = count_records_serial(&bytes);
    assert_eq!(serial, 100);
    for threads in [2usize, 4, 8] {
        assert_eq!(count_records(&bytes, threads), serial);
    }
}

#[test]
fn malformed_tail_falls_back_to_serial() {
    // The stray quote keeps the oracle from resolving boundaries, so
    // the driver cedes the whole range to the sequential scan.
    let bytes = b"a,b\nx\"y\n1,2,3\n4\n".to_vec();
    let serial = count_records_serial(&bytes);
    for threads in [2usize, 4] {
        assert_eq!(count_records(&bytes, threads), serial);
    }
}

#[test]
fn single_segment_counts_all_records() {
    // The one pair Start–EndOfFile covers the whole file and yields
    // exactly the sequential count.
    let bytes = thousand_records();
    let verdicts = vec![NextRecord::Start, NextRecord::EndOfFile];
    assert_eq!(
        count_records_with_verdicts(&bytes, &verdicts),
        count_records_serial(&bytes)
    );
}

#[test]
fn duplicate_start_pair_owns_no_records() {
    // Tiny files give duplicate candidate offsets; the repeated
    // boundary closes its segment where it begins.
    let bytes = b"a,b\n1,2\n3,4\n".to_vec();
    assert_eq!(
        count_records_in_segment(&bytes, &NextRecord::Start, &NextRecord::Start),
        0
    );
    assert_eq!(
        count_records_in_segment(
            &bytes,
            &NextRecord::Offset(false, 8),
            &NextRecord::Offset(false, 8)
        ),
        0
    );
}

#[test]
fn tiny_file_with_many_threads_conserves_count() {
    let bytes = b"h\naa\nbb\n".to_vec();
    let serial = count_records_serial(&bytes);
    assert_eq!(serial, 2);
    for threads in [2usize, 4, 8, 16, 32] {
        assert_eq!(count_records(&bytes, threads), serial);
    }
}

#[test]
fn single_record_file_conserves_count() {
    let bytes = b"a,b\n1,2\n".to_vec();
    assert_eq!(count_records_serial(&bytes), 1);
    for threads in [1usize, 2, 4, 8] {
        assert_eq!(count_records(&bytes, threads), 1);
    }
}

#[test]
fn single_thread_count_matches_serial() {
    let bytes = b"a,b\n1,2\n3,4\n5,6\n".to_vec();
    assert_eq!(count_records(&bytes, 1), count_records_serial(&bytes));
}
