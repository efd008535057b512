use csv_resync::planner::segment_file_into_offsets;
use csv_resync::sample::{find_max_record_size_from_sample, header_info};
use csv_resync::verdict::NextRecord;

#[test]
fn single_thread_plans_origin_only() {
    assert_eq!(segment_file_into_offsets(1000, 1), vec![0]);
    assert_eq!(segment_file_into_offsets(1000, 0), vec![0]);
}

#[test]
fn four_threads_split_evenly() {
    assert_eq!(segment_file_into_offsets(100, 4), vec![0, 25, 50, 75]);
}

#[test]
fn offsets_floor_uneven_division() {
    assert_eq!(segment_file_into_offsets(10, 3), vec![0, 3, 6]);
}

#[test]
fn tiny_file_yields_duplicate_offsets() {
    let offsets = segment_file_into_offsets(1, 4);
    assert_eq!(offsets, vec![0, 0, 0, 0]);
}

#[test]
fn offsets_are_monotone_and_within_file() {
    let offsets = segment_file_into_offsets(12345, 7);
    assert_eq!(offsets.len(), 7);
    for pair in offsets.windows(2) {
        assert!(pair[0] <= pair[1]);
    }
    assert!(offsets.iter().all(|&o| o < 12345));
}

#[test]
fn sample_reports_largest_record_size() {
    // Record sizes, terminator included, are 4 and 4.
    let bytes = b"a,b\n1,2\n3,4\n".to_vec();
    assert_eq!(find_max_record_size_from_sample(&bytes, 64), 4);
}

#[test]
fn sample_measures_single_record_file() {
    // A file with exactly one data record reports that record's true
    // size, not zero.
    let bytes = b"a,b\n1,2\n".to_vec();
    assert_eq!(find_max_record_size_from_sample(&bytes, 64), 4);
}

#[test]
fn sample_measures_last_record() {
    // The largest record is the last one sampled; its size must
    // still be measured.
    let bytes = b"a,b\n1,2\nlonger,record\n".to_vec();
    assert_eq!(find_max_record_size_from_sample(&bytes, 64), 14);
}

#[test]
fn sample_sees_longer_record_later() {
    let bytes = b"a,b\n1,2\nlonger,record\n3,4\n".to_vec();
    assert_eq!(find_max_record_size_from_sample(&bytes, 64), 14);
}

#[test]
fn sample_of_header_only_file_is_zero() {
    let bytes = b"a\n".to_vec();
    assert_eq!(find_max_record_size_from_sample(&bytes, 64), 0);
}

#[test]
fn sample_respects_record_limit() {
    // Only the first two records are sampled, 4 bytes each; the long
    // third one is never seen.
    let bytes = b"a,b\n1,2\n3,4\nlonger,record\n".to_vec();
    assert_eq!(find_max_record_size_from_sample(&bytes, 2), 4);
}

#[test]
fn header_info_reports_arity_and_end() {
    let bytes = b"a,b,c\n1,2,3\n".to_vec();
    let (end, arity) = header_info(&bytes);
    assert_eq!(end, 6);
    assert_eq!(arity, 3);
}

#[test]
fn verdict_offset_accessor() {
    assert_eq!(NextRecord::Offset(true, 5).offset(), Some(5));
    assert_eq!(NextRecord::Offset(false, 0).offset(), Some(0));
    assert_eq!(NextRecord::Start.offset(), None);
    assert_eq!(NextRecord::EndOfFile.offset(), None);
    assert_eq!(NextRecord::Fail.offset(), None);
}
