use ustar_archive::header::UStarHeader;
use ustar_archive::unpacking::{
    after_failure, archive_compression, directory_step, entry_of, extract_files, has_suffix,
    is_zero_block, next_entry, scan_archive, Action, DirectoryStep, ExtractPlan, ExtractedEntry,
    Failure, OverwritePolicy, ScanEnd, Step, Verdict,
};

fn record(name: &[u8], flag: u8, size: &[u8]) -> Vec<u8> {
    let mut r = vec![0u8; 512];
    r[..name.len()].copy_from_slice(name);
    r[100..108].copy_from_slice(b"0000640\0");
    r[124..124 + size.len()].copy_from_slice(size);
    r[156] = flag;
    r[257..263].copy_from_slice(b"ustar\0");
    r
}

fn with_link(mut r: Vec<u8>, target: &[u8]) -> Vec<u8> {
    r[157..157 + target.len()].copy_from_slice(target);
    r
}

fn with_device(mut r: Vec<u8>, major: &[u8], minor: &[u8]) -> Vec<u8> {
    r[329..329 + major.len()].copy_from_slice(major);
    r[337..337 + minor.len()].copy_from_slice(minor);
    r
}

fn made(path: &[u8], action: Action) -> ExtractedEntry {
    ExtractedEntry { path: path.to_vec(), mode: 0o640, action }
}

#[test]
fn empty_stream_is_exhausted_at_once() {
    assert_eq!(
        scan_archive(b""),
        ExtractPlan { entries: vec![], end: ScanEnd::Exhausted, consumed: 0 }
    );
}

#[test]
fn less_than_a_record_is_exhausted() {
    assert_eq!(
        scan_archive(&[1u8; 511]),
        ExtractPlan { entries: vec![], end: ScanEnd::Exhausted, consumed: 0 }
    );
}

#[test]
fn a_record_of_zeros_ends_the_reading() {
    let mut data = vec![0u8; 512];
    data.extend(record(b"after", b'5', b""));
    assert_eq!(
        scan_archive(&data),
        ExtractPlan { entries: vec![], end: ScanEnd::EndMarker, consumed: 512 }
    );
}

#[test]
fn one_record_of_zeros_is_enough() {
    let mut data = record(b"dir/", b'5', b"");
    data.extend(vec![0u8; 512]);
    let plan = scan_archive(&data);
    assert_eq!(plan.entries, vec![made(b"dir/", Action::Directory)]);
    assert_eq!(plan.end, ScanEnd::EndMarker);
    assert_eq!(plan.consumed, 1024);
}

#[test]
fn reading_stops_before_the_second_record_of_zeros() {
    let mut data = record(b"dir/", b'5', b"");
    data.extend(vec![0u8; 1024]);
    let plan = scan_archive(&data);
    assert_eq!(plan.end, ScanEnd::EndMarker);
    assert_eq!(plan.consumed, data.len() - 512);
}

#[test]
fn archive_without_end_marker_ends_quietly() {
    let mut data = record(b"dir/", b'5', b"");
    data.extend(record(b"pipe", b'6', b""));
    let plan = scan_archive(&data);
    assert_eq!(plan.entries, vec![made(b"dir/", Action::Directory), made(b"pipe", Action::Fifo)]);
    assert_eq!(plan.end, ScanEnd::Exhausted);
    assert_eq!(plan.consumed, 1024);
    data.extend(vec![5u8; 100]);
    let plan = scan_archive(&data);
    assert_eq!(plan.entries.len(), 2);
    assert_eq!(plan.end, ScanEnd::Exhausted);
    assert_eq!(plan.consumed, 1024);
}

#[test]
fn regular_file_takes_content_and_padding() {
    let mut data = record(b"a.txt", b'0', b"00000000002\0");
    data.extend(b"hi");
    data.extend(vec![0u8; 510]);
    data.extend(record(b"next", b'5', b""));
    data.extend(vec![0u8; 1024]);
    let plan = scan_archive(&data);
    assert_eq!(
        plan.entries,
        vec![
            made(b"a.txt", Action::WriteFile { content: b"hi".to_vec() }),
            made(b"next", Action::Directory),
        ]
    );
    assert_eq!(plan.end, ScanEnd::EndMarker);
    assert_eq!(plan.consumed, 4 * 512);
}

#[test]
fn regular_file_of_whole_records_has_no_padding() {
    let mut data = record(b"a", b'0', b"00000001000\0");
    data.extend(vec![b'x'; 512]);
    data.extend(record(b"b", b'0', b"00000000000\0"));
    data.extend(vec![0u8; 512]);
    let plan = scan_archive(&data);
    assert_eq!(
        plan.entries,
        vec![
            made(b"a", Action::WriteFile { content: vec![b'x'; 512] }),
            made(b"b", Action::WriteFile { content: vec![] }),
        ]
    );
    assert_eq!(plan.end, ScanEnd::EndMarker);
    assert_eq!(plan.consumed, 4 * 512);
}

#[test]
fn content_cut_short_is_truncated_without_the_file() {
    let mut data = record(b"dir/", b'5', b"");
    data.extend(record(b"a.txt", b'0', b"00000000010\0"));
    data.extend(b"1234567");
    let plan = scan_archive(&data);
    assert_eq!(plan.entries, vec![made(b"dir/", Action::Directory)]);
    assert_eq!(plan.end, ScanEnd::Truncated);
    assert_eq!(plan.consumed, 1024);
}

#[test]
fn padding_cut_short_is_truncated_with_the_file() {
    let mut data = record(b"a.txt", b'0', b"00000000010\0");
    data.extend(b"12345678");
    data.extend(vec![0u8; 503]);
    let plan = scan_archive(&data);
    assert_eq!(
        plan.entries,
        vec![made(b"a.txt", Action::WriteFile { content: b"12345678".to_vec() })]
    );
    assert_eq!(plan.end, ScanEnd::Truncated);
    assert_eq!(plan.consumed, 520);
}

#[test]
fn malformed_size_counts_as_zero() {
    let mut data = record(b"a.txt", b'0', b"12345x\0");
    data.extend(record(b"b", b'5', b""));
    let plan = scan_archive(&data);
    assert_eq!(
        plan.entries,
        vec![
            made(b"a.txt", Action::WriteFile { content: vec![] }),
            made(b"b", Action::Directory),
        ]
    );
}

#[test]
fn size_is_read_only_for_regular_files() {
    let mut data = record(b"dir/", b'5', b"00000010000\0");
    data.extend(with_link(record(b"l", b'1', b"00000000002\0"), b"a.txt"));
    data.extend(vec![0u8; 512]);
    let plan = scan_archive(&data);
    assert_eq!(
        plan.entries,
        vec![
            made(b"dir/", Action::Directory),
            made(b"l", Action::HardLink { target: b"a.txt".to_vec() }),
        ]
    );
    assert_eq!(plan.end, ScanEnd::EndMarker);
}

#[test]
fn each_type_flag_has_its_action() {
    let header = |r: Vec<u8>| UStarHeader::from_bytes(&r);
    assert_eq!(
        entry_of(&header(record(b"f", b'0', b"")), b"data".to_vec()),
        made(b"f", Action::WriteFile { content: b"data".to_vec() })
    );
    assert_eq!(
        entry_of(&header(with_link(record(b"h", b'1', b""), b"f")), vec![]),
        made(b"h", Action::HardLink { target: b"f".to_vec() })
    );
    assert_eq!(
        entry_of(&header(with_link(record(b"s", b'2', b""), b"../f")), vec![]),
        made(b"s", Action::Symlink { target: b"../f".to_vec() })
    );
    assert_eq!(
        entry_of(&header(with_device(record(b"c", b'3', b""), b"0000004\0", b"0000001\0")), vec![]),
        made(b"c", Action::CharDevice { device: 0x401 })
    );
    assert_eq!(
        entry_of(&header(with_device(record(b"b", b'4', b""), b"0000010\0", b"0000020\0")), vec![]),
        made(b"b", Action::BlockDevice { device: 0x810 })
    );
    assert_eq!(entry_of(&header(record(b"d/", b'5', b"")), vec![]), made(b"d/", Action::Directory));
    assert_eq!(entry_of(&header(record(b"p", b'6', b"")), vec![]), made(b"p", Action::Fifo));
}

#[test]
fn unknown_type_flag_is_passed_over() {
    let mut data = record(b"odd", b'7', b"00000000100\0");
    data.extend(record(b"nul", 0, b""));
    data.extend(record(b"x", b'x', b""));
    data.extend(record(b"d/", b'5', b""));
    data.extend(vec![0u8; 1024]);
    let plan = scan_archive(&data);
    assert_eq!(
        plan.entries,
        vec![
            made(b"odd", Action::Unknown { flag: b'7' }),
            made(b"nul", Action::Unknown { flag: 0 }),
            made(b"x", Action::Unknown { flag: b'x' }),
            made(b"d/", Action::Directory),
        ]
    );
    assert_eq!(plan.end, ScanEnd::EndMarker);
}

#[test]
fn next_entry_reads_from_the_offset() {
    let mut data = vec![9u8; 7];
    data.extend(record(b"a.txt", b'0', b"00000000003\0"));
    data.extend(b"abc");
    data.extend(vec![0u8; 509]);
    data.extend(vec![0u8; 512]);
    assert_eq!(
        next_entry(&data, 7),
        Step::Next {
            entry: made(b"a.txt", Action::WriteFile { content: b"abc".to_vec() }),
            taken: 1024
        }
    );
    assert_eq!(next_entry(&data, 7 + 1024), Step::Stop { end: ScanEnd::EndMarker, taken: 512 });
    assert_eq!(next_entry(&data, 7 + 1536), Step::Stop { end: ScanEnd::Exhausted, taken: 0 });
    assert_eq!(next_entry(&data, data.len()), Step::Stop { end: ScanEnd::Exhausted, taken: 0 });
}

#[test]
fn next_entry_tells_where_the_stream_is_cut() {
    let mut data = record(b"a.txt", b'0', b"00000000003\0");
    data.extend(b"ab");
    assert_eq!(next_entry(&data, 0), Step::Stop { end: ScanEnd::Truncated, taken: 512 });
    data.extend(b"c");
    assert_eq!(
        next_entry(&data, 0),
        Step::Last {
            entry: made(b"a.txt", Action::WriteFile { content: b"abc".to_vec() }),
            taken: 515
        }
    );
}

#[test]
fn is_zero_block_wants_every_byte_zero() {
    assert!(is_zero_block(&[0u8; 512]));
    assert!(is_zero_block(b""));
    let mut block = [0u8; 512];
    block[511] = 1;
    assert!(!is_zero_block(&block));
}

#[test]
fn extract_files_plain_reads_the_bytes_as_they_are() {
    let mut data = record(b"d/", b'5', b"");
    data.extend(vec![0u8; 1024]);
    assert_eq!(extract_files(&data, false), scan_archive(&data));
    assert_eq!(extract_files(&data, false).entries, vec![made(b"d/", Action::Directory)]);
}

#[test]
fn extract_files_compressed_of_what_is_no_gzip_reads_nothing() {
    let mut data = record(b"d/", b'5', b"");
    data.extend(vec![0u8; 1024]);
    assert_eq!(
        extract_files(&data, true),
        ExtractPlan { entries: vec![], end: ScanEnd::Exhausted, consumed: 0 }
    );
}

#[test]
fn directory_that_does_not_exist_is_created() {
    for policy in [OverwritePolicy::Overwrite, OverwritePolicy::Skip, OverwritePolicy::Fail] {
        assert_eq!(directory_step(false, policy), DirectoryStep::Create);
    }
}

#[test]
fn directory_that_exists_follows_the_policy() {
    assert_eq!(directory_step(true, OverwritePolicy::Overwrite), DirectoryStep::Replace);
    assert_eq!(directory_step(true, OverwritePolicy::Skip), DirectoryStep::Keep);
    assert_eq!(directory_step(true, OverwritePolicy::Fail), DirectoryStep::Refuse);
}

#[test]
fn device_node_failure_never_stops_the_extraction() {
    for failure in [Failure::Denied, Failure::Other] {
        assert_eq!(after_failure(&Action::CharDevice { device: 1 }, failure), Verdict::Continue);
        assert_eq!(after_failure(&Action::BlockDevice { device: 1 }, failure), Verdict::Continue);
        assert_eq!(after_failure(&Action::Unknown { flag: 9 }, failure), Verdict::Continue);
    }
}

#[test]
fn fifo_failure_stops_unless_privilege_is_lacking() {
    assert_eq!(after_failure(&Action::Fifo, Failure::Denied), Verdict::Continue);
    assert_eq!(after_failure(&Action::Fifo, Failure::Other), Verdict::Abort);
}

#[test]
fn other_failures_stop_the_extraction() {
    for failure in [Failure::Denied, Failure::Other] {
        assert_eq!(after_failure(&Action::WriteFile { content: vec![] }, failure), Verdict::Abort);
        assert_eq!(after_failure(&Action::HardLink { target: vec![] }, failure), Verdict::Abort);
        assert_eq!(after_failure(&Action::Symlink { target: vec![] }, failure), Verdict::Abort);
        assert_eq!(after_failure(&Action::Directory, failure), Verdict::Abort);
    }
}

#[test]
fn archive_compression_goes_by_the_suffix() {
    assert_eq!(archive_compression(b"archive.tar"), Some(false));
    assert_eq!(archive_compression(b"archive.tar.gz"), Some(true));
    assert_eq!(archive_compression(b".tar"), Some(false));
    assert_eq!(archive_compression(b"archive.gz"), None);
    assert_eq!(archive_compression(b"archive.tar.gz.bak"), None);
    assert_eq!(archive_compression(b"tar"), None);
    assert_eq!(archive_compression(b""), None);
}

#[test]
fn has_suffix_compares_the_end() {
    assert!(has_suffix(b"abc", b"bc"));
    assert!(has_suffix(b"abc", b""));
    assert!(has_suffix(b"abc", b"abc"));
    assert!(!has_suffix(b"abc", b"xabc"));
    assert!(!has_suffix(b"abc", b"ab"));
}
