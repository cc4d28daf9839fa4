use ustar_archive::accounts::{find_byte, lookup_name};

const PASSWD: &[u8] = b"root:x:0:0:root:/root:/bin/bash\n\
daemon:x:1:1:daemon:/usr/sbin:/usr/sbin/nologin\n\
alice:x:1000:1000:Alice,,,:/home/alice:/bin/zsh\n";

#[test]
fn lookup_finds_the_name_of_an_id() {
    assert_eq!(lookup_name(PASSWD, 0), Some(b"root".to_vec()));
    assert_eq!(lookup_name(PASSWD, 1), Some(b"daemon".to_vec()));
    assert_eq!(lookup_name(PASSWD, 1000), Some(b"alice".to_vec()));
}

#[test]
fn lookup_gives_an_empty_name_on_a_miss() {
    assert_eq!(lookup_name(PASSWD, 2), Some(Vec::new()));
    assert_eq!(lookup_name(b"", 0), Some(Vec::new()));
}

#[test]
fn lookup_takes_the_last_line_with_the_id() {
    assert_eq!(lookup_name(b"a:x:5\nb:x:5\nc:x:6\n", 5), Some(b"b".to_vec()));
}

#[test]
fn lookup_passes_over_lines_of_fewer_than_three_fields() {
    assert_eq!(lookup_name(b"\n# note\nhalf:x\na:x:5\n\n", 5), Some(b"a".to_vec()));
    assert_eq!(lookup_name(b"5\n5:5\n", 5), Some(Vec::new()));
}

#[test]
fn lookup_gives_no_answer_for_a_malformed_id() {
    assert_eq!(lookup_name(b"a:x:5\nb:x:five\n", 5), None);
    assert_eq!(lookup_name(b"b:x:\na:x:5\n", 5), None);
    assert_eq!(lookup_name(b"a:x:-1:0\n", 5), None);
    assert_eq!(lookup_name(b"a:x:4294967296:0\n", 5), None);
    assert_eq!(lookup_name(b"a:x: 5:0\n", 5), None);
}

#[test]
fn lookup_reads_ids_as_decimal_numbers() {
    assert_eq!(lookup_name(b"a:x:+5:0\n", 5), Some(b"a".to_vec()));
    assert_eq!(lookup_name(b"a:x:005:0\n", 5), Some(b"a".to_vec()));
    assert_eq!(lookup_name(b"a:x:4294967295\n", u32::MAX), Some(b"a".to_vec()));
    assert_eq!(lookup_name(b"a:x:8:0\nb:x:9:0\n", 9), Some(b"b".to_vec()));
}

#[test]
fn lookup_ends_lines_at_line_feed_with_or_without_carriage_return() {
    assert_eq!(lookup_name(b"a:x:5\r\nb:x:6\r\n", 5), Some(b"a".to_vec()));
    assert_eq!(lookup_name(b"a:x:5\r\nb:x:6\r\n", 6), Some(b"b".to_vec()));
    assert_eq!(lookup_name(b"a:x:5", 5), Some(b"a".to_vec()));
    assert_eq!(lookup_name(b"a:x:5\r", 5), None);
    assert_eq!(lookup_name(b"a:x:5\r\r\n", 5), None);
}

#[test]
fn lookup_may_find_an_empty_name() {
    assert_eq!(lookup_name(b"a:x:5\n:x:5\n", 5), Some(Vec::new()));
}

#[test]
fn find_byte_gives_the_first_place_or_the_length() {
    assert_eq!(find_byte(b"a:b:c", 0, b':'), 1);
    assert_eq!(find_byte(b"a:b:c", 1, b':'), 1);
    assert_eq!(find_byte(b"a:b:c", 2, b':'), 3);
    assert_eq!(find_byte(b"a:b:c", 4, b':'), 5);
    assert_eq!(find_byte(b"a:b:c", 5, b':'), 5);
    assert_eq!(find_byte(b"", 0, b':'), 0);
}
