use ustar_archive::entry::{has_no_nul, FileKind, FsEntry, InodeMap, Metadata};
use ustar_archive::header::{calculate_checksum, UStarHeader};
use ustar_archive::packing::{
    add_to_archive, archive_file_name, build_archive, create_archive, create_header, package,
    HeaderField, PackError,
};

fn meta(kind: FileKind) -> Metadata {
    Metadata {
        kind,
        mode: 0o100644,
        uid: 1000,
        gid: 1000,
        size: 0,
        mtime: 1_700_000_000,
        device: 1,
        inode: 10,
        rdev: 0,
    }
}

fn entry(name: &[u8], kind: FileKind) -> FsEntry {
    FsEntry {
        name: name.to_vec(),
        meta: meta(kind),
        owner: b"alice".to_vec(),
        group: b"users".to_vec(),
        link_target: Vec::new(),
        content: Vec::new(),
        children: Vec::new(),
    }
}

fn file(name: &[u8], inode: u64, content: &[u8]) -> FsEntry {
    let mut e = entry(name, FileKind::Regular);
    e.meta.inode = inode;
    e.meta.size = content.len() as u64;
    e.content = content.to_vec();
    e
}

fn field(text: &[u8], width: usize) -> Vec<u8> {
    let mut out = text.to_vec();
    out.resize(width, 0);
    out
}

fn header_of(e: &FsEntry) -> UStarHeader {
    create_header(e, &InodeMap::new()).unwrap()
}

fn error_of(e: &FsEntry) -> PackError {
    create_header(e, &InodeMap::new()).unwrap_err()
}

#[test]
fn header_of_a_regular_file_byte_for_byte() {
    let e = file(b"root/a.txt", 10, b"hi");
    let mut expected = Vec::new();
    expected.extend(field(b"root/a.txt", 100));
    expected.extend(field(b"0000644\0", 8));
    expected.extend(field(b"0001750\0", 8));
    expected.extend(field(b"0001750\0", 8));
    expected.extend(field(b"00000000002\0", 12));
    expected.extend(field(b"14524770400\0", 12));
    expected.extend(field(b"012055\0 ", 8));
    expected.extend(field(b"0", 1));
    expected.extend(field(b"", 100));
    expected.extend(field(b"ustar\0", 6));
    expected.extend(field(b"00", 2));
    expected.extend(field(b"alice", 32));
    expected.extend(field(b"users", 32));
    expected.extend(field(b"", 8));
    expected.extend(field(b"", 8));
    expected.extend(field(b"", 155));
    expected.extend(field(b"", 12));
    assert_eq!(expected.len(), 512);
    assert_eq!(header_of(&e).as_bytes(), expected);
}

#[test]
fn header_of_a_device_node_byte_for_byte() {
    let mut e = entry(b"dev/tty", FileKind::CharDevice);
    e.meta.mode = 0o020620;
    e.meta.uid = 0;
    e.meta.gid = 5;
    e.meta.mtime = 0;
    e.meta.size = 77;
    e.meta.rdev = 0x0405;
    e.owner = Vec::new();
    e.group = Vec::new();
    let bytes = header_of(&e).as_bytes();
    assert_eq!(&bytes[100..108], b"0000620\0");
    assert_eq!(&bytes[124..136], b"00000000000\0");
    assert_eq!(&bytes[136..148], b"0\0\0\0\0\0\0\0\0\0\0\0");
    assert_eq!(&bytes[148..156], b"007567\0 ");
    assert_eq!(bytes[156], b'3');
    assert_eq!(&bytes[329..337], b"0000004\0");
    assert_eq!(&bytes[337..345], b"0000005\0");
}

#[test]
fn every_header_is_512_bytes() {
    for kind in [
        FileKind::Regular,
        FileKind::Symlink,
        FileKind::CharDevice,
        FileKind::BlockDevice,
        FileKind::Directory,
        FileKind::Fifo,
    ] {
        assert_eq!(header_of(&entry(b"x", kind)).as_bytes().len(), 512);
    }
}

#[test]
fn type_flag_follows_the_kind() {
    let flag = |kind| header_of(&entry(b"x", kind)).kind_flag();
    assert_eq!(flag(FileKind::Regular), b'0');
    assert_eq!(flag(FileKind::Symlink), b'2');
    assert_eq!(flag(FileKind::CharDevice), b'3');
    assert_eq!(flag(FileKind::BlockDevice), b'4');
    assert_eq!(flag(FileKind::Directory), b'5');
    assert_eq!(flag(FileKind::Fifo), b'6');
}

#[test]
fn a_socket_is_unsupported() {
    assert_eq!(error_of(&entry(b"sock", FileKind::Other)), PackError::UnsupportedFileType);
}

#[test]
fn a_directory_name_gets_a_slash() {
    let h = header_of(&entry(b"root/sub", FileKind::Directory));
    assert_eq!(h.file_name(), b"root/sub/".to_vec());
    let h = header_of(&entry(b"root/sub", FileKind::Regular));
    assert_eq!(h.file_name(), b"root/sub".to_vec());
}

#[test]
fn mode_keeps_only_permission_bits() {
    let mut e = entry(b"x", FileKind::Regular);
    e.meta.mode = 0o104755;
    assert_eq!(&header_of(&e).as_bytes()[100..108], b"0000755\0");
    assert_eq!(header_of(&e).get_mode(), 0o755);
}

#[test]
fn size_is_recorded_for_files_and_directories_only() {
    for (kind, expected) in [
        (FileKind::Regular, 4096usize),
        (FileKind::Directory, 4096),
        (FileKind::Symlink, 0),
        (FileKind::CharDevice, 0),
        (FileKind::BlockDevice, 0),
        (FileKind::Fifo, 0),
    ] {
        let mut e = entry(b"x", kind);
        e.meta.size = 4096;
        assert_eq!(header_of(&e).file_size(), expected);
    }
}

#[test]
fn symlink_header_holds_the_target() {
    let mut e = entry(b"root/link", FileKind::Symlink);
    e.link_target = b"a.txt".to_vec();
    let h = header_of(&e);
    assert_eq!(h.kind_flag(), b'2');
    assert_eq!(h.link_target(), b"a.txt".to_vec());
}

#[test]
fn link_target_is_ignored_for_other_kinds() {
    let mut e = entry(b"root/file", FileKind::Regular);
    e.link_target = b"elsewhere".to_vec();
    assert_eq!(header_of(&e).link_target(), Vec::<u8>::new());
}

#[test]
fn device_numbers_split_at_the_low_byte() {
    let mut e = entry(b"dev/sda", FileKind::BlockDevice);
    e.meta.rdev = 0x0801;
    let h = header_of(&e);
    assert_eq!(h.kind_flag(), b'4');
    assert_eq!(&h.device_major[..], b"0000010\0");
    assert_eq!(&h.device_minor[..], b"0000001\0");
    assert_eq!(h.device(), 0x0801);
    e.meta.rdev = 0x1234ff;
    let h = header_of(&e);
    assert_eq!(&h.device_major[..], b"0011064\0");
    assert_eq!(&h.device_minor[..], b"0000377\0");
    assert_eq!(h.device(), 0x1234ff);
}

#[test]
fn a_file_seen_before_becomes_a_hard_link() {
    let mut map = InodeMap::new();
    map.insert(1, 10, b"root/a.txt".to_vec());
    let e = file(b"root/b.txt", 10, b"hi");
    let h = create_header(&e, &map).unwrap();
    assert_eq!(h.kind_flag(), b'1');
    assert_eq!(h.link_target(), b"root/a.txt".to_vec());
    assert_eq!(h.file_size(), 2);
}

#[test]
fn hard_links_are_told_by_device_and_inode_together() {
    let mut map = InodeMap::new();
    map.insert(2, 10, b"other/disk".to_vec());
    let e = file(b"root/b.txt", 10, b"hi");
    assert_eq!(create_header(&e, &map).unwrap().kind_flag(), b'0');
    assert!(!map.contains(1, 10));
    assert!(map.contains(2, 10));
    assert_eq!(map.get(2, 10), Some(&b"other/disk".to_vec()));
    assert_eq!(map.get(10, 2), None);
}

#[test]
fn hard_link_comes_before_every_kind() {
    let mut map = InodeMap::new();
    map.insert(1, 10, b"first".to_vec());
    for kind in [FileKind::Directory, FileKind::Symlink, FileKind::Other, FileKind::Fifo] {
        let h = create_header(&entry(b"x", kind), &map).unwrap();
        assert_eq!(h.kind_flag(), b'1');
        assert_eq!(h.link_target(), b"first".to_vec());
    }
}

#[test]
fn long_name_is_split_before_its_last_hundred_bytes() {
    let mut name = vec![b'p'; 50];
    name.extend(vec![b'n'; 100]);
    let h = header_of(&entry(&name, FileKind::Regular));
    assert_eq!(&h.name[..], &[b'n'; 100][..]);
    assert_eq!(&h.prefix[..50], &[b'p'; 50][..]);
    assert!(h.prefix[50..].iter().all(|b| *b == 0));
    let mut decoded = vec![b'p'; 50];
    decoded.push(b'/');
    decoded.extend(vec![b'n'; 100]);
    assert_eq!(h.file_name(), decoded);
}

#[test]
fn name_of_a_hundred_bytes_is_not_split() {
    let name = vec![b'a'; 100];
    let h = header_of(&entry(&name, FileKind::Regular));
    assert_eq!(h.file_name(), name);
    assert!(h.prefix.iter().all(|b| *b == 0));
    let h = header_of(&entry(&name, FileKind::Directory));
    assert_eq!(&h.prefix[..1], b"a");
    assert_eq!(&h.name[..99], &[b'a'; 99][..]);
    assert_eq!(h.name[99], b'/');
}

#[test]
fn name_overflows_past_255_bytes() {
    assert!(create_header(&entry(&[b'a'; 255], FileKind::Regular), &InodeMap::new()).is_ok());
    assert_eq!(
        error_of(&entry(&[b'a'; 256], FileKind::Regular)),
        PackError::FieldOverflow(HeaderField::Name)
    );
    assert_eq!(
        error_of(&entry(&[b'a'; 255], FileKind::Directory)),
        PackError::FieldOverflow(HeaderField::Name)
    );
}

#[test]
fn name_overflow_is_found_before_the_kind() {
    assert_eq!(
        error_of(&entry(&[b'a'; 300], FileKind::Other)),
        PackError::FieldOverflow(HeaderField::Name)
    );
}

#[test]
fn link_name_overflows_past_100_bytes() {
    let mut e = entry(b"l", FileKind::Symlink);
    e.link_target = vec![b't'; 100];
    assert!(create_header(&e, &InodeMap::new()).is_ok());
    e.link_target = vec![b't'; 101];
    assert_eq!(error_of(&e), PackError::FieldOverflow(HeaderField::LinkName));
    let mut map = InodeMap::new();
    map.insert(1, 10, vec![b'f'; 101]);
    assert_eq!(
        create_header(&file(b"b", 10, b""), &map).unwrap_err(),
        PackError::FieldOverflow(HeaderField::LinkName)
    );
}

#[test]
fn device_major_overflows_past_seven_digits() {
    let mut e = entry(b"d", FileKind::CharDevice);
    e.meta.rdev = (0o7777777 << 8) | 0xff;
    assert!(create_header(&e, &InodeMap::new()).is_ok());
    e.meta.rdev = 0o10000000 << 8;
    assert_eq!(error_of(&e), PackError::FieldOverflow(HeaderField::DeviceMajor));
    e.meta.kind = FileKind::Regular;
    assert!(create_header(&e, &InodeMap::new()).is_ok());
}

#[test]
fn ids_overflow_past_seven_digits() {
    let mut e = entry(b"x", FileKind::Regular);
    e.meta.uid = 0o7777777;
    e.meta.gid = 0o7777777;
    assert!(create_header(&e, &InodeMap::new()).is_ok());
    e.meta.gid = 0o10000000;
    assert_eq!(error_of(&e), PackError::FieldOverflow(HeaderField::Gid));
    e.meta.uid = 0o10000000;
    assert_eq!(error_of(&e), PackError::FieldOverflow(HeaderField::Uid));
}

#[test]
fn owner_names_overflow_past_32_bytes() {
    let mut e = entry(b"x", FileKind::Regular);
    e.owner = vec![b'o'; 32];
    e.group = vec![b'g'; 32];
    let h = header_of(&e);
    assert_eq!(&h.user_name[..], &[b'o'; 32][..]);
    assert_eq!(&h.group_name[..], &[b'g'; 32][..]);
    e.group = vec![b'g'; 33];
    assert_eq!(error_of(&e), PackError::FieldOverflow(HeaderField::GroupName));
    e.owner = vec![b'o'; 33];
    assert_eq!(error_of(&e), PackError::FieldOverflow(HeaderField::UserName));
}

#[test]
fn size_overflows_past_eleven_digits() {
    let mut e = entry(b"x", FileKind::Regular);
    e.meta.size = 0o77777777777;
    assert_eq!(&header_of(&e).size[..], b"77777777777\0");
    e.meta.size = 0o100000000000;
    assert_eq!(error_of(&e), PackError::FieldOverflow(HeaderField::Size));
    e.meta.kind = FileKind::Fifo;
    assert!(create_header(&e, &InodeMap::new()).is_ok());
}

#[test]
fn modification_time_overflows_when_negative_or_past_eleven_digits() {
    let mut e = entry(b"x", FileKind::Regular);
    e.meta.mtime = 0o77777777777;
    assert_eq!(&header_of(&e).modification_time[..], b"77777777777\0");
    e.meta.mtime = 0o100000000000;
    assert_eq!(error_of(&e), PackError::FieldOverflow(HeaderField::ModificationTime));
    e.meta.mtime = -1;
    assert_eq!(error_of(&e), PackError::FieldOverflow(HeaderField::ModificationTime));
}

#[test]
fn unsupported_kind_is_found_before_the_numbers() {
    let mut e = entry(b"x", FileKind::Other);
    e.meta.uid = u32::MAX;
    assert_eq!(error_of(&e), PackError::UnsupportedFileType);
}

#[test]
fn stored_checksum_is_the_checksum_of_the_header() {
    let mut e = entry(b"root/some/file", FileKind::Symlink);
    e.link_target = b"../target".to_vec();
    let h = header_of(&e);
    let sum = calculate_checksum(&h);
    assert_eq!(h.stored_checksum(), Some(sum));
    let mut blanked = h.as_bytes();
    for b in &mut blanked[148..156] {
        *b = b' ';
    }
    assert_eq!(sum, blanked.iter().map(|b| *b as u32).sum::<u32>());
    let read_back = UStarHeader::from_bytes(&h.as_bytes());
    assert_eq!(read_back.stored_checksum(), Some(calculate_checksum(&read_back)));
}

#[test]
fn add_to_archive_pads_content_to_a_record() {
    let mut buffer = Vec::new();
    let mut map = InodeMap::new();
    add_to_archive(&file(b"a.txt", 10, b"hi"), &mut buffer, &mut map).unwrap();
    assert_eq!(buffer.len(), 1024);
    assert_eq!(&buffer[512..514], b"hi");
    assert!(buffer[514..].iter().all(|b| *b == 0));
    assert_eq!(map.get(1, 10), Some(&b"a.txt".to_vec()));
}

#[test]
fn add_to_archive_adds_no_padding_to_whole_records() {
    for (len, total) in [(0usize, 512usize), (1, 1024), (511, 1024), (512, 1024), (513, 1536)] {
        let mut buffer = vec![9u8; 3];
        let mut map = InodeMap::new();
        add_to_archive(&file(b"f", 10, &vec![b'c'; len]), &mut buffer, &mut map).unwrap();
        assert_eq!(buffer.len(), 3 + total);
        assert_eq!(&buffer[..3], &[9u8; 3]);
        assert!(buffer[3 + 512..3 + 512 + len].iter().all(|b| *b == b'c'));
        assert!(buffer[3 + 512 + len..].iter().all(|b| *b == 0));
    }
}

#[test]
fn add_to_archive_stores_only_headers_for_other_kinds() {
    for kind in [FileKind::Symlink, FileKind::Fifo, FileKind::CharDevice, FileKind::Directory] {
        let mut e = entry(b"x", kind);
        e.content = b"ignored".to_vec();
        let mut buffer = Vec::new();
        let mut map = InodeMap::new();
        add_to_archive(&e, &mut buffer, &mut map).unwrap();
        assert_eq!(buffer.len(), 512);
        assert!(!map.contains(1, 10));
    }
}

#[test]
fn add_to_archive_walks_a_directory_in_order() {
    let mut root = entry(b"root", FileKind::Directory);
    root.meta.inode = 1;
    let mut sub = entry(b"root/sub", FileKind::Directory);
    sub.meta.inode = 2;
    sub.children.push(file(b"root/sub/b.txt", 3, b"bee"));
    root.children.push(file(b"root/a.txt", 4, b"hi"));
    root.children.push(sub);
    root.children.push(file(b"root/z.txt", 5, b""));
    let mut buffer = Vec::new();
    let mut map = InodeMap::new();
    add_to_archive(&root, &mut buffer, &mut map).unwrap();
    assert_eq!(buffer.len(), 7 * 512);
    let name = |i: usize| UStarHeader::from_bytes(&buffer[i * 512..]).file_name();
    assert_eq!(name(0), b"root/".to_vec());
    assert_eq!(name(1), b"root/a.txt".to_vec());
    assert_eq!(name(3), b"root/sub/".to_vec());
    assert_eq!(name(4), b"root/sub/b.txt".to_vec());
    assert_eq!(name(6), b"root/z.txt".to_vec());
}

#[test]
fn add_to_archive_ignores_children_of_what_is_no_directory() {
    let mut e = file(b"a", 10, b"");
    e.children.push(file(b"a/b", 11, b""));
    let mut buffer = Vec::new();
    add_to_archive(&e, &mut buffer, &mut InodeMap::new()).unwrap();
    assert_eq!(buffer.len(), 512);
}

#[test]
fn add_to_archive_stops_at_the_first_error() {
    let mut root = entry(b"root", FileKind::Directory);
    root.meta.inode = 1;
    root.children.push(file(b"root/a.txt", 4, b"hi"));
    root.children.push(entry(b"root/sock", FileKind::Other));
    root.children.push(entry(&[b'x'; 300], FileKind::Regular));
    let mut buffer = vec![1u8, 2, 3];
    let mut map = InodeMap::new();
    let result = add_to_archive(&root, &mut buffer, &mut map);
    assert_eq!(result, Err(PackError::UnsupportedFileType));
    assert_eq!(&buffer[..3], &[1u8, 2, 3]);
    assert_eq!(buffer.len(), 3 + 512 + 1024);
    assert_eq!(UStarHeader::from_bytes(&buffer[3 + 512..]).file_name(), b"root/a.txt".to_vec());
    assert_eq!(map.get(1, 4), Some(&b"root/a.txt".to_vec()));
    assert_eq!(build_archive(&root), Err(PackError::UnsupportedFileType));
}

#[test]
fn archive_ends_with_two_records_of_zeros() {
    let bytes = build_archive(&file(b"a.txt", 10, b"hi")).unwrap();
    assert_eq!(bytes.len(), 2048);
    assert_eq!(bytes.len() % 512, 0);
    assert!(bytes[bytes.len() - 1024..].iter().all(|b| *b == 0));
    assert!(!bytes[..512].iter().all(|b| *b == 0));
}

#[test]
fn archive_file_name_appends_the_suffix() {
    assert_eq!(archive_file_name(b"archive", false), b"archive.tar".to_vec());
    assert_eq!(archive_file_name(b"archive", true), b"archive.tar.gz".to_vec());
    assert_eq!(archive_file_name(b"", false), b".tar".to_vec());
}

#[test]
fn create_archive_plain_holds_the_archive() {
    let root = file(b"a.txt", 10, b"hi");
    let out = create_archive(&root, b"backup", false).unwrap();
    assert_eq!(out.file_name, b"backup.tar".to_vec());
    assert_eq!(out.bytes, build_archive(&root).unwrap());
}

#[test]
fn create_archive_compressed_holds_a_gzip_stream() {
    let root = file(b"a.txt", 10, &vec![b'a'; 5000]);
    let plain = build_archive(&root).unwrap();
    let out = create_archive(&root, b"backup", true).unwrap();
    assert_eq!(out.file_name, b"backup.tar.gz".to_vec());
    assert_eq!(&out.bytes[..3], &[0x1f, 0x8b, 8]);
    assert_ne!(out.bytes, plain);
    assert!(out.bytes.len() < plain.len());
}

#[test]
fn package_names_the_file_and_keeps_the_payload() {
    let file = package(b"backup", true, Some(vec![1, 2, 3])).unwrap();
    assert_eq!(file.file_name, b"backup.tar.gz".to_vec());
    assert_eq!(file.bytes, vec![1, 2, 3]);
    let file = package(b"backup", false, Some(vec![])).unwrap();
    assert_eq!(file.file_name, b"backup.tar".to_vec());
    assert_eq!(file.bytes, Vec::<u8>::new());
}

#[test]
fn package_without_payload_is_a_failed_compression() {
    assert_eq!(package(b"backup", true, None), Err(PackError::Compression));
    assert_eq!(package(b"backup", false, None), Err(PackError::Compression));
}

#[test]
fn create_archive_reports_the_first_error() {
    let root = entry(b"sock", FileKind::Other);
    assert_eq!(create_archive(&root, b"x", true), Err(PackError::UnsupportedFileType));
    assert_eq!(create_archive(&root, b"x", false), Err(PackError::UnsupportedFileType));
}

#[test]
fn well_formed_entries_have_clean_paths_and_whole_content() {
    let mut e = file(b"a.txt", 10, b"hi");
    assert!(e.is_well_formed());
    e.meta.size = 3;
    assert!(!e.is_well_formed());
    e.meta.kind = FileKind::Fifo;
    assert!(e.is_well_formed());
    e.name = b"a\0b".to_vec();
    assert!(!e.is_well_formed());
    e.name = b"ab".to_vec();
    e.link_target = b"\0".to_vec();
    assert!(!e.is_well_formed());
    assert!(has_no_nul(b"abc"));
    assert!(!has_no_nul(b"ab\0"));
}
