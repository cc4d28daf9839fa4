//! Building an archive: the header of one entry, the records of a tree, and
//! the finished archive.
use crate::entry::{FileKind, FsEntry, InodeMap};
use crate::gzip::{gzip, gzip_stream};
use crate::header::{
    all_zero, blank_checksum, calculate_checksum, lemma_header_fields, record_checksum_sum, zeros,
    UStarHeader, SLASH,
};
use crate::numtext::{
    format_octal, lemma_octal_digits_len, lemma_octal_text, lemma_pow8_values, octal_digits,
    octal_text,
};
use crate::roundtrip::{lemma_archive_shape, lemma_records_aligned};
use vstd::prelude::*;
use vstd::slice::slice_subrange;

verus! {

/// A field of the header that holds a value of limited size.
#[derive(Clone, Copy, Debug, PartialEq, Eq, Structural)]
pub enum HeaderField {
    Name,
    LinkName,
    DeviceMajor,
    Uid,
    Gid,
    UserName,
    GroupName,
    Size,
    ModificationTime,
}

/// Why an archive could not be built.
#[derive(Clone, Copy, Debug, PartialEq, Eq, Structural)]
pub enum PackError {
    /// The entry is of a kind that a header cannot describe.
    UnsupportedFileType,
    /// A value of the entry does not fit the field that is to hold it.
    FieldOverflow(HeaderField),
    /// The archive could not be compressed.
    Compression,
}

/// `text`, then NUL bytes up to `width` bytes.
pub open spec fn padded(text: Seq<u8>, width: nat) -> Seq<u8> {
    text + zeros((width - text.len()) as nat)
}

/// `n` in octal of at least `width` digits, then a NUL.
pub open spec fn number_text(n: nat, width: nat) -> Seq<u8> {
    octal_text(n, width).push(0u8)
}

/// The name under which the archive holds an entry: its path, for a
/// directory with a slash at the end.
pub open spec fn archive_name(entry: FsEntry) -> Seq<u8> {
    if entry.meta.kind == FileKind::Directory {
        entry.name@.push(47u8)
    } else {
        entry.name@
    }
}

/// The part of a name that goes to the name field: the whole name, or its
/// last 100 bytes.
pub open spec fn name_part(full: Seq<u8>) -> Seq<u8> {
    if full.len() > 100 {
        full.skip(full.len() - 100)
    } else {
        full
    }
}

/// The part of a name that goes to the prefix field: what stands before its
/// last 100 bytes.
pub open spec fn prefix_part(full: Seq<u8>) -> Seq<u8> {
    if full.len() > 100 {
        full.take(full.len() - 100)
    } else {
        Seq::empty()
    }
}

/// The file of this entry was archived before, under another path.
pub open spec fn is_hard_link(entry: FsEntry, seen: Map<(u64, u64), Seq<u8>>) -> bool {
    seen.contains_key((entry.meta.device, entry.meta.inode))
}

/// The type flag of an entry: `'1'` for a file archived before, else by
/// kind `'0'` to `'6'` (NUL for a kind that has none).
pub open spec fn type_flag(entry: FsEntry, seen: Map<(u64, u64), Seq<u8>>) -> u8 {
    if is_hard_link(entry, seen) {
        49
    } else {
        match entry.meta.kind {
            FileKind::Regular => 48,
            FileKind::Symlink => 50,
            FileKind::CharDevice => 51,
            FileKind::BlockDevice => 52,
            FileKind::Directory => 53,
            FileKind::Fifo => 54,
            FileKind::Other => 0,
        }
    }
}

/// What the link name field holds: for a hard link the path archived first,
/// for a symbolic link its target, else nothing.
pub open spec fn link_text(entry: FsEntry, seen: Map<(u64, u64), Seq<u8>>) -> Seq<u8> {
    if is_hard_link(entry, seen) {
        seen[(entry.meta.device, entry.meta.inode)]
    } else if entry.meta.kind == FileKind::Symlink {
        entry.link_target@
    } else {
        Seq::empty()
    }
}

/// The entry is archived as a device node.
pub open spec fn is_device(entry: FsEntry, seen: Map<(u64, u64), Seq<u8>>) -> bool {
    !is_hard_link(entry, seen) && (entry.meta.kind == FileKind::CharDevice || entry.meta.kind
        == FileKind::BlockDevice)
}

/// Major part of a raw device number.
pub open spec fn major_of(rdev: u64) -> u64 {
    rdev >> 8
}

/// Minor part of a raw device number: its low byte.
pub open spec fn minor_of(rdev: u64) -> u64 {
    rdev & 0xff
}

/// What the device major field holds.
pub open spec fn device_major_text(entry: FsEntry, seen: Map<(u64, u64), Seq<u8>>) -> Seq<u8> {
    if is_device(entry, seen) {
        number_text(major_of(entry.meta.rdev) as nat, 7)
    } else {
        Seq::empty()
    }
}

/// What the device minor field holds.
pub open spec fn device_minor_text(entry: FsEntry, seen: Map<(u64, u64), Seq<u8>>) -> Seq<u8> {
    if is_device(entry, seen) {
        number_text(minor_of(entry.meta.rdev) as nat, 7)
    } else {
        Seq::empty()
    }
}

/// The size that the header states: the file's length for a regular file
/// or a directory, zero for every other kind.
pub open spec fn recorded_size(entry: FsEntry) -> u64 {
    if entry.meta.kind == FileKind::Regular || entry.meta.kind == FileKind::Directory {
        entry.meta.size
    } else {
        0
    }
}

/// What the modification time field holds: the time in octal without
/// padding, then a NUL.
pub open spec fn mtime_text(mtime: i64) -> Seq<u8> {
    octal_digits(mtime as nat).push(0u8)
}

/// The permission bits of a file mode.
pub open spec fn permissions_of(mode: u32) -> u32 {
    mode & 0o777
}

/// The first reason, in the order of the fields' filling, for which an entry
/// has no header; `None` where it has one.
pub open spec fn header_error(entry: FsEntry, seen: Map<(u64, u64), Seq<u8>>) -> Option<
    PackError,
> {
    if archive_name(entry).len() > 255 {
        Some(PackError::FieldOverflow(HeaderField::Name))
    } else if link_text(entry, seen).len() > 100 {
        Some(PackError::FieldOverflow(HeaderField::LinkName))
    } else if device_major_text(entry, seen).len() > 8 {
        Some(PackError::FieldOverflow(HeaderField::DeviceMajor))
    } else if !is_hard_link(entry, seen) && entry.meta.kind == FileKind::Other {
        Some(PackError::UnsupportedFileType)
    } else if number_text(entry.meta.uid as nat, 7).len() > 8 {
        Some(PackError::FieldOverflow(HeaderField::Uid))
    } else if number_text(entry.meta.gid as nat, 7).len() > 8 {
        Some(PackError::FieldOverflow(HeaderField::Gid))
    } else if entry.owner@.len() > 32 {
        Some(PackError::FieldOverflow(HeaderField::UserName))
    } else if entry.group@.len() > 32 {
        Some(PackError::FieldOverflow(HeaderField::GroupName))
    } else if number_text(recorded_size(entry) as nat, 11).len() > 12 {
        Some(PackError::FieldOverflow(HeaderField::Size))
    } else if entry.meta.mtime < 0 || mtime_text(entry.meta.mtime).len() > 12 {
        Some(PackError::FieldOverflow(HeaderField::ModificationTime))
    } else {
        None
    }
}

/// The text `"ustar"` and a NUL.
pub open spec fn magic_text() -> Seq<u8> {
    seq![117u8, 115u8, 116u8, 97u8, 114u8, 0u8]
}

/// The text `"00"`.
pub open spec fn version_text() -> Seq<u8> {
    seq![48u8, 48u8]
}

/// Eight spaces.
pub open spec fn blank_text() -> Seq<u8> {
    Seq::new(8, |i: int| 32u8)
}

/// The header record of an entry before its checksum is known: every field
/// in place, the checksum field blank.
pub open spec fn draft_record(entry: FsEntry, seen: Map<(u64, u64), Seq<u8>>) -> Seq<u8> {
    padded(name_part(archive_name(entry)), 100) + padded(
        number_text(permissions_of(entry.meta.mode) as nat, 7),
        8,
    ) + padded(number_text(entry.meta.uid as nat, 7), 8) + padded(
        number_text(entry.meta.gid as nat, 7),
        8,
    ) + padded(number_text(recorded_size(entry) as nat, 11), 12) + padded(
        mtime_text(entry.meta.mtime),
        12,
    ) + blank_text() + seq![type_flag(entry, seen)] + padded(link_text(entry, seen), 100)
        + magic_text() + version_text() + padded(entry.owner@, 32) + padded(entry.group@, 32)
        + padded(device_major_text(entry, seen), 8) + padded(device_minor_text(entry, seen), 8)
        + padded(prefix_part(archive_name(entry)), 155) + zeros(12)
}

/// What the checksum field holds: six octal digits, a NUL and a space.
pub open spec fn checksum_text(sum: nat) -> Seq<u8> {
    octal_text(sum, 6) + seq![0u8, 32u8]
}

/// The header record of an entry: the draft with its checksum filled in.
pub open spec fn header_record(entry: FsEntry, seen: Map<(u64, u64), Seq<u8>>) -> Seq<u8> {
    let draft = draft_record(entry, seen);
    draft.subrange(0, 148) + checksum_text(record_checksum_sum(draft)) + draft.subrange(156, 512)
}

/// The header record of an entry, or the reason for which it has none.
pub open spec fn spec_create_header(entry: FsEntry, seen: Map<(u64, u64), Seq<u8>>) -> Result<
    Seq<u8>,
    PackError,
> {
    match header_error(entry, seen) {
        Some(e) => Err(e),
        None => Ok(header_record(entry, seen)),
    }
}

/// The minor part of a device number is a byte.
pub proof fn lemma_minor_bound(rdev: u64)
    by (bit_vector)
    ensures
        rdev & 0xff < 256,
{
}

/// The permission bits of a mode are below `0o1000`.
pub proof fn lemma_permissions_bound(mode: u32)
    by (bit_vector)
    ensures
        mode & 0o777 < 512,
{
}

/// Writes `text` to the front of a field that holds only NUL bytes.
fn write_field<const N: usize>(field: &mut [u8; N], text: &[u8])
    requires
        text@.len() <= N,
        old(field)@ == zeros(N as nat),
    ensures
        final(field)@ == padded(text@, N as nat),
{
    let len = text.len();
    let mut i: usize = 0;
    while i < len
        invariant
            i <= len == text@.len() <= N,
            forall|j: int| 0 <= j < i ==> field@[j] == text@[j],
            forall|j: int| i <= j < N ==> field@[j] == 0,
        decreases len - i,
    {
        field[i] = text[i];
        i = i + 1;
    }
    assert(field@ =~= padded(text@, N as nat));
}

/// `n` in octal of at least `width` digits, then a NUL.
fn number_field(n: u64, width: usize) -> (text: Vec<u8>)
    ensures
        text@ == number_text(n as nat, width as nat),
{
    let mut text = format_octal(n, width);
    text.push(0);
    text
}

/// The checksum field for a checksum: six octal digits, a NUL and a space.
fn checksum_bytes(sum: u32) -> (field: [u8; 8])
    requires
        sum <= 512 * 255,
    ensures
        field@ == checksum_text(sum as nat),
{
    let digits = format_octal(sum as u64, 6);
    proof {
        lemma_pow8_values();
        lemma_octal_digits_len(sum as nat, 6);
        lemma_octal_text(sum as nat, 6);
    }
    let mut field: [u8; 8] = [32, 32, 32, 32, 32, 32, 0, 32];
    let mut i: usize = 0;
    while i < 6
        invariant
            i <= 6,
            digits@.len() == 6,
            forall|j: int| 0 <= j < i ==> field@[j] == digits@[j],
            field@[6] == 0,
            field@[7] == 32,
        decreases 6 - i,
    {
        field[i] = digits[i];
        i = i + 1;
    }
    assert(field@ =~= checksum_text(sum as nat));
    field
}

/// The name and prefix fields of an entry.
fn encode_name(entry: &FsEntry) -> (result: Result<([u8; 100], [u8; 155]), PackError>)
    ensures
        match result {
            Ok((name, prefix)) => {
                &&& archive_name(*entry).len() <= 255
                &&& name@ == padded(name_part(archive_name(*entry)), 100)
                &&& prefix@ == padded(prefix_part(archive_name(*entry)), 155)
            },
            Err(e) => archive_name(*entry).len() > 255 && e == PackError::FieldOverflow(
                HeaderField::Name,
            ),
        },
{
    let is_dir = match entry.meta.kind {
        FileKind::Directory => true,
        _ => false,
    };
    let mut full: Vec<u8> = Vec::new();
    full.extend_from_slice(entry.name.as_slice());
    if is_dir {
        full.push(SLASH);
    }
    assert(full@ =~= archive_name(*entry));
    if full.len() > 255 {
        return Err(PackError::FieldOverflow(HeaderField::Name));
    }
    let mut name: [u8; 100] = [0; 100];
    let mut prefix: [u8; 155] = [0; 155];
    assert(name@ =~= zeros(100));
    assert(prefix@ =~= zeros(155));
    if full.len() > 100 {
        let split = full.len() - 100;
        assert(full@.subrange(split as int, full@.len() as int) =~= name_part(full@));
        assert(full@.subrange(0, split as int) =~= prefix_part(full@));
        write_field(&mut name, slice_subrange(full.as_slice(), split, full.len()));
        write_field(&mut prefix, slice_subrange(full.as_slice(), 0, split));
    } else {
        write_field(&mut name, full.as_slice());
        assert(prefix@ =~= padded(Seq::<u8>::empty(), 155));
    }
    Ok((name, prefix))
}

/// The type flag, link name and device fields of an entry.
fn encode_kind(entry: &FsEntry, inode_map: &InodeMap) -> (result: Result<
    (u8, [u8; 100], [u8; 8], [u8; 8]),
    PackError,
>)
    ensures
        match result {
            Ok((flag, link_name, device_major, device_minor)) => {
                &&& link_text(*entry, inode_map@).len() <= 100
                &&& device_major_text(*entry, inode_map@).len() <= 8
                &&& is_hard_link(*entry, inode_map@) || entry.meta.kind != FileKind::Other
                &&& flag == type_flag(*entry, inode_map@)
                &&& link_name@ == padded(link_text(*entry, inode_map@), 100)
                &&& device_major@ == padded(device_major_text(*entry, inode_map@), 8)
                &&& device_minor@ == padded(device_minor_text(*entry, inode_map@), 8)
            },
            Err(e) => if link_text(*entry, inode_map@).len() > 100 {
                e == PackError::FieldOverflow(HeaderField::LinkName)
            } else if device_major_text(*entry, inode_map@).len() > 8 {
                e == PackError::FieldOverflow(HeaderField::DeviceMajor)
            } else {
                &&& !is_hard_link(*entry, inode_map@)
                &&& entry.meta.kind == FileKind::Other
                &&& e == PackError::UnsupportedFileType
            },
        },
{
    let mut link_name: [u8; 100] = [0; 100];
    let mut device_major: [u8; 8] = [0; 8];
    let mut device_minor: [u8; 8] = [0; 8];
    assert(link_name@ =~= padded(Seq::<u8>::empty(), 100));
    assert(device_major@ =~= padded(Seq::<u8>::empty(), 8));
    assert(device_minor@ =~= padded(Seq::<u8>::empty(), 8));
    match inode_map.get(entry.meta.device, entry.meta.inode) {
        Some(first_path) => {
            if first_path.len() > 100 {
                return Err(PackError::FieldOverflow(HeaderField::LinkName));
            }
            write_field(&mut link_name, first_path.as_slice());
            Ok((49, link_name, device_major, device_minor))
        },
        None => {
            match entry.meta.kind {
                FileKind::Regular => Ok((48, link_name, device_major, device_minor)),
                FileKind::Symlink => {
                    if entry.link_target.len() > 100 {
                        return Err(PackError::FieldOverflow(HeaderField::LinkName));
                    }
                    write_field(&mut link_name, entry.link_target.as_slice());
                    Ok((50, link_name, device_major, device_minor))
                },
                FileKind::CharDevice | FileKind::BlockDevice => {
                    let major = number_field(entry.meta.rdev >> 8, 7);
                    let minor = number_field(entry.meta.rdev & 0xff, 7);
                    if major.len() > 8 {
                        return Err(PackError::FieldOverflow(HeaderField::DeviceMajor));
                    }
                    proof {
                        let low = entry.meta.rdev & 0xff;
                        lemma_minor_bound(entry.meta.rdev);
                        lemma_pow8_values();
                        lemma_octal_digits_len(low as nat, 7);
                        lemma_octal_text(low as nat, 7);
                    }
                    write_field(&mut device_major, major.as_slice());
                    write_field(&mut device_minor, minor.as_slice());
                    let flag: u8 = match entry.meta.kind {
                        FileKind::BlockDevice => 52,
                        _ => 51,
                    };
                    Ok((flag, link_name, device_major, device_minor))
                },
                FileKind::Directory => Ok((53, link_name, device_major, device_minor)),
                FileKind::Fifo => Ok((54, link_name, device_major, device_minor)),
                FileKind::Other => Err(PackError::UnsupportedFileType),
            }
        },
    }
}

/// The mode, uid and gid fields of an entry.
fn encode_ids(entry: &FsEntry) -> (result: Result<([u8; 8], [u8; 8], [u8; 8]), PackError>)
    ensures
        match result {
            Ok((mode, uid, gid)) => {
                &&& number_text(entry.meta.uid as nat, 7).len() <= 8
                &&& number_text(entry.meta.gid as nat, 7).len() <= 8
                &&& mode@ == padded(number_text(permissions_of(entry.meta.mode) as nat, 7), 8)
                &&& uid@ == padded(number_text(entry.meta.uid as nat, 7), 8)
                &&& gid@ == padded(number_text(entry.meta.gid as nat, 7), 8)
            },
            Err(e) => if number_text(entry.meta.uid as nat, 7).len() > 8 {
                e == PackError::FieldOverflow(HeaderField::Uid)
            } else {
                &&& number_text(entry.meta.gid as nat, 7).len() > 8
                &&& e == PackError::FieldOverflow(HeaderField::Gid)
            },
        },
{
    let mut mode: [u8; 8] = [0; 8];
    let mut uid: [u8; 8] = [0; 8];
    let mut gid: [u8; 8] = [0; 8];
    assert(mode@ =~= zeros(8) && uid@ =~= zeros(8) && gid@ =~= zeros(8));
    let mode_text = number_field((entry.meta.mode & 0o777) as u64, 7);
    proof {
        let bits = entry.meta.mode & 0o777;
        lemma_permissions_bound(entry.meta.mode);
        lemma_pow8_values();
        lemma_octal_digits_len(bits as nat, 7);
        lemma_octal_text(bits as nat, 7);
    }
    write_field(&mut mode, mode_text.as_slice());
    let uid_text = number_field(entry.meta.uid as u64, 7);
    if uid_text.len() > 8 {
        return Err(PackError::FieldOverflow(HeaderField::Uid));
    }
    let gid_text = number_field(entry.meta.gid as u64, 7);
    if gid_text.len() > 8 {
        return Err(PackError::FieldOverflow(HeaderField::Gid));
    }
    write_field(&mut uid, uid_text.as_slice());
    write_field(&mut gid, gid_text.as_slice());
    Ok((mode, uid, gid))
}

/// The user name and group name fields of an entry.
fn encode_owner(entry: &FsEntry) -> (result: Result<([u8; 32], [u8; 32]), PackError>)
    ensures
        match result {
            Ok((user_name, group_name)) => {
                &&& entry.owner@.len() <= 32
                &&& entry.group@.len() <= 32
                &&& user_name@ == padded(entry.owner@, 32)
                &&& group_name@ == padded(entry.group@, 32)
            },
            Err(e) => if entry.owner@.len() > 32 {
                e == PackError::FieldOverflow(HeaderField::UserName)
            } else {
                &&& entry.group@.len() > 32
                &&& e == PackError::FieldOverflow(HeaderField::GroupName)
            },
        },
{
    let mut user_name: [u8; 32] = [0; 32];
    let mut group_name: [u8; 32] = [0; 32];
    assert(user_name@ =~= zeros(32) && group_name@ =~= zeros(32));
    if entry.owner.len() > 32 {
        return Err(PackError::FieldOverflow(HeaderField::UserName));
    }
    if entry.group.len() > 32 {
        return Err(PackError::FieldOverflow(HeaderField::GroupName));
    }
    write_field(&mut user_name, entry.owner.as_slice());
    write_field(&mut group_name, entry.group.as_slice());
    Ok((user_name, group_name))
}

/// The size and modification time fields of an entry.
fn encode_size_and_time(entry: &FsEntry) -> (result: Result<([u8; 12], [u8; 12]), PackError>)
    ensures
        match result {
            Ok((size, mtime)) => {
                &&& number_text(recorded_size(*entry) as nat, 11).len() <= 12
                &&& entry.meta.mtime >= 0
                &&& mtime_text(entry.meta.mtime).len() <= 12
                &&& size@ == padded(number_text(recorded_size(*entry) as nat, 11), 12)
                &&& mtime@ == padded(mtime_text(entry.meta.mtime), 12)
            },
            Err(e) => if number_text(recorded_size(*entry) as nat, 11).len() > 12 {
                e == PackError::FieldOverflow(HeaderField::Size)
            } else {
                &&& entry.meta.mtime < 0 || mtime_text(entry.meta.mtime).len() > 12
                &&& e == PackError::FieldOverflow(HeaderField::ModificationTime)
            },
        },
{
    let mut size: [u8; 12] = [0; 12];
    let mut mtime: [u8; 12] = [0; 12];
    assert(size@ =~= zeros(12) && mtime@ =~= zeros(12));
    let length: u64 = match entry.meta.kind {
        FileKind::Regular | FileKind::Directory => entry.meta.size,
        _ => 0,
    };
    let size_text = number_field(length, 11);
    if size_text.len() > 12 {
        return Err(PackError::FieldOverflow(HeaderField::Size));
    }
    write_field(&mut size, size_text.as_slice());
    if entry.meta.mtime < 0 {
        return Err(PackError::FieldOverflow(HeaderField::ModificationTime));
    }
    let mtime_digits = number_field(entry.meta.mtime as u64, 0);
    assert(mtime_digits@ == mtime_text(entry.meta.mtime));
    if mtime_digits.len() > 12 {
        return Err(PackError::FieldOverflow(HeaderField::ModificationTime));
    }
    write_field(&mut mtime, mtime_digits.as_slice());
    Ok((size, mtime))
}

/// The header of one entry of the tree.
///
/// An entry whose file was archived before becomes a hard link to the path
/// recorded in `inode_map`, whatever its kind.  Fails where the entry is of
/// a kind without a type flag, or where a value does not fit its field.
pub fn create_header(entry: &FsEntry, inode_map: &InodeMap) -> (result: Result<
    UStarHeader,
    PackError,
>)
    ensures
        match result {
            Ok(header) => spec_create_header(*entry, inode_map@) == Ok::<Seq<u8>, PackError>(
                header@,
            ),
            Err(e) => spec_create_header(*entry, inode_map@) == Err::<Seq<u8>, PackError>(e),
        },
        result matches Ok(header) ==> header@.len() == 512,
{
    let (name, prefix) = encode_name(entry)?;
    let (type_flag, link_name, device_major, device_minor) = encode_kind(entry, inode_map)?;
    let (mode, uid, gid) = encode_ids(entry)?;
    let (user_name, group_name) = encode_owner(entry)?;
    let (size, modification_time) = encode_size_and_time(entry)?;
    let mut header = UStarHeader {
        name,
        mode,
        uid,
        gid,
        size,
        modification_time,
        checksum: [32, 32, 32, 32, 32, 32, 32, 32],
        type_flag: [type_flag],
        link_name,
        ustar: [117, 115, 116, 97, 114, 0],
        version: [48, 48],
        user_name,
        group_name,
        device_major,
        device_minor,
        prefix,
        padding: [0; 12],
    };
    let ghost draft = draft_record(*entry, inode_map@);
    proof {
        assert(header.ustar@ =~= magic_text());
        assert(header.version@ =~= version_text());
        assert(header.checksum@ =~= blank_text());
        assert(header.padding@ =~= zeros(12));
        assert(header.type_flag@ =~= seq![type_flag]);
        assert(header@ == draft);
        assert(blank_checksum(draft) =~= draft);
    }
    let sum = calculate_checksum(&header);
    header.checksum = checksum_bytes(sum);
    assert(header@ =~= header_record(*entry, inode_map@));
    proof {
        lemma_header_fields(header);
    }
    Ok(header)
}

/// The number of zero bytes that follow `n` bytes of content, so that the
/// next record starts at a multiple of 512.
pub open spec fn padding_len(n: nat) -> nat {
    ((512 - n % 512) % 512) as nat
}

/// The entry's content goes to the archive: it is a regular file that was
/// not archived before.
pub open spec fn stores_content(entry: FsEntry, seen: Map<(u64, u64), Seq<u8>>) -> bool {
    entry.meta.kind == FileKind::Regular && !is_hard_link(entry, seen)
}

/// The records of one entry: its header, and for a file that stores its
/// content, the content and its padding.
pub open spec fn entry_records(entry: FsEntry, seen: Map<(u64, u64), Seq<u8>>) -> Seq<u8> {
    if stores_content(entry, seen) {
        header_record(entry, seen) + entry.content@ + zeros(padding_len(entry.content@.len()))
    } else {
        header_record(entry, seen)
    }
}

/// The table of inodes after an entry: a file that stores its content is
/// recorded under its path.
pub open spec fn seen_after(entry: FsEntry, seen: Map<(u64, u64), Seq<u8>>) -> Map<
    (u64, u64),
    Seq<u8>,
> {
    if stores_content(entry, seen) {
        seen.insert((entry.meta.device, entry.meta.inode), entry.name@)
    } else {
        seen
    }
}

/// The entries of a tree in the order in which they are archived: an entry,
/// then, for a directory, the entries below it, child by child.
pub open spec fn preorder(entry: FsEntry) -> Seq<FsEntry>
    decreases entry, 1int,
{
    if entry.meta.kind == FileKind::Directory {
        seq![entry] + preorder_children(entry, entry.children@.len())
    } else {
        seq![entry]
    }
}

/// The entries below the first `n` children of `entry`, in archive order.
pub open spec fn preorder_children(entry: FsEntry, n: nat) -> Seq<FsEntry>
    decreases entry, 0int, n,
{
    if n == 0 || n > entry.children@.len() {
        Seq::empty()
    } else {
        preorder_children(entry, (n - 1) as nat) + preorder(entry.children@[n - 1])
    }
}

/// The table of inodes after a list of entries.
pub open spec fn seen_after_all(entries: Seq<FsEntry>, seen: Map<(u64, u64), Seq<u8>>) -> Map<
    (u64, u64),
    Seq<u8>,
>
    decreases entries.len(),
{
    if entries.len() == 0 {
        seen
    } else {
        seen_after_all(entries.skip(1), seen_after(entries[0], seen))
    }
}

/// The reason for which the first entry without a header has none; `None`
/// where every entry of the list has one.
pub open spec fn first_error(entries: Seq<FsEntry>, seen: Map<(u64, u64), Seq<u8>>) -> Option<
    PackError,
>
    decreases entries.len(),
{
    if entries.len() == 0 {
        None
    } else {
        match header_error(entries[0], seen) {
            Some(e) => Some(e),
            None => first_error(entries.skip(1), seen_after(entries[0], seen)),
        }
    }
}

/// The number of entries at the head of the list that have a header each:
/// all of them, or those before the first that has none.
pub open spec fn archived_count(entries: Seq<FsEntry>, seen: Map<(u64, u64), Seq<u8>>) -> nat
    decreases entries.len(),
{
    if entries.len() == 0 || header_error(entries[0], seen) is Some {
        0
    } else {
        1 + archived_count(entries.skip(1), seen_after(entries[0], seen))
    }
}

/// The records of a list of entries, one entry after another.
pub open spec fn records_of(entries: Seq<FsEntry>, seen: Map<(u64, u64), Seq<u8>>) -> Seq<u8>
    decreases entries.len(),
{
    if entries.len() == 0 {
        Seq::empty()
    } else {
        entry_records(entries[0], seen) + records_of(
            entries.skip(1),
            seen_after(entries[0], seen),
        )
    }
}

/// The archive of a tree: the records of its entries in archive order, then
/// two records of zeros; or the reason for which the first entry without a
/// header has none.
pub open spec fn spec_archive(root: FsEntry) -> Result<Seq<u8>, PackError> {
    match first_error(preorder(root), Map::empty()) {
        Some(e) => Err(e),
        None => Ok(records_of(preorder(root), Map::empty()) + zeros(1024)),
    }
}

/// The table after two lists of entries is the table after the second,
/// started from the table after the first.
pub proof fn lemma_seen_after_concat(
    a: Seq<FsEntry>,
    b: Seq<FsEntry>,
    seen: Map<(u64, u64), Seq<u8>>,
)
    ensures
        seen_after_all(a + b, seen) == seen_after_all(b, seen_after_all(a, seen)),
    decreases a.len(),
{
    if a.len() == 0 {
        assert(a + b =~= b);
    } else {
        assert((a + b).skip(1) =~= a.skip(1) + b);
        lemma_seen_after_concat(a.skip(1), b, seen_after(a[0], seen));
    }
}

/// The first error of two lists is that of the first list, or else that of
/// the second, started from the table after the first.
pub proof fn lemma_first_error_concat(
    a: Seq<FsEntry>,
    b: Seq<FsEntry>,
    seen: Map<(u64, u64), Seq<u8>>,
)
    ensures
        first_error(a + b, seen) == match first_error(a, seen) {
            Some(e) => Some(e),
            None => first_error(b, seen_after_all(a, seen)),
        },
    decreases a.len(),
{
    if a.len() == 0 {
        assert(a + b =~= b);
    } else {
        assert((a + b).skip(1) =~= a.skip(1) + b);
        lemma_first_error_concat(a.skip(1), b, seen_after(a[0], seen));
    }
}

/// The records of two lists are those of the first, then those of the
/// second, started from the table after the first.
pub proof fn lemma_records_concat(
    a: Seq<FsEntry>,
    b: Seq<FsEntry>,
    seen: Map<(u64, u64), Seq<u8>>,
)
    ensures
        records_of(a + b, seen) == records_of(a, seen) + records_of(b, seen_after_all(a, seen)),
    decreases a.len(),
{
    if a.len() == 0 {
        assert(a + b =~= b);
        assert(records_of(a, seen) + records_of(b, seen) =~= records_of(b, seen));
    } else {
        assert((a + b).skip(1) =~= a.skip(1) + b);
        lemma_records_concat(a.skip(1), b, seen_after(a[0], seen));
        let next = seen_after(a[0], seen);
        assert(entry_records(a[0], seen) + (records_of(a.skip(1), next) + records_of(
            b,
            seen_after_all(a.skip(1), next),
        )) =~= (entry_records(a[0], seen) + records_of(a.skip(1), next)) + records_of(
            b,
            seen_after_all(a.skip(1), next),
        ));
    }
}

/// The entries that have a header each are all entries of the list where
/// the list is free of errors, and fewer where it is not.
pub proof fn lemma_archived_count(entries: Seq<FsEntry>, seen: Map<(u64, u64), Seq<u8>>)
    ensures
        archived_count(entries, seen) <= entries.len(),
        first_error(entries, seen) is None <==> archived_count(entries, seen) == entries.len(),
    decreases entries.len(),
{
    if entries.len() > 0 {
        lemma_archived_count(entries.skip(1), seen_after(entries[0], seen));
    }
}

/// The entries counted have a header each.
pub proof fn lemma_archived_prefix(entries: Seq<FsEntry>, seen: Map<(u64, u64), Seq<u8>>)
    ensures
        first_error(entries.take(archived_count(entries, seen) as int), seen) is None,
    decreases entries.len(),
{
    let count = archived_count(entries, seen);
    let head = entries.take(count as int);
    if count > 0 {
        let next = seen_after(entries[0], seen);
        lemma_archived_prefix(entries.skip(1), next);
        lemma_archived_count(entries.skip(1), next);
        assert(head[0] == entries[0]);
        assert(head.skip(1) =~= entries.skip(1).take(count - 1));
    }
}

/// The count of two lists is that of the first where it holds an error, and
/// else the first list and the count of the second, started from the table
/// after the first.
pub proof fn lemma_archived_count_concat(
    a: Seq<FsEntry>,
    b: Seq<FsEntry>,
    seen: Map<(u64, u64), Seq<u8>>,
)
    ensures
        archived_count(a + b, seen) == if first_error(a, seen) is None {
            a.len() + archived_count(b, seen_after_all(a, seen))
        } else {
            archived_count(a, seen)
        },
    decreases a.len(),
{
    if a.len() == 0 {
        assert(a + b =~= b);
    } else {
        assert((a + b).skip(1) =~= a.skip(1) + b);
        lemma_archived_count_concat(a.skip(1), b, seen_after(a[0], seen));
    }
}

/// A list of one entry has the records, the error and the table of that
/// entry.
pub proof fn lemma_single_entry(entry: FsEntry, seen: Map<(u64, u64), Seq<u8>>)
    ensures
        records_of(seq![entry], seen) == entry_records(entry, seen),
        first_error(seq![entry], seen) == header_error(entry, seen),
        seen_after_all(seq![entry], seen) == seen_after(entry, seen),
{
    let own = seq![entry];
    assert(own.skip(1) =~= Seq::<FsEntry>::empty());
    assert(own[0] == entry);
    reveal_with_fuel(records_of, 2);
    reveal_with_fuel(first_error, 2);
    reveal_with_fuel(seen_after_all, 2);
    assert(records_of(own, seen) =~= entry_records(entry, seen));
}

/// Appends `count` zero bytes.
fn append_zeros(buffer: &mut Vec<u8>, count: usize)
    ensures
        final(buffer)@ == old(buffer)@ + zeros(count as nat),
{
    let mut i: usize = 0;
    assert(buffer@ =~= old(buffer)@ + zeros(0));
    while i < count
        invariant
            i <= count,
            buffer@ == old(buffer)@ + zeros(i as nat),
        decreases count - i,
    {
        buffer.push(0);
        i = i + 1;
        assert(buffer@ =~= old(buffer)@ + zeros(i as nat));
    }
}

/// Appends the records of the tree under `entry` to `tar_buffer`: the
/// entry's header, for a regular file seen for the first time its content
/// and padding, and for a directory the records of its children in their
/// order.  `inode_map` learns each file whose content was stored.
///
/// Stops at the first entry without a header and returns the reason; the
/// entries before it are archived then, and no other.
pub fn add_to_archive(
    entry: &FsEntry,
    tar_buffer: &mut Vec<u8>,
    inode_map: &mut InodeMap,
) -> (result: Result<(), PackError>)
    ensures
        result == match first_error(preorder(*entry), old(inode_map)@) {
            Some(e) => Err::<(), PackError>(e),
            None => Ok::<(), PackError>(()),
        },
        final(tar_buffer)@ == old(tar_buffer)@ + records_of(
            preorder(*entry).take(archived_count(preorder(*entry), old(inode_map)@) as int),
            old(inode_map)@,
        ),
        final(inode_map)@ == seen_after_all(
            preorder(*entry).take(archived_count(preorder(*entry), old(inode_map)@) as int),
            old(inode_map)@,
        ),
        (final(tar_buffer)@.len() - old(tar_buffer)@.len()) % 512 == 0,
    decreases entry,
{
    let ghost buffer0 = tar_buffer@;
    let ghost seen0 = inode_map@;
    let ghost own = seq![*entry];
    let ghost all = preorder(*entry);
    proof {
        lemma_archived_prefix(all, seen0);
        lemma_records_aligned(all.take(archived_count(all, seen0) as int), seen0);
        lemma_single_entry(*entry, seen0);
        let below = if entry.meta.kind == FileKind::Directory {
            preorder_children(*entry, entry.children@.len())
        } else {
            Seq::<FsEntry>::empty()
        };
        assert(all =~= own + below);
        assert(all[0] == *entry);
        lemma_first_error_concat(own, below, seen0);
        lemma_archived_count(all, seen0);
    }
    let header = match create_header(entry, inode_map) {
        Ok(header) => header,
        Err(e) => {
            proof {
                assert(all.take(0) =~= Seq::<FsEntry>::empty());
                assert(tar_buffer@ =~= buffer0 + records_of(all.take(0), seen0));
            }
            return Err(e);
        },
    };
    let record = header.as_bytes();
    tar_buffer.extend_from_slice(record.as_slice());
    assert(tar_buffer@ =~= buffer0 + header_record(*entry, seen0));
    match entry.meta.kind {
        FileKind::Regular => {
            if !inode_map.contains(entry.meta.device, entry.meta.inode) {
                let mut path: Vec<u8> = Vec::new();
                path.extend_from_slice(entry.name.as_slice());
                assert(path@ =~= entry.name@);
                inode_map.insert(entry.meta.device, entry.meta.inode, path);
                tar_buffer.extend_from_slice(entry.content.as_slice());
                let padding = (512 - entry.content.len() % 512) % 512;
                append_zeros(tar_buffer, padding);
                assert(tar_buffer@ =~= buffer0 + entry_records(*entry, seen0));
            }
            proof {
                assert(all =~= own);
                assert(all.take(1) =~= own);
            }
            Ok(())
        },
        FileKind::Directory => {
            proof {
                assert(own + preorder_children(*entry, 0) =~= own);
            }
            let mut i: usize = 0;
            while i < entry.children.len()
                invariant
                    i <= entry.children@.len(),
                    own == seq![*entry],
                    all == preorder(*entry),
                    buffer0 == old(tar_buffer)@,
                    seen0 == old(inode_map)@,
                    entry.meta.kind == FileKind::Directory,
                    first_error(own + preorder_children(*entry, i as nat), seen0) is None,
                    tar_buffer@ == buffer0 + records_of(
                        own + preorder_children(*entry, i as nat),
                        seen0,
                    ),
                    inode_map@ == seen_after_all(
                        own + preorder_children(*entry, i as nat),
                        seen0,
                    ),
                decreases entry.children@.len() - i,
            {
                let ghost done = own + preorder_children(*entry, i as nat);
                let ghost below = preorder(entry.children@[i as int]);
                let ghost seen_i = inode_map@;
                let ghost count = archived_count(below, seen_i);
                proof {
                    assert(own + preorder_children(*entry, (i + 1) as nat) =~= done + below);
                    lemma_first_error_concat(done, below, seen0);
                    lemma_archived_count_concat(done, below, seen0);
                    lemma_archived_count(below, seen_i);
                    lemma_records_concat(done, below.take(count as int), seen0);
                    lemma_seen_after_concat(done, below.take(count as int), seen0);
                    assert((done + below).take((done.len() + count) as int) =~= done + below.take(
                        count as int,
                    ));
                    assert(below.take(below.len() as int) =~= below);
                }
                let outcome = add_to_archive(&entry.children[i], tar_buffer, inode_map);
                assert(tar_buffer@ =~= buffer0 + records_of(
                    (done + below).take((done.len() + count) as int),
                    seen0,
                ));
                match outcome {
                    Ok(()) => {},
                    Err(e) => {
                        proof {
                            lemma_first_error_tail(*entry, (i + 1) as nat, seen0);
                            lemma_archived_prefix(all, seen0);
                            lemma_records_aligned(
                                all.take(archived_count(all, seen0) as int),
                                seen0,
                            );
                        }
                        return Err(e);
                    },
                }
                i = i + 1;
            }
            proof {
                assert(all =~= own + preorder_children(*entry, entry.children@.len()));
                assert(all.take(all.len() as int) =~= all);
            }
            Ok(())
        },
        _ => {
            proof {
                assert(all =~= own);
                assert(all.take(1) =~= own);
            }
            Ok(())
        },
    }
}

/// An error among the entries below the first `n` children of a directory
/// is the error of the whole tree under it, met after as many entries.
pub proof fn lemma_first_error_tail(entry: FsEntry, n: nat, seen: Map<(u64, u64), Seq<u8>>)
    requires
        entry.meta.kind == FileKind::Directory,
        n <= entry.children@.len(),
        first_error(seq![entry] + preorder_children(entry, n), seen) is Some,
    ensures
        first_error(preorder(entry), seen) == first_error(
            seq![entry] + preorder_children(entry, n),
            seen,
        ),
        archived_count(preorder(entry), seen) == archived_count(
            seq![entry] + preorder_children(entry, n),
            seen,
        ),
        preorder(entry).take(archived_count(preorder(entry), seen) as int) == (seq![entry]
            + preorder_children(entry, n)).take(archived_count(preorder(entry), seen) as int),
    decreases entry.children@.len() - n,
{
    let done = seq![entry] + preorder_children(entry, n);
    if n < entry.children@.len() {
        let below = preorder(entry.children@[n as int]);
        assert(seq![entry] + preorder_children(entry, n + 1) =~= done + below);
        lemma_first_error_concat(done, below, seen);
        lemma_archived_count_concat(done, below, seen);
        lemma_archived_count(done, seen);
        lemma_first_error_tail(entry, n + 1, seen);
        let k = archived_count(done, seen) as int;
        assert((done + below).take(k) =~= done.take(k));
    } else {
        assert(preorder(entry) =~= done);
    }
}

/// The archive of the tree under `root`, uncompressed: the records of its
/// entries in archive order and the end marker of two records of zeros.
pub fn build_archive(root: &FsEntry) -> (result: Result<Vec<u8>, PackError>)
    ensures
        match result {
            Ok(bytes) => {
                &&& spec_archive(*root) == Ok::<Seq<u8>, PackError>(bytes@)
                &&& bytes@.len() % 512 == 0
                &&& bytes@.len() >= 1536
                &&& all_zero(bytes@.subrange(bytes@.len() - 1024, bytes@.len() as int))
            },
            Err(e) => spec_archive(*root) == Err::<Seq<u8>, PackError>(e),
        },
{
    proof {
        if spec_archive(*root) is Ok {
            lemma_archive_shape(*root);
        }
    }
    let mut tar_buffer: Vec<u8> = Vec::new();
    let mut inode_map = InodeMap::new();
    match add_to_archive(root, &mut tar_buffer, &mut inode_map) {
        Ok(()) => {
            proof {
                let all = preorder(*root);
                lemma_archived_count(all, Map::empty());
                assert(all.take(all.len() as int) =~= all);
            }
            append_zeros(&mut tar_buffer, 512);
            append_zeros(&mut tar_buffer, 512);
            assert(tar_buffer@ =~= records_of(preorder(*root), Map::empty()) + zeros(1024));
            Ok(tar_buffer)
        },
        Err(e) => Err(e),
    }
}

/// The text `".tar"`.
pub open spec fn tar_suffix() -> Seq<u8> {
    seq![46u8, 116u8, 97u8, 114u8]
}

/// The text `".tar.gz"`.
pub open spec fn tar_gz_suffix() -> Seq<u8> {
    seq![46u8, 116u8, 97u8, 114u8, 46u8, 103u8, 122u8]
}

/// The file name of an archive: its base name, then `".tar.gz"` for a
/// compressed archive and `".tar"` for a plain one.
pub open spec fn spec_archive_file_name(archive_name: Seq<u8>, compress: bool) -> Seq<u8> {
    if compress {
        archive_name + tar_gz_suffix()
    } else {
        archive_name + tar_suffix()
    }
}

/// The file name of an archive: its base name, then `".tar.gz"` for a
/// compressed archive and `".tar"` for a plain one.
pub fn archive_file_name(archive_name: &[u8], compress: bool) -> (file_name: Vec<u8>)
    ensures
        file_name@ == spec_archive_file_name(archive_name@, compress),
{
    let mut file_name: Vec<u8> = Vec::new();
    file_name.extend_from_slice(archive_name);
    file_name.push(46);
    file_name.push(116);
    file_name.push(97);
    file_name.push(114);
    if compress {
        file_name.push(46);
        file_name.push(103);
        file_name.push(122);
    }
    assert(file_name@ =~= spec_archive_file_name(archive_name@, compress));
    file_name
}

/// An archive ready to be written: the name of its file and what the file
/// holds.
#[derive(Debug, PartialEq, Eq)]
pub struct ArchiveFile {
    pub file_name: Vec<u8>,
    pub bytes: Vec<u8>,
}

/// What the file of an archive holds: the archive itself, or its gzip
/// stream, where there is one.
pub open spec fn spec_payload(tar: Seq<u8>, compress: bool) -> Option<Seq<u8>> {
    if compress {
        gzip_stream(tar)
    } else {
        Some(tar)
    }
}

/// The archive file of a tree: named after `archive_name`, holding the
/// archive of the tree or its gzip stream.  There is none where an entry
/// has no header or the compression fails.
pub open spec fn spec_create_archive(
    root: FsEntry,
    archive_name: Seq<u8>,
    compress: bool,
) -> Result<(Seq<u8>, Seq<u8>), PackError> {
    match spec_archive(root) {
        Err(e) => Err(e),
        Ok(tar) => match spec_payload(tar, compress) {
            Some(bytes) => Ok((spec_archive_file_name(archive_name, compress), bytes)),
            None => Err(PackError::Compression),
        },
    }
}

/// The archive file for a payload: named after `archive_name`, with the
/// suffix that tells whether it is compressed.  A payload that is missing
/// is a compression that failed.
pub fn package(archive_name: &[u8], compress: bool, payload: Option<Vec<u8>>) -> (result: Result<
    ArchiveFile,
    PackError,
>)
    ensures
        match payload {
            Some(bytes) => result matches Ok(file) && file.bytes@ == bytes@ && file.file_name@
                == spec_archive_file_name(archive_name@, compress),
            None => result == Err::<ArchiveFile, PackError>(PackError::Compression),
        },
{
    match payload {
        Some(bytes) => Ok(
            ArchiveFile { file_name: archive_file_name(archive_name, compress), bytes },
        ),
        None => Err(PackError::Compression),
    }
}

/// Builds the archive of the tree under `root` and names its file after
/// `archive_name`; with `compress`, the file holds the gzip stream of the
/// archive.
pub fn create_archive(root: &FsEntry, archive_name: &[u8], compress: bool) -> (result: Result<
    ArchiveFile,
    PackError,
>)
    ensures
        match result {
            Ok(file) => spec_create_archive(*root, archive_name@, compress) == Ok::<
                (Seq<u8>, Seq<u8>),
                PackError,
            >((file.file_name@, file.bytes@)),
            Err(e) => spec_create_archive(*root, archive_name@, compress) == Err::<
                (Seq<u8>, Seq<u8>),
                PackError,
            >(e),
        },
{
    let tar = build_archive(root)?;
    let payload = if compress {
        gzip(tar.as_slice())
    } else {
        Some(tar)
    };
    package(archive_name, compress, payload)
}

} // verus!
