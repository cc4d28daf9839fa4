//! What holds between building and reading: a header read back states what
//! was put into it, and an archive read back gives the entries of the tree
//! it was built from.
use crate::entry::{no_nul, FileKind, FsEntry};
use crate::header::{
    all_zero, blank_checksum, byte_sum, checksum_field, device_major_field, device_minor_field,
    device_part, gid_field, group_name_field, link_field, magic_field, mode_field,
    mtime_field, name_field, octal_or_zero, padding_field, prefix_field, record_checksum,
    record_checksum_sum, record_device, record_file_name, record_file_size, record_link_name,
    record_mode, record_mode_value, record_type_flag, size_field, terminated_text, trim_nul,
    trim_space, trim_space_end, trim_space_start, uid_field, user_name_field, version_field,
    zeros,
};
use crate::numtext::{
    all_digits, digits_value, is_digit, lemma_octal_digits_len, lemma_octal_text,
    lemma_pow8_values, octal_text, parse_unsigned, unsigned_body,
};
use crate::packing::{
    archive_name, blank_text, checksum_text, device_major_text, device_minor_text, draft_record,
    entry_records, first_error, header_error, header_record, is_device, is_hard_link, link_text,
    magic_text, major_of, minor_of, mtime_text, name_part, number_text, padded, padding_len,
    permissions_of, prefix_part, preorder, recorded_size, records_of, seen_after,
    spec_archive, stores_content, type_flag, version_text,
};
use crate::unpacking::{
    record_entry, scan_after, spec_scan, spec_step, ActionView, EntryView, ScanEnd,
    ScanView, StepView,
};
use vstd::prelude::*;

verus! {

/// The draft of a header that exists is 512 bytes long and holds each text
/// at the place of its field.
pub proof fn lemma_draft_layout(entry: FsEntry, seen: Map<(u64, u64), Seq<u8>>)
    requires
        header_error(entry, seen) is None,
    ensures
        draft_record(entry, seen).len() == 512,
        name_field(draft_record(entry, seen)) == padded(name_part(archive_name(entry)), 100),
        mode_field(draft_record(entry, seen)) == padded(
            number_text(permissions_of(entry.meta.mode) as nat, 7),
            8,
        ),
        uid_field(draft_record(entry, seen)) == padded(number_text(entry.meta.uid as nat, 7), 8),
        gid_field(draft_record(entry, seen)) == padded(number_text(entry.meta.gid as nat, 7), 8),
        size_field(draft_record(entry, seen)) == padded(
            number_text(recorded_size(entry) as nat, 11),
            12,
        ),
        mtime_field(draft_record(entry, seen)) == padded(mtime_text(entry.meta.mtime), 12),
        checksum_field(draft_record(entry, seen)) == blank_text(),
        record_type_flag(draft_record(entry, seen)) == type_flag(entry, seen),
        link_field(draft_record(entry, seen)) == padded(link_text(entry, seen), 100),
        magic_field(draft_record(entry, seen)) == magic_text(),
        version_field(draft_record(entry, seen)) == version_text(),
        user_name_field(draft_record(entry, seen)) == padded(entry.owner@, 32),
        group_name_field(draft_record(entry, seen)) == padded(entry.group@, 32),
        device_major_field(draft_record(entry, seen)) == padded(
            device_major_text(entry, seen),
            8,
        ),
        device_minor_field(draft_record(entry, seen)) == padded(
            device_minor_text(entry, seen),
            8,
        ),
        prefix_field(draft_record(entry, seen)) == padded(
            prefix_part(archive_name(entry)),
            155,
        ),
        padding_field(draft_record(entry, seen)) == zeros(12),
{
    let d = draft_record(entry, seen);
    let part0 = padded(name_part(archive_name(entry)), 100);
    let part1 = padded(number_text(permissions_of(entry.meta.mode) as nat, 7), 8);
    let part2 = padded(number_text(entry.meta.uid as nat, 7), 8);
    let part3 = padded(number_text(entry.meta.gid as nat, 7), 8);
    let part4 = padded(number_text(recorded_size(entry) as nat, 11), 12);
    let part5 = padded(mtime_text(entry.meta.mtime), 12);
    let part6 = blank_text();
    let part7 = seq![type_flag(entry, seen)];
    let part8 = padded(link_text(entry, seen), 100);
    let part9 = magic_text();
    let part10 = version_text();
    let part11 = padded(entry.owner@, 32);
    let part12 = padded(entry.group@, 32);
    let part13 = padded(device_major_text(entry, seen), 8);
    let part14 = padded(device_minor_text(entry, seen), 8);
    let part15 = padded(prefix_part(archive_name(entry)), 155);
    let part16 = zeros(12);
    lemma_permissions_text(entry.meta.mode);
    lemma_minor_text(entry.meta.rdev);
    assert(part0.len() == 100);
    assert(part1.len() == 8);
    assert(part2.len() == 8);
    assert(part3.len() == 8);
    assert(part4.len() == 12);
    assert(part5.len() == 12);
    assert(part6.len() == 8);
    assert(part7.len() == 1);
    assert(part8.len() == 100);
    assert(part9.len() == 6);
    assert(part10.len() == 2);
    assert(part11.len() == 32);
    assert(part12.len() == 32);
    assert(part13.len() == 8);
    assert(part14.len() == 8);
    assert(part15.len() == 155);
    assert(part16.len() == 12);
    assert(d == part0 + part1 + part2 + part3 + part4 + part5 + part6 + part7 + part8 + part9
        + part10 + part11 + part12 + part13 + part14 + part15 + part16);
    assert(d.len() == 512);
    assert(name_field(d) =~= part0);
    assert(mode_field(d) =~= part1);
    assert(uid_field(d) =~= part2);
    assert(gid_field(d) =~= part3);
    assert(size_field(d) =~= part4);
    assert(mtime_field(d) =~= part5);
    assert(checksum_field(d) =~= part6);
    assert(d[156] == part7[0]);
    assert(link_field(d) =~= part8);
    assert(magic_field(d) =~= part9);
    assert(version_field(d) =~= part10);
    assert(user_name_field(d) =~= part11);
    assert(group_name_field(d) =~= part12);
    assert(device_major_field(d) =~= part13);
    assert(device_minor_field(d) =~= part14);
    assert(prefix_field(d) =~= part15);
    assert(padding_field(d) =~= part16);
}

/// The permission bits of a mode make seven octal digits and a NUL.
pub proof fn lemma_permissions_text(mode: u32)
    ensures
        number_text(permissions_of(mode) as nat, 7).len() == 8,
{
    crate::packing::lemma_permissions_bound(mode);
    lemma_pow8_values();
    lemma_octal_digits_len(permissions_of(mode) as nat, 7);
    lemma_octal_text(permissions_of(mode) as nat, 7);
}

/// The minor part of a device number makes seven octal digits and a NUL.
pub proof fn lemma_minor_text(rdev: u64)
    ensures
        number_text(minor_of(rdev) as nat, 7).len() == 8,
{
    crate::packing::lemma_minor_bound(rdev);
    lemma_pow8_values();
    lemma_octal_digits_len(minor_of(rdev) as nat, 7);
    lemma_octal_text(minor_of(rdev) as nat, 7);
}

/// A sum of bytes is at most 255 times their number.
pub proof fn lemma_byte_sum_bound(s: Seq<u8>)
    ensures
        byte_sum(s) <= 255 * s.len(),
    decreases s.len(),
{
    if s.len() > 0 {
        lemma_byte_sum_bound(s.drop_last());
    }
}

/// The checksum of a 512-byte record makes six octal digits.
pub proof fn lemma_checksum_text(record: Seq<u8>)
    requires
        record.len() == 512,
    ensures
        record_checksum_sum(record) <= 130560,
        octal_text(record_checksum_sum(record), 6).len() == 6,
        checksum_text(record_checksum_sum(record)).len() == 8,
{
    lemma_byte_sum_bound(blank_checksum(record));
    lemma_pow8_values();
    lemma_octal_digits_len(record_checksum_sum(record), 6);
    lemma_octal_text(record_checksum_sum(record), 6);
}

/// The header of an entry is 512 bytes long, holds its checksum text in the
/// checksum field and is the draft everywhere else; so it has the checksum
/// of the draft.
pub proof fn lemma_header_layout(entry: FsEntry, seen: Map<(u64, u64), Seq<u8>>)
    requires
        header_error(entry, seen) is None,
    ensures
        header_record(entry, seen).len() == 512,
        checksum_field(header_record(entry, seen)) == checksum_text(
            record_checksum_sum(draft_record(entry, seen)),
        ),
        forall|i: int|
            0 <= i < 512 && !(148 <= i < 156) ==> #[trigger] header_record(entry, seen)[i]
                == draft_record(entry, seen)[i],
        record_checksum_sum(header_record(entry, seen)) == record_checksum_sum(
            draft_record(entry, seen),
        ),
{
    let d = draft_record(entry, seen);
    let h = header_record(entry, seen);
    lemma_draft_layout(entry, seen);
    lemma_checksum_text(d);
    assert(checksum_field(h) =~= checksum_text(record_checksum_sum(d)));
    assert(blank_checksum(h) =~= blank_checksum(d));
}

/// Outside the checksum field, the header of an entry holds in each field
/// what its draft holds there.
pub proof fn lemma_header_fields_of_draft(entry: FsEntry, seen: Map<(u64, u64), Seq<u8>>)
    requires
        header_error(entry, seen) is None,
    ensures
        name_field(header_record(entry, seen)) == name_field(draft_record(entry, seen)),
        mode_field(header_record(entry, seen)) == mode_field(draft_record(entry, seen)),
        uid_field(header_record(entry, seen)) == uid_field(draft_record(entry, seen)),
        gid_field(header_record(entry, seen)) == gid_field(draft_record(entry, seen)),
        size_field(header_record(entry, seen)) == size_field(draft_record(entry, seen)),
        mtime_field(header_record(entry, seen)) == mtime_field(draft_record(entry, seen)),
        record_type_flag(header_record(entry, seen)) == record_type_flag(
            draft_record(entry, seen),
        ),
        link_field(header_record(entry, seen)) == link_field(draft_record(entry, seen)),
        magic_field(header_record(entry, seen)) == magic_field(draft_record(entry, seen)),
        version_field(header_record(entry, seen)) == version_field(draft_record(entry, seen)),
        user_name_field(header_record(entry, seen)) == user_name_field(
            draft_record(entry, seen),
        ),
        group_name_field(header_record(entry, seen)) == group_name_field(
            draft_record(entry, seen),
        ),
        device_major_field(header_record(entry, seen)) == device_major_field(
            draft_record(entry, seen),
        ),
        device_minor_field(header_record(entry, seen)) == device_minor_field(
            draft_record(entry, seen),
        ),
        prefix_field(header_record(entry, seen)) == prefix_field(draft_record(entry, seen)),
        padding_field(header_record(entry, seen)) == padding_field(draft_record(entry, seen)),
{
    let d = draft_record(entry, seen);
    let h = header_record(entry, seen);
    lemma_header_layout(entry, seen);
    lemma_draft_layout(entry, seen);
    assert(name_field(h) =~= name_field(d));
    assert(mode_field(h) =~= mode_field(d));
    assert(uid_field(h) =~= uid_field(d));
    assert(gid_field(h) =~= gid_field(d));
    assert(size_field(h) =~= size_field(d));
    assert(mtime_field(h) =~= mtime_field(d));
    assert(h[156] == d[156]);
    assert(link_field(h) =~= link_field(d));
    assert(magic_field(h) =~= magic_field(d));
    assert(version_field(h) =~= version_field(d));
    assert(user_name_field(h) =~= user_name_field(d));
    assert(group_name_field(h) =~= group_name_field(d));
    assert(device_major_field(h) =~= device_major_field(d));
    assert(device_minor_field(h) =~= device_minor_field(d));
    assert(prefix_field(h) =~= prefix_field(d));
    assert(padding_field(h) =~= padding_field(d));
}

/// NUL padding does not change what is left of a text once its trailing
/// NUL bytes are gone.
pub proof fn lemma_trim_nul_padded(text: Seq<u8>, width: nat)
    requires
        text.len() <= width,
    ensures
        trim_nul(padded(text, width)) == trim_nul(text),
    decreases width - text.len(),
{
    let p = padded(text, width);
    if text.len() == width {
        assert(p =~= text);
    } else {
        assert(p.last() == 0);
        assert(p.drop_last() =~= padded(text, (width - 1) as nat));
        lemma_trim_nul_padded(text, (width - 1) as nat);
    }
}

/// A text of octal digits is untouched by the trimming of NUL bytes and of
/// white space, and read as a number it gives its value where the limit
/// allows.
pub proof fn lemma_digits_parse(text: Seq<u8>, limit: nat)
    requires
        text.len() > 0,
        all_digits(text, 8),
    ensures
        trim_nul(text) == text,
        trim_space(text) == text,
        terminated_text(text + seq![0u8, 32u8]) == text,
        digits_value(text, 8) <= limit ==> parse_unsigned(text, 8, limit) == Some(
            digits_value(text, 8),
        ),
{
    assert(is_digit(text.last(), 8));
    assert(is_digit(text[0], 8));
    assert(trim_space_end(text) == text);
    assert(trim_space_start(text) == text);
    assert(unsigned_body(text) == text);
    lemma_terminated_digits(text, seq![0u8, 32u8]);
}

/// A numeric field ends where the first NUL after its digits stands.
pub proof fn lemma_terminated_digits(text: Seq<u8>, tail: Seq<u8>)
    requires
        all_digits(text, 8),
        tail.len() > 0,
        tail[0] == 0,
    ensures
        terminated_text(text + tail) == text,
    decreases text.len(),
{
    let whole = text + tail;
    if text.len() == 0 {
        assert(whole =~= tail);
        assert(terminated_text(whole) =~= text);
    } else {
        assert(is_digit(text[0], 8));
        assert(whole[0] == text[0]);
        assert(whole.skip(1) =~= text.skip(1) + tail);
        assert forall|i: int| 0 <= i < text.skip(1).len() implies is_digit(
            #[trigger] text.skip(1)[i],
            8,
        ) by {
            assert(text.skip(1)[i] == text[i + 1]);
        }
        lemma_terminated_digits(text.skip(1), tail);
        assert(seq![text[0]] + text.skip(1) =~= text);
    }
}

/// A number written to a field that holds it is read back from the field,
/// where the reader's limit allows the number.
pub proof fn lemma_number_field(n: nat, width: nat, field_width: nat, limit: nat)
    requires
        number_text(n, width).len() <= field_width,
        n <= limit,
    ensures
        octal_or_zero(trim_nul(padded(number_text(n, width), field_width)), limit) == n,
        octal_or_zero(trim_space(trim_nul(padded(number_text(n, width), field_width))), limit)
            == n,
{
    let digits = octal_text(n, width);
    let text = number_text(n, width);
    lemma_octal_text(n, width);
    lemma_digits_parse(digits, limit);
    lemma_trim_nul_padded(text, field_width);
    assert(text.last() == 0);
    assert(text.drop_last() =~= digits);
    assert(trim_nul(text) == trim_nul(digits));
}

/// The checksum that a header states is the checksum of the header: the sum
/// of its bytes with the checksum field counted as spaces.
pub proof fn lemma_checksum_round_trip(entry: FsEntry, seen: Map<(u64, u64), Seq<u8>>)
    requires
        header_error(entry, seen) is None,
    ensures
        record_checksum(header_record(entry, seen)) == Some(
            record_checksum_sum(header_record(entry, seen)),
        ),
{
    let d = draft_record(entry, seen);
    let sum = record_checksum_sum(d);
    lemma_header_layout(entry, seen);
    lemma_draft_layout(entry, seen);
    lemma_checksum_text(d);
    lemma_octal_text(sum, 6);
    lemma_digits_parse(octal_text(sum, 6), u32::MAX as nat);
}

/// The path that is read back from a header made for the name `full`: the
/// name as it was where it fits the name field; else its leading part, a
/// slash and its last 100 bytes.  Trailing NUL bytes of either part are
/// lost.
pub open spec fn decoded_name(full: Seq<u8>) -> Seq<u8> {
    let name = trim_nul(name_part(full));
    let prefix = trim_nul(prefix_part(full));
    if prefix.len() > 0 {
        prefix + seq![47u8] + name
    } else {
        name
    }
}

/// A text without NUL bytes keeps every byte when its trailing NUL bytes
/// are trimmed.
pub proof fn lemma_trim_nul_clean(text: Seq<u8>)
    requires
        no_nul(text),
    ensures
        trim_nul(text) == text,
{
    if text.len() > 0 {
        assert(text.last() != 0);
    }
}

/// The path read back from the header of an entry is the decoded form of
/// the name under which the archive holds the entry.
pub proof fn lemma_name_read_back(entry: FsEntry, seen: Map<(u64, u64), Seq<u8>>)
    requires
        header_error(entry, seen) is None,
    ensures
        record_file_name(header_record(entry, seen)) == decoded_name(archive_name(entry)),
{
    let full = archive_name(entry);
    lemma_draft_layout(entry, seen);
    lemma_header_fields_of_draft(entry, seen);
    lemma_trim_nul_padded(name_part(full), 100);
    lemma_trim_nul_padded(prefix_part(full), 155);
}

/// A name of at most 100 bytes without NUL bytes is read back as it was.
pub proof fn lemma_short_name_round_trip(full: Seq<u8>)
    requires
        full.len() <= 100,
        no_nul(full),
    ensures
        decoded_name(full) == full,
{
    lemma_trim_nul_clean(full);
    assert(trim_nul(Seq::<u8>::empty()) == Seq::<u8>::empty());
}

/// A name of more than 100 bytes without NUL bytes is read back as its
/// leading part, a slash and its last 100 bytes: one byte longer than it
/// was, and the name again once that slash is taken out.
pub proof fn lemma_long_name_split(full: Seq<u8>)
    requires
        full.len() > 100,
        no_nul(full),
    ensures
        decoded_name(full) == full.take(full.len() - 100) + seq![47u8] + full.skip(
            full.len() - 100,
        ),
        decoded_name(full).len() == full.len() + 1,
        decoded_name(full).remove(full.len() - 100) == full,
{
    let cut = full.len() - 100;
    let prefix = full.take(cut);
    let name = full.skip(cut);
    assert(no_nul(prefix)) by {
        assert forall|i: int| 0 <= i < prefix.len() implies #[trigger] prefix[i] != 0 by {
            assert(prefix[i] == full[i]);
        }
    }
    assert(no_nul(name)) by {
        assert forall|i: int| 0 <= i < name.len() implies #[trigger] name[i] != 0 by {
            assert(name[i] == full[i + cut]);
        }
    }
    lemma_trim_nul_clean(prefix);
    lemma_trim_nul_clean(name);
    let decoded = prefix + seq![47u8] + name;
    assert(decoded.remove(cut) =~= full);
}

/// The path under which a well-formed entry comes back from an archive: a
/// file under its name and a directory under its name and a slash, where
/// that is at most 100 bytes long; else with one more slash, before the
/// last 100 bytes.
pub proof fn lemma_path_comes_back(entry: FsEntry)
    requires
        entry.well_formed(),
    ensures
        archive_name(entry).len() <= 100 ==> decoded_name(archive_name(entry)) == archive_name(
            entry,
        ),
        archive_name(entry).len() > 100 ==> decoded_name(archive_name(entry)) == archive_name(
            entry,
        ).take(archive_name(entry).len() - 100) + seq![47u8] + archive_name(entry).skip(
            archive_name(entry).len() - 100,
        ),
{
    let full = archive_name(entry);
    assert(no_nul(full)) by {
        assert forall|i: int| 0 <= i < full.len() implies #[trigger] full[i] != 0 by {
            if i < entry.name@.len() {
                assert(full[i] == entry.name@[i]);
            }
        }
    }
    if full.len() <= 100 {
        lemma_short_name_round_trip(full);
    } else {
        lemma_long_name_split(full);
    }
}

/// What the reading of an archive is to make for an entry of the tree that
/// the archive was built from.
pub open spec fn expected_action(entry: FsEntry, seen: Map<(u64, u64), Seq<u8>>) -> ActionView {
    if is_hard_link(entry, seen) {
        ActionView::HardLink { target: seen[(entry.meta.device, entry.meta.inode)] }
    } else {
        match entry.meta.kind {
            FileKind::Regular => ActionView::WriteFile { content: entry.content@ },
            FileKind::Symlink => ActionView::Symlink { target: entry.link_target@ },
            FileKind::CharDevice => ActionView::CharDevice { device: entry.meta.rdev },
            FileKind::BlockDevice => ActionView::BlockDevice { device: entry.meta.rdev },
            FileKind::Directory => ActionView::Directory,
            FileKind::Fifo => ActionView::Fifo,
            FileKind::Other => ActionView::Unknown { flag: 0 },
        }
    }
}

/// The entry that the reading of an archive is to give for an entry of the
/// tree: the path read back from the name under which the archive holds
/// it, its permission bits, and what to make.
pub open spec fn expected_entry(entry: FsEntry, seen: Map<(u64, u64), Seq<u8>>) -> EntryView {
    EntryView {
        path: decoded_name(archive_name(entry)),
        mode: permissions_of(entry.meta.mode),
        action: expected_action(entry, seen),
    }
}

/// The content that follows the header of an entry.
pub open spec fn stored_content(entry: FsEntry, seen: Map<(u64, u64), Seq<u8>>) -> Seq<u8> {
    if stores_content(entry, seen) {
        entry.content@
    } else {
        Seq::empty()
    }
}

/// Every path that the table records is free of NUL bytes.
pub open spec fn clean_paths(seen: Map<(u64, u64), Seq<u8>>) -> bool {
    forall|k: (u64, u64)| seen.contains_key(k) ==> no_nul(#[trigger] seen[k])
}

/// A device number split into major and minor part is put together again
/// as it was.
pub proof fn lemma_device_number(rdev: u64)
    by (bit_vector)
    ensures
        ((rdev >> 8) << 8) | (rdev & 0xff) == rdev,
{
}

/// Permission bits are untouched by the cut to permission bits.
pub proof fn lemma_permissions_kept(mode: u32)
    by (bit_vector)
    ensures
        (mode & 0o777) & 0o7777 == mode & 0o777,
{
}

/// The header of a well-formed entry is not a record of zeros and reads
/// back as that entry: the path of its name, its permission bits, its kind
/// with link target or device number, and for a file that stores its
/// content, the size of the content.
pub proof fn lemma_header_read_back(entry: FsEntry, seen: Map<(u64, u64), Seq<u8>>)
    requires
        header_error(entry, seen) is None,
        entry.well_formed(),
        clean_paths(seen),
    ensures
        header_record(entry, seen).len() == 512,
        !all_zero(header_record(entry, seen)),
        record_type_flag(header_record(entry, seen)) == 48 <==> stores_content(entry, seen),
        stores_content(entry, seen) ==> record_file_size(header_record(entry, seen))
            == entry.content@.len(),
        record_entry(header_record(entry, seen), stored_content(entry, seen)) == expected_entry(
            entry,
            seen,
        ),
{
    let h = header_record(entry, seen);
    let full = archive_name(entry);
    lemma_header_layout(entry, seen);
    lemma_draft_layout(entry, seen);
    lemma_header_fields_of_draft(entry, seen);
    lemma_pow8_values();

    assert(!all_zero(h)) by {
        assert(magic_field(h)[0] == 117u8);
        assert(h[257] == 117u8);
    }

    lemma_name_read_back(entry, seen);

    assert(record_mode(h) == permissions_of(entry.meta.mode)) by {
        let bits = permissions_of(entry.meta.mode);
        lemma_permissions_text(entry.meta.mode);
        lemma_number_field(bits as nat, 7, 8, u32::MAX as nat);
        lemma_permissions_kept(entry.meta.mode);
        assert(record_mode_value(h) == bits);
    }

    assert(record_link_name(h) == link_text(entry, seen)) by {
        let link = link_text(entry, seen);
        lemma_trim_nul_padded(link, 100);
        assert(no_nul(link));
        lemma_trim_nul_clean(link);
    }

    if is_device(entry, seen) {
        let major = major_of(entry.meta.rdev);
        let minor = minor_of(entry.meta.rdev);
        lemma_octal_text(major as nat, 7);
        lemma_octal_digits_len(major as nat, 7);
        lemma_minor_text(entry.meta.rdev);
        crate::packing::lemma_minor_bound(entry.meta.rdev);
        lemma_number_field(major as nat, 7, 8, usize::MAX as nat);
        lemma_number_field(minor as nat, 7, 8, usize::MAX as nat);
        assert(device_part(device_major_field(h)) == major);
        assert(device_part(device_minor_field(h)) == minor);
        lemma_device_number(entry.meta.rdev);
        assert(record_device(h) == entry.meta.rdev);
    }

    if stores_content(entry, seen) {
        assert(entry.content@.len() == entry.content.len());
        lemma_number_field(recorded_size(entry) as nat, 11, 12, usize::MAX as nat);
    }
}

/// The entries that the reading of an archive is to give for a list of
/// entries of the tree, the table of inodes growing along the list as it
/// did when the archive was built.
pub open spec fn expected_entries(entries: Seq<FsEntry>, seen: Map<(u64, u64), Seq<u8>>) -> Seq<
    EntryView,
>
    decreases entries.len(),
{
    if entries.len() == 0 {
        Seq::empty()
    } else {
        seq![expected_entry(entries[0], seen)] + expected_entries(
            entries.skip(1),
            seen_after(entries[0], seen),
        )
    }
}

/// Every entry of the list is well formed.
pub open spec fn all_well_formed(entries: Seq<FsEntry>) -> bool {
    forall|i: int| 0 <= i < entries.len() ==> (#[trigger] entries[i]).well_formed()
}

/// Content and padding together fill whole records.
pub proof fn lemma_padding_aligns(n: nat)
    ensures
        (n + padding_len(n)) % 512 == 0,
        padding_len(n) < 512,
{
}

/// The records of an entry that has a header fill whole records.
pub proof fn lemma_entry_records_aligned(entry: FsEntry, seen: Map<(u64, u64), Seq<u8>>)
    requires
        header_error(entry, seen) is None,
    ensures
        header_record(entry, seen).len() == 512,
        entry_records(entry, seen).len() >= 512,
        entry_records(entry, seen).len() % 512 == 0,
        entry_records(entry, seen).len() == 512 + stored_content(entry, seen).len() + (
        if stores_content(entry, seen) {
            padding_len(entry.content@.len())
        } else {
            0
        }),
{
    lemma_header_layout(entry, seen);
    lemma_padding_aligns(entry.content@.len());
}

/// The records of a list of entries that all have headers fill whole
/// records.
pub proof fn lemma_records_aligned(entries: Seq<FsEntry>, seen: Map<(u64, u64), Seq<u8>>)
    requires
        first_error(entries, seen) is None,
    ensures
        records_of(entries, seen).len() % 512 == 0,
    decreases entries.len(),
{
    if entries.len() > 0 {
        lemma_entry_records_aligned(entries[0], seen);
        lemma_records_aligned(entries.skip(1), seen_after(entries[0], seen));
    }
}

/// An archive is a whole number of records and ends with two records of
/// zeros.
pub proof fn lemma_archive_shape(root: FsEntry)
    requires
        spec_archive(root) is Ok,
    ensures
        spec_archive(root)->Ok_0.len() % 512 == 0,
        spec_archive(root)->Ok_0.len() >= 1536,
        all_zero(
            spec_archive(root)->Ok_0.subrange(
                spec_archive(root)->Ok_0.len() - 1024,
                spec_archive(root)->Ok_0.len() as int,
            ),
        ),
{
    let entries = preorder(root);
    let seen = Map::<(u64, u64), Seq<u8>>::empty();
    lemma_records_aligned(entries, seen);
    assert(entries[0] == root);
    lemma_entry_records_aligned(root, seen);
    let records = records_of(entries, seen);
    let archive = records + zeros(1024);
    assert(archive.subrange(archive.len() - 1024, archive.len() as int) =~= zeros(1024));
}

/// The step of the reading that meets the records of an entry reads that
/// entry, takes exactly its records, and goes on.
pub proof fn lemma_step_reads_entry(
    entry: FsEntry,
    seen: Map<(u64, u64), Seq<u8>>,
    after: Seq<u8>,
)
    requires
        header_error(entry, seen) is None,
        entry.well_formed(),
        clean_paths(seen),
    ensures
        spec_step(entry_records(entry, seen) + after) == (StepView::Next {
            entry: expected_entry(entry, seen),
            taken: entry_records(entry, seen).len(),
        }),
        (entry_records(entry, seen) + after).skip(entry_records(entry, seen).len() as int)
            == after,
{
    let own = entry_records(entry, seen);
    let data = own + after;
    let header = header_record(entry, seen);
    let content = stored_content(entry, seen);
    lemma_header_read_back(entry, seen);
    lemma_entry_records_aligned(entry, seen);
    lemma_padding_aligns(entry.content@.len());
    assert(data.subrange(0, 512) =~= header);
    assert(data.subrange(512, 512 + content.len() as int) =~= content);
    assert(data.skip(own.len() as int) =~= after);
}

/// What holds of a list of entries holds of its first entry and of the
/// entries after it.
pub proof fn lemma_later_entries(entries: Seq<FsEntry>)
    requires
        entries.len() > 0,
        all_well_formed(entries),
    ensures
        entries[0].well_formed(),
        all_well_formed(entries.skip(1)),
{
    let later = entries.skip(1);
    assert forall|i: int| 0 <= i < later.len() implies (#[trigger] later[i]).well_formed() by {
        assert(later[i] == entries[i + 1]);
    }
}

/// The table of inodes stays free of NUL bytes over a well-formed entry.
pub proof fn lemma_clean_after(entry: FsEntry, seen: Map<(u64, u64), Seq<u8>>)
    requires
        entry.well_formed(),
        clean_paths(seen),
    ensures
        clean_paths(seen_after(entry, seen)),
{
}

/// A reading whose first step goes on is that step's entry and then the
/// reading of what the step left.
pub proof fn lemma_scan_goes_on(data: Seq<u8>, entry: EntryView, taken: nat)
    requires
        spec_step(data) == (StepView::Next { entry, taken }),
    ensures
        spec_scan(data) == scan_after(entry, taken, spec_scan(data.skip(taken as int))),
{
    reveal(spec_scan);
}

/// Reading the records of a list of entries, followed by any bytes, gives
/// the entries expected for the list and then goes on as the reading of the
/// bytes that follow.
pub proof fn lemma_scan_records(
    entries: Seq<FsEntry>,
    seen: Map<(u64, u64), Seq<u8>>,
    tail: Seq<u8>,
)
    requires
        first_error(entries, seen) is None,
        all_well_formed(entries),
        clean_paths(seen),
    ensures
        spec_scan(records_of(entries, seen) + tail) == (ScanView {
            entries: expected_entries(entries, seen) + spec_scan(tail).entries,
            end: spec_scan(tail).end,
            consumed: records_of(entries, seen).len() + spec_scan(tail).consumed,
        }),
    decreases entries.len(),
{
    let data = records_of(entries, seen) + tail;
    if entries.len() == 0 {
        assert(data =~= tail);
        assert(expected_entries(entries, seen) + spec_scan(tail).entries =~= spec_scan(
            tail,
        ).entries);
    } else {
        let entry = entries[0];
        let later = entries.skip(1);
        let seen1 = seen_after(entry, seen);
        let own = entry_records(entry, seen);
        let rest = records_of(later, seen1);
        let first = expected_entry(entry, seen);
        lemma_later_entries(entries);
        lemma_clean_after(entry, seen);
        assert(data == own + (rest + tail)) by {
            assert(data =~= own + (rest + tail));
        }
        lemma_step_reads_entry(entry, seen, rest + tail);
        lemma_scan_goes_on(data, first, own.len());
        lemma_scan_records(later, seen1, tail);
        assert(seq![first] + (expected_entries(later, seen1) + spec_scan(tail).entries)
            =~= expected_entries(entries, seen) + spec_scan(tail).entries);
    }
}

/// Reading an archive gives back the tree it was built from.
///
/// For a tree of well-formed entries, the reading of its archive gives, in
/// archive order, one entry for each entry of the tree: with the path read
/// back from its archive name, its permission bits, and by kind the content
/// of a regular file, the target of a symbolic link, the device number of
/// a device node, or for a file that was archived before under another
/// path, a hard link to that path.  The reading ends at the end marker,
/// with only the last record of zeros left unread.
pub proof fn lemma_archive_round_trip(root: FsEntry)
    requires
        spec_archive(root) is Ok,
        all_well_formed(preorder(root)),
    ensures
        spec_scan(spec_archive(root)->Ok_0) == (ScanView {
            entries: expected_entries(preorder(root), Map::empty()),
            end: ScanEnd::EndMarker,
            consumed: (spec_archive(root)->Ok_0.len() - 512) as nat,
        }),
{
    let entries = preorder(root);
    let seen = Map::<(u64, u64), Seq<u8>>::empty();
    let tail = zeros(1024);
    assert(spec_scan(tail) == ScanView {
        entries: Seq::<EntryView>::empty(),
        end: ScanEnd::EndMarker,
        consumed: 512,
    }) by {
        reveal(spec_scan);
        assert(all_zero(tail.subrange(0, 512)));
        assert(spec_step(tail) == StepView::Stop { end: ScanEnd::EndMarker, taken: 512 });
    }
    lemma_scan_records(entries, seen, tail);
    assert(expected_entries(entries, seen) + Seq::<EntryView>::empty() =~= expected_entries(
        entries,
        seen,
    ));
}

} // verus!
