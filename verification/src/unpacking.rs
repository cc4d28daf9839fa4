//! Reading an archive: the entries that its records describe, in order, up
//! to the end marker or the end of the bytes, and the rules for carrying
//! them out.
use crate::gzip::{gunzip, gunzip_stream};
use crate::header::{
    all_zero, record_device, record_file_name, record_file_size, record_link_name, record_mode,
    record_type_flag, UStarHeader,
};
use crate::packing::{padding_len, spec_archive_file_name, tar_gz_suffix, tar_suffix};
use vstd::prelude::*;
use vstd::slice::slice_subrange;

verus! {

/// What is to be made for one entry of an archive.
#[derive(Debug, PartialEq, Eq)]
pub enum Action {
    /// A regular file with this content, its parent directories made first.
    WriteFile { content: Vec<u8> },
    /// A hard link to the path `target`, extracted before.
    HardLink { target: Vec<u8> },
    /// A symbolic link to `target`, which need not exist.
    Symlink { target: Vec<u8> },
    /// A character device node for `device`.
    CharDevice { device: u64 },
    /// A block device node for `device`.
    BlockDevice { device: u64 },
    /// A directory.
    Directory,
    /// A named pipe.
    Fifo,
    /// Nothing: the type flag is none of `'0'` to `'6'`.
    Unknown { flag: u8 },
}

/// One entry of an archive: the path to make, its permission bits and what
/// to make there.
#[derive(Debug, PartialEq, Eq)]
pub struct ExtractedEntry {
    pub path: Vec<u8>,
    pub mode: u32,
    pub action: Action,
}

/// How the reading of an archive ended.
#[derive(Clone, Copy, Debug, PartialEq, Eq, Structural)]
pub enum ScanEnd {
    /// At a record of zeros: the end marker.
    EndMarker,
    /// Where less than one record was left: an archive without end marker.
    Exhausted,
    /// Inside the content or the padding of a regular file: the archive is
    /// cut short, and the extraction fails once the entries read so far
    /// are made.
    Truncated,
}

/// The entries read from an archive, how the reading ended, and how many
/// bytes the reads that succeeded took.
#[derive(Debug, PartialEq, Eq)]
pub struct ExtractPlan {
    pub entries: Vec<ExtractedEntry>,
    pub end: ScanEnd,
    pub consumed: usize,
}

/// An [`Action`] as a mathematical value.
pub enum ActionView {
    WriteFile { content: Seq<u8> },
    HardLink { target: Seq<u8> },
    Symlink { target: Seq<u8> },
    CharDevice { device: u64 },
    BlockDevice { device: u64 },
    Directory,
    Fifo,
    Unknown { flag: u8 },
}

/// An [`ExtractedEntry`] as a mathematical value.
pub struct EntryView {
    pub path: Seq<u8>,
    pub mode: u32,
    pub action: ActionView,
}

/// An [`ExtractPlan`] as a mathematical value.
pub struct ScanView {
    pub entries: Seq<EntryView>,
    pub end: ScanEnd,
    pub consumed: nat,
}

impl View for Action {
    type V = ActionView;

    open spec fn view(&self) -> ActionView {
        match *self {
            Action::WriteFile { content } => ActionView::WriteFile { content: content@ },
            Action::HardLink { target } => ActionView::HardLink { target: target@ },
            Action::Symlink { target } => ActionView::Symlink { target: target@ },
            Action::CharDevice { device } => ActionView::CharDevice { device },
            Action::BlockDevice { device } => ActionView::BlockDevice { device },
            Action::Directory => ActionView::Directory,
            Action::Fifo => ActionView::Fifo,
            Action::Unknown { flag } => ActionView::Unknown { flag },
        }
    }
}

impl View for ExtractedEntry {
    type V = EntryView;

    open spec fn view(&self) -> EntryView {
        EntryView { path: self.path@, mode: self.mode, action: self.action@ }
    }
}

/// The entries of a list as mathematical values.
pub open spec fn entries_view(entries: Seq<ExtractedEntry>) -> Seq<EntryView> {
    Seq::new(entries.len(), |i: int| entries[i]@)
}

impl View for ExtractPlan {
    type V = ScanView;

    open spec fn view(&self) -> ScanView {
        ScanView {
            entries: entries_view(self.entries@),
            end: self.end,
            consumed: self.consumed as nat,
        }
    }
}

/// What a header record asks to make, given the content that follows it.
pub open spec fn record_action(record: Seq<u8>, content: Seq<u8>) -> ActionView {
    let flag = record_type_flag(record);
    if flag == 48 {
        ActionView::WriteFile { content }
    } else if flag == 49 {
        ActionView::HardLink { target: record_link_name(record) }
    } else if flag == 50 {
        ActionView::Symlink { target: record_link_name(record) }
    } else if flag == 51 {
        ActionView::CharDevice { device: record_device(record) }
    } else if flag == 52 {
        ActionView::BlockDevice { device: record_device(record) }
    } else if flag == 53 {
        ActionView::Directory
    } else if flag == 54 {
        ActionView::Fifo
    } else {
        ActionView::Unknown { flag }
    }
}

/// The entry that a header record describes, given the content that
/// follows it.
pub open spec fn record_entry(record: Seq<u8>, content: Seq<u8>) -> EntryView {
    EntryView {
        path: record_file_name(record),
        mode: record_mode(record),
        action: record_action(record, content),
    }
}

/// A scan that read `entry` in `taken` bytes and then went on as `rest`.
pub open spec fn scan_after(entry: EntryView, taken: nat, rest: ScanView) -> ScanView {
    ScanView {
        entries: seq![entry] + rest.entries,
        end: rest.end,
        consumed: taken + rest.consumed,
    }
}

/// One step of the reading, as a mathematical value.
pub enum StepView {
    /// The reading ends without another entry, `taken` bytes further on.
    Stop { end: ScanEnd, taken: nat },
    /// The reading ends inside the padding of the file `entry`.
    Last { entry: EntryView, taken: nat },
    /// `entry` was read in `taken` bytes and the reading goes on.
    Next { entry: EntryView, taken: nat },
}

/// One step of the reading, on the bytes that are left.
///
/// A step takes one record.  A record of zeros ends the reading, and so
/// does the lack of a whole record.  Any other record is a header; after
/// the header of a regular file come as many bytes of content as its size
/// field states and the padding to the next multiple of 512, and where
/// either is cut short the reading ends there, with the file counted only
/// if its content was whole.
pub open spec fn spec_step(data: Seq<u8>) -> StepView {
    if data.len() < 512 {
        StepView::Stop { end: ScanEnd::Exhausted, taken: 0 }
    } else {
        let record = data.subrange(0, 512);
        if all_zero(record) {
            StepView::Stop { end: ScanEnd::EndMarker, taken: 512 }
        } else if record_type_flag(record) == 48 {
            let size = record_file_size(record);
            let padding = padding_len(size);
            if data.len() < 512 + size {
                StepView::Stop { end: ScanEnd::Truncated, taken: 512 }
            } else {
                let entry = record_entry(record, data.subrange(512, 512 + size as int));
                if data.len() < 512 + size + padding {
                    StepView::Last { entry, taken: 512 + size }
                } else {
                    StepView::Next { entry, taken: 512 + size + padding }
                }
            }
        } else {
            StepView::Next { entry: record_entry(record, Seq::empty()), taken: 512 }
        }
    }
}

/// The reading of an archive from its first byte: step after step until
/// one ends it.
#[verifier::opaque]
pub open spec fn spec_scan(data: Seq<u8>) -> ScanView
    decreases data.len(),
{
    match spec_step(data) {
        StepView::Stop { end, taken } => ScanView { entries: Seq::empty(), end, consumed: taken },
        StepView::Last { entry, taken } => ScanView {
            entries: seq![entry],
            end: ScanEnd::Truncated,
            consumed: taken,
        },
        StepView::Next { entry, taken } => scan_after(
            entry,
            taken,
            spec_scan(data.skip(taken as int)),
        ),
    }
}

/// Whether every byte of `block` is zero.
pub fn is_zero_block(block: &[u8]) -> (zero: bool)
    ensures
        zero == all_zero(block@),
{
    let mut i: usize = 0;
    while i < block.len()
        invariant
            i <= block@.len(),
            forall|j: int| 0 <= j < i ==> block@[j] == 0,
        decreases block.len() - i,
    {
        if block[i] != 0 {
            return false;
        }
        i = i + 1;
    }
    true
}

/// The entry that `header` describes, given the content that follows it.
pub fn entry_of(header: &UStarHeader, content: Vec<u8>) -> (entry: ExtractedEntry)
    ensures
        entry@ == record_entry(header@, content@),
{
    let flag = header.kind_flag();
    let action = if flag == 48 {
        Action::WriteFile { content }
    } else if flag == 49 {
        Action::HardLink { target: header.link_target() }
    } else if flag == 50 {
        Action::Symlink { target: header.link_target() }
    } else if flag == 51 {
        Action::CharDevice { device: header.device() }
    } else if flag == 52 {
        Action::BlockDevice { device: header.device() }
    } else if flag == 53 {
        Action::Directory
    } else if flag == 54 {
        Action::Fifo
    } else {
        Action::Unknown { flag }
    };
    ExtractedEntry { path: header.file_name(), mode: header.get_mode(), action }
}

/// One step of the reading.
#[derive(Debug, PartialEq, Eq)]
pub enum Step {
    /// The reading ends without another entry, `taken` bytes further on.
    Stop { end: ScanEnd, taken: usize },
    /// The reading ends inside the padding of the file `entry`.
    Last { entry: ExtractedEntry, taken: usize },
    /// `entry` was read in `taken` bytes and the reading goes on.
    Next { entry: ExtractedEntry, taken: usize },
}

impl View for Step {
    type V = StepView;

    open spec fn view(&self) -> StepView {
        match *self {
            Step::Stop { end, taken } => StepView::Stop { end, taken: taken as nat },
            Step::Last { entry, taken } => StepView::Last { entry: entry@, taken: taken as nat },
            Step::Next { entry, taken } => StepView::Next { entry: entry@, taken: taken as nat },
        }
    }
}

/// Reads one step of the archive `data`, from the byte at `offset` on.
pub fn next_entry(data: &[u8], offset: usize) -> (step: Step)
    requires
        offset <= data@.len(),
    ensures
        step@ == spec_step(data@.skip(offset as int)),
{
    let len = data.len();
    let ghost rest = data@.skip(offset as int);
    if len - offset < 512 {
        return Step::Stop { end: ScanEnd::Exhausted, taken: 0 };
    }
    let block = slice_subrange(data, offset, offset + 512);
    assert(block@ =~= rest.subrange(0, 512));
    if is_zero_block(block) {
        return Step::Stop { end: ScanEnd::EndMarker, taken: 512 };
    }
    let header = UStarHeader::from_bytes(block);
    assert(header@ =~= block@);
    if header.kind_flag() == 48 {
        let size = header.file_size();
        if len - offset - 512 < size {
            return Step::Stop { end: ScanEnd::Truncated, taken: 512 };
        }
        let start = offset + 512;
        let mut content: Vec<u8> = Vec::new();
        content.extend_from_slice(slice_subrange(data, start, start + size));
        assert(content@ =~= rest.subrange(512, 512 + size));
        let entry = entry_of(&header, content);
        let padding = (512 - size % 512) % 512;
        if len - start - size < padding {
            Step::Last { entry, taken: 512 + size }
        } else {
            Step::Next { entry, taken: 512 + size + padding }
        }
    } else {
        Step::Next { entry: entry_of(&header, Vec::new()), taken: 512 }
    }
}

/// Reads the archive `data` from its first byte: the entries that its
/// headers describe, in order, until a record of zeros or the end of the
/// bytes.
pub fn scan_archive(data: &[u8]) -> (plan: ExtractPlan)
    ensures
        plan@ == spec_scan(data@),
{
    let len = data.len();
    let mut entries: Vec<ExtractedEntry> = Vec::new();
    let mut offset: usize = 0;
    reveal(spec_scan);
    assert(data@.skip(0) =~= data@);
    assert(entries_view(entries@) + spec_scan(data@).entries =~= spec_scan(data@).entries);
    loop
        invariant
            offset <= len == data@.len(),
            spec_scan(data@).entries == entries_view(entries@) + spec_scan(
                data@.skip(offset as int),
            ).entries,
            spec_scan(data@).end == spec_scan(data@.skip(offset as int)).end,
            spec_scan(data@).consumed == offset + spec_scan(data@.skip(offset as int)).consumed,
        decreases len - offset,
    {
        let ghost rest = data@.skip(offset as int);
        let ghost done = entries_view(entries@);
        reveal(spec_scan);
        match next_entry(data, offset) {
            Step::Stop { end, taken } => {
                assert(done + Seq::<EntryView>::empty() =~= done);
                return ExtractPlan { entries, end, consumed: offset + taken };
            },
            Step::Last { entry, taken } => {
                let ghost last = entry@;
                entries.push(entry);
                assert(entries_view(entries@) =~= done + seq![last]);
                return ExtractPlan { entries, end: ScanEnd::Truncated, consumed: offset + taken };
            },
            Step::Next { entry, taken } => {
                let ghost read = entry@;
                entries.push(entry);
                proof {
                    assert(entries_view(entries@) =~= done + seq![read]);
                    assert(rest.skip(taken as int) =~= data@.skip(offset + taken));
                    assert(done + (seq![read] + spec_scan(rest.skip(taken as int)).entries) =~= (
                    done + seq![read]) + spec_scan(rest.skip(taken as int)).entries);
                }
                offset = offset + taken;
            },
        }
    }
}

/// Reads the archive that the file content `data` holds: `data` itself, or
/// with `is_compressed` what its gzip stream decodes to.
pub fn extract_files(data: &[u8], is_compressed: bool) -> (plan: ExtractPlan)
    ensures
        plan@ == spec_scan(
            if is_compressed {
                gunzip_stream(data@)
            } else {
                data@
            },
        ),
{
    if is_compressed {
        let tar = gunzip(data);
        scan_archive(tar.as_slice())
    } else {
        scan_archive(data)
    }
}

/// `s` ends with `suffix`.
pub open spec fn ends_with(s: Seq<u8>, suffix: Seq<u8>) -> bool {
    s.len() >= suffix.len() && s.skip(s.len() - suffix.len()) == suffix
}

/// What the name of an archive file tells of the file: `Some(true)` for a
/// name that ends with `".tar.gz"`, a compressed archive; `Some(false)` for
/// one that ends with `".tar"`, a plain archive; `None` for any other name.
pub open spec fn spec_archive_compression(file_name: Seq<u8>) -> Option<bool> {
    if ends_with(file_name, tar_gz_suffix()) {
        Some(true)
    } else if ends_with(file_name, tar_suffix()) {
        Some(false)
    } else {
        None
    }
}

/// Whether `text` ends with `suffix`.
pub fn has_suffix(text: &[u8], suffix: &[u8]) -> (found: bool)
    ensures
        found == ends_with(text@, suffix@),
{
    if text.len() < suffix.len() {
        return false;
    }
    let len = text.len();
    let start = len - suffix.len();
    let mut i: usize = 0;
    while i < suffix.len()
        invariant
            i <= suffix@.len(),
            start + suffix@.len() == len == text@.len(),
            forall|j: int| 0 <= j < i ==> text@[start + j] == suffix@[j],
        decreases suffix.len() - i,
    {
        if text[start + i] != suffix[i] {
            assert(text@.skip(start as int)[i as int] != suffix@[i as int]);
            return false;
        }
        i = i + 1;
    }
    assert(text@.skip(start as int) =~= suffix@);
    true
}

/// Whether the archive file of this name is compressed, going by the end of
/// the name; `None` where the name is that of no archive.
pub fn archive_compression(file_name: &[u8]) -> (compressed: Option<bool>)
    ensures
        compressed == spec_archive_compression(file_name@),
{
    let tar_gz: [u8; 7] = [46, 116, 97, 114, 46, 103, 122];
    let tar: [u8; 4] = [46, 116, 97, 114];
    assert(tar_gz@ =~= tar_gz_suffix());
    assert(tar@ =~= tar_suffix());
    if has_suffix(file_name, tar_gz.as_slice()) {
        Some(true)
    } else if has_suffix(file_name, tar.as_slice()) {
        Some(false)
    } else {
        None
    }
}

/// The name that an archive file is given tells whether it is compressed.
pub proof fn lemma_file_name_tells_compression(archive_name: Seq<u8>, compress: bool)
    ensures
        spec_archive_compression(spec_archive_file_name(archive_name, compress)) == Some(
            compress,
        ),
{
    let name = spec_archive_file_name(archive_name, compress);
    let n = archive_name.len() as int;
    if compress {
        assert(tar_gz_suffix().len() == 7);
        assert(name.len() == n + 7);
        assert(name.skip(n) =~= tar_gz_suffix());
    } else {
        assert(tar_suffix().len() == 4);
        assert(tar_gz_suffix().len() == 7);
        assert(name.len() == n + 4);
        assert(name.skip(n) =~= tar_suffix());
        if name.len() >= 7 {
            let end = name.skip(name.len() - 7);
            assert(end[6] == name[n + 3]);
            assert(name[n + 3] == tar_suffix()[3]);
            assert(tar_suffix()[3] == 114u8);
            assert(tar_gz_suffix()[6] == 122u8);
            assert(end != tar_gz_suffix());
        }
    }
}

/// What the caller wants done with a directory that exists already.
#[derive(Clone, Copy, Debug, PartialEq, Eq, Structural)]
pub enum OverwritePolicy {
    /// Remove it with all it holds and make it anew.
    Overwrite,
    /// Leave it as it is.
    Skip,
    /// Give the extraction up.
    Fail,
}

/// What to do for a directory entry.
#[derive(Clone, Copy, Debug, PartialEq, Eq, Structural)]
pub enum DirectoryStep {
    /// Make the directory.
    Create,
    /// Remove the directory that is there, then make it.
    Replace,
    /// Do nothing.
    Keep,
    /// Stop with an error.
    Refuse,
}

/// The step for a directory entry: a path that does not exist is made; for
/// one that exists the policy decides.
pub open spec fn spec_directory_step(exists: bool, policy: OverwritePolicy) -> DirectoryStep {
    if !exists {
        DirectoryStep::Create
    } else {
        match policy {
            OverwritePolicy::Overwrite => DirectoryStep::Replace,
            OverwritePolicy::Skip => DirectoryStep::Keep,
            OverwritePolicy::Fail => DirectoryStep::Refuse,
        }
    }
}

/// The step for a directory entry whose path does or does not exist, under
/// the caller's policy.
pub fn directory_step(exists: bool, policy: OverwritePolicy) -> (step: DirectoryStep)
    ensures
        step == spec_directory_step(exists, policy),
{
    if !exists {
        DirectoryStep::Create
    } else {
        match policy {
            OverwritePolicy::Overwrite => DirectoryStep::Replace,
            OverwritePolicy::Skip => DirectoryStep::Keep,
            OverwritePolicy::Fail => DirectoryStep::Refuse,
        }
    }
}

/// Why an entry could not be made.
#[derive(Clone, Copy, Debug, PartialEq, Eq, Structural)]
pub enum Failure {
    /// The process lacks the privilege.
    Denied,
    /// Any other reason.
    Other,
}

/// How the extraction goes on after an entry could not be made.
#[derive(Clone, Copy, Debug, PartialEq, Eq, Structural)]
pub enum Verdict {
    /// Report the failure and go on with the next entry.
    Continue,
    /// Give the extraction up with the failure as its error.
    Abort,
}

/// The verdict on a failure.  A device node that cannot be made never stops
/// the extraction, a named pipe only where the reason is not a lack of
/// privilege, and an entry of unknown type is passed over; every other
/// failure stops it.
pub open spec fn spec_after_failure(action: ActionView, failure: Failure) -> Verdict {
    match action {
        ActionView::CharDevice { .. } => Verdict::Continue,
        ActionView::BlockDevice { .. } => Verdict::Continue,
        ActionView::Unknown { .. } => Verdict::Continue,
        ActionView::Fifo => if failure == Failure::Denied {
            Verdict::Continue
        } else {
            Verdict::Abort
        },
        _ => Verdict::Abort,
    }
}

/// How the extraction goes on after `action` failed for the given reason.
pub fn after_failure(action: &Action, failure: Failure) -> (verdict: Verdict)
    ensures
        verdict == spec_after_failure(action@, failure),
{
    match action {
        Action::CharDevice { .. } => Verdict::Continue,
        Action::BlockDevice { .. } => Verdict::Continue,
        Action::Unknown { .. } => Verdict::Continue,
        Action::Fifo => match failure {
            Failure::Denied => Verdict::Continue,
            Failure::Other => Verdict::Abort,
        },
        _ => Verdict::Abort,
    }
}

} // verus!
