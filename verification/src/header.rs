//! The 512-byte header record: its layout, its fields read back, and its
//! checksum.
use crate::numtext::{parse_number, parse_unsigned};
use vstd::prelude::*;
use vstd::slice::slice_subrange;

verus! {

/// Size of every record of an archive.
pub const RECORD_SIZE: usize = 512;

/// ASCII space.
pub const SPACE: u8 = 32;

/// ASCII `'/'`.
pub const SLASH: u8 = 47;

/// One header record, field by field in the order of the wire format.
/// Numeric fields hold octal ASCII text; text fields are NUL-padded.
#[derive(Debug)]
pub struct UStarHeader {
    pub name: [u8; 100],
    pub mode: [u8; 8],
    pub uid: [u8; 8],
    pub gid: [u8; 8],
    pub size: [u8; 12],
    pub modification_time: [u8; 12],
    pub checksum: [u8; 8],
    pub type_flag: [u8; 1],
    pub link_name: [u8; 100],
    pub ustar: [u8; 6],
    pub version: [u8; 2],
    pub user_name: [u8; 32],
    pub group_name: [u8; 32],
    pub device_major: [u8; 8],
    pub device_minor: [u8; 8],
    pub prefix: [u8; 155],
    pub padding: [u8; 12],
}

impl View for UStarHeader {
    type V = Seq<u8>;

    /// The record as it stands in an archive: the fields one after another.
    open spec fn view(&self) -> Seq<u8> {
        self.name@ + self.mode@ + self.uid@ + self.gid@ + self.size@ + self.modification_time@
            + self.checksum@ + self.type_flag@ + self.link_name@ + self.ustar@ + self.version@
            + self.user_name@ + self.group_name@ + self.device_major@ + self.device_minor@
            + self.prefix@ + self.padding@
    }
}

/// `n` zero bytes.
pub open spec fn zeros(n: nat) -> Seq<u8> {
    Seq::new(n, |i: int| 0u8)
}

/// Bytes 0..100 of a record: the entry's name, or the end of a long one.
pub open spec fn name_field(record: Seq<u8>) -> Seq<u8> {
    record.subrange(0, 100)
}

/// Bytes 100..108: permission bits.
pub open spec fn mode_field(record: Seq<u8>) -> Seq<u8> {
    record.subrange(100, 108)
}

/// Bytes 108..116: owner id.
pub open spec fn uid_field(record: Seq<u8>) -> Seq<u8> {
    record.subrange(108, 116)
}

/// Bytes 116..124: group id.
pub open spec fn gid_field(record: Seq<u8>) -> Seq<u8> {
    record.subrange(116, 124)
}

/// Bytes 124..136: content size.
pub open spec fn size_field(record: Seq<u8>) -> Seq<u8> {
    record.subrange(124, 136)
}

/// Bytes 136..148: modification time.
pub open spec fn mtime_field(record: Seq<u8>) -> Seq<u8> {
    record.subrange(136, 148)
}

/// Bytes 148..156: checksum.
pub open spec fn checksum_field(record: Seq<u8>) -> Seq<u8> {
    record.subrange(148, 156)
}

/// Byte 156: the kind of entry.
pub open spec fn record_type_flag(record: Seq<u8>) -> u8 {
    record[156]
}

/// Bytes 157..257: target of a link.
pub open spec fn link_field(record: Seq<u8>) -> Seq<u8> {
    record.subrange(157, 257)
}

/// Bytes 257..263: the format's magic.
pub open spec fn magic_field(record: Seq<u8>) -> Seq<u8> {
    record.subrange(257, 263)
}

/// Bytes 263..265: the format's version.
pub open spec fn version_field(record: Seq<u8>) -> Seq<u8> {
    record.subrange(263, 265)
}

/// Bytes 265..297: owner name.
pub open spec fn user_name_field(record: Seq<u8>) -> Seq<u8> {
    record.subrange(265, 297)
}

/// Bytes 297..329: group name.
pub open spec fn group_name_field(record: Seq<u8>) -> Seq<u8> {
    record.subrange(297, 329)
}

/// Bytes 329..337: device major number.
pub open spec fn device_major_field(record: Seq<u8>) -> Seq<u8> {
    record.subrange(329, 337)
}

/// Bytes 337..345: device minor number.
pub open spec fn device_minor_field(record: Seq<u8>) -> Seq<u8> {
    record.subrange(337, 345)
}

/// Bytes 345..500: the leading part of a long name.
pub open spec fn prefix_field(record: Seq<u8>) -> Seq<u8> {
    record.subrange(345, 500)
}

/// Bytes 500..512: reserved.
pub open spec fn padding_field(record: Seq<u8>) -> Seq<u8> {
    record.subrange(500, 512)
}

/// `s` without its trailing NUL bytes.
pub open spec fn trim_nul(s: Seq<u8>) -> Seq<u8>
    decreases s.len(),
{
    if s.len() > 0 && s.last() == 0 {
        trim_nul(s.drop_last())
    } else {
        s
    }
}

/// ASCII white space: space, tab, line feed, vertical tab, form feed,
/// carriage return.
pub open spec fn is_space(b: u8) -> bool {
    b == 32 || (9 <= b && b <= 13)
}

/// `s` without its trailing white space.
pub open spec fn trim_space_end(s: Seq<u8>) -> Seq<u8>
    decreases s.len(),
{
    if s.len() > 0 && is_space(s.last()) {
        trim_space_end(s.drop_last())
    } else {
        s
    }
}

/// `s` without its leading white space.
pub open spec fn trim_space_start(s: Seq<u8>) -> Seq<u8>
    decreases s.len(),
{
    if s.len() > 0 && is_space(s[0]) {
        trim_space_start(s.skip(1))
    } else {
        s
    }
}

/// `s` without white space at either end.
pub open spec fn trim_space(s: Seq<u8>) -> Seq<u8> {
    trim_space_start(trim_space_end(s))
}

/// The part of a numeric field before its first NUL or space.
pub open spec fn terminated_text(s: Seq<u8>) -> Seq<u8>
    decreases s.len(),
{
    if s.len() == 0 || s[0] == 0 || s[0] == 32 {
        Seq::empty()
    } else {
        seq![s[0]] + terminated_text(s.skip(1))
    }
}

/// The octal number in a field, or zero where the field holds none that
/// is at most `limit`.
pub open spec fn octal_or_zero(text: Seq<u8>, limit: nat) -> nat {
    match parse_unsigned(text, 8, limit) {
        Some(n) => n,
        None => 0,
    }
}

/// The path that a record names: the prefix, a slash and the name where the
/// prefix is not empty, else the name alone.
pub open spec fn record_file_name(record: Seq<u8>) -> Seq<u8> {
    let name = trim_nul(name_field(record));
    let prefix = trim_nul(prefix_field(record));
    if prefix.len() > 0 {
        prefix + seq![47u8] + name
    } else {
        name
    }
}

/// The content size that a record states; zero where the field is malformed.
pub open spec fn record_file_size(record: Seq<u8>) -> nat {
    octal_or_zero(trim_nul(size_field(record)), usize::MAX as nat)
}

/// The number in the mode field of a record; zero where it is malformed.
pub open spec fn record_mode_value(record: Seq<u8>) -> u32 {
    octal_or_zero(trim_nul(mode_field(record)), u32::MAX as nat) as u32
}

/// The permission bits that a record states.
pub open spec fn record_mode(record: Seq<u8>) -> u32 {
    record_mode_value(record) & 0o7777
}

/// The link target that a record states.
pub open spec fn record_link_name(record: Seq<u8>) -> Seq<u8> {
    trim_nul(link_field(record))
}

/// The number in a device field; zero where it is malformed.
pub open spec fn device_part(field: Seq<u8>) -> u64 {
    octal_or_zero(trim_space(trim_nul(field)), usize::MAX as nat) as u64
}

/// A device number made of its major and minor parts.
pub open spec fn device_number(major: u64, minor: u64) -> u64 {
    (major << 8) | minor
}

/// The device number that a record states.
pub open spec fn record_device(record: Seq<u8>) -> u64 {
    device_number(
        device_part(device_major_field(record)),
        device_part(device_minor_field(record)),
    )
}

/// The checksum that a record states, if its field holds a number.
pub open spec fn record_checksum(record: Seq<u8>) -> Option<nat> {
    parse_unsigned(terminated_text(checksum_field(record)), 8, u32::MAX as nat)
}

/// The sum of the bytes of `s`.
pub open spec fn byte_sum(s: Seq<u8>) -> nat
    decreases s.len(),
{
    if s.len() == 0 {
        0
    } else {
        byte_sum(s.drop_last()) + s.last() as nat
    }
}

/// The record with its checksum field replaced by eight spaces.
pub open spec fn blank_checksum(record: Seq<u8>) -> Seq<u8> {
    Seq::new(
        record.len(),
        |i: int|
            if 148 <= i < 156 {
                32u8
            } else {
                record[i]
            },
    )
}

/// The checksum of a record: the sum of its bytes, the checksum field
/// counted as eight spaces.
pub open spec fn record_checksum_sum(record: Seq<u8>) -> nat {
    byte_sum(blank_checksum(record))
}

/// Every byte of `s` is zero.
pub open spec fn all_zero(s: Seq<u8>) -> bool {
    forall|i: int| 0 <= i < s.len() ==> #[trigger] s[i] == 0
}

/// A header's record is 512 bytes long and each field stands at its place
/// in it.
pub proof fn lemma_header_fields(h: UStarHeader)
    ensures
        h@.len() == 512,
        name_field(h@) == h.name@,
        mode_field(h@) == h.mode@,
        uid_field(h@) == h.uid@,
        gid_field(h@) == h.gid@,
        size_field(h@) == h.size@,
        mtime_field(h@) == h.modification_time@,
        checksum_field(h@) == h.checksum@,
        record_type_flag(h@) == h.type_flag@[0],
        link_field(h@) == h.link_name@,
        magic_field(h@) == h.ustar@,
        version_field(h@) == h.version@,
        user_name_field(h@) == h.user_name@,
        group_name_field(h@) == h.group_name@,
        device_major_field(h@) == h.device_major@,
        device_minor_field(h@) == h.device_minor@,
        prefix_field(h@) == h.prefix@,
        padding_field(h@) == h.padding@,
{
    assert(name_field(h@) =~= h.name@);
    assert(mode_field(h@) =~= h.mode@);
    assert(uid_field(h@) =~= h.uid@);
    assert(gid_field(h@) =~= h.gid@);
    assert(size_field(h@) =~= h.size@);
    assert(mtime_field(h@) =~= h.modification_time@);
    assert(checksum_field(h@) =~= h.checksum@);
    assert(link_field(h@) =~= h.link_name@);
    assert(magic_field(h@) =~= h.ustar@);
    assert(version_field(h@) =~= h.version@);
    assert(user_name_field(h@) =~= h.user_name@);
    assert(group_name_field(h@) =~= h.group_name@);
    assert(device_major_field(h@) =~= h.device_major@);
    assert(device_minor_field(h@) =~= h.device_minor@);
    assert(prefix_field(h@) =~= h.prefix@);
    assert(padding_field(h@) =~= h.padding@);
}

/// Copies `N` bytes of `bytes`, from `offset` on, into `field`.
fn read_field<const N: usize>(field: &mut [u8; N], bytes: &[u8], offset: usize)
    requires
        offset + N <= bytes@.len(),
    ensures
        final(field)@ == bytes@.subrange(offset as int, offset + N),
{
    let len = bytes.len();
    let mut i: usize = 0;
    while i < N
        invariant
            i <= N,
            offset + N <= len == bytes@.len(),
            forall|j: int| 0 <= j < i ==> field@[j] == bytes@[offset + j],
        decreases N - i,
    {
        field[i] = bytes[offset + i];
        i = i + 1;
    }
    assert(field@ =~= bytes@.subrange(offset as int, offset + N));
}

/// The slice without its trailing NUL bytes.
pub fn trim_nul_bytes(text: &[u8]) -> (trimmed: &[u8])
    ensures
        trimmed@ == trim_nul(text@),
{
    let mut n: usize = text.len();
    assert(text@.take(n as int) =~= text@);
    while n > 0 && text[n - 1] == 0
        invariant
            n <= text@.len(),
            trim_nul(text@) == trim_nul(text@.take(n as int)),
        decreases n,
    {
        assert(text@.take(n as int).drop_last() =~= text@.take(n - 1));
        n = n - 1;
    }
    assert(text@.take(n as int) =~= text@.subrange(0, n as int));
    slice_subrange(text, 0, n)
}

/// Whether `b` is ASCII white space.
pub fn is_space_byte(b: u8) -> (r: bool)
    ensures
        r == is_space(b),
{
    b == 32 || (9 <= b && b <= 13)
}

/// The slice without white space at either end.
pub fn trim_space_bytes(text: &[u8]) -> (trimmed: &[u8])
    ensures
        trimmed@ == trim_space(text@),
{
    let mut n: usize = text.len();
    assert(text@.take(n as int) =~= text@);
    while n > 0 && is_space_byte(text[n - 1])
        invariant
            n <= text@.len(),
            trim_space_end(text@) == trim_space_end(text@.take(n as int)),
        decreases n,
    {
        assert(text@.take(n as int).drop_last() =~= text@.take(n - 1));
        n = n - 1;
    }
    let ghost ended = text@.take(n as int);
    let mut m: usize = 0;
    assert(ended.skip(0) =~= ended);
    while m < n && is_space_byte(text[m])
        invariant
            m <= n <= text@.len(),
            ended == text@.take(n as int),
            trim_space_start(ended) == trim_space_start(ended.skip(m as int)),
        decreases n - m,
    {
        assert(ended.skip(m as int).skip(1) =~= ended.skip(m + 1));
        m = m + 1;
    }
    assert(ended.skip(m as int) =~= text@.subrange(m as int, n as int));
    slice_subrange(text, m, n)
}

/// The octal number that `text` holds, or zero where it holds none that is
/// at most `limit`.
pub fn parse_octal_or_zero(text: &[u8], limit: u64) -> (value: u64)
    ensures
        value == octal_or_zero(text@, limit as nat),
        value <= limit,
{
    match parse_number(text, 8, limit) {
        Some(n) => n,
        None => 0,
    }
}

/// Keeps of `bits` what `nix` knows as permission bits.
///
/// Calls `nix::sys::stat::Mode::from_bits_truncate` and reads the result
/// back with `Mode::bits`.  `Mode` is a set of flags over the read, write
/// and execute bits of owner, group and others and the set-user-id,
/// set-group-id and sticky bits, so what comes back is taken to be `bits`
/// masked with `0o7777`; this is not proved here.
#[verifier::external_body]
fn permission_bits(bits: u32) -> (kept: u32)
    ensures
        kept == bits & 0o7777,
{
    nix::sys::stat::Mode::from_bits_truncate(bits as nix::libc::mode_t).bits() as u32
}

impl UStarHeader {
    /// A header whose 512 bytes are all zero.
    pub fn new() -> (header: UStarHeader)
        ensures
            header@ == zeros(512),
    {
        let header = UStarHeader {
            name: [0; 100],
            mode: [0; 8],
            uid: [0; 8],
            gid: [0; 8],
            size: [0; 12],
            modification_time: [0; 12],
            checksum: [0; 8],
            type_flag: [0; 1],
            link_name: [0; 100],
            ustar: [0; 6],
            version: [0; 2],
            user_name: [0; 32],
            group_name: [0; 32],
            device_major: [0; 8],
            device_minor: [0; 8],
            prefix: [0; 155],
            padding: [0; 12],
        };
        assert(header@ =~= zeros(512));
        header
    }

    /// The record as it is written to an archive.
    pub fn as_bytes(&self) -> (bytes: Vec<u8>)
        ensures
            bytes@ == self@,
            bytes@.len() == 512,
    {
        let mut bytes: Vec<u8> = Vec::with_capacity(512);
        bytes.extend_from_slice(&self.name);
        bytes.extend_from_slice(&self.mode);
        bytes.extend_from_slice(&self.uid);
        bytes.extend_from_slice(&self.gid);
        bytes.extend_from_slice(&self.size);
        bytes.extend_from_slice(&self.modification_time);
        bytes.extend_from_slice(&self.checksum);
        bytes.push(self.type_flag[0]);
        bytes.extend_from_slice(&self.link_name);
        bytes.extend_from_slice(&self.ustar);
        bytes.extend_from_slice(&self.version);
        bytes.extend_from_slice(&self.user_name);
        bytes.extend_from_slice(&self.group_name);
        bytes.extend_from_slice(&self.device_major);
        bytes.extend_from_slice(&self.device_minor);
        bytes.extend_from_slice(&self.prefix);
        bytes.extend_from_slice(&self.padding);
        assert(bytes@ =~= self@);
        bytes
    }

    /// The header that the first 512 bytes of `bytes` hold.
    pub fn from_bytes(bytes: &[u8]) -> (header: UStarHeader)
        requires
            bytes@.len() >= 512,
        ensures
            header@ == bytes@.subrange(0, 512),
    {
        let mut header = UStarHeader::new();
        read_field(&mut header.name, bytes, 0);
        read_field(&mut header.mode, bytes, 100);
        read_field(&mut header.uid, bytes, 108);
        read_field(&mut header.gid, bytes, 116);
        read_field(&mut header.size, bytes, 124);
        read_field(&mut header.modification_time, bytes, 136);
        read_field(&mut header.checksum, bytes, 148);
        read_field(&mut header.type_flag, bytes, 156);
        read_field(&mut header.link_name, bytes, 157);
        read_field(&mut header.ustar, bytes, 257);
        read_field(&mut header.version, bytes, 263);
        read_field(&mut header.user_name, bytes, 265);
        read_field(&mut header.group_name, bytes, 297);
        read_field(&mut header.device_major, bytes, 329);
        read_field(&mut header.device_minor, bytes, 337);
        read_field(&mut header.prefix, bytes, 345);
        read_field(&mut header.padding, bytes, 500);
        assert(header@ =~= bytes@.subrange(0, 512));
        header
    }

    /// The path of the entry: prefix, slash and name where the prefix is
    /// not empty, else the name alone, each without its NUL padding.
    pub fn file_name(&self) -> (path: Vec<u8>)
        ensures
            path@ == record_file_name(self@),
    {
        proof {
            lemma_header_fields(*self);
        }
        let name = trim_nul_bytes(self.name.as_slice());
        let prefix = trim_nul_bytes(self.prefix.as_slice());
        let mut path: Vec<u8> = Vec::new();
        if prefix.len() > 0 {
            path.extend_from_slice(prefix);
            path.push(SLASH);
        }
        path.extend_from_slice(name);
        assert(path@ =~= record_file_name(self@));
        path
    }

    /// The size of the entry's content: the octal number in the size field,
    /// zero where the field holds none.
    pub fn file_size(&self) -> (size: usize)
        ensures
            size == record_file_size(self@),
    {
        proof {
            lemma_header_fields(*self);
        }
        let text = trim_nul_bytes(self.size.as_slice());
        parse_octal_or_zero(text, usize::MAX as u64) as usize
    }

    /// The permission bits of the entry: the octal number in the mode
    /// field, zero where the field holds none, cut down to permission bits.
    pub fn get_mode(&self) -> (mode: u32)
        ensures
            mode == record_mode(self@),
    {
        proof {
            lemma_header_fields(*self);
        }
        let text = trim_nul_bytes(self.mode.as_slice());
        permission_bits(parse_octal_or_zero(text, u32::MAX as u64) as u32)
    }

    /// The device number of a device entry, from its major and minor
    /// fields; a malformed field counts as zero.
    pub fn device(&self) -> (device: u64)
        ensures
            device == record_device(self@),
    {
        proof {
            lemma_header_fields(*self);
        }
        let major = parse_octal_or_zero(
            trim_space_bytes(trim_nul_bytes(self.device_major.as_slice())),
            usize::MAX as u64,
        );
        let minor = parse_octal_or_zero(
            trim_space_bytes(trim_nul_bytes(self.device_minor.as_slice())),
            usize::MAX as u64,
        );
        (major << 8) | minor
    }

    /// The byte that tells the kind of the entry.
    pub fn kind_flag(&self) -> (flag: u8)
        ensures
            flag == record_type_flag(self@),
    {
        proof {
            lemma_header_fields(*self);
        }
        self.type_flag[0]
    }

    /// The target of a link entry, without its NUL padding.
    pub fn link_target(&self) -> (target: Vec<u8>)
        ensures
            target@ == record_link_name(self@),
    {
        proof {
            lemma_header_fields(*self);
        }
        let text = trim_nul_bytes(self.link_name.as_slice());
        let mut target: Vec<u8> = Vec::new();
        target.extend_from_slice(text);
        assert(target@ =~= text@);
        target
    }

    /// The checksum that the header states, if its field holds a number.
    pub fn stored_checksum(&self) -> (sum: Option<u32>)
        ensures
            sum == match record_checksum(self@) {
                Some(n) => Some(n as u32),
                None => None,
            },
    {
        proof {
            lemma_header_fields(*self);
        }
        let field = self.checksum.as_slice();
        let mut n: usize = 0;
        proof {
            assert(field@.skip(0) =~= field@);
            assert(field@.take(0) + terminated_text(field@) =~= terminated_text(field@));
        }
        while n < field.len() && field[n] != 0 && field[n] != SPACE
            invariant
                n <= field@.len(),
                terminated_text(field@) == field@.take(n as int) + terminated_text(
                    field@.skip(n as int),
                ),
            decreases field.len() - n,
        {
            proof {
                let rest = field@.skip(n as int);
                assert(rest.skip(1) =~= field@.skip(n + 1));
                assert(field@.take(n as int) + seq![rest[0]] =~= field@.take(n + 1));
                assert(field@.take(n as int) + (seq![rest[0]] + terminated_text(rest.skip(1)))
                    =~= field@.take(n + 1) + terminated_text(rest.skip(1)));
            }
            n = n + 1;
        }
        proof {
            assert(terminated_text(field@.skip(n as int)) =~= Seq::<u8>::empty());
            assert(field@.take(n as int) + Seq::<u8>::empty() =~= field@.subrange(0, n as int));
        }
        match parse_number(slice_subrange(field, 0, n), 8, u32::MAX as u64) {
            Some(v) => Some(v as u32),
            None => None,
        }
    }
}

/// The checksum of a header: the sum of its 512 bytes, the checksum field
/// counted as eight spaces whatever it holds.
pub fn calculate_checksum(header: &UStarHeader) -> (checksum: u32)
    ensures
        checksum == record_checksum_sum(header@),
        checksum <= 512 * 255,
{
    let bytes = header.as_bytes();
    let ghost blank = blank_checksum(header@);
    let mut checksum: u32 = 0;
    let mut i: usize = 0;
    while i < 512
        invariant
            i <= 512,
            bytes@ == header@,
            bytes@.len() == 512,
            blank == blank_checksum(header@),
            checksum == byte_sum(blank.take(i as int)),
            checksum <= 255 * i,
        decreases 512 - i,
    {
        assert(blank.take(i + 1).drop_last() =~= blank.take(i as int));
        if 148 <= i && i < 156 {
            checksum = checksum + SPACE as u32;
        } else {
            checksum = checksum + bytes[i] as u32;
        }
        i = i + 1;
    }
    assert(blank.take(512) =~= blank);
    checksum
}

} // verus!
