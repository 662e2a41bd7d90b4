//! The catalog layout of a DFS image, stated over its bytes: what a decoder
//! reads from each offset, and the first fault it meets.

use vstd::prelude::*;

use crate::dfs::disc::{boot_option_bits, boot_option_from_bits, DiscView};
use crate::dfs::file::{lemma_key_lt_asymmetric, FileView};
use crate::dfs::DFSError;
use crate::support::{
    ascii_chars, is_bcd_byte, is_first_name_fault, is_printing, is_valid_name, name_fault_at,
};

verus! {

/// The twelve bytes of the disc name: eight in sector 0, four in sector 1.
pub open spec fn disc_name_buf(s: Seq<u8>) -> Seq<u8> {
    s.subrange(0, 8) + s.subrange(0x100, 0x104)
}

/// The image offset of byte `p` of the disc name.
pub open spec fn disc_name_offset(p: int) -> int {
    if p < 8 {
        p
    } else {
        0x100 + (p - 8)
    }
}

/// Count of leading bytes above space: a space or a control byte ends a
/// disc name.
pub open spec fn disc_name_len(buf: Seq<u8>) -> int
    decreases buf.len(),
{
    if buf.len() == 0 || buf[0] <= 0x20 {
        0
    } else {
        1 + disc_name_len(buf.drop_first())
    }
}

/// Count of leading bytes other than space: a space ends a file name.
pub open spec fn file_name_len(buf: Seq<u8>) -> int
    decreases buf.len(),
{
    if buf.len() == 0 || buf[0] == 0x20 {
        0
    } else {
        1 + file_name_len(buf.drop_first())
    }
}

/// Index of the first byte that is not printing ASCII, or the length.
pub open spec fn first_unprintable(buf: Seq<u8>) -> int
    decreases buf.len(),
{
    if buf.len() == 0 || !is_printing(buf[0]) {
        0
    } else {
        1 + first_unprintable(buf.drop_first())
    }
}

pub proof fn lemma_disc_name_len(buf: Seq<u8>, k: int)
    requires
        0 <= k <= buf.len(),
        forall|j: int| 0 <= j < k ==> buf[j] > 0x20,
        k == buf.len() || buf[k] <= 0x20,
    ensures
        disc_name_len(buf) == k,
    decreases k,
{
    if k > 0 {
        lemma_disc_name_len(buf.drop_first(), k - 1);
    }
}

pub proof fn lemma_file_name_len(buf: Seq<u8>, k: int)
    requires
        0 <= k <= buf.len(),
        forall|j: int| 0 <= j < k ==> buf[j] != 0x20,
        k == buf.len() || buf[k] == 0x20,
    ensures
        file_name_len(buf) == k,
    decreases k,
{
    if k > 0 {
        lemma_file_name_len(buf.drop_first(), k - 1);
    }
}

pub proof fn lemma_first_unprintable(buf: Seq<u8>, k: int)
    requires
        0 <= k <= buf.len(),
        forall|j: int| 0 <= j < k ==> is_printing(buf[j]),
        k == buf.len() || !is_printing(buf[k]),
    ensures
        first_unprintable(buf) == k,
    decreases k,
{
    if k > 0 {
        lemma_first_unprintable(buf.drop_first(), k - 1);
    }
}

/// For a name that fits, name validation fails exactly at the first byte
/// that is not printing ASCII.
pub proof fn lemma_name_check(buf: Seq<u8>, n: int, r: Option<int>)
    requires
        buf.len() <= n,
        r matches Some(p) ==> is_first_name_fault(buf, n, p),
        r is None ==> is_valid_name(buf, n),
    ensures
        r matches Some(p) ==> first_unprintable(buf) == p && p < buf.len(),
        r is None ==> first_unprintable(buf) == buf.len(),
{
    match r {
        Some(p) => {
            assert forall|j: int| 0 <= j < p implies is_printing(buf[j]) by {
                assert(!name_fault_at(buf, n, j));
            }
            lemma_first_unprintable(buf, p);
        },
        None => {
            assert forall|j: int| 0 <= j < buf.len() implies is_printing(buf[j]) by {
                assert(!name_fault_at(buf, n, j));
            }
            lemma_first_unprintable(buf, buf.len() as int);
        },
    }
}

/// Offset of catalog entry `i`'s name and directory in sector 0.
pub open spec fn entry_name_offset(i: int) -> int {
    8 + 8 * i
}

/// Offset of catalog entry `i`'s addresses in sector 1.
pub open spec fn entry_addr_offset(i: int) -> int {
    0x108 + 8 * i
}

/// A little-endian 16-bit word.
pub open spec fn le16(s: Seq<u8>, off: int) -> u32 {
    (s[off] + 256 * s[off + 1]) as u32
}

/// The byte that holds the high bits of entry `i`'s addresses.
pub open spec fn busy_byte(s: Seq<u8>, i: int) -> u32 {
    s[entry_addr_offset(i) + 6] as u32
}

/// The high bits that a busy byte holds, each in its place: bits 16 and 17
/// of the load address, exec address and length, and bits 8 and 9 of the
/// start sector.
pub open spec fn busy_high_bits(busy: u32) -> (u32, u32, u32, u32) {
    (
        (busy << 14u32) & 0x30000u32,
        (busy << 10u32) & 0x30000u32,
        (busy << 12u32) & 0x30000u32,
        (busy << 8u32) & 0x300u32,
    )
}

pub open spec fn entry_load(s: Seq<u8>, i: int) -> u32 {
    le16(s, entry_addr_offset(i)) | busy_high_bits(busy_byte(s, i)).0
}

pub open spec fn entry_exec(s: Seq<u8>, i: int) -> u32 {
    le16(s, entry_addr_offset(i) + 2) | busy_high_bits(busy_byte(s, i)).1
}

pub open spec fn entry_length(s: Seq<u8>, i: int) -> u32 {
    le16(s, entry_addr_offset(i) + 4) | busy_high_bits(busy_byte(s, i)).2
}

pub open spec fn entry_start_sector(s: Seq<u8>, i: int) -> u32 {
    (s[entry_addr_offset(i) + 7] as u32) | busy_high_bits(busy_byte(s, i)).3
}

/// Packs bits 16 and 17 of `load`, `exec` and `len` and bits 8 and 9 of
/// `start` into a busy byte.
pub fn pack_busy(load: u32, exec: u32, len: u32, start: u32) -> (r: u8)
    ensures
        r == busy_bits(load, exec, len, start),
{
    ((((exec >> 16u32) & 3) << 6u32) | (((len >> 16u32) & 3) << 4u32) | (((load >> 16u32) & 3)
        << 2u32) | ((start >> 8u32) & 3)) as u8
}

/// The high bits that a busy byte holds, each in its place, for the load
/// address, exec address, length and start sector.
pub fn unpack_busy(busy: u8) -> (r: (u32, u32, u32, u32))
    ensures
        r == busy_high_bits(busy as u32),
{
    let b = busy as u32;
    ((b << 14u32) & 0x30000u32, (b << 10u32) & 0x30000u32, (b << 12u32) & 0x30000u32, (b << 8u32)
        & 0x300u32)
}

/// The seven name bytes of entry `i`, padding included.
pub open spec fn entry_name_field(s: Seq<u8>, i: int) -> Seq<u8> {
    s.subrange(entry_name_offset(i), entry_name_offset(i) + 7)
}

/// The name of entry `i`: its bytes up to the first space.
pub open spec fn entry_name(s: Seq<u8>, i: int) -> Seq<u8> {
    entry_name_field(s, i).subrange(0, file_name_len(entry_name_field(s, i)))
}

pub open spec fn entry_dir_byte(s: Seq<u8>, i: int) -> u8 {
    s[entry_name_offset(i) + 7]
}

pub open spec fn entry_data_start(s: Seq<u8>, i: int) -> int {
    entry_start_sector(s, i) * 256
}

pub open spec fn entry_data_end(s: Seq<u8>, i: int) -> int {
    entry_data_start(s, i) + entry_length(s, i)
}

/// The offset at which catalog entry `i` is found malformed, if it is.
pub open spec fn entry_fault(s: Seq<u8>, i: int) -> Option<int> {
    let name = entry_name(s, i);
    if !is_printing(entry_dir_byte(s, i) & 0x7f) {
        Some(entry_name_offset(i) + 7)
    } else if first_unprintable(name) < name.len() {
        Some(entry_name_offset(i) + first_unprintable(name))
    } else if entry_data_start(s, i) < 0x200 {
        Some(entry_addr_offset(i) + 7)
    } else if entry_data_end(s, i) > s.len() {
        Some(entry_addr_offset(i) + 6)
    } else {
        None
    }
}

/// The file that catalog entry `i` describes.
pub open spec fn entry_file(s: Seq<u8>, i: int) -> FileView {
    FileView {
        dir: entry_dir_byte(s, i) & 0x7f,
        name: entry_name(s, i),
        load_addr: entry_load(s, i),
        exec_addr: entry_exec(s, i),
        locked: entry_dir_byte(s, i) >= 0x80,
        content: s.subrange(entry_data_start(s, i), entry_data_end(s, i)),
    }
}

/// Why an image does not decode.
pub enum DecodeFault {
    /// Shorter than the two catalog sectors.
    TooSmall,
    /// Malformed at an offset.
    BadData(int),
    /// A second entry with this directory and name.
    Duplicate(u8, Seq<u8>),
}

/// `e` is the error that reports `f`.
pub open spec fn reports(e: DFSError, f: DecodeFault) -> bool {
    match f {
        DecodeFault::TooSmall => e == DFSError::InputTooSmall(512),
        DecodeFault::BadData(p) => e == DFSError::InvalidDiscData(p as usize),
        DecodeFault::Duplicate(d, n) => e matches DFSError::DuplicateFileName(m) && m@
            == ascii_chars(seq![d, 0x2eu8] + n),
    }
}

/// `f` placed among files kept in key order.
pub open spec fn insert_sorted(fs: Seq<FileView>, f: FileView) -> Seq<FileView>
    decreases fs.len(),
{
    if fs.len() == 0 {
        seq![f]
    } else if f.key_lt(fs[0]) {
        seq![f] + fs
    } else {
        seq![fs[0]] + insert_sorted(fs.drop_first(), f)
    }
}

/// Inserting at the position where a key belongs is inserting in key order.
pub proof fn lemma_insert_sorted(fs: Seq<FileView>, f: FileView, p: int)
    requires
        0 <= p <= fs.len(),
        forall|j: int| 0 <= j < p ==> (#[trigger] fs[j]).key_lt(f),
        p == fs.len() || f.key_lt(fs[p]),
    ensures
        insert_sorted(fs, f) == fs.insert(p, f),
    decreases p,
{
    if p == 0 {
        if fs.len() == 0 {
            assert(fs.insert(0, f) =~= seq![f]);
        } else {
            assert(fs.insert(0, f) =~= seq![f] + fs);
        }
    } else {
        lemma_key_lt_asymmetric(fs[0], f);
        let rest = fs.drop_first();
        assert forall|j: int| 0 <= j < p - 1 implies (#[trigger] rest[j]).key_lt(f) by {
            assert(fs[j + 1].key_lt(f));
        }
        lemma_insert_sorted(rest, f, p - 1);
        assert(seq![fs[0]] + rest.insert(p - 1, f) =~= fs.insert(p, f));
    }
}

/// Some file of `fs` has the key of `f`.
pub open spec fn has_same_key(fs: Seq<FileView>, f: FileView) -> bool {
    exists|j: int| 0 <= j < fs.len() && (#[trigger] fs[j]).same_key(f)
}

/// The files of the first `n` catalog entries, in key order, or the first
/// fault among them.
pub open spec fn decoded_entries(s: Seq<u8>, n: int) -> Result<Seq<FileView>, DecodeFault>
    decreases n,
{
    if n <= 0 {
        Ok(Seq::empty())
    } else {
        match decoded_entries(s, n - 1) {
            Err(e) => Err(e),
            Ok(fs) => match entry_fault(s, n - 1) {
                Some(p) => Err(DecodeFault::BadData(p)),
                None => {
                    let f = entry_file(s, n - 1);
                    if has_same_key(fs, f) {
                        Err(DecodeFault::Duplicate(f.dir, f.name))
                    } else {
                        Ok(insert_sorted(fs, f))
                    }
                },
            },
        }
    }
}

/// The declared sector count: ten bits over bytes 0x106 and 0x107.
pub open spec fn sector_count(s: Seq<u8>) -> int {
    (s[0x106] % 4) * 256 + s[0x107]
}

/// What an image decodes to.
pub open spec fn decoded(s: Seq<u8>) -> Result<DiscView, DecodeFault> {
    let buf = disc_name_buf(s);
    let name = buf.subrange(0, disc_name_len(buf));
    if s.len() < 512 {
        Err(DecodeFault::TooSmall)
    } else if first_unprintable(name) < name.len() {
        Err(DecodeFault::BadData(disc_name_offset(first_unprintable(name))))
    } else if sector_count(s) < 2 {
        Err(DecodeFault::BadData(0x107))
    } else if !is_bcd_byte(s[0x104]) {
        Err(DecodeFault::BadData(0x104))
    } else if s[0x105] % 8 != 0 {
        Err(DecodeFault::BadData(0x105))
    } else {
        with_entries(s, name)
    }
}

/// The disc that a header with a valid name, sector count, cycle and entry
/// count decodes to, given its name.
pub open spec fn with_entries(s: Seq<u8>, name: Seq<u8>) -> Result<DiscView, DecodeFault> {
    match decoded_entries(s, (s[0x105] / 8) as int) {
        Err(e) => Err(e),
        Ok(fs) => Ok(
            DiscView {
                name,
                boot_option: boot_option_from_bits((s[0x106] / 16 % 4) as u8),
                cycle: s[0x104],
                files: fs,
            },
        ),
    }
}

/// Once an entry is at fault, later entries change nothing.
pub proof fn lemma_entries_fault_persists(s: Seq<u8>, m: int, n: int)
    requires
        0 <= m <= n,
        decoded_entries(s, m) is Err,
    ensures
        decoded_entries(s, n) == decoded_entries(s, m),
    decreases n - m,
{
    if n > m {
        lemma_entries_fault_persists(s, m, n - 1);
    }
}

/// Sectors that `len` bytes of content take up.
pub open spec fn sectors_for(len: int) -> int {
    (len + 255) / 256
}

/// The sector at which the `k`th file of `fs` starts, when the files are
/// laid out in order from sector 2.
pub open spec fn start_sector_of(fs: Seq<FileView>, k: int) -> int
    decreases k,
{
    if k <= 0 {
        2
    } else {
        start_sector_of(fs, k - 1) + sectors_for(fs[k - 1].content.len() as int)
    }
}

/// The sector after the last file of `fs`.
pub open spec fn end_sector(fs: Seq<FileView>) -> int {
    start_sector_of(fs, fs.len() as int)
}

/// Byte `i` of `name` padded with spaces.
pub open spec fn padded(name: Seq<u8>, i: int) -> u8 {
    if i < name.len() {
        name[i]
    } else {
        0x20
    }
}

/// The byte that holds bits 16 and 17 of the exec address, length and load
/// address, and bits 8 and 9 of the start sector, from high to low.
pub open spec fn busy_bits(load: u32, exec: u32, len: u32, start: u32) -> u8 {
    ((((exec >> 16u32) & 3) << 6u32) | (((len >> 16u32) & 3) << 4u32) | (((load >> 16u32) & 3)
        << 2u32) | ((start >> 8u32) & 3)) as u8
}

/// Byte `o` of the 8-byte address entry of file `f` starting at `start`.
pub open spec fn addr_entry_byte(f: FileView, start: int, o: int) -> u8 {
    let len = f.content.len() as u32;
    if o == 0 {
        (f.load_addr % 256) as u8
    } else if o == 1 {
        (f.load_addr / 256 % 256) as u8
    } else if o == 2 {
        (f.exec_addr % 256) as u8
    } else if o == 3 {
        (f.exec_addr / 256 % 256) as u8
    } else if o == 4 {
        (len % 256) as u8
    } else if o == 5 {
        (len / 256 % 256) as u8
    } else if o == 6 {
        busy_bits(f.load_addr, f.exec_addr, len, start as u32)
    } else {
        (start % 256) as u8
    }
}

/// The directory byte of file `f`: its directory, with bit 7 set if locked.
pub open spec fn dir_byte(f: FileView) -> u8 {
    if f.locked {
        (f.dir + 0x80) as u8
    } else {
        f.dir
    }
}

/// Byte `i` (below 512) of the two catalog sectors of disc `v`.
pub open spec fn catalog_byte(v: DiscView, i: int) -> u8 {
    let fs = v.files;
    let n = fs.len();
    let end = end_sector(fs);
    if i < 8 {
        padded(v.name, i)
    } else if i < 0x100 {
        let e = (i - 8) / 8;
        let o = (i - 8) % 8;
        if e < n {
            if o < 7 {
                padded(fs[e].name, o)
            } else {
                dir_byte(fs[e])
            }
        } else {
            0
        }
    } else if i < 0x104 {
        padded(v.name, i - 0xf8)
    } else if i == 0x104 {
        v.cycle
    } else if i == 0x105 {
        (n * 8) as u8
    } else if i == 0x106 {
        (boot_option_bits(v.boot_option) * 16 + end / 256 % 4) as u8
    } else if i == 0x107 {
        (end % 256) as u8
    } else {
        let e = (i - 0x108) / 8;
        let o = (i - 0x108) % 8;
        if e < n {
            addr_entry_byte(fs[e], start_sector_of(fs, e), o)
        } else {
            0
        }
    }
}

/// The two catalog sectors of disc `v`.
pub open spec fn catalog(v: DiscView) -> Seq<u8> {
    Seq::new(512, |i: int| catalog_byte(v, i))
}

/// `n` zero bytes.
pub open spec fn zeros(n: int) -> Seq<u8> {
    Seq::new(n as nat, |i: int| 0u8)
}

/// A file's content padded with zeros to a whole number of sectors.
pub open spec fn sector_data(f: FileView) -> Seq<u8> {
    f.content + zeros(sectors_for(f.content.len() as int) * 256 - f.content.len())
}

/// The data sectors of the first `k` files of `fs`.
pub open spec fn data_sectors(fs: Seq<FileView>, k: int) -> Seq<u8>
    decreases k,
{
    if k <= 0 {
        Seq::empty()
    } else {
        data_sectors(fs, k - 1) + sector_data(fs[k - 1])
    }
}

/// The length of the first file among the first `k` of `fs` whose content
/// is too long for an 18-bit length field, if any.
pub open spec fn first_too_long(fs: Seq<FileView>, k: int) -> Option<int>
    decreases k,
{
    if k <= 0 {
        None
    } else {
        match first_too_long(fs, k - 1) {
            Some(l) => Some(l),
            None => if fs[k - 1].content.len() > 0x3ffff {
                Some(fs[k - 1].content.len() as int)
            } else {
                None
            },
        }
    }
}

/// The image that disc `v` encodes to, or the size that does not fit.
pub open spec fn encoded(v: DiscView) -> Result<Seq<u8>, int> {
    match first_too_long(v.files, v.files.len() as int) {
        Some(l) => Err(l),
        None => if end_sector(v.files) > 800 {
            Err(end_sector(v.files))
        } else {
            Ok(catalog(v) + data_sectors(v.files, v.files.len() as int))
        },
    }
}

/// With no content too long among the first `n` files, none of them is.
pub proof fn lemma_none_too_long(fs: Seq<FileView>, n: int, k: int)
    requires
        0 <= k < n <= fs.len(),
        first_too_long(fs, n) is None,
    ensures
        fs[k].content.len() <= 0x3ffff,
    decreases n,
{
    if k < n - 1 {
        lemma_none_too_long(fs, n - 1, k);
    }
}

} // verus!
