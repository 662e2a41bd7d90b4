use vstd::prelude::*;

use crate::dfs::file::{
    key_lt, lemma_key_lt_irreflexive, lemma_key_lt_transitive, File, FileName, FileView,
};
use crate::dfs::layout::{
    addr_entry_byte, catalog, catalog_byte, data_sectors, decoded, decoded_entries, dir_byte,
    disc_name_buf, encoded, end_sector, entry_fault, entry_file, entry_name_field,
    first_too_long, has_same_key, lemma_disc_name_len, lemma_entries_fault_persists,
    lemma_file_name_len, lemma_insert_sorted, pack_busy, unpack_busy, lemma_name_check, lemma_none_too_long, padded,
    reports, start_sector_of, with_entries, zeros, DecodeFault,
};
use crate::dfs::DFSError;
use crate::support::{
    ascii_chars, ascii_string, bcd_decimal, bcd_encoding, is_ascii_byte, is_bcd_byte,
    is_valid_name, name_fault_at, u16_from_le, AsciiName, AsciiNameError, AsciiPrintingChar, BCD,
};

verus! {

/// What a DFS-supporting OS would do with a [`Disc`] found in the drive
/// during a Shift-BREAK.
#[derive(Clone, Copy, Debug, PartialEq, Eq, Structural)]
pub enum BootOption {
    Off,
    Load,
    Run,
    Exec,
}

/// The boot option that a 2-bit `*OPT 4` value stands for.
pub open spec fn boot_option_from_bits(v: u8) -> BootOption {
    if v == 0 {
        BootOption::Off
    } else if v == 1 {
        BootOption::Load
    } else if v == 2 {
        BootOption::Run
    } else {
        BootOption::Exec
    }
}

/// The `*OPT 4` value of a boot option.
pub open spec fn boot_option_bits(b: BootOption) -> u8 {
    match b {
        BootOption::Off => 0,
        BootOption::Load => 1,
        BootOption::Run => 2,
        BootOption::Exec => 3,
    }
}

/// The lower-case name of a boot option.
pub open spec fn boot_option_name(b: BootOption) -> Seq<char> {
    match b {
        BootOption::Off => "none"@,
        BootOption::Load => "load"@,
        BootOption::Run => "run"@,
        BootOption::Exec => "exec"@,
    }
}

impl BootOption {
    pub fn as_str(self) -> (r: &'static str)
        ensures
            r@ == boot_option_name(self),
    {
        match self {
            BootOption::Off => "none",
            BootOption::Load => "load",
            BootOption::Run => "run",
            BootOption::Exec => "exec",
        }
    }

    /// Parses a boot option from its `*OPT 4` value.
    pub fn try_from(src: u8) -> (r: Result<BootOption, DFSError>)
        ensures
            src < 4 ==> r == Ok::<BootOption, DFSError>(boot_option_from_bits(src)),
            src >= 4 ==> r == Err::<BootOption, DFSError>(DFSError::InvalidValue),
    {
        match src {
            0u8 => Ok(BootOption::Off),
            1u8 => Ok(BootOption::Load),
            2u8 => Ok(BootOption::Run),
            3u8 => Ok(BootOption::Exec),
            _ => Err(DFSError::InvalidValue),
        }
    }

    /// The `*OPT 4` value of this boot option.
    pub fn as_u8(self) -> (r: u8)
        ensures
            r == boot_option_bits(self),
            r < 4,
            boot_option_from_bits(r) == self,
    {
        match self {
            BootOption::Off => 0,
            BootOption::Load => 1,
            BootOption::Run => 2,
            BootOption::Exec => 3,
        }
    }
}

impl From<BootOption> for u8 {
    fn from(src: BootOption) -> (r: u8) {
        src.as_u8()
    }
}

impl vstd::std_specs::convert::FromSpecImpl<BootOption> for u8 {
    open spec fn obeys_from_spec() -> bool {
        true
    }

    open spec fn from_spec(v: BootOption) -> u8 {
        boot_option_bits(v)
    }
}

/// The most catalog entries a disc can hold.
pub const MAX_FILES: usize = 31;

/// The most sectors a single-sided disc can hold: 10 sectors on 80 tracks.
pub const MAX_SECTORS: u16 = 800;

/// A DFS disc name: up to twelve printing ASCII characters.
pub type DiscName = AsciiName<12>;

/// What a [`Disc`] holds, as plain values. `cycle` is the packed BCD byte.
pub struct DiscView {
    pub name: Seq<u8>,
    pub boot_option: BootOption,
    pub cycle: u8,
    pub files: Seq<FileView>,
}

/// What each file of a sequence holds.
pub open spec fn views(files: Seq<File>) -> Seq<FileView> {
    files.map_values(|f: File| f@)
}

/// Files in strictly increasing key order, so that no two share a key.
pub open spec fn files_sorted(fs: Seq<FileView>) -> bool {
    forall|i: int, j: int| 0 <= i < j < fs.len() ==> (#[trigger] fs[i]).key_lt(#[trigger] fs[j])
}

/// Some file of `fs` has directory `dir` and name `name`.
pub open spec fn has_key(fs: Seq<FileView>, dir: u8, name: Seq<u8>) -> bool {
    exists|i: int| 0 <= i < fs.len() && (#[trigger] fs[i]).dir == dir && fs[i].name == name
}

impl DiscView {
    /// The invariant of a disc: a valid name and cycle, at most 31 valid
    /// files, kept in key order.
    pub open spec fn valid(self) -> bool {
        &&& is_valid_name(self.name, 12)
        &&& is_bcd_byte(self.cycle)
        &&& self.files.len() <= MAX_FILES
        &&& forall|i: int| 0 <= i < self.files.len() ==> (#[trigger] self.files[i]).valid()
        &&& files_sorted(self.files)
    }
}

/// Representation of a single-sided DFS disc.
///
/// Files are held in order of their keys (directory, then name); that order
/// is also the order in which they are laid out on an encoded image.
#[derive(Debug)]
pub struct Disc {
    name: DiscName,
    boot_option: BootOption,
    cycle: BCD,
    files: Vec<File>,
}

impl View for Disc {
    type V = DiscView;

    closed spec fn view(&self) -> DiscView {
        DiscView {
            name: self.name@,
            boot_option: self.boot_option,
            cycle: self.cycle@,
            files: views(self.files@),
        }
    }
}

/// Where a file keyed `(dir, name)` stands or would stand: the count of
/// files ordered before that key, and whether the next one has it.
fn find_slot(files: &[File], dir: u8, name: &[u8]) -> (r: (usize, bool))
    requires
        files_sorted(views(files@)),
    ensures
        r.0 <= views(files@).len(),
        forall|j: int| 0 <= j < r.0 ==> key_lt(
            (#[trigger] views(files@)[j]).dir,
            views(files@)[j].name,
            dir,
            name@,
        ),
        r.1 ==> r.0 < views(files@).len() && views(files@)[r.0 as int].dir == dir
            && views(files@)[r.0 as int].name == name@,
        !r.1 ==> r.0 == views(files@).len() || key_lt(
            dir,
            name@,
            views(files@)[r.0 as int].dir,
            views(files@)[r.0 as int].name,
        ),
        r.1 <==> has_key(views(files@), dir, name@),
{
    let ghost fs = views(files@);
    let ghost q = FileView {
        dir,
        name: name@,
        load_addr: 0,
        exec_addr: 0,
        locked: false,
        content: Seq::empty(),
    };
    let mut i: usize = 0;
    while i < files.len()
        invariant
            fs == views(files@),
            files_sorted(views(files@)),
            q.dir == dir,
            q.name == name@,
            0 <= i <= fs.len(),
            forall|j: int| 0 <= j < i ==> (#[trigger] fs[j]).key_lt(q),
        decreases fs.len() - i,
    {
        let c = files[i].compare_key(dir, name);
        assert(fs[i as int] == files@[i as int]@);
        if c == 0 {
            return (i, true);
        }
        if c > 0 {
            proof {
                assert forall|j: int| 0 <= j < fs.len() implies !((#[trigger] fs[j]).dir == dir
                    && fs[j].name == name@) by {
                    if j < i {
                        lemma_key_lt_irreflexive(q);
                    } else if j > i {
                        assert(fs[i as int].key_lt(fs[j]));
                        lemma_key_lt_transitive(q, fs[i as int], fs[j]);
                        lemma_key_lt_irreflexive(q);
                    } else {
                        lemma_key_lt_irreflexive(q);
                    }
                }
            }
            return (i, false);
        }
        i = i + 1;
    }
    proof {
        assert forall|j: int| 0 <= j < fs.len() implies !((#[trigger] fs[j]).dir == dir
            && fs[j].name == name@) by {
            lemma_key_lt_irreflexive(q);
        }
    }
    (i, false)
}

/// Inserting `f` at position `p` keeps files in key order, where `p` is
/// where `f`'s key belongs.
proof fn lemma_insert_keeps_sorted(fs: Seq<FileView>, f: FileView, p: int)
    requires
        files_sorted(fs),
        0 <= p <= fs.len(),
        forall|j: int| 0 <= j < p ==> (#[trigger] fs[j]).key_lt(f),
        p == fs.len() || f.key_lt(fs[p]),
    ensures
        files_sorted(fs.insert(p, f)),
{
    let nf = fs.insert(p, f);
    assert forall|i: int, j: int| 0 <= i < j < nf.len() implies (#[trigger] nf[i]).key_lt(
        #[trigger] nf[j],
    ) by {
        if j < p {
            assert(fs[i].key_lt(fs[j]));
        } else if j == p {
        } else if i < p {
            assert(fs[i].key_lt(fs[j - 1]));
        } else if i == p {
            if j - 1 > p {
                assert(fs[p].key_lt(fs[j - 1]));
                lemma_key_lt_transitive(f, fs[p], fs[j - 1]);
            }
        } else {
            assert(fs[i - 1].key_lt(fs[j - 1]));
        }
    }
}

/// A fresh copy of a byte slice.
fn slice_to_vec(s: &[u8]) -> (r: Vec<u8>)
    ensures
        r@ == s@,
{
    let mut r: Vec<u8> = Vec::new();
    let mut i: usize = 0;
    while i < s.len()
        invariant
            0 <= i <= s@.len(),
            r@ == s@.subrange(0, i as int),
        decreases s@.len() - i,
    {
        r.push(s[i]);
        i = i + 1;
    }
    assert(r@ == s@);
    r
}

/// A file's key shown as `dir.name`.
fn key_display(f: &File) -> (r: String)
    ensures
        r@ == ascii_chars(seq![f@.dir, 0x2eu8] + f@.name),
{
    proof {
        use_type_invariant(f);
    }
    let name = f.name_bytes();
    let mut bytes: Vec<u8> = Vec::new();
    bytes.push(f.dir().as_byte());
    bytes.push(0x2e);
    let mut i: usize = 0;
    while i < name.len()
        invariant
            0 <= i <= name@.len(),
            name@ == f@.name,
            bytes@ == seq![f@.dir, 0x2eu8] + name@.subrange(0, i as int),
        decreases name@.len() - i,
    {
        bytes.push(name[i]);
        i = i + 1;
    }
    proof {
        assert(bytes@ =~= seq![f@.dir, 0x2eu8] + f@.name);
        assert forall|j: int| 0 <= j < bytes@.len() implies is_ascii_byte(#[trigger] bytes@[j]) by {
            if j >= 2 {
                assert(!name_fault_at(f@.name, 7, j - 2));
            }
        }
    }
    ascii_string(bytes)
}

/// Byte `k` of the disc name field.
fn disc_name_byte(src: &[u8], k: usize) -> (r: u8)
    requires
        src@.len() >= 512,
        k < 12,
    ensures
        r == disc_name_buf(src@)[k as int],
{
    if k < 8 {
        src[k]
    } else {
        src[k + 0xf8]
    }
}

/// Decodes catalog entry `i`, or gives the offset at which it is malformed.
fn decode_entry(src: &[u8], i: usize) -> (r: Result<File, usize>)
    requires
        src@.len() >= 512,
        i < 31,
    ensures
        entry_fault(src@, i as int) matches Some(p) ==> r == Err::<File, usize>(p as usize),
        entry_fault(src@, i as int) is None ==> (r matches Ok(f) && f@ == entry_file(
            src@,
            i as int,
        )),
{
    let ghost s = src@;
    let off1: usize = 8 + 8 * i;
    let off2: usize = 0x108 + 8 * i;
    let raw = src[off1 + 7];
    let dir = match AsciiPrintingChar::from(raw & 0x7f) {
        Ok(c) => c,
        Err(_) => {
            return Err(off1 + 7);
        },
    };
    let ghost field = entry_name_field(s, i as int);
    let mut name_bytes: Vec<u8> = Vec::new();
    let mut k: usize = 0;
    while k < 7 && src[off1 + k] != 0x20
        invariant
            src@ == s,
            s.len() >= 512,
            i < 31,
            off1 == 8 + 8 * i,
            field == entry_name_field(s, i as int),
            0 <= k <= 7,
            name_bytes@ == field.subrange(0, k as int),
            forall|j: int| 0 <= j < k ==> field[j] != 0x20,
        decreases 7 - k,
    {
        name_bytes.push(src[off1 + k]);
        k = k + 1;
    }
    proof {
        lemma_file_name_len(field, k as int);
    }
    let name = match FileName::try_from(name_bytes.as_slice()) {
        Ok(n) => {
            proof {
                lemma_name_check(name_bytes@, 7, None);
            }
            n
        },
        Err(e) => {
            proof {
                lemma_name_check(name_bytes@, 7, Some(e@ as int));
            }
            return Err(off1 + e.position());
        },
    };
    let (load_hi, exec_hi, len_hi, start_hi) = unpack_busy(src[off2 + 6]);
    let load_lo = u16_from_le(&src[off2..off2 + 2]) as u32;
    let exec_lo = u16_from_le(&src[off2 + 2..off2 + 4]) as u32;
    let len_lo = u16_from_le(&src[off2 + 4..off2 + 6]) as u32;
    let sector_lo = src[off2 + 7] as u32;
    let load_addr = load_lo | load_hi;
    let exec_addr = exec_lo | exec_hi;
    let file_len = len_lo | len_hi;
    let start_sector = sector_lo | start_hi;
    let ghost busy = src@[off2 + 6] as u32;
    assert(start_sector < 0x400) by (bit_vector)
        requires
            sector_lo < 0x100,
            start_sector == sector_lo | ((busy << 8) & 0x300),
    ;
    assert(load_addr < 0x40000) by (bit_vector)
        requires
            load_lo < 0x10000,
            load_addr == load_lo | ((busy << 14) & 0x30000),
    ;
    assert(exec_addr < 0x40000) by (bit_vector)
        requires
            exec_lo < 0x10000,
            exec_addr == exec_lo | ((busy << 10) & 0x30000),
    ;
    assert(file_len < 0x40000) by (bit_vector)
        requires
            len_lo < 0x10000,
            file_len == len_lo | ((busy << 12) & 0x30000),
    ;
    let data_start: u32 = start_sector * 256;
    let data_end: u32 = data_start + file_len;
    if data_start < 0x200 {
        return Err(off2 + 7);
    }
    if data_end as usize > src.len() {
        return Err(off2 + 6);
    }
    let content = slice_to_vec(&src[data_start as usize..data_end as usize]);
    Ok(File::new(name, dir, load_addr, exec_addr, raw >= 0x80, content))
}

#[verifier::external_type_specification]
#[verifier::external_body]
#[verifier::reject_recursive_types(T)]
pub struct ExArrayVec<T, const CAP: usize>(arrayvec::ArrayVec<T, CAP>);

/// The start sectors that a list laid out for the catalog holds, in order.
pub uninterp spec fn start_list(v: arrayvec::ArrayVec<u16, 31>) -> Seq<u16>;

/// Relies on `arrayvec::ArrayVec::new`: a new list is empty (31 is within
/// the capacities it accepts).
#[verifier::external_body]
fn new_start_list() -> (r: arrayvec::ArrayVec<u16, 31>)
    ensures
        start_list(r) == Seq::<u16>::empty(),
{
    arrayvec::ArrayVec::new()
}

/// Relies on `arrayvec::ArrayVec::push`: below capacity, the item is added
/// at the end (it panics only on a full list).
#[verifier::external_body]
fn push_start(v: &mut arrayvec::ArrayVec<u16, 31>, sector: u16)
    requires
        start_list(*old(v)).len() < 31,
    ensures
        start_list(*final(v)) == start_list(*old(v)).push(sector),
{
    v.push(sector)
}

/// Relies on `arrayvec::ArrayVec::as_slice`: the slice of the items held.
#[verifier::external_body]
fn start_slice(v: &arrayvec::ArrayVec<u16, 31>) -> (r: &[u16])
    ensures
        r@ == start_list(*v),
{
    v.as_slice()
}

/// The start sector of each file, laid out in order from sector 2, and the
/// sector after the last; or the length of the first file too long to lay out.
fn lay_out(files: &[File]) -> (r: Result<(arrayvec::ArrayVec<u16, 31>, u16), usize>)
    requires
        files@.len() <= MAX_FILES,
    ensures
        first_too_long(views(files@), files@.len() as int) matches Some(l) ==> r == Err::<
            (arrayvec::ArrayVec<u16, 31>, u16),
            usize,
        >(l as usize),
        first_too_long(views(files@), files@.len() as int) is None ==> (r matches Ok((starts, end))
            && start_list(starts).len() == files@.len() && end == end_sector(views(files@))
            && forall|j: int|
            0 <= j < files@.len() ==> #[trigger] start_list(starts)[j] == start_sector_of(
                views(files@),
                j,
            )),
{
    let ghost fs = views(files@);
    let mut starts = new_start_list();
    let mut next: u16 = 2;
    let mut k: usize = 0;
    while k < files.len()
        invariant
            fs == views(files@),
            files@.len() <= MAX_FILES,
            0 <= k <= files@.len(),
            first_too_long(fs, k as int) is None,
            next == start_sector_of(fs, k as int),
            next <= 2 + 1024 * k,
            start_list(starts).len() == k,
            forall|j: int| 0 <= j < k ==> #[trigger] start_list(starts)[j] == start_sector_of(fs, j),
        decreases files@.len() - k,
    {
        let len = files[k].content().len();
        assert(fs[k as int] == files@[k as int]@);
        if len > 0x3ffff {
            proof {
                lemma_too_long_persists(fs, k as int + 1, files@.len() as int);
            }
            return Err(len);
        }
        let sectors: u16 = ((len + 255) / 256) as u16;
        push_start(&mut starts, next);
        next = next + sectors;
        k = k + 1;
    }
    Ok((starts, next))
}

/// Once a file is too long, later files change nothing.
proof fn lemma_too_long_persists(fs: Seq<FileView>, m: int, n: int)
    requires
        0 <= m <= n,
        first_too_long(fs, m) is Some,
    ensures
        first_too_long(fs, n) == first_too_long(fs, m),
    decreases n - m,
{
    if n > m {
        lemma_too_long_persists(fs, m, n - 1);
    }
}

/// Byte `o` of the 8-byte address entry of `f`, which starts at `start`.
fn addr_entry_byte_of(f: &File, start: u16, o: usize) -> (r: u8)
    requires
        o < 8,
        f@.content.len() <= 0x3ffff,
    ensures
        r == addr_entry_byte(f@, start as int, o as int),
{
    let load = f.load_addr();
    let exec = f.exec_addr();
    let len = f.content().len() as u32;
    if o == 0 {
        (load % 256) as u8
    } else if o == 1 {
        (load / 256 % 256) as u8
    } else if o == 2 {
        (exec % 256) as u8
    } else if o == 3 {
        (exec / 256 % 256) as u8
    } else if o == 4 {
        (len % 256) as u8
    } else if o == 5 {
        (len / 256 % 256) as u8
    } else if o == 6 {
        pack_busy(load, exec, len, start as u32)
    } else {
        (start % 256) as u8
    }
}

/// Byte `o` of the 8-byte name entry of `f`: its padded name, then its
/// directory byte.
fn name_entry_byte_of(f: &File, o: usize) -> (r: u8)
    requires
        o < 8,
    ensures
        o < 7 ==> r == padded(f@.name, o as int),
        o == 7 ==> r == dir_byte(f@),
{
    if o < 7 {
        let name = f.name_bytes();
        if o < name.len() {
            name[o]
        } else {
            0x20
        }
    } else {
        let d = f.dir().as_byte();
        if f.is_locked() {
            d + 0x80
        } else {
            d
        }
    }
}

impl Disc {
    /// The disc's invariant holds.
    pub open spec fn wf(&self) -> bool {
        self@.valid()
    }

    /// Byte `i` of the two catalog sectors.
    fn catalog_byte_at(&self, starts: &[u16], end: u16, i: usize) -> (r: u8)
        requires
            self.wf(),
            i < 512,
            starts@.len() == self@.files.len(),
            forall|j: int| 0 <= j < starts@.len() ==> #[trigger] starts@[j] == start_sector_of(
                self@.files,
                j,
            ),
            end == end_sector(self@.files),
            forall|j: int| 0 <= j < self@.files.len() ==> (#[trigger] self@.files[j]).content.len()
                <= 0x3ffff,
        ensures
            r == catalog_byte(self@, i as int),
    {
        let n = self.files.len();
        if i < 8 {
            self.name_byte_padded(i)
        } else if i < 0x100 {
            let e = (i - 8) / 8;
            let o = (i - 8) % 8;
            if e < n {
                assert(self@.files[e as int] == self.files@[e as int]@);
                name_entry_byte_of(&self.files[e], o)
            } else {
                0
            }
        } else if i < 0x104 {
            self.name_byte_padded(i - 0xf8)
        } else if i == 0x104 {
            self.cycle.to_hex()
        } else if i == 0x105 {
            (n as u8) * 8
        } else if i == 0x106 {
            self.boot_option.as_u8() * 16 + (end / 256 % 4) as u8
        } else if i == 0x107 {
            (end % 256) as u8
        } else {
            let e = (i - 0x108) / 8;
            let o = (i - 0x108) % 8;
            if e < n {
                assert(self@.files[e as int] == self.files@[e as int]@);
                addr_entry_byte_of(&self.files[e], starts[e], o)
            } else {
                0
            }
        }
    }

    /// Byte `i` of the disc name padded with spaces.
    fn name_byte_padded(&self, i: usize) -> (r: u8)
        ensures
            r == padded(self@.name, i as int),
    {
        let name = self.name.as_bytes();
        if i < name.len() {
            name[i]
        } else {
            0x20
        }
    }

    /// Encodes the disc as an image, appended to `target`, and returns the
    /// image's size in sectors.
    ///
    /// Files are laid out in key order from sector 2, each padded with zeros
    /// to a whole sector. Fails with `InputTooLarge`, leaving `target` as it
    /// was, where a file is longer than 0x3FFFF bytes (giving its length) or
    /// the files run past sector 800 (giving the end sector).
    pub fn to_image(&self, target: &mut Vec<u8>) -> (r: Result<u16, DFSError>)
        requires
            self.wf(),
        ensures
            encoded(self@) matches Ok(img) ==> r == Ok::<u16, DFSError>(
                end_sector(self@.files) as u16,
            ) && final(target)@ == old(target)@ + img,
            encoded(self@) matches Err(n) ==> r == Err::<u16, DFSError>(
                DFSError::InputTooLarge(n as usize),
            ) && final(target)@ == old(target)@,
    {
        let ghost fs = self@.files;
        let (laid_out, end) = match lay_out(self.files.as_slice()) {
            Ok(x) => x,
            Err(l) => {
                return Err(DFSError::InputTooLarge(l));
            },
        };
        if end > MAX_SECTORS {
            return Err(DFSError::InputTooLarge(end as usize));
        }
        let starts = start_slice(&laid_out);
        proof {
            assert forall|j: int| 0 <= j < fs.len() implies (#[trigger] fs[j]).content.len()
                <= 0x3ffff by {
                lemma_none_too_long(fs, fs.len() as int, j);
            }
        }
        let ghost base = target@;
        let ghost cat = catalog(self@);
        let mut i: usize = 0;
        while i < 512
            invariant
                self.wf(),
                fs == self@.files,
                cat == catalog(self@),
                0 <= i <= 512,
                starts@.len() == fs.len(),
                forall|j: int| 0 <= j < starts@.len() ==> #[trigger] starts@[j] == start_sector_of(
                    fs,
                    j,
                ),
                end == end_sector(fs),
                forall|j: int| 0 <= j < fs.len() ==> (#[trigger] fs[j]).content.len() <= 0x3ffff,
                target@ == base + cat.subrange(0, i as int),
            decreases 512 - i,
        {
            let b = self.catalog_byte_at(starts, end, i);
            target.push(b);
            proof {
                assert(cat.subrange(0, i as int + 1) =~= cat.subrange(0, i as int).push(b));
            }
            i = i + 1;
        }
        assert(cat.subrange(0, 512) =~= cat);
        let mut k: usize = 0;
        while k < self.files.len()
            invariant
                fs == self@.files,
                fs.len() == self.files@.len(),
                0 <= k <= fs.len(),
                forall|j: int| 0 <= j < fs.len() ==> (#[trigger] fs[j]).content.len() <= 0x3ffff,
                target@ == base + cat + data_sectors(fs, k as int),
            decreases fs.len() - k,
        {
            let ghost before = target@;
            assert(fs[k as int] == self.files@[k as int]@);
            let content = self.files[k].content();
            let mut j: usize = 0;
            while j < content.len()
                invariant
                    0 <= j <= content@.len(),
                    target@ == before + content@.subrange(0, j as int),
                decreases content@.len() - j,
            {
                target.push(content[j]);
                proof {
                    assert(content@.subrange(0, j as int + 1) =~= content@.subrange(0, j as int).push(
                        content@[j as int],
                    ));
                }
                j = j + 1;
            }
            let len = content.len();
            let pad: usize = (len + 255) / 256 * 256 - len;
            let ghost mid = target@;
            let mut z: usize = 0;
            while z < pad
                invariant
                    0 <= z <= pad,
                    target@ == mid + zeros(z as int),
                decreases pad - z,
            {
                target.push(0);
                proof {
                    assert(zeros(z as int + 1) =~= zeros(z as int).push(0u8));
                }
                z = z + 1;
            }
            proof {
                assert(content@.subrange(0, len as int) =~= content@);
                assert(target@ =~= base + cat + data_sectors(fs, k as int + 1));
            }
            k = k + 1;
        }
        proof {
            assert(target@ =~= base + (cat + data_sectors(fs, fs.len() as int)));
        }
        Ok(end)
    }

    /// Decodes a disc image.
    ///
    /// Fails with `InputTooSmall(512)` where `src` is shorter than the two
    /// catalog sectors, with `InvalidDiscData(offset)` at the first malformed
    /// byte, and with `DuplicateFileName` where two entries share a key.
    /// File contents are copied out of `src`.
    pub fn from_bytes(src: &[u8]) -> (r: Result<Disc, DFSError>)
        ensures
            r is Ok <==> decoded(src@) is Ok,
            r matches Ok(d) ==> d.wf() && decoded(src@) == Ok::<DiscView, DecodeFault>(d@),
            r matches Err(e) ==> (decoded(src@) matches Err(f) && reports(e, f)),
    {
        if src.len() < 512 {
            return Err(DFSError::InputTooSmall(512));
        }
        let ghost s = src@;
        let ghost buf = disc_name_buf(s);
        let mut name_bytes: Vec<u8> = Vec::new();
        let mut k: usize = 0;
        while k < 12 && disc_name_byte(src, k) > 0x20
            invariant
                src@ == s,
                s.len() >= 512,
                buf == disc_name_buf(s),
                0 <= k <= 12,
                name_bytes@ == buf.subrange(0, k as int),
                forall|j: int| 0 <= j < k ==> buf[j] > 0x20,
            decreases 12 - k,
        {
            name_bytes.push(disc_name_byte(src, k));
            k = k + 1;
        }
        proof {
            lemma_disc_name_len(buf, k as int);
        }
        let name = match DiscName::try_from(name_bytes.as_slice()) {
            Ok(n) => {
                proof {
                    lemma_name_check(name_bytes@, 12, None);
                }
                n
            },
            Err(e) => {
                proof {
                    lemma_name_check(name_bytes@, 12, Some(e@ as int));
                }
                let p = e.position();
                return Err(DFSError::InvalidDiscData(if p >= 8 { p + 0xf8 } else { p }));
            },
        };
        let sectors: u16 = ((src[0x106] % 4) as u16) * 256 + (src[0x107] as u16);
        if sectors < 2 {
            return Err(DFSError::InvalidDiscData(0x107));
        }
        let boot_option = match BootOption::try_from(src[0x106] / 16 % 4) {
            Ok(b) => b,
            Err(e) => {
                return Err(e);
            },
        };
        let cycle = match BCD::from_hex(src[0x104]) {
            Ok(c) => c,
            Err(_) => {
                return Err(DFSError::InvalidDiscData(0x104));
            },
        };
        let raw = src[0x105];
        if raw % 8 != 0 {
            return Err(DFSError::InvalidDiscData(0x105));
        }
        let count: usize = (raw / 8) as usize;
        let mut files: Vec<File> = Vec::new();
        let mut i: usize = 0;
        assert(views(files@) =~= Seq::<FileView>::empty());
        while i < count
            invariant
                src@ == s,
                decoded(s) == with_entries(s, name@),
                boot_option == boot_option_from_bits((s[0x106] / 16 % 4) as u8),
                cycle@ == s[0x104],
                s.len() >= 512,
                count == s[0x105] / 8,
                0 <= i <= count,
                decoded_entries(s, i as int) == Ok::<Seq<FileView>, DecodeFault>(views(files@)),
                files_sorted(views(files@)),
                forall|j: int| 0 <= j < files@.len() ==> (#[trigger] views(files@)[j]).valid(),
                files@.len() <= i,
            decreases count - i,
        {
            let ghost fs = views(files@);
            let f = match decode_entry(src, i) {
                Ok(f) => f,
                Err(p) => {
                    proof {
                        lemma_entries_fault_persists(s, i + 1, count as int);
                    }
                    return Err(DFSError::InvalidDiscData(p));
                },
            };
            proof {
                use_type_invariant(&f);
            }
            let (p, found) = find_slot(files.as_slice(), f.dir().as_byte(), f.name_bytes());
            if found {
                proof {
                    assert(fs[p as int].same_key(f@));
                    assert(has_same_key(fs, f@));
                    lemma_entries_fault_persists(s, i + 1, count as int);
                }
                return Err(DFSError::DuplicateFileName(key_display(&f)));
            }
            proof {
                assert(!has_same_key(fs, f@)) by {
                    if has_same_key(fs, f@) {
                        let j = choose|j: int| 0 <= j < fs.len() && (#[trigger] fs[j]).same_key(f@);
                        assert(has_key(fs, f@.dir, f@.name));
                    }
                }
                lemma_insert_keeps_sorted(fs, f@, p as int);
                lemma_insert_sorted(fs, f@, p as int);
            }
            files.insert(p, f);
            proof {
                assert(views(files@) =~= fs.insert(p as int, f@));
            }
            i = i + 1;
        }
        let d = Disc { name, boot_option, cycle, files };
        proof {
            use_type_invariant(&d.name);
            use_type_invariant(&d.cycle);
        }
        Ok(d)
    }

    /// Creates a new, empty DFS disc.
    pub fn new() -> (r: Disc)
        ensures
            r.wf(),
            r@.name == Seq::<u8>::empty(),
            r@.boot_option == BootOption::Off,
            r@.cycle == 0,
            r@.files == Seq::<FileView>::empty(),
    {
        let cycle = BCD::zero();
        let d = Disc { name: DiscName::empty(), boot_option: BootOption::Off, cycle, files: Vec::new() };
        assert(d@.files =~= Seq::<FileView>::empty());
        d
    }

    pub fn cycle(&self) -> (r: BCD)
        ensures
            r@ == self@.cycle,
    {
        self.cycle
    }

    /// The cycle count, to be changed in place.
    pub fn cycle_mut(&mut self) -> (r: &mut BCD)
        requires
            old(self).wf(),
        ensures
            (*r)@ == old(self)@.cycle,
            final(self)@ == (DiscView { cycle: (*final(r))@, ..old(self)@ }),
    {
        &mut self.cycle
    }

    /// Advances the cycle count by one, wrapping from 99 back to 0.
    pub fn increment_cycle(&mut self)
        requires
            old(self).wf(),
        ensures
            final(self).wf(),
            final(self)@ == (DiscView {
                cycle: bcd_encoding(((bcd_decimal(old(self)@.cycle) + 1) % 100) as u8),
                ..old(self)@
            }),
    {
        let d = self.cycle.into_u8();
        let next: u8 = if d >= 99 { 0 } else { d + 1 };
        let c = match BCD::try_new(next) {
            Ok(bcd) => bcd,
            Err(_) => BCD::zero(),
        };
        proof {
            use_type_invariant(&c);
        }
        self.cycle = c;
    }

    /// The disc name as an ASCII string.
    pub fn name(&self) -> (r: String)
        ensures
            r@ == ascii_chars(self@.name),
    {
        self.name.as_ascii_str()
    }

    /// The disc name's characters, as bytes.
    pub fn name_bytes(&self) -> (r: &[u8])
        ensures
            r@ == self@.name,
    {
        self.name.as_bytes()
    }

    /// Renames the disc; fails, leaving it unchanged, where `new_name` is not
    /// a valid disc name.
    pub fn set_name(&mut self, new_name: &[u8]) -> (r: Result<(), AsciiNameError>)
        requires
            old(self).wf(),
        ensures
            final(self).wf(),
            r is Ok <==> is_valid_name(new_name@, 12),
            r is Ok ==> final(self)@ == (DiscView { name: new_name@, ..old(self)@ }),
            r is Err ==> final(self)@ == old(self)@,
            r matches Err(e) ==> crate::support::is_first_name_fault(
                new_name@,
                12,
                e@ as int,
            ),
    {
        match DiscName::try_from(new_name) {
            Ok(n) => {
                self.name = n;
                Ok(())
            },
            Err(e) => Err(e),
        }
    }

    pub fn boot_option(&self) -> (r: BootOption)
        ensures
            r == self@.boot_option,
    {
        self.boot_option
    }

    /// The boot option, to be changed in place.
    pub fn boot_option_mut(&mut self) -> (r: &mut BootOption)
        requires
            old(self).wf(),
        ensures
            *r == old(self)@.boot_option,
            final(self)@ == (DiscView { boot_option: *final(r), ..old(self)@ }),
            final(self).wf(),
    {
        &mut self.boot_option
    }

    /// The files, in key order.
    pub fn files(&self) -> (r: &[File])
        ensures
            views(r@) == self@.files,
    {
        self.files.as_slice()
    }

    /// Adds a file, replacing any file with the same directory and name.
    ///
    /// Fails, handing the file back and leaving the disc unchanged, where the
    /// disc already holds 31 files. Otherwise returns the file replaced, if any.
    pub fn add_file(&mut self, file: File) -> (r: Result<Option<File>, File>)
        requires
            old(self).wf(),
        ensures
            final(self).wf(),
            old(self)@.files.len() >= MAX_FILES ==> (r matches Err(f) && f@ == file@ && final(self)@ == old(self)@),
            old(self)@.files.len() < MAX_FILES && has_key(old(self)@.files, file@.dir, file@.name)
                ==> (r matches Ok(Some(g)) && exists|i: int|
                0 <= i < old(self)@.files.len() && #[trigger] old(self)@.files[i] == g@
                    && g@.same_key(file@) && final(self)@ == (DiscView {
                    files: old(self)@.files.update(i, file@),
                    ..old(self)@
                })),
            old(self)@.files.len() < MAX_FILES && !has_key(
                old(self)@.files,
                file@.dir,
                file@.name,
            ) ==> (r matches Ok(None) && exists|p: int|
                0 <= p <= old(self)@.files.len() && final(self)@ == (DiscView {
                    files: #[trigger] old(self)@.files.insert(p, file@),
                    ..old(self)@
                })),
    {
        if self.files.len() >= MAX_FILES {
            return Err(file);
        }
        proof {
            use_type_invariant(&file);
        }
        let ghost fs = self@.files;
        let (p, found) = find_slot(self.files.as_slice(), file.dir().as_byte(), file.name_bytes());
        if found {
            self.files.insert(p, file);
            let g = self.files.remove(p + 1);
            proof {
                assert(self@.files =~= fs.update(p as int, file@));
                assert(fs[p as int] == g@);
                assert forall|i: int, j: int| 0 <= i < j < self@.files.len() implies (
                #[trigger] self@.files[i]).key_lt(#[trigger] self@.files[j]) by {
                    assert(fs[i].key_lt(fs[j]));
                }
            }
            Ok(Some(g))
        } else {
            proof {
                lemma_insert_keeps_sorted(fs, file@, p as int);
            }
            self.files.insert(p, file);
            proof {
                assert(self@.files =~= fs.insert(p as int, file@));
            }
            Ok(None)
        }
    }

    /// Looks a file up by name and directory.
    pub fn find_file(&self, file_name: &FileName, dir_name: AsciiPrintingChar) -> (r: Option<
        &File,
    >)
        requires
            self.wf(),
        ensures
            r is Some <==> has_key(self@.files, dir_name@, file_name@),
            r matches Some(f) ==> f@.dir == dir_name@ && f@.name == file_name@
                && self@.files.contains(f@),
    {
        let (p, found) = find_slot(self.files.as_slice(), dir_name.as_byte(), file_name.as_bytes());
        if found {
            proof {
                assert(self@.files[p as int] == self.files@[p as int]@);
            }
            Some(&self.files[p])
        } else {
            None
        }
    }

    /// Removes a file by name and directory, handing it back.
    pub fn remove_file(&mut self, file_name: &FileName, dir_name: AsciiPrintingChar) -> (r:
        Option<File>)
        requires
            old(self).wf(),
        ensures
            final(self).wf(),
            !has_key(old(self)@.files, dir_name@, file_name@) ==> r is None && final(self)@ == old(self)@,
            has_key(old(self)@.files, dir_name@, file_name@) ==> (r matches Some(f) && exists|i: int|
                0 <= i < old(self)@.files.len() && #[trigger] old(self)@.files[i] == f@
                    && f@.dir == dir_name@ && f@.name == file_name@ && final(self)@ == (DiscView {
                    files: old(self)@.files.remove(i),
                    ..old(self)@
                })),
    {
        let ghost fs = self@.files;
        let (p, found) = find_slot(self.files.as_slice(), dir_name.as_byte(), file_name.as_bytes());
        if found {
            let f = self.files.remove(p);
            proof {
                assert(self@.files =~= fs.remove(p as int));
                assert(fs[p as int] == f@);
                assert forall|i: int, j: int| 0 <= i < j < self@.files.len() implies (
                #[trigger] self@.files[i]).key_lt(#[trigger] self@.files[j]) by {
                    if j < p {
                        assert(fs[i].key_lt(fs[j]));
                    } else if i < p {
                        assert(fs[i].key_lt(fs[j + 1]));
                    } else {
                        assert(fs[i + 1].key_lt(fs[j + 1]));
                    }
                }
            }
            Some(f)
        } else {
            None
        }
    }
}

} // verus!
