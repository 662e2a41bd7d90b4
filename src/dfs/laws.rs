//! What holds across the codec's operations, proved over the layout that
//! `decoded` and `encoded` state.

use vstd::prelude::*;
use vstd::arithmetic::div_mod::{lemma_fundamental_div_mod, lemma_fundamental_div_mod_converse};

use crate::dfs::disc::{boot_option_from_bits, DiscView};
use crate::dfs::file::{lemma_key_lt_irreflexive, FileView};
use crate::dfs::layout::{
    addr_entry_byte, busy_bits, busy_high_bits, catalog, data_sectors, decoded, decoded_entries, dir_byte,
    disc_name_buf, disc_name_len, disc_name_offset, encoded, end_sector, entry_addr_offset,
    entry_dir_byte, entry_exec, entry_fault, entry_file, entry_length, entry_load, entry_name,
    entry_name_field, entry_name_offset, entry_start_sector, has_same_key, insert_sorted,
    lemma_disc_name_len, lemma_entries_fault_persists, lemma_file_name_len,
    lemma_first_unprintable, lemma_insert_sorted, lemma_none_too_long, padded, sector_count,
    sectors_for, start_sector_of, DecodeFault,
};
use crate::support::{is_printing, name_fault_at};

verus! {

proof fn lemma_sectors_for(len: int)
    requires
        len >= 0,
    ensures
        sectors_for(len) >= 0,
        len <= sectors_for(len) * 256 < len + 256,
{
    lemma_fundamental_div_mod(len + 255, 256);
}

proof fn lemma_entry_index(m: int, o: int)
    requires
        0 <= m,
        0 <= o < 8,
    ensures
        (8 * m + o) / 8 == m,
        (8 * m + o) % 8 == o,
{
    lemma_fundamental_div_mod_converse(8 * m + o, 8, m, o);
}

/// Files start in order, each after the sectors of those before it.
proof fn lemma_start_monotone(fs: Seq<FileView>, j: int, k: int)
    requires
        0 <= j < k <= fs.len(),
    ensures
        start_sector_of(fs, j) >= 2,
        start_sector_of(fs, j) + sectors_for(fs[j].content.len() as int) <= start_sector_of(fs, k),
    decreases k,
{
    lemma_sectors_for(fs[k - 1].content.len() as int);
    if j < k - 1 {
        lemma_start_monotone(fs, j, k - 1);
    } else {
        lemma_start_at_least_two(fs, j);
    }
}

proof fn lemma_start_at_least_two(fs: Seq<FileView>, k: int)
    requires
        0 <= k <= fs.len(),
    ensures
        start_sector_of(fs, k) >= 2,
    decreases k,
{
    if k > 0 {
        lemma_sectors_for(fs[k - 1].content.len() as int);
        lemma_start_at_least_two(fs, k - 1);
    }
}

proof fn lemma_data_len(fs: Seq<FileView>, n: int)
    requires
        0 <= n <= fs.len(),
    ensures
        data_sectors(fs, n).len() == 256 * (start_sector_of(fs, n) - 2),
    decreases n,
{
    if n > 0 {
        lemma_data_len(fs, n - 1);
        lemma_sectors_for(fs[n - 1].content.len() as int);
    }
}

/// File `k`'s content stands in the data sectors at its start sector.
proof fn lemma_data_content(fs: Seq<FileView>, n: int, k: int)
    requires
        0 <= k < n <= fs.len(),
    ensures
        data_sectors(fs, n).subrange(
            256 * (start_sector_of(fs, k) - 2),
            256 * (start_sector_of(fs, k) - 2) + fs[k].content.len(),
        ) == fs[k].content,
    decreases n,
{
    let off = 256 * (start_sector_of(fs, k) - 2);
    let len = fs[k].content.len() as int;
    lemma_data_len(fs, n - 1);
    lemma_sectors_for(len);
    if k == n - 1 {
        assert(data_sectors(fs, n).subrange(off, off + len) =~= fs[k].content);
    } else {
        lemma_data_content(fs, n - 1, k);
        lemma_start_monotone(fs, k, n - 1);
        assert(data_sectors(fs, n).subrange(off, off + len) =~= data_sectors(fs, n - 1).subrange(
            off,
            off + len,
        ));
    }
}

proof fn lemma_low_bytes(x: u32)
    by (bit_vector)
    ensures
        ((x % 256) as u8) as u32 + 256 * (((x / 256 % 256) as u8) as u32) == x % 65536,
{
}

proof fn lemma_busy_fields(load: u32, exec: u32, len: u32, start: u32)
    by (bit_vector)
    requires
        load < 0x40000,
        exec < 0x40000,
        len < 0x40000,
        start < 0x400,
    ensures
        (load % 65536) | (((busy_bits(load, exec, len, start) as u32) << 14u32) & 0x30000u32)
            == load,
        (exec % 65536) | (((busy_bits(load, exec, len, start) as u32) << 10u32) & 0x30000u32)
            == exec,
        (len % 65536) | (((busy_bits(load, exec, len, start) as u32) << 12u32) & 0x30000u32)
            == len,
        (start % 256) | (((busy_bits(load, exec, len, start) as u32) << 8u32) & 0x300u32)
            == start,
{
}

/// Packing the high bits of an entry's fields into a busy byte and unpacking
/// them gives each field back once joined with its low bits, for addresses
/// and a length of at most 18 bits and a start sector of at most 10: the
/// encoder's and decoder's bit positions mirror each other.
pub proof fn lemma_busy_round_trip(load: u32, exec: u32, len: u32, start: u32)
    requires
        load < 0x40000,
        exec < 0x40000,
        len < 0x40000,
        start < 0x400,
    ensures
        (load % 0x10000) | busy_high_bits(busy_bits(load, exec, len, start) as u32).0 == load,
        (exec % 0x10000) | busy_high_bits(busy_bits(load, exec, len, start) as u32).1 == exec,
        (len % 0x10000) | busy_high_bits(busy_bits(load, exec, len, start) as u32).2 == len,
        (start % 0x100) | busy_high_bits(busy_bits(load, exec, len, start) as u32).3 == start,
{
    lemma_busy_fields(load, exec, len, start);
}

proof fn lemma_dir_bits(d: u8)
    by (bit_vector)
    requires
        d < 0x80,
    ensures
        ((d + 0x80) as u8) & 0x7f == d,
        ((d + 0x80) as u8) >= 0x80,
        d & 0x7f == d,
{
}

/// The names of a disc hold no space: a space would end a name early when
/// the image is read back.
pub open spec fn fits_image(v: DiscView) -> bool {
    &&& forall|j: int| 0 <= j < v.name.len() ==> #[trigger] v.name[j] != 0x20
    &&& forall|k: int, j: int|
        0 <= k < v.files.len() && 0 <= j < v.files[k].name.len() ==> #[trigger] v.files[k].name[j]
            != 0x20
}

/// Catalog entry `m` of an encoded image reads back as file `m`.
proof fn lemma_entry_reads_back(v: DiscView, img: Seq<u8>, m: int)
    requires
        v.valid(),
        fits_image(v),
        encoded(v) == Ok::<Seq<u8>, int>(img),
        0 <= m < v.files.len(),
    ensures
        entry_fault(img, m) is None,
        entry_file(img, m) == v.files[m],
{
    let fs = v.files;
    let n = fs.len() as int;
    let f = fs[m];
    let st = start_sector_of(fs, m);
    let end = end_sector(fs);
    let data = data_sectors(fs, n);
    let cat = catalog(v);
    let len = f.content.len() as int;
    assert(img == cat + data);
    lemma_none_too_long(fs, n, m);
    lemma_start_monotone(fs, m, n);
    lemma_sectors_for(len);
    lemma_data_len(fs, n);
    lemma_data_content(fs, n, m);
    assert(f.valid());
    assert forall|o: int| 0 <= o < 8 implies #[trigger] img[entry_name_offset(m) + o] == (if o
        < 7 {
        padded(f.name, o)
    } else {
        dir_byte(f)
    }) by {
        lemma_entry_index(m, o);
        assert(img[entry_name_offset(m) + o] == cat[entry_name_offset(m) + o]);
    }
    assert forall|o: int| 0 <= o < 8 implies #[trigger] img[entry_addr_offset(m) + o]
        == addr_entry_byte(f, st, o) by {
        lemma_entry_index(m, o);
        assert(img[entry_addr_offset(m) + o] == cat[entry_addr_offset(m) + o]);
    }
    // the name, up to its padding
    if f.name.len() > 7 {
        assert(name_fault_at(f.name, 7, 7));
    }
    let field = entry_name_field(img, m);
    assert forall|j: int| 0 <= j < f.name.len() implies field[j] != 0x20 by {
        assert(img[entry_name_offset(m) + j] == padded(f.name, j));
    }
    if f.name.len() < 7 {
        assert(img[entry_name_offset(m) + f.name.len()] == padded(f.name, f.name.len() as int));
    }
    lemma_file_name_len(field, f.name.len() as int);
    assert forall|j: int| 0 <= j < f.name.len() implies field[j] == f.name[j] by {
        assert(img[entry_name_offset(m) + j] == padded(f.name, j));
    }
    assert(entry_name(img, m) =~= f.name);
    assert forall|j: int| 0 <= j < f.name.len() implies is_printing(f.name[j]) by {
        assert(!name_fault_at(f.name, 7, j));
    }
    lemma_first_unprintable(f.name, f.name.len() as int);
    // the directory byte
    assert(entry_dir_byte(img, m) == dir_byte(f));
    lemma_dir_bits(f.dir);
    // the addresses
    let off2 = entry_addr_offset(m);
    assert(img[off2] == addr_entry_byte(f, st, 0));
    assert(img[off2 + 1] == addr_entry_byte(f, st, 1));
    assert(img[off2 + 2] == addr_entry_byte(f, st, 2));
    assert(img[off2 + 3] == addr_entry_byte(f, st, 3));
    assert(img[off2 + 4] == addr_entry_byte(f, st, 4));
    assert(img[off2 + 5] == addr_entry_byte(f, st, 5));
    assert(img[off2 + 6] == addr_entry_byte(f, st, 6));
    assert(img[off2 + 7] == addr_entry_byte(f, st, 7));
    lemma_low_bytes(f.load_addr);
    lemma_low_bytes(f.exec_addr);
    lemma_low_bytes(len as u32);
    lemma_busy_fields(f.load_addr, f.exec_addr, len as u32, st as u32);
    assert(entry_load(img, m) == f.load_addr);
    assert(entry_exec(img, m) == f.exec_addr);
    assert(entry_length(img, m) == len);
    assert(entry_start_sector(img, m) == st);
    // the content
    assert(img.len() == 256 * end);
    assert(img.subrange(st * 256, st * 256 + len) =~= data.subrange(
        256 * (st - 2),
        256 * (st - 2) + len,
    ));
}

/// The first `m` catalog entries of an encoded image read back as the
/// first `m` files.
proof fn lemma_entries_read_back(v: DiscView, img: Seq<u8>, m: int)
    requires
        v.valid(),
        fits_image(v),
        encoded(v) == Ok::<Seq<u8>, int>(img),
        0 <= m <= v.files.len(),
    ensures
        decoded_entries(img, m) == Ok::<Seq<FileView>, DecodeFault>(v.files.take(m)),
    decreases m,
{
    let fs = v.files;
    if m == 0 {
        assert(fs.take(0) =~= Seq::<FileView>::empty());
    } else {
        lemma_entries_read_back(v, img, m - 1);
        lemma_entry_reads_back(v, img, m - 1);
        let prev = fs.take(m - 1);
        let f = fs[m - 1];
        assert forall|j: int| 0 <= j < prev.len() implies !(#[trigger] prev[j]).same_key(f) by {
            assert(fs[j].key_lt(fs[m - 1]));
            lemma_key_lt_irreflexive(f);
        }
        assert forall|j: int| 0 <= j < m - 1 implies (#[trigger] prev[j]).key_lt(f) by {
            assert(fs[j].key_lt(fs[m - 1]));
        }
        lemma_insert_sorted(prev, f, m - 1);
        assert(prev.insert(m - 1, f) =~= fs.take(m));
    }
}

/// Encoding a disc and decoding the image gives the same disc back: its
/// name, boot option and cycle, and its files with their names,
/// directories, addresses, lock flags and contents. This holds for every
/// valid disc whose image fits the format's limits and whose names hold no
/// space.
pub proof fn lemma_round_trip(v: DiscView)
    requires
        v.valid(),
        fits_image(v),
        encoded(v) is Ok,
    ensures
        decoded(encoded(v)->Ok_0) == Ok::<DiscView, DecodeFault>(v),
{
    let img = encoded(v)->Ok_0;
    let fs = v.files;
    let n = fs.len() as int;
    let end = end_sector(fs);
    let cat = catalog(v);
    assert(img == cat + data_sectors(fs, n));
    // the disc name
    let buf = disc_name_buf(img);
    assert forall|j: int| 0 <= j < 12 implies #[trigger] buf[j] == padded(v.name, j) by {
        if j < 8 {
            assert(buf[j] == cat[j]);
        } else {
            assert(buf[j] == cat[0xf8 + j]);
        }
    }
    let len = v.name.len() as int;
    if len > 12 {
        assert(name_fault_at(v.name, 12, 12));
    }
    assert forall|j: int| 0 <= j < len implies is_printing(v.name[j]) by {
        assert(!name_fault_at(v.name, 12, j));
    }
    assert forall|j: int| 0 <= j < len implies buf[j] > 0x20 by {
        assert(buf[j] == padded(v.name, j));
        assert(!name_fault_at(v.name, 12, j));
    }
    if len < 12 {
        assert(buf[len] == padded(v.name, len));
    }
    lemma_disc_name_len(buf, len);
    assert(buf.subrange(0, len) =~= v.name);
    lemma_first_unprintable(v.name, len);
    // the header fields
    assert(img[0x104] == cat[0x104]);
    assert(img[0x105] == cat[0x105]);
    assert(img[0x106] == cat[0x106]);
    assert(img[0x107] == cat[0x107]);
    lemma_fundamental_div_mod(end, 256);
    lemma_start_at_least_two(fs, n);
    assert(sector_count(img) == end);
    assert(boot_option_from_bits((img[0x106] / 16 % 4) as u8) == v.boot_option);
    // the entries
    lemma_entries_read_back(v, img, n);
    assert(fs.take(n) =~= fs);
}

/// Any image shorter than the two catalog sectors fails to decode as too
/// small, whatever its bytes.
pub proof fn lemma_short_input_rejected(s: Seq<u8>)
    requires
        s.len() < 512,
    ensures
        decoded(s) == Err::<DiscView, DecodeFault>(DecodeFault::TooSmall),
{
}

/// What a file set holds after inserting in key order: every key it held,
/// and the key inserted.
proof fn lemma_insert_sorted_has_key(fs: Seq<FileView>, f: FileView, g: FileView)
    requires
        has_same_key(fs, g) || g.same_key(f),
    ensures
        has_same_key(insert_sorted(fs, f), g),
    decreases fs.len(),
{
    let r = insert_sorted(fs, f);
    if fs.len() == 0 {
        assert(r[0].same_key(g));
    } else if f.key_lt(fs[0]) {
        if g.same_key(f) {
            assert(r[0].same_key(g));
        } else {
            let j = choose|j: int| 0 <= j < fs.len() && (#[trigger] fs[j]).same_key(g);
            assert(r[j + 1].same_key(g));
        }
    } else {
        let rest = fs.drop_first();
        let rr = insert_sorted(rest, f);
        assert(r == seq![fs[0]] + rr);
        if !g.same_key(f) && fs[0].same_key(g) {
            assert(r[0].same_key(g));
        } else {
            if !g.same_key(f) {
                let j = choose|j: int| 0 <= j < fs.len() && (#[trigger] fs[j]).same_key(g);
                assert(j != 0);
                assert(rest[j - 1].same_key(g));
            }
            lemma_insert_sorted_has_key(rest, f, g);
            let k = choose|k: int| 0 <= k < rr.len() && (#[trigger] rr[k]).same_key(g);
            assert(r[k + 1].same_key(g));
        }
    }
}

/// Decoding well-formed entries either fails on a duplicate or holds the
/// key of every entry read so far.
proof fn lemma_entries_keys(s: Seq<u8>, m: int)
    requires
        0 <= m,
        forall|k: int| 0 <= k < m ==> entry_fault(s, k) is None,
    ensures
        decoded_entries(s, m) matches Err(e) ==> e is Duplicate,
        decoded_entries(s, m) matches Ok(fs) ==> forall|k: int|
            0 <= k < m ==> has_same_key(fs, #[trigger] entry_file(s, k)),
    decreases m,
{
    if m > 0 {
        lemma_entries_keys(s, m - 1);
        assert(entry_fault(s, m - 1) is None);
        if let Ok(fs) = decoded_entries(s, m - 1) {
            let f = entry_file(s, m - 1);
            if !has_same_key(fs, f) {
                assert forall|k: int| 0 <= k < m implies has_same_key(
                    insert_sorted(fs, f),
                    #[trigger] entry_file(s, k),
                ) by {
                    if k < m - 1 {
                        assert(has_same_key(fs, entry_file(s, k)));
                    } else {
                        assert(entry_file(s, k).same_key(f));
                    }
                    lemma_insert_sorted_has_key(fs, f, entry_file(s, k));
                }
            }
        }
    }
}

/// Two catalog entries with the same directory and name, among entries that
/// are otherwise well formed, make decoding fail on a duplicate name,
/// whatever their addresses and contents: the image does not decode, and
/// its catalog entries fail with a duplicate-name fault.
pub proof fn lemma_duplicate_rejected(s: Seq<u8>, i: int, j: int)
    requires
        0 <= i < j < s[0x105] / 8,
        forall|k: int| 0 <= k < s[0x105] / 8 ==> entry_fault(s, k) is None,
        entry_file(s, i).same_key(entry_file(s, j)),
    ensures
        decoded_entries(s, (s[0x105] / 8) as int) matches Err(e) && e is Duplicate,
        decoded(s) is Err,
{
    let count = (s[0x105] / 8) as int;
    lemma_entries_keys(s, j);
    match decoded_entries(s, j) {
        Ok(fs) => {
            assert(has_same_key(fs, entry_file(s, i)));
            let k = choose|k: int| 0 <= k < fs.len() && (#[trigger] fs[k]).same_key(
                entry_file(s, i),
            );
            assert(fs[k].same_key(entry_file(s, j)));
            assert(decoded_entries(s, j + 1) is Err);
        },
        Err(e) => {
            lemma_entries_fault_persists(s, j, j + 1);
        },
    }
    lemma_entries_fault_persists(s, j + 1, count);
}

/// What the length of a disc name says of its bytes.
proof fn lemma_disc_name_len_props(buf: Seq<u8>)
    ensures
        0 <= disc_name_len(buf) <= buf.len(),
        forall|j: int| 0 <= j < disc_name_len(buf) ==> buf[j] > 0x20,
        disc_name_len(buf) == buf.len() || buf[disc_name_len(buf)] <= 0x20,
    decreases buf.len(),
{
    if buf.len() > 0 && buf[0] > 0x20 {
        let rest = buf.drop_first();
        lemma_disc_name_len_props(rest);
        assert forall|j: int| 0 <= j < disc_name_len(buf) implies buf[j] > 0x20 by {
            if j > 0 {
                assert(buf[j] == rest[j - 1]);
            }
        }
    }
}

/// A disc-name byte with its top bit set, after name bytes that are all
/// printing and not space, fails decoding at that byte's offset in the
/// image: position `p` of the name for the first eight bytes, which sector 0
/// holds, and offset `0x100 + (p - 8)` for the last four, which sector 1 holds.
pub proof fn lemma_name_byte_fault(s: Seq<u8>, p: int)
    requires
        s.len() >= 512,
        0 <= p < 12,
        disc_name_buf(s)[p] >= 0x80,
        forall|j: int| 0 <= j < p ==> 0x20 < #[trigger] disc_name_buf(s)[j] < 0x7f,
    ensures
        decoded(s) == Err::<DiscView, DecodeFault>(DecodeFault::BadData(disc_name_offset(p))),
{
    let buf = disc_name_buf(s);
    lemma_disc_name_len_props(buf);
    let k = disc_name_len(buf);
    if k <= p {
        assert(buf[k] > 0x20);
    }
    let name = buf.subrange(0, k);
    lemma_first_unprintable(name, p);
}

} // verus!
