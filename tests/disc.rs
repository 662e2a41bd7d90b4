use dfsdisc::dfs::layout::{pack_busy, unpack_busy};
use dfsdisc::dfs::{BootOption, DFSError, Disc, File, FileName, SECTOR_SIZE};
use dfsdisc::support::{AsciiPrintingChar, CopyFromCommonSliceExt, BCD};

fn disc_buf_with_name(name: &[u8]) -> [u8; SECTOR_SIZE * 2] {
    let mut buf = [0u8; SECTOR_SIZE * 2];
    let parts = name.split_at(8);
    buf.copy_from_common_slice(parts.0);
    buf[0x100..].copy_from_common_slice(parts.1);
    buf[0x107] = 2; // sector count
    buf
}

fn three_file_image() -> [u8; SECTOR_SIZE * 6] {
    let mut src = [0u8; SECTOR_SIZE * 6];
    src[0..8].copy_from_slice(b"Discname");
    // Three files:
    // $.Small (12 bytes of '1') load 0x1234 exec 0x5678
    // A.Single (256 bytes of '2') load 0x8765 exec 0x4321
    // B.Double (257 bytes of '3') load 0x0111 exec 0x0eee
    src[8..40].copy_from_slice(b"Small\x20\x20$Single\x20ADouble\x20BNEVER\x20\x20C");
    src[0x100..0x108].copy_from_slice(b"\x20\x20\x20\x20\x11\x18\x00\x06");
    src[0x108..0x110].copy_from_slice(b"\x34\x12\x78\x56\x0c\x00\x00\x02");
    src[0x110..0x118].copy_from_slice(b"\x65\x87\x21\x43\x00\x01\x00\x03");
    src[0x118..0x120].copy_from_slice(b"\x11\x01\xee\x0e\x01\x01\x00\x04");
    // Don't parse this file!
    src[0x120..0x128].copy_from_slice(b"\xff\xff\xbb\xbb\x01\x00\x00\x05");

    src[0x200..0x20c].copy_from_slice(&[0x31u8; 12]);
    src[0x300..0x400].copy_from_slice(&[0x32u8; 256]);
    src[0x400..0x501].copy_from_slice(&[0x33u8; 257]);
    src
}

fn check_three_files(src: &[u8]) {
    let target = Disc::from_bytes(src);
    assert!(target.is_ok(), "{:?}", target.unwrap_err());
    let target = target.unwrap();

    // Check cycle count
    assert_eq!(BCD::from_hex(0x11).unwrap(), target.cycle());

    for f in target.files() {
        println!("Found file {}.{}", f.dir().as_char(), f.name());
    }

    // Start picking files apart
    let check = |dir: u8, name: &str, load: u32, exec: u32, len: usize, byte: u8| {
        println!("Checking {}.{}...", dir, name);
        let file = target
            .files()
            .iter()
            .find(|&f| f.dir().as_byte() == dir)
            .unwrap_or_else(|| panic!("No file found in dir '{}'", dir));
        assert_eq!(name, file.name());
        assert_eq!(load, file.load_addr());
        assert_eq!(exec, file.exec_addr());
        assert_eq!(len, file.content().len());
        assert!(file.content().iter().all(|&n| n == byte));
    };

    check(b'$', "Small", 0x1234, 0x5678, 12, 0x31);
    check(b'A', "Single", 0x8765, 0x4321, 256, 0x32);
    check(b'B', "Double", 0x0111, 0x0eee, 257, 0x33);

    assert!(target.files().iter().find(|&f| f.dir().as_byte() == b'C').is_none());
}

#[test]
fn disc_from_bytes_files_success() {
    check_three_files(&three_file_image());
}

#[test]
fn dfs_from_bytes_files_success() {
    check_three_files(&three_file_image());
}

#[test]
fn disc_disc_name() {
    let test_name = b"DiscName?!";
    let buf = disc_buf_with_name(test_name);

    let target = Disc::from_bytes(&buf);
    assert!(target.is_ok(), "returned error {:?}", target.unwrap_err());

    let target = target.unwrap();
    assert_eq!(test_name, target.name().as_bytes());
}

#[test]
fn dfs_disc_name() {
    let test_name = b"DiscName?!";
    let buf = disc_buf_with_name(test_name);

    let target = Disc::from_bytes(&buf);
    assert!(target.is_ok(), "returned error {:?}", target.unwrap_err());

    let target = target.unwrap();
    assert_eq!(test_name, target.name().as_bytes());
}

#[test]
fn disc_disc_name_top_bits_set() {
    let disc_name = b"DiscName";

    for i in 0..8 {
        let mut buf = [0u8; 8];
        buf.copy_from_slice(disc_name);
        buf[i] |= 0x80; // set a high bit

        let disc_bytes = disc_buf_with_name(&buf);

        let target = Disc::from_bytes(&disc_bytes).unwrap_err();
        assert_eq!(target, DFSError::InvalidDiscData(i));
    }

    let disc_bytes = disc_buf_with_name(b"DiscNameAB\xffD");
    let target = Disc::from_bytes(&disc_bytes);
    assert!(target.is_err());

    let target = target.unwrap_err();
    assert_eq!(DFSError::InvalidDiscData(0x102), target);

    // a space should be a terminator
    let disc_bytes = disc_buf_with_name(b"DiscName \xff\xff\xff");
    let target = Disc::from_bytes(&disc_bytes);
    assert!(target.is_ok());
    assert_eq!(target.unwrap().name(), "DiscName");
}

#[test]
fn dfs_disc_name_top_bits_set() {
    let disc_name = b"DiscName";

    for i in 0..8 {
        let mut buf = [0u8; 8];
        buf.copy_from_slice(disc_name);
        buf[i] |= 0x80; // set a high bit

        let disc_bytes = disc_buf_with_name(&buf);

        let target = Disc::from_bytes(&disc_bytes);
        assert!(target.is_err());
        let target = target.unwrap_err();
        assert!(match target {
            DFSError::InvalidDiscData(at_point) => {
                assert_eq!(i, at_point);
                true
            },
            _ => false,
        });
    }

    let disc_bytes = disc_buf_with_name(b"DiscNameAB\xffD");
    let target = Disc::from_bytes(&disc_bytes);
    assert!(target.is_err());

    let target = target.unwrap_err();
    assert_eq!(DFSError::InvalidDiscData(0x102), target);
}

fn check_boot_types() {
    for (boot_type_int, boot_type) in
        [BootOption::Off, BootOption::Load, BootOption::Run, BootOption::Exec].iter().enumerate()
    {
        let mut buf = disc_buf_with_name(b"DiscName");
        buf[0x106] = (boot_type_int as u8) << 4;
        let buf = buf;

        let target = Disc::from_bytes(&buf);
        assert!(target.is_ok());
        let target = target.unwrap();
        assert_eq!(*boot_type, target.boot_option());
    }
}

#[test]
fn disc_boot_types() {
    check_boot_types();
}

#[test]
fn dfs_boot_types() {
    check_boot_types();
}

fn check_invalid_sector_count() {
    let case = |n| {
        let mut buf = disc_buf_with_name(b"DiscName");
        buf[0x107] = n;
        let buf = buf;

        let target = Disc::from_bytes(&buf);
        assert!(target.is_err());
        let target = target.unwrap_err();
        assert_eq!(target, DFSError::InvalidDiscData(0x107));
    };

    case(0);
    case(1);
}

#[test]
fn disc_invalid_sector_count() {
    check_invalid_sector_count();
}

#[test]
fn dfs_invalid_sector_count() {
    check_invalid_sector_count();
}

fn make_file(name: &[u8], dir: u8, load: u32, exec: u32, content: Vec<u8>) -> File {
    File::new(
        FileName::try_from(name).unwrap(),
        AsciiPrintingChar::from(dir).unwrap(),
        load,
        exec,
        false,
        content,
    )
}

#[test]
fn single_file_scenario() {
    let src = three_file_image();
    let disc = Disc::from_bytes(&src).unwrap();
    let small = disc
        .find_file(&FileName::try_from(b"Small").unwrap(), AsciiPrintingChar::from(b'$').unwrap())
        .unwrap();
    assert_eq!("Small", small.name());
    assert_eq!(b'$', small.dir().as_byte());
    assert_eq!(0x1234, small.load_addr());
    assert_eq!(0x5678, small.exec_addr());
    assert_eq!(&[0x31u8; 12][..], small.content());
    assert!(!small.is_locked());
}

#[test]
fn short_input_fails() {
    for len in [0usize, 1, 256, 511] {
        let buf = vec![0x41u8; len];
        assert_eq!(DFSError::InputTooSmall(512), Disc::from_bytes(&buf).unwrap_err());
    }
    let buf = disc_buf_with_name(b"DiscName");
    assert!(Disc::from_bytes(&buf).is_ok());
}

#[test]
fn name_fault_offsets() {
    for p in 0..8 {
        let mut buf = disc_buf_with_name(b"ABCDEFGHIJKL");
        buf[p] = 0x80;
        assert_eq!(DFSError::InvalidDiscData(p), Disc::from_bytes(&buf).unwrap_err());
    }
    for k in 0..4 {
        let mut buf = disc_buf_with_name(b"ABCDEFGHIJKL");
        buf[0x100 + k] = 0xc1;
        assert_eq!(DFSError::InvalidDiscData(0x100 + k), Disc::from_bytes(&buf).unwrap_err());
    }
    let mut buf = disc_buf_with_name(b"ABCDEFGHIJKL");
    buf[3] = 0x7f;
    assert_eq!(DFSError::InvalidDiscData(3), Disc::from_bytes(&buf).unwrap_err());
}

#[test]
fn header_faults() {
    let mut buf = disc_buf_with_name(b"DiscName");
    buf[0x104] = 0x1a;
    assert_eq!(DFSError::InvalidDiscData(0x104), Disc::from_bytes(&buf).unwrap_err());

    let mut buf = disc_buf_with_name(b"DiscName");
    buf[0x105] = 0x09;
    assert_eq!(DFSError::InvalidDiscData(0x105), Disc::from_bytes(&buf).unwrap_err());

    // bits 8 and 9 of the sector count stand in byte 0x106
    let mut buf = disc_buf_with_name(b"DiscName");
    buf[0x107] = 0;
    buf[0x106] = 0x31;
    let disc = Disc::from_bytes(&buf).unwrap();
    assert_eq!(BootOption::Exec, disc.boot_option());
}

#[test]
fn entry_faults() {
    let base = three_file_image();

    // a control character as directory
    let mut src = base;
    src[15] = 0x05;
    assert_eq!(DFSError::InvalidDiscData(15), Disc::from_bytes(&src).unwrap_err());

    // the locked bit is not part of the directory
    let mut src = base;
    src[15] = b'$' | 0x80;
    let disc = Disc::from_bytes(&src).unwrap();
    assert!(disc.files().iter().any(|f| f.is_locked() && f.dir().as_byte() == b'$'));

    // a non-printing byte in a file name
    let mut src = base;
    src[9] = 0x01;
    assert_eq!(DFSError::InvalidDiscData(9), Disc::from_bytes(&src).unwrap_err());

    // data in the catalog sectors
    let mut src = base;
    src[0x10f] = 1;
    assert_eq!(DFSError::InvalidDiscData(0x10f), Disc::from_bytes(&src).unwrap_err());

    // data past the end of the image
    let mut src = base;
    src[0x10d] = 0x10;
    assert_eq!(DFSError::InvalidDiscData(0x10e), Disc::from_bytes(&src).unwrap_err());
}

#[test]
fn duplicate_entries_rejected() {
    let mut src = three_file_image();
    // rename A.Single to $.Small
    src[16..24].copy_from_slice(b"Small\x20\x20$");
    match Disc::from_bytes(&src) {
        Err(DFSError::DuplicateFileName(s)) => assert_eq!("$.Small", s),
        other => panic!("unexpected {:?}", other.map(|_| ())),
    }
}

#[test]
fn add_file_replaces() {
    let mut disc = Disc::new();
    assert!(disc.add_file(make_file(b"A", b'$', 1, 2, vec![1])).unwrap().is_none());
    let old = disc.add_file(make_file(b"A", b'$', 3, 4, vec![2, 2])).unwrap().unwrap();
    assert_eq!(1, old.load_addr());
    assert_eq!(1, disc.files().len());
    assert_eq!(3, disc.files()[0].load_addr());
}

#[test]
fn capacity_boundary() {
    let mut disc = Disc::new();
    for i in 0..30u8 {
        let name = [b'F', b'A' + i / 10, b'0' + i % 10];
        assert!(disc.add_file(make_file(&name, b'$', 0, 0, vec![i])).is_ok());
    }
    assert_eq!(30, disc.files().len());
    assert!(disc.add_file(make_file(b"LAST", b'$', 0, 0, vec![])).is_ok());
    assert_eq!(31, disc.files().len());
    let rejected = disc.add_file(make_file(b"EXTRA", b'$', 7, 0, vec![])).unwrap_err();
    assert_eq!(7, rejected.load_addr());
    assert_eq!(31, disc.files().len());
    assert!(disc
        .find_file(&FileName::try_from(b"EXTRA").unwrap(), AsciiPrintingChar::from(b'$').unwrap())
        .is_none());
}

#[test]
fn find_and_remove() {
    let mut disc = Disc::new();
    disc.add_file(make_file(b"B", b'$', 0, 0, vec![])).unwrap();
    disc.add_file(make_file(b"A", b'X', 0, 0, vec![])).unwrap();
    disc.add_file(make_file(b"A", b'$', 0, 0, vec![])).unwrap();
    let order: Vec<(u8, String)> =
        disc.files().iter().map(|f| (f.dir().as_byte(), f.name())).collect();
    assert_eq!(
        vec![(b'$', "A".to_string()), (b'$', "B".to_string()), (b'X', "A".to_string())],
        order
    );
    let name = FileName::try_from(b"A").unwrap();
    let x = AsciiPrintingChar::from(b'X').unwrap();
    assert!(disc.find_file(&name, x).is_some());
    let removed = disc.remove_file(&name, x).unwrap();
    assert_eq!(b'X', removed.dir().as_byte());
    assert!(disc.find_file(&name, x).is_none());
    assert!(disc.remove_file(&name, x).is_none());
    assert_eq!(2, disc.files().len());
}

#[test]
fn round_trip() {
    let mut disc = Disc::new();
    disc.set_name(b"RoundTrip").unwrap();
    *disc.boot_option_mut() = BootOption::Run;
    *disc.cycle_mut() = BCD::try_new(42).unwrap();
    let mut locked = make_file(b"LOCKED", b'L', 0x3_1900, 0x2_8023, vec![0xaa; 600]);
    locked.lock();
    disc.add_file(locked).unwrap();
    disc.add_file(make_file(b"EMPTY", b'$', 0, 0, vec![])).unwrap();
    disc.add_file(make_file(b"!BOOT", b'$', 0xffff, 0xffff, b"*RUN X\r".to_vec())).unwrap();

    let mut image = Vec::new();
    let sectors = disc.to_image(&mut image).unwrap();
    assert_eq!(image.len(), sectors as usize * 256);
    // two catalog sectors, then 0, 1 and 3 sectors of data
    assert_eq!(6, sectors);

    let back = Disc::from_bytes(&image).unwrap();
    assert_eq!("RoundTrip", back.name());
    assert_eq!(BootOption::Run, back.boot_option());
    assert_eq!(42, back.cycle().into_u8());
    assert_eq!(3, back.files().len());
    for (a, b) in disc.files().iter().zip(back.files().iter()) {
        assert_eq!(a.name(), b.name());
        assert_eq!(a.dir(), b.dir());
        assert_eq!(a.load_addr(), b.load_addr());
        assert_eq!(a.exec_addr(), b.exec_addr());
        assert_eq!(a.is_locked(), b.is_locked());
        assert_eq!(a.content(), b.content());
    }
}

#[test]
fn image_layout() {
    let mut disc = Disc::new();
    disc.set_name(b"ABCDEFGHIJ").unwrap();
    disc.add_file(make_file(b"F", b'$', 0x1_2345, 0x3_6789, vec![1, 2, 3])).unwrap();
    let mut image = vec![0xee];
    assert_eq!(3, disc.to_image(&mut image).unwrap());
    let image = &image[1..];
    assert_eq!(768, image.len());
    assert_eq!(b"ABCDEFGH", &image[0..8]);
    assert_eq!(b"F      $", &image[8..16]);
    assert_eq!(0, image[16]);
    assert_eq!(b"IJ  ", &image[0x100..0x104]);
    assert_eq!(0x00, image[0x104]);
    assert_eq!(0x08, image[0x105]);
    assert_eq!(0x00, image[0x106]);
    assert_eq!(0x03, image[0x107]);
    assert_eq!(&[0x45, 0x23, 0x89, 0x67, 0x03, 0x00, 0b1100_0100, 0x02], &image[0x108..0x110]);
    assert_eq!(&[1, 2, 3, 0], &image[0x200..0x204]);
}

#[test]
fn encode_limits() {
    let mut disc = Disc::new();
    disc.add_file(make_file(b"BIG", b'$', 0, 0, vec![0; 0x40000])).unwrap();
    let mut image = vec![9u8];
    assert_eq!(DFSError::InputTooLarge(0x40000), disc.to_image(&mut image).unwrap_err());
    assert_eq!(vec![9u8], image);

    let mut disc = Disc::new();
    disc.add_file(make_file(b"BIG", b'$', 0, 0, vec![0; 0x3ffff])).unwrap();
    assert_eq!(DFSError::InputTooLarge(1026), disc.to_image(&mut image).unwrap_err());

    let mut disc = Disc::new();
    disc.add_file(make_file(b"FULL", b'$', 0, 0, vec![0; 798 * 256])).unwrap();
    let mut image = Vec::new();
    assert_eq!(800, disc.to_image(&mut image).unwrap());
    assert_eq!(0x03, image[0x106]);
    assert_eq!(0x20, image[0x107]);
}

#[test]
fn cycle_increments_and_wraps() {
    let mut disc = Disc::new();
    disc.increment_cycle();
    assert_eq!(1, disc.cycle().into_u8());
    *disc.cycle_mut() = BCD::try_new(9).unwrap();
    disc.increment_cycle();
    assert_eq!(0x10, disc.cycle().to_hex());
    *disc.cycle_mut() = BCD::try_new(99).unwrap();
    disc.increment_cycle();
    assert_eq!(0, disc.cycle().into_u8());
}

#[test]
fn names_and_boot_options() {
    let mut disc = Disc::new();
    assert_eq!("", disc.name());
    assert_eq!(12, disc.set_name(b"ABCDEFGHIJKLM").unwrap_err().position());
    assert_eq!(1, disc.set_name(b"A\x07").unwrap_err().position());
    disc.set_name(b"Games").unwrap();
    assert_eq!(b"Games", disc.name_bytes());

    let mut f = make_file(b"OLD", b'$', 0, 0, vec![]);
    assert_eq!(7, f.set_name(b"TOOLONGX").unwrap_err().position());
    assert_eq!("OLD", f.name());
    f.set_name(b"NEW").unwrap();
    assert_eq!(b"NEW", f.name_bytes());
    f.lock();
    assert!(f.is_locked());
    f.unlock();
    assert!(!f.is_locked());

    assert_eq!("none", BootOption::Off.as_str());
    assert_eq!("load", BootOption::Load.as_str());
    assert_eq!("run", BootOption::Run.as_str());
    assert_eq!("exec", BootOption::Exec.as_str());
    assert_eq!(3u8, u8::from(BootOption::Exec));
    assert_eq!(Ok(BootOption::Run), BootOption::try_from(2));
    assert_eq!(Err(DFSError::InvalidValue), BootOption::try_from(4));
}

#[test]
fn busy_byte_packing() {
    for b in 0..=255u8 {
        let (load, exec, len, start) = unpack_busy(b);
        assert_eq!(b, pack_busy(load, exec, len, start));
    }
    assert_eq!(
        (0x10000, 0x20000, 0x30000, 0x100),
        unpack_busy(0b1011_0101)
    );
    assert_eq!(0b1110_0110, pack_busy(0x1_ffff, 0x3_0000, 0x2_0001, 0x2ff));
    for &(load, exec, len, start) in &[(0x3_1900u32, 0x1_8023u32, 0x2_0000u32, 0x3ffu32), (0, 0, 0, 0), (0x3_ffff, 0x3_ffff, 0x3_ffff, 0x3ff)] {
        let (lh, eh, nh, sh) = unpack_busy(pack_busy(load, exec, len, start));
        assert_eq!(load, (load & 0xffff) | lh);
        assert_eq!(exec, (exec & 0xffff) | eh);
        assert_eq!(len, (len & 0xffff) | nh);
        assert_eq!(start, (start & 0xff) | sh);
    }
}

#[test]
fn file_equality_by_key() {
    let a = make_file(b"SAME", b'$', 0x1900, 0x1900, vec![1, 2, 3]);
    let b = make_file(b"SAME", b'$', 0x3_0000, 0x8023, vec![]);
    let c = make_file(b"SAME", b'A', 0x1900, 0x1900, vec![1, 2, 3]);
    let d = make_file(b"OTHER", b'$', 0x1900, 0x1900, vec![1, 2, 3]);
    assert!(a == b);
    assert!(a != c);
    assert!(a != d);
}

#[test]
fn decoded_addresses_fit_18_bits() {
    let mut src = three_file_image();
    // the high load and exec bits set in the busy byte of $.Small
    src[0x10e] = 0xcc;
    let disc = Disc::from_bytes(&src).unwrap();
    let small = disc
        .find_file(&FileName::try_from(b"Small").unwrap(), AsciiPrintingChar::from(b'$').unwrap())
        .unwrap();
    assert_eq!(0x3_1234, small.load_addr());
    assert_eq!(0x3_5678, small.exec_addr());
    assert!(small.load_addr() < dfsdisc::dfs::MAX_ADDR);
}
