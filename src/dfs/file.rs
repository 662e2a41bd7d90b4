use vstd::prelude::*;

use crate::support::{
    ascii_chars, is_printing, is_valid_name, AsciiName, AsciiNameError,
    AsciiPrintingChar,
};

verus! {

/// One past the largest load or exec address: addresses have 18 bits.
pub const MAX_ADDR: u32 = 0x40000;

/// A DFS file name: up to seven printing ASCII characters.
pub type FileName = AsciiName<7>;

/// What a [`File`] holds, as plain values.
pub struct FileView {
    pub dir: u8,
    pub name: Seq<u8>,
    pub load_addr: u32,
    pub exec_addr: u32,
    pub locked: bool,
    pub content: Seq<u8>,
}

impl FileView {
    /// The directory is a printing character, the name a valid file name,
    /// and the load and exec addresses fit in 18 bits.
    pub open spec fn valid(self) -> bool {
        &&& is_printing(self.dir)
        &&& is_valid_name(self.name, 7)
        &&& self.load_addr < MAX_ADDR
        &&& self.exec_addr < MAX_ADDR
    }

    /// Both files have the same directory and name, that is the same identity.
    pub open spec fn same_key(self, other: FileView) -> bool {
        self.dir == other.dir && self.name == other.name
    }

    /// This file's key orders before the other's: by directory, then by name.
    pub open spec fn key_lt(self, other: FileView) -> bool {
        key_lt(self.dir, self.name, other.dir, other.name)
    }
}

/// Lexicographic order on byte strings; a proper prefix orders first.
pub open spec fn bytes_lt(a: Seq<u8>, b: Seq<u8>) -> bool
    decreases a.len(),
{
    if a.len() == 0 {
        b.len() > 0
    } else if b.len() == 0 {
        false
    } else if a[0] != b[0] {
        a[0] < b[0]
    } else {
        bytes_lt(a.drop_first(), b.drop_first())
    }
}

/// Order of file keys: by directory, then by name.
pub open spec fn key_lt(d1: u8, n1: Seq<u8>, d2: u8, n2: Seq<u8>) -> bool {
    d1 < d2 || (d1 == d2 && bytes_lt(n1, n2))
}

pub proof fn lemma_bytes_lt_irreflexive(a: Seq<u8>)
    ensures
        !bytes_lt(a, a),
    decreases a.len(),
{
    if a.len() > 0 {
        lemma_bytes_lt_irreflexive(a.drop_first());
    }
}

pub proof fn lemma_bytes_lt_asymmetric(a: Seq<u8>, b: Seq<u8>)
    ensures
        bytes_lt(a, b) ==> !bytes_lt(b, a),
    decreases a.len(),
{
    if a.len() > 0 && b.len() > 0 && a[0] == b[0] {
        lemma_bytes_lt_asymmetric(a.drop_first(), b.drop_first());
    }
}

pub proof fn lemma_bytes_lt_transitive(a: Seq<u8>, b: Seq<u8>, c: Seq<u8>)
    ensures
        bytes_lt(a, b) && bytes_lt(b, c) ==> bytes_lt(a, c),
    decreases a.len(),
{
    if a.len() > 0 && b.len() > 0 && c.len() > 0 {
        lemma_bytes_lt_transitive(a.drop_first(), b.drop_first(), c.drop_first());
    }
}

pub proof fn lemma_key_lt_irreflexive(a: FileView)
    ensures
        !a.key_lt(a),
{
    lemma_bytes_lt_irreflexive(a.name);
}

pub proof fn lemma_key_lt_asymmetric(a: FileView, b: FileView)
    ensures
        a.key_lt(b) ==> !b.key_lt(a),
{
    lemma_bytes_lt_asymmetric(a.name, b.name);
}

pub proof fn lemma_key_lt_transitive(a: FileView, b: FileView, c: FileView)
    ensures
        a.key_lt(b) && b.key_lt(c) ==> a.key_lt(c),
{
    lemma_bytes_lt_transitive(a.name, b.name, c.name);
}

/// Equal leading bytes do not decide the order.
proof fn lemma_bytes_lt_skip(a: Seq<u8>, b: Seq<u8>, i: int)
    requires
        0 <= i <= a.len(),
        i <= b.len(),
        forall|j: int| 0 <= j < i ==> a[j] == b[j],
    ensures
        bytes_lt(a, b) == bytes_lt(a.skip(i), b.skip(i)),
    decreases i,
{
    if i > 0 {
        lemma_bytes_lt_skip(a.drop_first(), b.drop_first(), i - 1);
        assert(a.drop_first().skip(i - 1) =~= a.skip(i));
        assert(b.drop_first().skip(i - 1) =~= b.skip(i));
    } else {
        assert(a.skip(0) =~= a);
        assert(b.skip(0) =~= b);
    }
}

/// Three-way comparison of byte strings: negative, zero or positive as `a`
/// orders before, equal to or after `b`.
pub fn compare_bytes(a: &[u8], b: &[u8]) -> (r: i8)
    ensures
        r == 0 <==> a@ == b@,
        r < 0 <==> bytes_lt(a@, b@),
        r > 0 <==> bytes_lt(b@, a@),
{
    let mut i: usize = 0;
    while i < a.len() && i < b.len()
        invariant
            0 <= i <= a@.len(),
            i <= b@.len(),
            forall|j: int| 0 <= j < i ==> a@[j] == b@[j],
        decreases a@.len() - i,
    {
        if a[i] != b[i] {
            proof {
                lemma_bytes_lt_skip(a@, b@, i as int);
                lemma_bytes_lt_skip(b@, a@, i as int);
                assert(a@.skip(i as int)[0] == a@[i as int]);
                assert(b@.skip(i as int)[0] == b@[i as int]);
            }
            if a[i] < b[i] {
                return -1;
            } else {
                return 1;
            }
        }
        i = i + 1;
    }
    proof {
        lemma_bytes_lt_skip(a@, b@, i as int);
        lemma_bytes_lt_skip(b@, a@, i as int);
        lemma_bytes_lt_irreflexive(a@);
    }
    if a.len() == b.len() {
        assert(a@ =~= b@);
        0
    } else if a.len() < b.len() {
        assert(a@ != b@);
        -1
    } else {
        assert(a@ != b@);
        1
    }
}

/// A representation of a file in a DFS disc.
///
/// The identity of a `File`, as far as a [`Disc`](super::Disc) is concerned,
/// is its name and directory.
#[derive(Debug)]
pub struct File {
    name: FileName,
    dir: AsciiPrintingChar,
    load_addr: u32,
    exec_addr: u32,
    is_locked: bool,
    content: Vec<u8>,
}

impl View for File {
    type V = FileView;

    closed spec fn view(&self) -> FileView {
        FileView {
            dir: self.dir@,
            name: self.name@,
            load_addr: self.load_addr,
            exec_addr: self.exec_addr,
            locked: self.is_locked,
            content: self.content@,
        }
    }
}

/// Files are equal where their directory and name are: a file's identity is
/// its key, whatever its addresses and content.
impl PartialEq for File {
    fn eq(&self, o: &File) -> (r: bool) {
        self.dir.as_byte() == o.dir.as_byte() && compare_bytes(self.name.as_bytes(), o.name.as_bytes())
            == 0
    }
}

impl vstd::std_specs::cmp::PartialEqSpecImpl for File {
    open spec fn obeys_eq_spec() -> bool {
        true
    }

    open spec fn eq_spec(&self, o: &File) -> bool {
        self@.same_key(o@)
    }
}

impl Eq for File {
}

impl File {
    #[verifier::type_invariant]
    pub open spec fn inv(self) -> bool {
        self@.valid()
    }

    pub fn new(
        name: FileName,
        dir: AsciiPrintingChar,
        load_addr: u32,
        exec_addr: u32,
        is_locked: bool,
        content: Vec<u8>,
    ) -> (r: File)
        requires
            load_addr < MAX_ADDR,
            exec_addr < MAX_ADDR,
        ensures
            r@ == (FileView {
                dir: dir@,
                name: name@,
                load_addr,
                exec_addr,
                locked: is_locked,
                content: content@,
            }),
    {
        proof {
            use_type_invariant(&name);
            use_type_invariant(&dir);
        }
        File { name, dir, load_addr, exec_addr, is_locked, content }
    }

    pub fn dir(&self) -> (r: AsciiPrintingChar)
        ensures
            r@ == self@.dir,
    {
        self.dir
    }

    /// The file name as an ASCII string.
    pub fn name(&self) -> (r: String)
        ensures
            r@ == ascii_chars(self@.name),
    {
        self.name.as_ascii_str()
    }

    /// The file name's characters, as bytes.
    pub fn name_bytes(&self) -> (r: &[u8])
        ensures
            r@ == self@.name,
    {
        self.name.as_bytes()
    }

    /// Renames the file; fails, leaving it unchanged, where `new_name` is not
    /// a valid file name.
    pub fn set_name(&mut self, new_name: &[u8]) -> (r: Result<(), AsciiNameError>)
        ensures
            r is Ok <==> is_valid_name(new_name@, 7),
            r is Ok ==> final(self)@ == (FileView { name: new_name@, ..old(self)@ }),
            r is Err ==> final(self)@ == old(self)@,
            r matches Err(e) ==> crate::support::is_first_name_fault(
                new_name@,
                7,
                e@ as int,
            ),
    {
        match FileName::try_from(new_name) {
            Ok(n) => {
                proof {
                    use_type_invariant(&*self);
                    use_type_invariant(&n);
                }
                self.name = n;
                Ok(())
            },
            Err(e) => Err(e),
        }
    }

    pub fn load_addr(&self) -> (r: u32)
        ensures
            r == self@.load_addr,
    {
        self.load_addr
    }

    pub fn exec_addr(&self) -> (r: u32)
        ensures
            r == self@.exec_addr,
    {
        self.exec_addr
    }

    pub fn is_locked(&self) -> (r: bool)
        ensures
            r == self@.locked,
    {
        self.is_locked
    }

    pub fn content(&self) -> (r: &[u8])
        ensures
            r@ == self@.content,
    {
        self.content.as_slice()
    }

    pub fn lock(&mut self)
        ensures
            final(self)@ == (FileView { locked: true, ..old(self)@ }),
    {
        proof {
            use_type_invariant(&*self);
        }
        self.is_locked = true;
    }

    pub fn unlock(&mut self)
        ensures
            final(self)@ == (FileView { locked: false, ..old(self)@ }),
    {
        proof {
            use_type_invariant(&*self);
        }
        self.is_locked = false;
    }

    /// Compares this file's key with a directory and name: negative, zero or
    /// positive as the file orders before, equal to or after them.
    pub fn compare_key(&self, dir: u8, name: &[u8]) -> (r: i8)
        ensures
            r == 0 <==> (self@.dir == dir && self@.name == name@),
            r < 0 <==> key_lt(self@.dir, self@.name, dir, name@),
            r > 0 <==> key_lt(dir, name@, self@.dir, self@.name),
    {
        let d = self.dir.as_byte();
        if d < dir {
            -1
        } else if d > dir {
            1
        } else {
            compare_bytes(self.name.as_bytes(), name)
        }
    }
}

} // verus!
