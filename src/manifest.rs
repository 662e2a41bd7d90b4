//! How an unpacked file is described in a disc manifest: which kind of
//! element names it, judged from its execution address and its content.

use vstd::prelude::*;

verus! {

/// A byte of text as the MOS writes it: a printing character other than
/// space, or a carriage return.
pub open spec fn is_mos_text_byte(b: u8) -> bool {
    b == 0x0d || (0x21 <= b && b <= 0x7e)
}

/// Content that is all MOS text.
pub open spec fn is_mos_text_spec(c: Seq<u8>) -> bool {
    forall|i: int| 0 <= i < c.len() ==> is_mos_text_byte(#[trigger] c[i])
}

/// Content that starts as a tokenised BBC BASIC program does.
pub open spec fn looks_like_basic_spec(c: Seq<u8>) -> bool {
    c.len() >= 2 && c[0] == 0x0d && c[1] == 0
}

/// Whether `content` is all MOS text.
pub fn is_mos_text(content: &[u8]) -> (r: bool)
    ensures
        r == is_mos_text_spec(content@),
{
    let mut i: usize = 0;
    while i < content.len()
        invariant
            0 <= i <= content@.len(),
            forall|j: int| 0 <= j < i ==> is_mos_text_byte(#[trigger] content@[j]),
        decreases content@.len() - i,
    {
        let b = content[i];
        if !(b == 0x0d || (0x21 <= b && b <= 0x7e)) {
            assert(!is_mos_text_byte(content@[i as int]));
            return false;
        }
        i = i + 1;
    }
    true
}

/// Whether `content` starts as a tokenised BBC BASIC program does.
pub fn looks_like_basic(content: &[u8]) -> (r: bool)
    ensures
        r == looks_like_basic_spec(content@),
{
    content.len() >= 2 && content[0] == 0x0d && content[1] == 0
}

/// The kind of a file, as a manifest names it.
#[derive(Clone, Copy, Debug, PartialEq, Eq, Structural)]
pub enum FileKind {
    Basic,
    Text,
    Code,
    Data,
}

/// The kind of a file with execution address `exec` and content `c`: BASIC
/// where the low 16 bits of `exec` are the BASIC entry points 0x801F or
/// 0x8023 and the content looks like BASIC; text where they are 0xFFFF and
/// the content is MOS text; code where they lie in 0x900 to 0x7FFF; data
/// otherwise.
pub open spec fn kind_of(exec: u32, c: Seq<u8>) -> FileKind {
    let low = exec % 0x10000;
    if (low == 0x801f || low == 0x8023) && looks_like_basic_spec(c) {
        FileKind::Basic
    } else if low == 0xffff && is_mos_text_spec(c) {
        FileKind::Text
    } else if 0x900 <= low && low < 0x8000 {
        FileKind::Code
    } else {
        FileKind::Data
    }
}

/// The element name of a file kind.
pub open spec fn kind_name(k: FileKind) -> Seq<char> {
    match k {
        FileKind::Basic => "basic"@,
        FileKind::Text => "text"@,
        FileKind::Code => "code"@,
        FileKind::Data => "data"@,
    }
}

impl FileKind {
    /// Judges a file's kind from its execution address and content.
    pub fn classify(exec_addr: u32, content: &[u8]) -> (r: FileKind)
        ensures
            r == kind_of(exec_addr, content@),
    {
        let low = exec_addr % 0x10000;
        if (low == 0x801f || low == 0x8023) && looks_like_basic(content) {
            FileKind::Basic
        } else if low == 0xffff && is_mos_text(content) {
            FileKind::Text
        } else if 0x900 <= low && low < 0x8000 {
            FileKind::Code
        } else {
            FileKind::Data
        }
    }

    /// The element name that a manifest gives files of this kind.
    pub fn as_str(self) -> (r: &'static str)
        ensures
            r@ == kind_name(self),
    {
        match self {
            FileKind::Basic => "basic",
            FileKind::Text => "text",
            FileKind::Code => "code",
            FileKind::Data => "data",
        }
    }
}

} // verus!
