//! Support types used by the DFS codec. Most of them validate that bytes taken
//! from a disc image really hold valid values for what they stand for.

use vstd::prelude::*;
use vstd::string::StringSliceAdditionalSpecFns;

verus! {

/// A byte whose two nibbles are each a decimal digit.
pub open spec fn is_bcd_byte(b: u8) -> bool {
    b / 16 < 10 && b % 16 < 10
}

/// The decimal value held by a binary-coded decimal byte.
pub open spec fn bcd_decimal(b: u8) -> int {
    (b / 16) * 10 + b % 16
}

/// The binary-coded decimal byte for a decimal value of at most 99.
pub open spec fn bcd_encoding(d: u8) -> u8 {
    ((d / 10) * 16 + d % 10) as u8
}

/// Packing a decimal value of at most 99 as BCD and reading it back gives the
/// value again; reading a valid BCD byte as decimal and packing it gives the
/// byte again.
pub proof fn lemma_bcd_round_trip(d: u8, b: u8)
    requires
        d <= 99,
        is_bcd_byte(b),
    ensures
        bcd_decimal(bcd_encoding(d)) == d,
        bcd_encoding(bcd_decimal(b) as u8) == b,
{
    let e = bcd_encoding(d);
    assert(e / 16 == d / 10 && e % 16 == d % 10);
    let x = bcd_decimal(b) as u8;
    assert(x / 10 == b / 16 && x % 10 == b % 16);
}

/// Container for a binary-coded decimal byte.
#[derive(Clone, Copy, Debug, PartialEq, Eq, Structural)]
pub struct BCD {
    value: u8,
}

/// Reasons why constructing a [`BCD`] may fail.
#[derive(Clone, Copy, Debug, PartialEq, Eq, Structural)]
pub enum BCDError {
    /// The given integer value was over 99.
    IntValueTooLarge,
    /// The given hex value was not valid BCD.
    InvalidHexValue,
}

impl View for BCD {
    type V = u8;

    /// The packed byte.
    closed spec fn view(&self) -> u8 {
        self.value
    }
}

impl BCD {
    #[verifier::type_invariant]
    pub open spec fn inv(self) -> bool {
        is_bcd_byte(self@)
    }

    /// Constructs a `BCD` from a decimal value.
    pub fn try_new(src: u8) -> (r: Result<BCD, BCDError>)
        ensures
            src <= 99 ==> (r matches Ok(b) && b@ == bcd_encoding(src) && bcd_decimal(b@) == src),
            src > 99 ==> r == Err::<BCD, BCDError>(BCDError::IntValueTooLarge),
    {
        if src <= 99 {
            let value: u8 = (src / 10) * 16 + src % 10;
            assert(value / 16 == src / 10 && value % 16 == src % 10);
            Ok(BCD { value })
        } else {
            Err(BCDError::IntValueTooLarge)
        }
    }

    /// The zero cycle count.
    pub fn zero() -> (r: BCD)
        ensures
            r@ == 0,
    {
        BCD { value: 0 }
    }

    /// Converts a `BCD` back into its decimal value.
    pub fn into_u8(self) -> (r: u8)
        ensures
            r == bcd_decimal(self@),
            r <= 99,
    {
        proof {
            use_type_invariant(self);
        }
        (self.value / 16) * 10 + self.value % 16
    }

    /// Constructs a `BCD` from an already packed representation.
    pub fn from_hex(src: u8) -> (r: Result<BCD, BCDError>)
        ensures
            is_bcd_byte(src) ==> (r matches Ok(b) && b@ == src),
            !is_bcd_byte(src) ==> r == Err::<BCD, BCDError>(BCDError::InvalidHexValue),
    {
        if src / 16 >= 10 || src % 16 >= 10 {
            Err(BCDError::InvalidHexValue)
        } else {
            Ok(BCD { value: src })
        }
    }

    /// The packed byte, as stored on disc.
    pub fn to_hex(self) -> (r: u8)
        ensures
            r == self@,
            is_bcd_byte(r),
    {
        proof {
            use_type_invariant(self);
        }
        self.value
    }
}

/// A byte in the ASCII range.
pub open spec fn is_ascii_byte(b: u8) -> bool {
    b < 0x80
}

/// An ASCII control character.
pub open spec fn is_control_byte(b: u8) -> bool {
    b < 0x20 || b == 0x7f
}

/// A printing ASCII character, space included.
pub open spec fn is_printing(b: u8) -> bool {
    0x20 <= b && b <= 0x7e
}

/// The characters that a sequence of ASCII bytes reads as.
pub open spec fn ascii_chars(s: Seq<u8>) -> Seq<char> {
    s.map_values(|b: u8| b as char)
}

/// Relies on `String::from_utf8`: ASCII bytes are valid UTF-8, and each of
/// them becomes the character of the same code.
#[verifier::external_body]
pub(crate) fn ascii_string(bytes: Vec<u8>) -> (r: String)
    requires
        forall|i: int| 0 <= i < bytes@.len() ==> is_ascii_byte(#[trigger] bytes@[i]),
    ensures
        r@ == ascii_chars(bytes@),
{
    String::from_utf8(bytes).unwrap()
}

/// Reasons why constructing an [`AsciiPrintingChar`] may fail.
#[derive(Clone, Copy, Debug, PartialEq, Eq, Structural)]
pub enum AsciiPrintingCharError {
    /// The byte is outside the ASCII range.
    AsciiConversionError,
    /// The byte is an ASCII control character.
    NonprintingChar,
    /// A string that should hold one character held some other number.
    TooManyChars,
}

/// A printing ASCII character (0x20 to 0x7E).
#[derive(Clone, Copy, Debug, PartialEq, Eq, Hash, Structural)]
pub struct AsciiPrintingChar(u8);

impl View for AsciiPrintingChar {
    type V = u8;

    closed spec fn view(&self) -> u8 {
        self.0
    }
}

/// What [`AsciiPrintingChar::from`] gives for a byte.
pub open spec fn printing_char_result(b: u8) -> Result<u8, AsciiPrintingCharError> {
    if !is_ascii_byte(b) {
        Err(AsciiPrintingCharError::AsciiConversionError)
    } else if is_control_byte(b) {
        Err(AsciiPrintingCharError::NonprintingChar)
    } else {
        Ok(b)
    }
}

impl AsciiPrintingChar {
    #[verifier::type_invariant]
    pub open spec fn inv(self) -> bool {
        is_printing(self@)
    }

    /// Validates a byte as a printing ASCII character.
    pub fn from(src: u8) -> (r: Result<AsciiPrintingChar, AsciiPrintingCharError>)
        ensures
            r matches Ok(c) ==> printing_char_result(src) == Ok::<u8, AsciiPrintingCharError>(c@),
            r matches Err(e) ==> printing_char_result(src) == Err::<u8, AsciiPrintingCharError>(e),
            r is Ok <==> is_printing(src),
    {
        if src >= 0x80 {
            Err(AsciiPrintingCharError::AsciiConversionError)
        } else if src < 0x20 || src == 0x7f {
            Err(AsciiPrintingCharError::NonprintingChar)
        } else {
            Ok(AsciiPrintingChar(src))
        }
    }

    /// The `$` character, the default DFS directory.
    pub fn dollar() -> (r: AsciiPrintingChar)
        ensures
            r@ == 0x24,
    {
        AsciiPrintingChar(0x24)
    }

    /// Validates a string of exactly one printing ASCII character.
    pub fn try_from_str(s: &str) -> (r: Result<AsciiPrintingChar, AsciiPrintingCharError>)
        ensures
            s.spec_bytes().len() != 1 ==> r == Err::<AsciiPrintingChar, AsciiPrintingCharError>(
                AsciiPrintingCharError::TooManyChars,
            ),
            s.spec_bytes().len() == 1 ==> (r matches Ok(c) ==> printing_char_result(
                s.spec_bytes()[0],
            ) == Ok::<u8, AsciiPrintingCharError>(c@)),
            s.spec_bytes().len() == 1 ==> (r matches Err(e) ==> printing_char_result(
                s.spec_bytes()[0],
            ) == Err::<u8, AsciiPrintingCharError>(e)),
    {
        let b = s.as_bytes();
        if b.len() != 1 {
            return Err(AsciiPrintingCharError::TooManyChars);
        }
        Self::from(b[0])
    }

    pub fn as_byte(&self) -> (r: u8)
        ensures
            r == self@,
            is_printing(r),
    {
        proof {
            use_type_invariant(self);
        }
        self.0
    }

    pub fn as_char(self) -> (r: char)
        ensures
            r == self@ as char,
    {
        self.0 as char
    }
}

/// Where a name failed validation: the index of the offending character.
#[derive(Clone, Copy, Debug, PartialEq, Eq, Structural)]
pub struct AsciiNameError(usize);

impl View for AsciiNameError {
    type V = usize;

    closed spec fn view(&self) -> usize {
        self.0
    }
}

impl AsciiNameError {
    pub fn position(&self) -> (r: usize)
        ensures
            r == self@,
    {
        self.0
    }
}

/// Character `i` of `src` cannot stand in a name of at most `n` characters.
pub open spec fn name_fault_at(src: Seq<u8>, n: int, i: int) -> bool {
    !is_printing(src[i]) || i >= n
}

/// `src` is a valid name of at most `n` printing characters.
pub open spec fn is_valid_name(src: Seq<u8>, n: int) -> bool {
    forall|i: int| 0 <= i < src.len() ==> !#[trigger] name_fault_at(src, n, i)
}

/// `p` is the first position of `src` that cannot stand in a name of at most
/// `n` characters.
pub open spec fn is_first_name_fault(src: Seq<u8>, n: int, p: int) -> bool {
    &&& 0 <= p < src.len()
    &&& name_fault_at(src, n, p)
    &&& forall|i: int| 0 <= i < p ==> !#[trigger] name_fault_at(src, n, i)
}

/// A name of at most `N` printing ASCII characters.
#[derive(Debug, PartialEq, Eq)]
pub struct AsciiName<const N: usize> {
    store: Vec<u8>,
}

impl<const N: usize> View for AsciiName<N> {
    type V = Seq<u8>;

    closed spec fn view(&self) -> Seq<u8> {
        self.store@
    }
}

impl<const N: usize> AsciiName<N> {
    #[verifier::type_invariant]
    pub open spec fn inv(self) -> bool {
        is_valid_name(self@, N as int)
    }

    /// Validates `src` as a name; on failure, reports the first character
    /// that is not printing ASCII or does not fit.
    pub fn try_from(src: &[u8]) -> (r: Result<Self, AsciiNameError>)
        ensures
            r matches Ok(name) ==> is_valid_name(src@, N as int) && name@ == src@,
            r matches Err(e) ==> is_first_name_fault(src@, N as int, e@ as int),
            r is Ok <==> is_valid_name(src@, N as int),
    {
        let mut store: Vec<u8> = Vec::new();
        let mut i: usize = 0;
        while i < src.len()
            invariant
                0 <= i <= src@.len(),
                store@ == src@.subrange(0, i as int),
                forall|j: int| 0 <= j < i ==> !#[trigger] name_fault_at(src@, N as int, j),
            decreases src@.len() - i,
        {
            let b = src[i];
            if b < 0x20 || b > 0x7e || i >= N {
                assert(name_fault_at(src@, N as int, i as int));
                return Err(AsciiNameError(i));
            }
            store.push(b);
            i = i + 1;
        }
        assert(store@ == src@);
        Ok(AsciiName { store })
    }

    pub fn empty() -> (r: Self)
        ensures
            r@ == Seq::<u8>::empty(),
    {
        AsciiName { store: Vec::new() }
    }

    pub fn len(&self) -> (r: usize)
        ensures
            r == self@.len(),
            r <= N,
    {
        proof {
            use_type_invariant(self);
            if self.store.len() > N {
                assert(name_fault_at(self.store@, N as int, N as int));
            }
        }
        self.store.len()
    }

    /// A fresh copy of the name's characters.
    fn copy_bytes(&self) -> (r: Vec<u8>)
        ensures
            r@ == self@,
    {
        let mut r: Vec<u8> = Vec::new();
        let mut i: usize = 0;
        while i < self.store.len()
            invariant
                0 <= i <= self.store@.len(),
                r@ == self.store@.subrange(0, i as int),
            decreases self.store@.len() - i,
        {
            r.push(self.store[i]);
            i = i + 1;
        }
        assert(r@ == self.store@);
        r
    }

    /// The name's characters, as bytes.
    pub fn as_bytes(&self) -> (r: &[u8])
        ensures
            r@ == self@,
            is_valid_name(r@, N as int),
    {
        proof {
            use_type_invariant(self);
        }
        self.store.as_slice()
    }

    /// The name as an ASCII string.
    pub fn as_ascii_str(&self) -> (r: String)
        ensures
            r@ == ascii_chars(self@),
    {
        proof {
            use_type_invariant(self);
            assert forall|i: int| 0 <= i < self.store@.len() implies is_ascii_byte(
                #[trigger] self.store@[i],
            ) by {
                assert(!name_fault_at(self.store@, N as int, i));
            }
        }
        ascii_string(self.copy_bytes())
    }
}

impl<const N: usize> Clone for AsciiName<N> {
    fn clone(&self) -> Self {
        proof {
            use_type_invariant(self);
        }
        AsciiName { store: self.copy_bytes() }
    }
}

/// A slice was shorter than the array asked of it.
#[derive(Clone, Copy, Debug, PartialEq, Eq, Structural)]
pub struct SliceMinSizeError;

/// Relies on `<&[T; N]>::try_from`: a slice of exactly `N` items converts to
/// a reference to an array of them.
#[verifier::external_body]
fn array_ref<T, const N: usize>(s: &[T]) -> (r: &[T; N])
    requires
        s@.len() == N,
    ensures
        r@ == s@,
{
    <&[T; N]>::try_from(s).unwrap()
}

/// The first `N` items of `s` as an array, where `s` has at least `N`.
pub fn min_prefix_array<T, const N: usize>(s: &[T]) -> (r: Result<&[T; N], SliceMinSizeError>)
    ensures
        s@.len() >= N ==> (r matches Ok(a) && a@ == s@.subrange(0, N as int)),
        s@.len() < N ==> r is Err,
{
    if s.len() >= N {
        Ok(array_ref(&s[0..N]))
    } else {
        Err(SliceMinSizeError)
    }
}

/// Views a slice as a reference to a fixed-size array.
///
/// Unlike `<&[T; N]>::try_from`, this succeeds where the slice is longer;
/// only its first `N` items are taken.
pub trait ArrayFromMinSlice<T, const N: usize>: View<V = Seq<T>> {
    /// The first `N` items, or an error where there are fewer.
    fn as_min_slice(&self) -> (r: Result<&[T; N], SliceMinSizeError>)
        ensures
            self@.len() >= N ==> (r matches Ok(a) && a@ == self@.subrange(0, N as int)),
            self@.len() < N ==> r is Err,
    ;
}

impl<T, const N: usize> ArrayFromMinSlice<T, N> for [T] {
    fn as_min_slice(&self) -> (r: Result<&[T; N], SliceMinSizeError>) {
        min_prefix_array(self)
    }
}

/// Reads a 16-bit little-endian word from a 2-byte slice.
pub fn u16_from_le(src: &[u8]) -> (r: u16)
    requires
        src@.len() == 2,
    ensures
        r == src@[0] + 256 * src@[1],
{
    (src[0] as u16) + 256 * (src[1] as u16)
}

/// Copies what two slices have room for in common.
pub trait CopyFromCommonSliceExt<T>: View<V = Seq<T>> {
    /// Copies the first `min(self.len(), src.len())` items of `src` over the
    /// start of `self`; the rest of `self` is kept.
    fn copy_from_common_slice(&mut self, src: &[T])
        ensures
            final(self)@ == common_copy(old(self)@, src@),
    ;
}

impl<T: Copy> CopyFromCommonSliceExt<T> for [T] {
    fn copy_from_common_slice(&mut self, src: &[T]) {
        copy_common(self, src);
    }
}

/// The result of copying the common prefix length of `src` over `dst`.
pub open spec fn common_copy<T>(dst: Seq<T>, src: Seq<T>) -> Seq<T> {
    let m: int = if dst.len() < src.len() { dst.len() as int } else { src.len() as int };
    src.subrange(0, m) + dst.subrange(m, dst.len() as int)
}

/// Copies the first `min(dst.len(), src.len())` items of `src` over the
/// start of `dst`.
pub fn copy_common<T: Copy>(dst: &mut [T], src: &[T])
    ensures
        final(dst)@ == common_copy(old(dst)@, src@),
{
    let m: usize = if dst.len() < src.len() { dst.len() } else { src.len() };
    let mut i: usize = 0;
    while i < m
        invariant
            m <= dst@.len(),
            m <= src@.len(),
            m == (if old(dst)@.len() < src@.len() { old(dst)@.len() } else { src@.len() }),
            0 <= i <= m,
            dst@.len() == old(dst)@.len(),
            forall|j: int| 0 <= j < i ==> dst@[j] == src@[j],
            forall|j: int| i <= j < dst@.len() ==> dst@[j] == old(dst)@[j],
        decreases m - i,
    {
        dst[i] = src[i];
        i = i + 1;
    }
    assert(dst@ =~= common_copy(old(dst)@, src@));
}

} // verus!
