//! Null-terminated strings in the platform encoding (bytes, on Unix).
//!
//! An [`OsStr`] always ends with a single zero byte and holds no other zero
//! byte, so it can be handed to the operating system without conversion.

use vstd::prelude::*;
use vstd::utf8::{valid_utf8, decode_utf8};
use vstd::slice::slice_to_vec;
use vstd::string::StringSliceAdditionalSpecFns;

verus! {

/// A character in the platform encoding.
pub type OsChar = u8;

/// A well-formed platform string: at least one character, a zero last, and no
/// zero before it.
pub open spec fn is_os_str(s: Seq<u8>) -> bool {
    &&& s.len() >= 1
    &&& s.last() == 0
    &&& forall|i: int| 0 <= i < s.len() - 1 ==> s[i] != 0
}

/// Why a slice is not a platform string.
#[derive(Debug, Clone, Copy, PartialEq, Eq, Structural)]
pub enum OsStrError {
    SliceEmpty,
    NotTerminated,
    HasZeroes,
}

impl OsStrError {
    /// The message that describes the error.
    pub fn message(&self) -> (r: &'static str)
        ensures
            r == (match *self {
                OsStrError::SliceEmpty => "empty slice",
                OsStrError::NotTerminated => "c string is not null terminated",
                OsStrError::HasZeroes => "c string has zeroes before null terminator",
            }),
    {
        match self {
            OsStrError::SliceEmpty => "empty slice",
            OsStrError::NotTerminated => "c string is not null terminated",
            OsStrError::HasZeroes => "c string has zeroes before null terminator",
        }
    }
}

/// The error that `OsStr::new` reports for `s`, if any.
pub open spec fn os_str_error(s: Seq<u8>) -> Option<OsStrError> {
    if s.len() == 0 {
        Some(OsStrError::SliceEmpty)
    } else if s.last() != 0 {
        Some(OsStrError::NotTerminated)
    } else if exists|i: int| 0 <= i < s.len() - 1 && s[i] == 0 {
        Some(OsStrError::HasZeroes)
    } else {
        None
    }
}

/// A string of bytes followed by a zero is a platform string exactly when
/// the bytes hold no zero.
proof fn lemma_terminated(b: Seq<u8>)
    ensures
        os_str_error(b.push(0)) == if exists|i: int| 0 <= i < b.len() && b[i] == 0 {
            Some(OsStrError::HasZeroes)
        } else {
            None
        },
{
    let t = b.push(0);
    assert(t.last() == 0);
    if exists|i: int| 0 <= i < b.len() && b[i] == 0 {
        let i = choose|i: int| 0 <= i < b.len() && b[i] == 0;
        assert(t[i] == 0);
    } else {
        assert forall|i: int| 0 <= i < t.len() - 1 implies t[i] != 0 by {
            assert(t[i] == b[i]);
        }
    }
}

/// The result of `String::from_utf8`.
#[verifier::external_type_specification]
#[verifier::external_body]
pub struct ExFromUtf8Error(std::string::FromUtf8Error);

/// The result of `String::from_utf16`.
#[verifier::external_type_specification]
#[verifier::external_body]
pub struct ExFromUtf16Error(std::string::FromUtf16Error);

/// Calls `String::from_utf8`, which succeeds exactly on valid UTF-8 and then
/// holds the characters the bytes encode.
#[verifier::external_body]
fn string_from_utf8(v: Vec<u8>) -> (r: Result<String, std::string::FromUtf8Error>)
    ensures
        r is Ok <==> valid_utf8(v@),
        r is Ok ==> r->Ok_0@ == decode_utf8(v@),
{
    String::from_utf8(v)
}

/// The characters `String::from_utf8_lossy` decodes `b` into: valid
/// sequences as they are, each invalid one as U+FFFD.
pub uninterp spec fn utf8_lossy(b: Seq<u8>) -> Seq<char>;

/// Calls `String::from_utf8_lossy` and takes the owned string: the result is
/// the lossy decoding of the bytes, and valid UTF-8 is decoded as is.
#[verifier::external_body]
pub(crate) fn string_from_utf8_lossy(v: &[u8]) -> (r: String)
    ensures
        r@ == utf8_lossy(v@),
        valid_utf8(v@) ==> r@ == decode_utf8(v@),
{
    String::from_utf8_lossy(v).into_owned()
}

/// Why a platform string is not a valid Rust string.
#[derive(Debug)]
pub enum OsUtf8Error {
    Utf8(std::string::FromUtf8Error),
    Utf16(std::string::FromUtf16Error),
}

impl From<std::string::FromUtf8Error> for OsUtf8Error {
    fn from(e: std::string::FromUtf8Error) -> (r: OsUtf8Error)
        ensures
            r == OsUtf8Error::Utf8(e),
    {
        OsUtf8Error::Utf8(e)
    }
}

impl vstd::std_specs::convert::FromSpecImpl<std::string::FromUtf8Error> for OsUtf8Error {
    open spec fn obeys_from_spec() -> bool {
        true
    }

    open spec fn from_spec(v: std::string::FromUtf8Error) -> OsUtf8Error {
        OsUtf8Error::Utf8(v)
    }
}

impl From<std::string::FromUtf16Error> for OsUtf8Error {
    fn from(e: std::string::FromUtf16Error) -> (r: OsUtf8Error)
        ensures
            r == OsUtf8Error::Utf16(e),
    {
        OsUtf8Error::Utf16(e)
    }
}

impl vstd::std_specs::convert::FromSpecImpl<std::string::FromUtf16Error> for OsUtf8Error {
    open spec fn obeys_from_spec() -> bool {
        true
    }

    open spec fn from_spec(v: std::string::FromUtf16Error) -> OsUtf8Error {
        OsUtf8Error::Utf16(v)
    }
}

/// Reference to a platform-native string: the bytes of the string followed by
/// a zero.
#[derive(Clone, Copy)]
pub struct OsStr<'a> {
    inner: &'a [OsChar],
}

impl<'a> View for OsStr<'a> {
    type V = Seq<u8>;

    /// All characters, the final zero included.
    closed spec fn view(&self) -> Seq<u8> {
        self.inner@
    }
}

impl<'a> OsStr<'a> {
    #[verifier::type_invariant]
    closed spec fn inv(self) -> bool {
        is_os_str(self.inner@)
    }

    /// Constructs an `OsStr` from a slice that is known to be a platform string.
    pub fn new_unchecked(slice: &'a [OsChar]) -> (r: OsStr<'a>)
        requires
            is_os_str(slice@),
        ensures
            r@ == slice@,
    {
        OsStr { inner: slice }
    }

    /// Constructs a new `OsStr` from a given slice, checking that the slice is
    /// a platform string.
    pub fn new(slice: &'a [OsChar]) -> (r: Result<OsStr<'a>, OsStrError>)
        ensures
            match os_str_error(slice@) {
                Some(e) => r == Err::<OsStr<'a>, OsStrError>(e),
                None => r is Ok && r->Ok_0@ == slice@,
            },
    {
        if slice.len() == 0 {
            return Err(OsStrError::SliceEmpty);
        }
        let last = slice.len() - 1;
        if slice[last] != 0 {
            return Err(OsStrError::NotTerminated);
        }
        let mut i: usize = 0;
        while i < last
            invariant
                last == slice@.len() - 1,
                slice@.last() == 0,
                i <= last,
                forall|j: int| 0 <= j < i ==> slice@[j] != 0,
            decreases last - i,
        {
            if slice[i] == 0 {
                proof {
                    assert(0 <= i < slice@.len() - 1 && slice@[i as int] == 0);
                }
                return Err(OsStrError::HasZeroes);
            }
            i += 1;
        }
        Ok(OsStr { inner: slice })
    }

    /// Returns string contents without the null terminator
    pub fn as_bytes(&self) -> (r: &'a [OsChar])
        ensures
            r@ == self@.drop_last(),
            r@.push(0) == self@,
            forall|i: int| 0 <= i < r@.len() ==> r@[i] != 0,
    {
        proof {
            use_type_invariant(self);
        }
        let len = self.inner.len();
        let r = &self.inner[0..len - 1];
        assert(r@.push(0) =~= self@);
        r
    }

    /// Returns full string contents
    pub fn as_bytes_with_nul(&self) -> (r: &'a [OsChar])
        ensures
            r@ == self@,
            is_os_str(r@),
    {
        proof {
            use_type_invariant(self);
        }
        self.inner
    }

    /// Decodes the string into a [`String`], failing on invalid UTF-8.
    pub fn to_utf8(&self) -> (r: Result<String, OsUtf8Error>)
        ensures
            r is Ok <==> valid_utf8(self@.drop_last()),
            r is Ok ==> r->Ok_0@ == decode_utf8(self@.drop_last()),
            r is Err ==> r->Err_0 is Utf8,
    {
        let bytes = slice_to_vec(self.as_bytes());
        match string_from_utf8(bytes) {
            Ok(s) => Ok(s),
            Err(e) => Err(OsUtf8Error::Utf8(e)),
        }
    }

    /// Decodes the string into a [`String`], replacing invalid sequences.
    pub fn to_utf8_lossy(&self) -> (r: String)
        ensures
            r@ == utf8_lossy(self@.drop_last()),
            valid_utf8(self@.drop_last()) ==> r@ == decode_utf8(self@.drop_last()),
    {
        string_from_utf8_lossy(self.as_bytes())
    }

    /// Copies this string into `dest`, replacing what it held.
    pub fn clone_into(&self, dest: &mut OsString)
        ensures
            final(dest)@ == self@,
    {
        *dest = self.to_os_string();
    }

    /// Copies this string into an owned [`OsString`].
    pub fn to_os_string(&self) -> (r: OsString)
        ensures
            r@ == self@,
    {
        proof {
            use_type_invariant(self);
        }
        OsString { inner: slice_to_vec(self.inner) }
    }
}

/// An owned [`OsStr`].
pub struct OsString {
    inner: Vec<OsChar>,
}

impl View for OsString {
    type V = Seq<u8>;

    /// All characters, the final zero included.
    closed spec fn view(&self) -> Seq<u8> {
        self.inner@
    }
}

impl OsString {
    #[verifier::type_invariant]
    closed spec fn inv(self) -> bool {
        is_os_str(self.inner@)
    }

    /// Constructs an `OsString` from characters known to form a platform string.
    pub fn new_unchecked(v: Vec<OsChar>) -> (r: OsString)
        requires
            is_os_str(v@),
        ensures
            r@ == v@,
    {
        OsString { inner: v }
    }

    /// Constructs a new `OsString` from a given character vector, checking that
    /// the last element is the only zero.
    pub fn new(v: Vec<OsChar>) -> (r: Result<OsString, OsStrError>)
        ensures
            match os_str_error(v@) {
                Some(e) => r == Err::<OsString, OsStrError>(e),
                None => r is Ok && r->Ok_0@ == v@,
            },
    {
        match OsStr::new(v.as_slice()) {
            Err(e) => return Err(e),
            Ok(_) => {},
        }
        Ok(OsString { inner: v })
    }

    /// Borrows this string as an [`OsStr`].
    pub fn as_os_str(&self) -> (r: OsStr<'_>)
        ensures
            r@ == self@,
    {
        proof {
            use_type_invariant(self);
        }
        OsStr { inner: self.inner.as_slice() }
    }
}

/// A platform string that is either borrowed or owned.
pub enum OsCow<'a> {
    Borrowed(OsStr<'a>),
    Owned(OsString),
}

impl<'a> View for OsCow<'a> {
    type V = Seq<u8>;

    open spec fn view(&self) -> Seq<u8> {
        match self {
            OsCow::Borrowed(s) => s@,
            OsCow::Owned(s) => s@,
        }
    }
}

/// Constructs a new platform string from `s` by copying into `buf` when it
/// has room for the string and its terminator, and into a new allocation
/// otherwise.
pub fn str_to_os<'a>(s: &str, buf: &'a mut [OsChar]) -> (r: Result<OsCow<'a>, OsStrError>)
    requires
        s.spec_bytes().len() < usize::MAX,
    ensures
        (exists|i: int| 0 <= i < s.spec_bytes().len() && s.spec_bytes()[i] == 0) ==> r == Err::<
            OsCow<'a>,
            OsStrError,
        >(OsStrError::HasZeroes),
        !(exists|i: int| 0 <= i < s.spec_bytes().len() && s.spec_bytes()[i] == 0) ==> r is Ok
            && r->Ok_0@ == s.spec_bytes().push(0) && (r->Ok_0 is Borrowed <==> s.spec_bytes().len()
            < old(buf)@.len()),
        s.spec_bytes().len() < old(buf)@.len() ==> final(buf)@ == s.spec_bytes().push(0)
            + old(buf)@.subrange(s.spec_bytes().len() as int + 1, old(buf)@.len() as int),
        s.spec_bytes().len() >= old(buf)@.len() ==> final(buf)@ == old(buf)@,
{
    let bytes = s.as_bytes();
    let len = bytes.len();
    if len < buf.len() {
        let mut i: usize = 0;
        while i < len
            invariant
                len == bytes@.len(),
                len < buf@.len(),
                buf@.len() == old(buf)@.len(),
                i <= len,
                forall|j: int| 0 <= j < i ==> buf@[j] == bytes@[j],
                forall|j: int| i <= j < buf@.len() ==> buf@[j] == old(buf)@[j],
            decreases len - i,
        {
            buf[i] = bytes[i];
            i += 1;
        }
        buf[len] = 0;
        proof {
            assert(buf@ =~= bytes@.push(0) + old(buf)@.subrange(len + 1, old(buf)@.len() as int));
        }
        let filled: &'a [OsChar] = buf;
        let os_slice = &filled[0..len + 1];
        proof {
            assert(os_slice@ =~= bytes@.push(0));
            lemma_terminated(bytes@);
        }
        let os = OsStr::new(os_slice)?;
        Ok(OsCow::Borrowed(os))
    } else {
        let mut v: Vec<OsChar> = Vec::new();
        let mut i: usize = 0;
        while i < len
            invariant
                len == bytes@.len(),
                i <= len,
                v@ == bytes@.subrange(0, i as int),
            decreases len - i,
        {
            v.push(bytes[i]);
            i += 1;
        }
        v.push(0);
        proof {
            assert(v@ =~= bytes@.push(0));
            lemma_terminated(bytes@);
        }
        let os = OsString::new(v)?;
        Ok(OsCow::Owned(os))
    }
}

} // verus!
