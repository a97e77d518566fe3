//! File system paths as given by callers: a Rust string or a platform string.

use vstd::prelude::*;
use vstd::string::StringSliceAdditionalSpecFns;
use crate::os_str::{OsChar, OsStr, OsStrError, OsCow, str_to_os};

verus! {

/// A path, either a Rust string or an already converted platform string.
pub enum Path<'a> {
    Str(&'a str),
    OsStr(OsStr<'a>),
}

impl<'a> Path<'a> {
    /// The path as a platform string, converted through `buf` when it is a Rust
    /// string (see [`str_to_os`]).
    pub fn to_os_with(&self, buf: &'a mut [OsChar]) -> (r: Result<OsCow<'a>, OsStrError>)
        requires
            self matches Path::Str(s) ==> s.spec_bytes().len() < usize::MAX,
        ensures
            match *self {
                Path::Str(s) => {
                    &&& (exists|i: int| 0 <= i < s.spec_bytes().len() && s.spec_bytes()[i] == 0)
                        ==> r == Err::<OsCow<'a>, OsStrError>(OsStrError::HasZeroes)
                    &&& !(exists|i: int| 0 <= i < s.spec_bytes().len() && s.spec_bytes()[i] == 0)
                        ==> r is Ok && r->Ok_0@ == s.spec_bytes().push(0) && (r->Ok_0 is Borrowed
                        <==> s.spec_bytes().len() < old(buf)@.len())
                },
                Path::OsStr(os) => r == Ok::<OsCow<'a>, OsStrError>(OsCow::Borrowed(os)),
            },
            match *self {
                Path::Str(s) => {
                    &&& s.spec_bytes().len() < old(buf)@.len() ==> final(buf)@ == s.spec_bytes().push(0)
                        + old(buf)@.subrange(s.spec_bytes().len() as int + 1, old(buf)@.len() as int)
                    &&& s.spec_bytes().len() >= old(buf)@.len() ==> final(buf)@ == old(buf)@
                },
                Path::OsStr(_) => final(buf)@ == old(buf)@,
            },
    {
        match self {
            Path::Str(s) => str_to_os(s, buf),
            Path::OsStr(os) => Ok(OsCow::Borrowed(*os)),
        }
    }
}

impl<'a> From<&'a str> for Path<'a> {
    fn from(value: &'a str) -> (r: Path<'a>)
        ensures
            r == Path::Str(value),
    {
        Path::Str(value)
    }
}

impl<'a> vstd::std_specs::convert::FromSpecImpl<&'a str> for Path<'a> {
    open spec fn obeys_from_spec() -> bool {
        true
    }

    open spec fn from_spec(v: &'a str) -> Path<'a> {
        Path::Str(v)
    }
}

} // verus!
