use dstd::os_str::{str_to_os, OsCow, OsStr, OsStrError, OsString};
use dstd::path::Path;

fn cow_bytes<'a>(c: &'a OsCow<'a>) -> Vec<u8> {
    match c {
        OsCow::Borrowed(s) => s.as_bytes_with_nul().to_vec(),
        OsCow::Owned(s) => s.as_os_str().as_bytes_with_nul().to_vec(),
    }
}

#[test]
fn os_str_checks_its_terminator() {
    assert_eq!(OsStr::new(&[]).err(), Some(OsStrError::SliceEmpty));
    assert_eq!(OsStr::new(b"abc").err(), Some(OsStrError::NotTerminated));
    assert_eq!(OsStr::new(b"a\0bc\0").err(), Some(OsStrError::HasZeroes));
    let s = OsStr::new(b"abc\0").unwrap();
    assert_eq!(s.as_bytes(), b"abc");
    assert_eq!(s.as_bytes_with_nul(), b"abc\0");
    let empty = OsStr::new(b"\0").unwrap();
    assert_eq!(empty.as_bytes(), b"");
}

#[test]
fn error_messages() {
    assert_eq!(OsStrError::SliceEmpty.message(), "empty slice");
    assert_eq!(OsStrError::NotTerminated.message(), "c string is not null terminated");
    assert_eq!(OsStrError::HasZeroes.message(), "c string has zeroes before null terminator");
}

#[test]
fn os_str_decodes_utf8() {
    let s = OsStr::new("héllo\0".as_bytes()).unwrap();
    assert_eq!(s.to_utf8().unwrap(), "héllo");
    assert_eq!(s.to_utf8_lossy(), "héllo");
    let bad = OsStr::new(&[0x66, 0xff, 0x6f, 0]).unwrap();
    assert!(bad.to_utf8().is_err());
    assert_eq!(bad.to_utf8_lossy(), "f\u{fffd}o");
}

#[test]
fn os_string_owns_a_platform_string() {
    assert!(OsString::new(vec![1, 2]).is_err());
    assert_eq!(OsString::new(vec![]).err(), Some(OsStrError::SliceEmpty));
    assert_eq!(OsString::new(vec![0, 0]).err(), Some(OsStrError::HasZeroes));
    let s = OsString::new(vec![b'x', 0]).unwrap();
    assert_eq!(s.as_os_str().as_bytes(), b"x");
    let copy = OsStr::new(b"yz\0").unwrap().to_os_string();
    assert_eq!(copy.as_os_str().as_bytes_with_nul(), b"yz\0");
}

#[test]
fn str_to_os_uses_the_buffer_when_it_fits() {
    let mut buf = [7u8; 8];
    let r = str_to_os("abc", &mut buf).unwrap();
    assert!(matches!(r, OsCow::Borrowed(_)));
    assert_eq!(cow_bytes(&r), b"abc\0");
    let mut small = [0u8; 3];
    let r = str_to_os("abc", &mut small).unwrap();
    assert!(matches!(r, OsCow::Owned(_)));
    assert_eq!(cow_bytes(&r), b"abc\0");
    let mut buf = [0u8; 16];
    assert_eq!(str_to_os("a\0b", &mut buf).err(), Some(OsStrError::HasZeroes));
    let mut none = [0u8; 0];
    assert_eq!(cow_bytes(&str_to_os("", &mut none).unwrap()), b"\0");
}

#[test]
fn path_converts_strings_and_keeps_platform_strings() {
    let mut buf = [0u8; 32];
    let p = Path::Str("/tmp/x");
    let r = p.to_os_with(&mut buf).unwrap();
    assert!(matches!(r, OsCow::Borrowed(_)));
    assert_eq!(cow_bytes(&r), b"/tmp/x\0");
    let mut tiny = [0u8; 2];
    assert!(matches!(Path::Str("/tmp/x").to_os_with(&mut tiny).unwrap(), OsCow::Owned(_)));
    let os = OsStr::new(b"/etc\0").unwrap();
    let mut buf2 = [0u8; 1];
    let q = Path::OsStr(os);
    let r = q.to_os_with(&mut buf2).unwrap();
    assert!(matches!(r, OsCow::Borrowed(_)));
    assert_eq!(cow_bytes(&r), b"/etc\0");
    let mut buf3 = [0u8; 4];
    assert_eq!(Path::Str("a\0").to_os_with(&mut buf3).err(), Some(OsStrError::HasZeroes));
}

#[test]
fn path_from_str() {
    let p: Path = "/x".into();
    assert!(matches!(p, Path::Str("/x")));
}

#[test]
fn clone_into_replaces_the_destination() {
    let mut dest = OsString::new(vec![b'o', b'l', b'd', 0]).unwrap();
    OsStr::new(b"new!\0").unwrap().clone_into(&mut dest);
    assert_eq!(dest.as_os_str().as_bytes_with_nul(), b"new!\0");
}

#[test]
fn utf8_errors_convert() {
    let e = String::from_utf8(vec![0xff]).unwrap_err();
    let converted: dstd::os_str::OsUtf8Error = e.into();
    assert!(matches!(converted, dstd::os_str::OsUtf8Error::Utf8(_)));
    let e16 = String::from_utf16(&[0xd800]).unwrap_err();
    let converted: dstd::os_str::OsUtf8Error = e16.into();
    assert!(matches!(converted, dstd::os_str::OsUtf8Error::Utf16(_)));
}

#[test]
fn str_to_os_buffer_contents() {
    let mut buf = [7u8; 3];
    let r = str_to_os("ab", &mut buf).unwrap();
    assert_eq!(cow_bytes(&r), b"ab\0");
    drop(r);
    assert_eq!(buf, [97, 98, 0]);
    let mut small = [7u8; 2];
    let r = str_to_os("ab", &mut small).unwrap();
    assert!(matches!(r, OsCow::Owned(_)));
    drop(r);
    assert_eq!(small, [7, 7]);
    let mut buf = [7u8; 8];
    assert_eq!(str_to_os("a\0b", &mut buf).err(), Some(OsStrError::HasZeroes));
    assert_eq!(buf, [97, 0, 98, 0, 7, 7, 7, 7]);
    let mut buf = [7u8; 6];
    let os = OsStr::new(b"x\0").unwrap();
    assert!(Path::OsStr(os).to_os_with(&mut buf).is_ok());
    assert_eq!(buf, [7u8; 6]);
}

#[test]
fn to_utf8_error_is_the_utf8_variant() {
    let bad = OsStr::new(&[0x61, 0xff, 0x62, 0]).unwrap();
    assert!(matches!(bad.to_utf8(), Err(dstd::os_str::OsUtf8Error::Utf8(_))));
    assert_eq!(bad.to_utf8_lossy(), "a\u{fffd}b");
    let good = OsStr::new(&[104, 105, 0]).unwrap();
    assert_eq!(good.to_utf8_lossy(), good.to_utf8().unwrap());
}
