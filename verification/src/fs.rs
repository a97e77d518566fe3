//! Options for opening files, and the flags the operating system gets for
//! them.

use vstd::prelude::*;

verus! {

/// The options of an [`OpenOptions`], as plain values.
#[derive(Clone, Copy, PartialEq, Eq, Structural)]
pub struct OpenFlags {
    pub read: bool,
    pub write: bool,
    pub append: bool,
    pub truncate: bool,
    pub create: bool,
    pub excl: bool,
}

/// Options and flags which can be used to configure how a file is opened.
#[derive(Clone, Copy)]
pub struct OpenOptions {
    read: bool,
    write: bool,
    append: bool,
    truncate: bool,
    create: bool,
    excl: bool,
}

impl View for OpenOptions {
    type V = OpenFlags;

    closed spec fn view(&self) -> OpenFlags {
        OpenFlags {
            read: self.read,
            write: self.write,
            append: self.append,
            truncate: self.truncate,
            create: self.create,
            excl: self.excl,
        }
    }
}

impl OpenOptions {
    /// All options off.
    pub fn new() -> (r: OpenOptions)
        ensures
            r@ == (OpenFlags {
                read: false,
                write: false,
                append: false,
                truncate: false,
                create: false,
                excl: false,
            }),
    {
        OpenOptions {
            read: false,
            write: false,
            append: false,
            truncate: false,
            create: false,
            excl: false,
        }
    }

    /// The options, as plain values.
    pub fn flags(&self) -> (r: OpenFlags)
        ensures
            r == self@,
    {
        OpenFlags {
            read: self.read,
            write: self.write,
            append: self.append,
            truncate: self.truncate,
            create: self.create,
            excl: self.excl,
        }
    }

    /// Sets the option for read access.
    pub fn read(&mut self, val: bool) -> (r: &mut OpenOptions)
        ensures
            r@ == (OpenFlags { read: val, ..old(self)@ }),
            final(self)@ == final(r)@,
    {
        self.read = val;
        self
    }

    /// Sets the option for write access.
    pub fn write(&mut self, val: bool) -> (r: &mut OpenOptions)
        ensures
            r@ == (OpenFlags { write: val, ..old(self)@ }),
            final(self)@ == final(r)@,
    {
        self.write = val;
        self
    }

    /// Sets the option for appending to the file.
    pub fn append(&mut self, val: bool) -> (r: &mut OpenOptions)
        ensures
            r@ == (OpenFlags { append: val, ..old(self)@ }),
            final(self)@ == final(r)@,
    {
        self.append = val;
        self
    }

    /// Sets the option for truncating the file.
    pub fn truncate(&mut self, val: bool) -> (r: &mut OpenOptions)
        ensures
            r@ == (OpenFlags { truncate: val, ..old(self)@ }),
            final(self)@ == final(r)@,
    {
        self.truncate = val;
        self
    }

    /// Sets the option to create the file if it does not exist.
    pub fn create(&mut self, val: bool) -> (r: &mut OpenOptions)
        ensures
            r@ == (OpenFlags { create: val, ..old(self)@ }),
            final(self)@ == final(r)@,
    {
        self.create = val;
        self
    }

    /// Sets the option to create a new file, failing if it exists; turning it
    /// on turns on `create` as well.
    pub fn create_new(&mut self, val: bool) -> (r: &mut OpenOptions)
        ensures
            r@ == (OpenFlags { excl: val, create: val || old(self)@.create, ..old(self)@ }),
            final(self)@ == final(r)@,
    {
        if val {
            self.create = true;
        }
        self.excl = val;
        self
    }
}

impl Default for OpenOptions {
    /// All options off, as [`OpenOptions::new`] makes.
    fn default() -> (r: OpenOptions)
        ensures
            r@ == (OpenFlags {
                read: false,
                write: false,
                append: false,
                truncate: false,
                create: false,
                excl: false,
            }),
    {
        OpenOptions::new()
    }
}

/// Windows access right: read data.
pub const FILE_READ_DATA: u32 = 0x0001;
/// Windows access right: write data.
pub const FILE_WRITE_DATA: u32 = 0x0002;
/// Windows access right: append data.
pub const FILE_APPEND_DATA: u32 = 0x0004;

/// Windows creation disposition: create, failing if the file exists.
pub const CREATE_NEW: u32 = 1;
/// Windows creation disposition: create or truncate.
pub const CREATE_ALWAYS: u32 = 2;
/// Windows creation disposition: open, failing if the file is missing.
pub const OPEN_EXISTING: u32 = 3;
/// Windows creation disposition: open or create.
pub const OPEN_ALWAYS: u32 = 4;
/// Windows creation disposition: open and truncate, failing if missing.
pub const TRUNCATE_EXISTING: u32 = 5;

/// Linux open flag: read only.
pub const O_RDONLY: i32 = 0;
/// Linux open flag: write only.
pub const O_WRONLY: i32 = 1;
/// Linux open flag: read and write.
pub const O_RDWR: i32 = 2;
/// Linux open flag: create if missing.
pub const O_CREAT: i32 = 0o100;
/// Linux open flag: fail if it exists.
pub const O_EXCL: i32 = 0o200;
/// Linux open flag: truncate.
pub const O_TRUNC: i32 = 0o1000;
/// Linux open flag: append.
pub const O_APPEND: i32 = 0o2000;

/// The Windows access rights that the options ask for: reading, and appending
/// in place of writing when both are asked for.
pub open spec fn access_spec(o: OpenFlags) -> u32 {
    (if o.read { FILE_READ_DATA } else { 0 }) | (if o.append {
        FILE_APPEND_DATA
    } else if o.write {
        FILE_WRITE_DATA
    } else {
        0
    })
}

/// The Windows creation disposition that the options ask for.
pub open spec fn disposition_spec(o: OpenFlags) -> u32 {
    if o.create {
        if o.excl {
            CREATE_NEW
        } else if o.truncate {
            CREATE_ALWAYS
        } else {
            OPEN_ALWAYS
        }
    } else if o.truncate {
        TRUNCATE_EXISTING
    } else {
        OPEN_EXISTING
    }
}

/// The Linux `open` flags that the options ask for.
pub open spec fn open_flags_spec(o: OpenFlags) -> i32 {
    (if o.write {
        if o.read { O_RDWR } else { O_WRONLY }
    } else {
        O_RDONLY
    }) | (if o.append { O_APPEND } else { 0 }) | (if o.truncate { O_TRUNC } else { 0 }) | (if o.create {
        O_CREAT
    } else {
        0
    }) | (if o.excl { O_EXCL } else { 0 })
}

/// The Windows access rights for `opts`.
pub fn access(opts: &OpenOptions) -> (flag: u32)
    ensures
        flag == access_spec(opts@),
{
    let mut flag: u32 = 0;
    if opts.read {
        flag |= FILE_READ_DATA;
    }
    // Append should be without write
    if opts.append {
        flag |= FILE_APPEND_DATA;
    } else if opts.write {
        flag |= FILE_WRITE_DATA;
    }
    proof {
        assert(0u32 | 0x0001u32 == 0x0001u32) by (bit_vector);
        assert(0u32 | 0x0004u32 == 0x0004u32) by (bit_vector);
        assert(0u32 | 0x0002u32 == 0x0002u32) by (bit_vector);
        assert(0u32 | 0u32 == 0u32) by (bit_vector);
        assert(0x0001u32 | 0u32 == 0x0001u32) by (bit_vector);
    }
    flag
}

/// The Windows creation disposition for `opts`.
pub fn disposition(opts: &OpenOptions) -> (d: u32)
    ensures
        d == disposition_spec(opts@),
{
    if opts.create {
        if opts.excl {
            CREATE_NEW
        } else if opts.truncate {
            CREATE_ALWAYS
        } else {
            OPEN_ALWAYS
        }
    } else if opts.truncate {
        TRUNCATE_EXISTING
    } else {
        OPEN_EXISTING
    }
}

/// The Linux `open` flags for `opts`.
pub fn opts_to_flags(opts: &OpenOptions) -> (flags: i32)
    ensures
        flags == open_flags_spec(opts@),
{
    let mut flags: i32 = 0;
    let mode = if opts.read && opts.write {
        O_RDWR
    } else if opts.write {
        O_WRONLY
    } else {
        O_RDONLY
    };
    flags |= mode;
    if opts.append {
        flags |= O_APPEND;
    }
    if opts.truncate {
        flags |= O_TRUNC;
    }
    if opts.create {
        flags |= O_CREAT;
    }
    if opts.excl {
        flags |= O_EXCL;
    }
    proof {
        assert(forall|x: i32| 0i32 | x == x) by (bit_vector);
        assert(forall|x: i32| x | 0i32 == x) by (bit_vector);
    }
    flags
}

/// Each option turns on its own `open` flag and nothing else does: `O_APPEND`,
/// `O_TRUNC`, `O_CREAT` and `O_EXCL` are set exactly when `append`,
/// `truncate`, `create` and `excl` are, whatever the other options. The access
/// mode (the two low bits) is `O_RDWR` for reading and writing, `O_WRONLY` for
/// writing alone and `O_RDONLY` otherwise, and no other bit is set.
pub proof fn law_open_flags_bits(o: OpenFlags)
    ensures
        (open_flags_spec(o) & O_APPEND != 0) <==> o.append,
        (open_flags_spec(o) & O_TRUNC != 0) <==> o.truncate,
        (open_flags_spec(o) & O_CREAT != 0) <==> o.create,
        (open_flags_spec(o) & O_EXCL != 0) <==> o.excl,
        (open_flags_spec(o) & 3 == O_RDWR) <==> (o.read && o.write),
        (open_flags_spec(o) & 3 == O_WRONLY) <==> (!o.read && o.write),
        (open_flags_spec(o) & 3 == O_RDONLY) <==> !o.write,
        open_flags_spec(o) & !(3i32 | O_APPEND | O_TRUNC | O_CREAT | O_EXCL) == 0,
{
    let r = o.read;
    let w = o.write;
    let a = o.append;
    let t = o.truncate;
    let c = o.create;
    let e = o.excl;
    let f = open_flags_spec(o);
    assert(f == (if w {
        if r { 2i32 } else { 1i32 }
    } else {
        0i32
    }) | (if a { 0o2000i32 } else { 0i32 }) | (if t { 0o1000i32 } else { 0i32 }) | (if c {
        0o100i32
    } else {
        0i32
    }) | (if e { 0o200i32 } else { 0i32 }));
    assert({
        &&& (f & 0o2000i32 != 0) <==> a
        &&& (f & 0o1000i32 != 0) <==> t
        &&& (f & 0o100i32 != 0) <==> c
        &&& (f & 0o200i32 != 0) <==> e
        &&& (f & 3i32 == 2i32) <==> (r && w)
        &&& (f & 3i32 == 1i32) <==> (!r && w)
        &&& (f & 3i32 == 0i32) <==> !w
        &&& f & !(3i32 | 0o2000i32 | 0o1000i32 | 0o100i32 | 0o200i32) == 0i32
    }) by (bit_vector)
        requires
            f == (if w {
                if r { 2i32 } else { 1i32 }
            } else {
                0i32
            }) | (if a { 0o2000i32 } else { 0i32 }) | (if t { 0o1000i32 } else { 0i32 }) | (if c {
                0o100i32
            } else {
                0i32
            }) | (if e { 0o200i32 } else { 0i32 }),
    ;
}

/// The access rights hold `FILE_READ_DATA` exactly when reading is asked
/// for and `FILE_APPEND_DATA` exactly when appending is; `FILE_WRITE_DATA`
/// exactly when writing is asked for without appending. So whenever writing or
/// appending is asked for, the rights allow writing, and no other right is
/// given.
pub proof fn law_access_rights(o: OpenFlags)
    ensures
        (access_spec(o) & FILE_READ_DATA != 0) <==> o.read,
        (access_spec(o) & FILE_APPEND_DATA != 0) <==> o.append,
        (access_spec(o) & FILE_WRITE_DATA != 0) <==> (o.write && !o.append),
        (o.write || o.append) <==> (access_spec(o) & (FILE_WRITE_DATA | FILE_APPEND_DATA) != 0),
        access_spec(o) & !(FILE_READ_DATA | FILE_WRITE_DATA | FILE_APPEND_DATA) == 0,
{
    let r = o.read;
    let w = o.write;
    let a = o.append;
    let f = access_spec(o);
    assert(f == (if r { 1u32 } else { 0u32 }) | (if a {
        4u32
    } else if w {
        2u32
    } else {
        0u32
    }));
    assert({
        &&& (f & 1u32 != 0) <==> r
        &&& (f & 4u32 != 0) <==> a
        &&& (f & 2u32 != 0) <==> (w && !a)
        &&& (w || a) <==> (f & (2u32 | 4u32) != 0)
        &&& f & !(1u32 | 2u32 | 4u32) == 0u32
    }) by (bit_vector)
        requires
            f == (if r { 1u32 } else { 0u32 }) | (if a {
                4u32
            } else if w {
                2u32
            } else {
                0u32
            }),
    ;
}

/// The creation disposition creates a missing file exactly when `create` is
/// asked for, refuses an existing one exactly when `create` and `excl` are,
/// truncates an existing file exactly when `truncate` is asked for and the file
/// is not required to be new, and opens only an existing file, as it is,
/// exactly when neither `create` nor `truncate` is asked for.
pub proof fn law_disposition(o: OpenFlags)
    ensures
        (disposition_spec(o) == CREATE_NEW || disposition_spec(o) == CREATE_ALWAYS
            || disposition_spec(o) == OPEN_ALWAYS) <==> o.create,
        (disposition_spec(o) == CREATE_NEW) <==> (o.create && o.excl),
        (disposition_spec(o) == CREATE_ALWAYS || disposition_spec(o) == TRUNCATE_EXISTING) <==> (
        o.truncate && !(o.create && o.excl)),
        (disposition_spec(o) == OPEN_EXISTING) <==> (!o.create && !o.truncate),
        CREATE_NEW <= disposition_spec(o) <= TRUNCATE_EXISTING,
{
}

} // verus!
