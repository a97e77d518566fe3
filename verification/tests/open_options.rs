use dstd::fs::{
    access, disposition, opts_to_flags, OpenOptions, CREATE_ALWAYS, CREATE_NEW, FILE_APPEND_DATA,
    FILE_READ_DATA, FILE_WRITE_DATA, OPEN_ALWAYS, OPEN_EXISTING, O_APPEND, O_CREAT, O_EXCL,
    O_RDONLY, O_RDWR, O_TRUNC, O_WRONLY, TRUNCATE_EXISTING,
};

#[test]
fn read_only_by_default() {
    let o = OpenOptions::new();
    assert_eq!(opts_to_flags(&o), O_RDONLY);
    assert_eq!(access(&o), 0);
    assert_eq!(disposition(&o), OPEN_EXISTING);
}

#[test]
fn linux_flags() {
    let mut o = OpenOptions::new();
    o.read(true).write(true);
    assert_eq!(opts_to_flags(&o), O_RDWR);
    let mut o = OpenOptions::new();
    o.write(true).create(true).truncate(true);
    assert_eq!(opts_to_flags(&o), O_WRONLY | O_CREAT | O_TRUNC);
    assert_eq!(opts_to_flags(&o), 0o1101);
    let mut o = OpenOptions::new();
    o.append(true).write(true).create_new(true);
    assert_eq!(opts_to_flags(&o), O_WRONLY | O_APPEND | O_CREAT | O_EXCL);
}

#[test]
fn create_new_implies_create() {
    let mut o = OpenOptions::new();
    o.create_new(true);
    assert_eq!(opts_to_flags(&o), O_CREAT | O_EXCL);
    assert_eq!(disposition(&o), CREATE_NEW);
    o.create_new(false);
    // create stays on
    assert_eq!(opts_to_flags(&o), O_CREAT);
    assert_eq!(disposition(&o), OPEN_ALWAYS);
}

#[test]
fn windows_access_and_disposition() {
    let mut o = OpenOptions::new();
    o.read(true).write(true);
    assert_eq!(access(&o), FILE_READ_DATA | FILE_WRITE_DATA);
    o.append(true);
    assert_eq!(access(&o), FILE_READ_DATA | FILE_APPEND_DATA);
    let mut t = OpenOptions::new();
    t.truncate(true);
    assert_eq!(disposition(&t), TRUNCATE_EXISTING);
    t.create(true);
    assert_eq!(disposition(&t), CREATE_ALWAYS);
}

#[test]
fn default_options_are_all_off() {
    let o = OpenOptions::default();
    let f = o.flags();
    assert!(!f.read && !f.write && !f.append && !f.truncate && !f.create && !f.excl);
    assert_eq!(opts_to_flags(&o), O_RDONLY);
}
