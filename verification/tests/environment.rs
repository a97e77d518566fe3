use dstd::env::{split_var, Args, Vars};

#[test]
fn entries_split_at_the_first_equals() {
    assert_eq!(split_var("HOME=/root"), ("HOME".to_string(), "/root".to_string()));
    assert_eq!(split_var("A=b=c"), ("A".to_string(), "b=c".to_string()));
    assert_eq!(split_var("EMPTY="), ("EMPTY".to_string(), String::new()));
    assert_eq!(split_var("=C:=C:\\"), (String::new(), "C:=C:\\".to_string()));
    assert_eq!(split_var("ÉTÉ=ça"), ("ÉTÉ".to_string(), "ça".to_string()));
}

#[test]
fn args_come_in_order() {
    let mut a = Args::new(vec!["prog".to_string(), "-v".to_string()]);
    assert_eq!(a.next(), Some("prog".to_string()));
    assert_eq!(a.next(), Some("-v".to_string()));
    assert_eq!(a.next(), None);
    assert_eq!(a.next(), None);
}

#[test]
fn vars_come_as_pairs() {
    let mut v = Vars::new(vec!["X=1".to_string(), "PATH=/bin:/usr/bin".to_string()]);
    assert_eq!(v.next(), Some(("X".to_string(), "1".to_string())));
    assert_eq!(v.next(), Some(("PATH".to_string(), "/bin:/usr/bin".to_string())));
    assert_eq!(v.next(), None);
}
