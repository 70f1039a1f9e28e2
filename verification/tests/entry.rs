use syncmap::entry::Entry;

#[test]
fn entry_load() {
    let s = String::from("this will put on the heap");
    let e = Entry::new(s);
    let res = e.load();
    assert!(res.is_some());
    assert_eq!(res.unwrap(), "this will put on the heap")
}

#[test]
fn try_swap() {
    let s = String::from("this will put on the heap");
    let mut e = Entry::new(s);
    let new_s = String::from("try swap");
    assert!(e.try_swap(new_s).is_some());
    assert_eq!(e.load().unwrap(), "try swap")
}

#[test]
fn entry_drop() {
    let s = String::from("this will put on the heap");
    let _ = Entry::new(s);
}

#[test]
fn drop_box() {
    let s = String::from("this will put on the heap");
    let e = Entry::new(s);
    let _ = Box::new(e);
}

#[test]
fn try_swap_returns_input_on_tombstone() {
    let mut e: Entry<u32> = Entry::new(7);
    assert_eq!(e.delete(), Some(7));
    // the slot is soft-deleted: the swap must refuse and hand the value back
    assert_eq!(e.try_swap(9), Some(9));
    assert!(e.load().is_none());
}

#[test]
fn null_entry_resurrection() {
    let mut e: Entry<u32> = Entry::new_null_entry();
    assert!(e.load().is_none());
    assert!(e.unexpunge_locked());
    assert!(!e.unexpunge_locked());
    assert_eq!(e.swap_locked(3), None);
    assert_eq!(e.load(), Some(&3));
}
