use how::control::AppControl;
use how::db::{Entries, Entry};
use how::utils::Wrapping;

#[test]
fn entry_new_fills_fields() {
    let e = Entry::new(String::from("title"), String::from("cmd"), String::from("desc"));
    assert_eq!(e.title, "title");
    assert_eq!(e.code, "cmd");
    assert_eq!(e.description, "desc");
    assert_eq!(e.used, 0);
}

#[test]
fn entry_haystack_joins_fields_with_newlines() {
    let e = Entry::new(String::from("t"), String::from("c"), String::from("d"));
    assert_eq!(e.to_haystack(), "t\nd\nc");
}

#[test]
fn entry_haystack_with_empty_fields() {
    let e = Entry::new(String::new(), String::new(), String::new());
    assert_eq!(e.to_haystack(), "\n\n");
}

#[test]
fn entries_start_empty() {
    let es = Entries::new();
    assert!(es.entries.is_empty());
}

#[test]
fn wrapping_steps_forward_and_wraps() {
    let mut w: Wrapping<3> = Wrapping::new(0);
    w.next();
    assert_eq!(w.get(), 1);
    w.next();
    assert_eq!(w.get(), 2);
    w.next();
    assert_eq!(w.get(), 0);
}

#[test]
fn wrapping_steps_backward_and_wraps() {
    let mut w: Wrapping<3> = Wrapping::new(0);
    w.prev();
    assert_eq!(w.get(), 2);
    w.prev();
    assert_eq!(w.get(), 1);
}

#[test]
fn wrapping_default_is_zero() {
    let w: Wrapping<3> = Wrapping::default();
    assert_eq!(w.get(), 0);
}

#[test]
fn app_control_variants() {
    assert!(matches!(AppControl::Become(String::from("ls")), AppControl::Become(s) if s == "ls"));
    assert!(matches!(AppControl::Exit, AppControl::Exit));
    assert!(matches!(AppControl::Continue, AppControl::Continue));
}
