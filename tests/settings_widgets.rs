use melib::conf::{FolderConf, ToggleFlag};
use melib::widgets::{AutoComplete, AutoCompleteEntry, ButtonWidget, Field, ProgressSpinner};

#[test]
fn toggle_flags() {
    assert!(ToggleFlag::Unset.is_unset());
    assert!(ToggleFlag::InternalVal(true).is_internal());
    assert!(ToggleFlag::InternalVal(true).is_true());
    assert!(ToggleFlag::InternalVal(false).is_false());
    assert!(ToggleFlag::from_bool(true).is_true());
    assert!(!ToggleFlag::True.is_false());
    assert_eq!(ToggleFlag::default(), ToggleFlag::Unset);
}

#[test]
fn folder_rename() {
    let mut c = FolderConf::default();
    assert_eq!(c.rename(), None);
    assert!(c.autoload);
    c.rename = Some("Archive".to_string());
    assert_eq!(c.rename(), Some("Archive"));
}

#[test]
fn fields() {
    let f = Field::Text("hello".to_string(), 5);
    assert_eq!(f.as_str(), "hello");
    assert_eq!(f.cursor(), 5);
    assert!(!f.is_empty());
    let mut g = f.clone();
    g.clear();
    assert!(g.is_empty());
    assert_eq!(g.cursor(), 0);
    let c = Field::Choice(vec!["a".to_string(), "b".to_string()], 1);
    assert_eq!(c.as_str(), "b");
    assert_eq!(c.into_string(), "b");
    assert!(Field::Choice(vec![], 0).is_empty());
}

#[test]
fn buttons() {
    let mut b = ButtonWidget::new(("Ok".to_string(), 1u8));
    b.push(("Cancel".to_string(), 2));
    b.push(("Ok".to_string(), 3));
    assert_eq!(b.layout.len(), 3);
    assert_eq!(b.buttons.len(), 2);
    assert_eq!(b.buttons[0].1, 3);
    assert!(!b.is_resolved());
    assert_eq!(b.result(), None);
    b.set_cursor(5);
    assert_eq!(b.cursor, 1);
    b.set_focus(true);
    assert!(b.focus);
}

#[test]
fn autocomplete() {
    let e = |s: &str| AutoCompleteEntry::new(s.to_string(), String::new());
    let mut a = AutoComplete::new(vec![e("alpha"), e("beta")]);
    assert_eq!(a.cursor(), 0);
    assert_eq!(a.get_suggestion(), None);
    a.inc_cursor();
    a.inc_cursor();
    a.inc_cursor();
    assert_eq!(a.cursor(), 2);
    a.dec_cursor();
    assert_eq!(a.cursor(), 1);
    assert!(!a.set_suggestions(vec![e("alpha"), e("beta")]));
    assert_eq!(a.cursor(), 1);
    assert_eq!(a.suggestions()[1].as_str(), "beta");
    assert_eq!(a.get_suggestion(), Some("alpha".to_string()));
    assert!(a.suggestions().is_empty());
    assert!(a.set_suggestions(vec![e("gamma")]));
    a.set_cursor(1);
    assert_eq!(a.get_suggestion(), Some("gamma".to_string()));
}

#[test]
fn spinner() {
    let mut s = ProgressSpinner::new(48);
    assert_eq!(s.kind, Ok(18));
    assert_eq!(s.width, 2);
    assert!(!s.is_active());
    s.start();
    assert!(s.is_active());
    s.set_kind(3);
    assert_eq!(s.width, 1);
    s.set_custom_kind(vec!["ab".to_string(), "abc".to_string()]);
    assert_eq!(s.width, 3);
    s.set_custom_kind(vec![String::new()]);
    assert!(!s.is_active());
    s.start();
    assert!(!s.is_active());
    s.stop();
    assert_eq!(s.stage, 0);
}

#[test]
fn autocomplete_cursor_clamps() {
    let mut a = AutoComplete::new(vec![AutoCompleteEntry::new("x".to_string(), String::new())]);
    a.set_cursor(5);
    assert_eq!(a.cursor(), 1);
}
