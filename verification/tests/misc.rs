use summdb::error::{AppError, SummError};
use summdb::ops::{list_contains, list_without};
use summdb::sorting::{sort_strings, text_lt};

fn strings(v: &[&str]) -> Vec<String> {
    v.iter().map(|s| s.to_string()).collect()
}

#[test]
fn strings_sort_by_bytes() {
    let v = strings(&["b", "B", "a", "ä", "ab", "a"]);
    assert_eq!(sort_strings(&v), strings(&["B", "a", "a", "ab", "b", "ä"]));
    assert!(text_lt(&"a".to_string(), &"ab".to_string()));
    assert!(!text_lt(&"b".to_string(), &"ab".to_string()));
}

#[test]
fn error_messages() {
    assert_eq!(SummError::NotFound.message(), "not found");
    assert_eq!(SummError::Storage("disk".into()).message(), "storage error: disk");
    assert_eq!(SummError::InvalidData("bad".into()).message(), "invalid data: bad");
}

#[test]
fn app_error_status() {
    let (code, msg) = AppError::from_summ(SummError::NotFound).status_and_message();
    assert_eq!((code, msg.as_str()), (404, "not found"));
    let (code, msg) = AppError::from_summ(SummError::InvalidData("x".into())).status_and_message();
    assert_eq!((code, msg.as_str()), (500, "invalid data: x"));
}

#[test]
fn tag_lists() {
    let v = strings(&["a", "b", "a", "c"]);
    assert!(list_contains(&v, &"c".to_string()));
    assert!(!list_contains(&v, &"d".to_string()));
    assert_eq!(list_without(&v, &"a".to_string()), strings(&["b", "c"]));
}
