use software_manager::text::{str_contains, str_eq_ignore_ascii_case, str_starts_with};

#[test]
fn contains() {
    assert!(str_contains("hello world", "lo w"));
    assert!(str_contains("hello", ""));
    assert!(str_contains("", ""));
    assert!(!str_contains("", "a"));
    assert!(!str_contains("hello", "hellO"));
    assert!(str_contains("软件管理器", "管理"));
}

#[test]
fn starts_with() {
    assert!(str_starts_with("c:\\program files\\app", "c:\\program"));
    assert!(str_starts_with("abc", ""));
    assert!(!str_starts_with("ab", "abc"));
    assert!(!str_starts_with("abc", "b"));
}

#[test]
fn eq_ignore_ascii_case() {
    assert!(str_eq_ignore_ascii_case("C:\\Program Files", "c:\\PROGRAM files"));
    assert!(!str_eq_ignore_ascii_case("abc", "abd"));
    assert!(!str_eq_ignore_ascii_case("abc", "ab"));
    assert!(str_eq_ignore_ascii_case("Ä", "Ä"));
    assert!(!str_eq_ignore_ascii_case("Ä", "ä"));
}

