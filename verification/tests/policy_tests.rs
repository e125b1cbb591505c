use po_library::policy::{directory_of_day, file_name, join};
use po_library::SortPolicy;

#[test]
fn default_policy_moves_to_root() {
    assert_eq!(SortPolicy::default(), SortPolicy::MoveToRoot);
}

#[test]
fn file_name_is_what_follows_the_last_slash() {
    assert_eq!(file_name("in/a.jpg"), Some("a.jpg".to_string()));
    assert_eq!(file_name("/deep/er/path/b c.png"), Some("b c.png".to_string()));
    assert_eq!(file_name("plain"), Some("plain".to_string()));
    assert_eq!(file_name("in/.hidden"), Some(".hidden".to_string()));
    assert_eq!(file_name("in/..."), Some("...".to_string()));
}

#[test]
fn some_paths_name_no_file() {
    assert_eq!(file_name(""), None);
    assert_eq!(file_name("/"), None);
    assert_eq!(file_name("in/"), None);
    assert_eq!(file_name("."), None);
    assert_eq!(file_name(".."), None);
    assert_eq!(file_name("in/."), None);
    assert_eq!(file_name("in/.."), None);
}

#[test]
fn join_puts_one_slash_between() {
    assert_eq!(join("out", "a.jpg"), "out/a.jpg");
    assert_eq!(join("out/", "a.jpg"), "out/a.jpg");
    assert_eq!(join("", "a.jpg"), "a.jpg");
    assert_eq!(join("/", "a.jpg"), "/a.jpg");
    assert_eq!(join("out", "2024/3/5"), "out/2024/3/5");
}

#[test]
fn directory_of_a_day_has_no_leading_zeros() {
    // 2024-03-05 00:00:00 UTC
    assert_eq!(directory_of_day(1_709_596_800), Some("2024/3/5".to_string()));
    // the last second of that day
    assert_eq!(directory_of_day(1_709_683_199), Some("2024/3/5".to_string()));
    assert_eq!(directory_of_day(1_709_683_200), Some("2024/3/6".to_string()));
    assert_eq!(directory_of_day(0), Some("1970/1/1".to_string()));
    // 1999-12-31 23:59:59 UTC
    assert_eq!(directory_of_day(946_684_799), Some("1999/12/31".to_string()));
}

#[test]
fn directory_of_a_day_beyond_the_calendar_is_none() {
    assert_eq!(directory_of_day(u64::MAX), None);
    assert_eq!(directory_of_day(i64::MAX as u64), None);
    assert_eq!(directory_of_day(i64::MAX as u64 + 1), None);
}
