use po_library::scan::{capture, extension_of, holds};

#[test]
fn extension_is_what_follows_the_last_dot() {
    assert_eq!(extension_of("in/a.jpg"), Some("jpg".to_string()));
    assert_eq!(extension_of("in/a.tar.GZ"), Some("GZ".to_string()));
    assert_eq!(extension_of("in.dir/a"), None);
    assert_eq!(extension_of("in/.hidden"), None);
    assert_eq!(extension_of("in/.hidden.png"), Some("png".to_string()));
    assert_eq!(extension_of("in/a."), Some("".to_string()));
    assert_eq!(extension_of("in/"), None);
    assert_eq!(extension_of(""), None);
}

#[test]
fn holds_compares_whole_texts() {
    let wanted = vec!["jpg".to_string(), "png".to_string()];
    assert!(holds(&wanted, &"png".to_string()));
    assert!(!holds(&wanted, &"pn".to_string()));
    assert!(!holds(&wanted, &"PNG".to_string()));
    assert!(!holds(&Vec::new(), &"png".to_string()));
}

#[test]
fn capture_keeps_wanted_extensions_in_order() {
    let paths = vec![
        "in/a.jpg".to_string(),
        "in/notes.txt".to_string(),
        "in/B.JPG".to_string(),
        "in/noext".to_string(),
        "in/c.png".to_string(),
        "in/.jpg".to_string(),
    ];
    let wanted = vec!["jpg".to_string(), "png".to_string()];
    assert_eq!(
        capture(paths, &wanted),
        vec!["in/a.jpg".to_string(), "in/B.JPG".to_string(), "in/c.png".to_string()]
    );
}

#[test]
fn capture_compares_with_the_list_as_given() {
    // The found extension is lowered, the wanted ones are not.
    let paths = vec!["in/a.jpg".to_string(), "in/b.JPG".to_string()];
    let wanted = vec!["JPG".to_string()];
    assert_eq!(capture(paths, &wanted), Vec::<String>::new());
}
