use node_cleaner::settings::{expand_tilde, parse_settings, validate_startup_config, Settings};

#[test]
fn settings_store_and_lookup() {
    let mut s = Settings::new();
    assert_eq!(s.get_setting("log_level"), None);
    s.insert(String::from("log_level"), String::from("info"));
    s.insert(String::from("debug"), String::from("true"));
    assert_eq!(s.get_setting("log_level"), Some(String::from("info")));
    assert_eq!(s.get_setting("debug"), Some(String::from("true")));
    assert_eq!(s.get_setting("missing"), None);
}

#[test]
fn insert_replaces_earlier_value() {
    let mut s = Settings::new();
    s.insert(String::from("log_level"), String::from("info"));
    s.insert(String::from("log_level"), String::from("debug"));
    assert_eq!(s.get_setting("log_level"), Some(String::from("debug")));
    assert_eq!(s.get_all_settings().len(), 1);
}

#[test]
fn all_settings_come_back_in_order() {
    let mut s = Settings::new();
    s.insert(String::from("a"), String::from("1"));
    s.insert(String::from("b"), String::from("2"));
    assert_eq!(
        s.get_all_settings(),
        vec![
            (String::from("a"), String::from("1")),
            (String::from("b"), String::from("2")),
        ]
    );
}

#[test]
fn good_settings_validate() {
    let mut s = Settings::new();
    s.insert(String::from("log_level"), String::from("warn"));
    s.insert(String::from("debug"), String::from("false"));
    let v = validate_startup_config(&s);
    assert!(v.valid);
    assert!(v.errors.is_empty());
    assert!(v.warnings.is_empty());
}

#[test]
fn absent_settings_validate() {
    let s = Settings::new();
    let v = validate_startup_config(&s);
    assert!(v.valid);
    assert!(v.errors.is_empty());
}

#[test]
fn bad_log_level_is_reported() {
    let mut s = Settings::new();
    s.insert(String::from("log_level"), String::from("verbose"));
    let v = validate_startup_config(&s);
    assert!(!v.valid);
    assert_eq!(v.errors, vec![String::from("Invalid log_level: verbose")]);
}

#[test]
fn bad_debug_is_reported() {
    let mut s = Settings::new();
    s.insert(String::from("debug"), String::from("maybe"));
    let v = validate_startup_config(&s);
    assert!(!v.valid);
    assert_eq!(
        v.errors,
        vec![String::from("Debug has to be either true or false, currently it is maybe")]
    );
}

#[test]
fn both_bad_settings_give_two_errors() {
    let mut s = Settings::new();
    s.insert(String::from("log_level"), String::from("loud"));
    s.insert(String::from("debug"), String::from("1"));
    let v = validate_startup_config(&s);
    assert!(!v.valid);
    assert_eq!(v.errors.len(), 2);
    assert_eq!(v.errors[0], String::from("Invalid log_level: loud"));
}

#[test]
fn settings_text_parses_into_pairs() {
    let s = parse_settings("log_level = info\n# a comment\n\ndebug=true\r\n  full_scan  =  false  ");
    assert_eq!(s.get_setting("log_level"), Some(String::from("info")));
    assert_eq!(s.get_setting("debug"), Some(String::from("true")));
    assert_eq!(s.get_setting("full_scan"), Some(String::from("false")));
    assert_eq!(s.get_all_settings().len(), 3);
}

#[test]
fn malformed_lines_are_skipped() {
    let s = parse_settings("no equals sign here\nkey=value\n#key2=hidden");
    assert_eq!(s.get_setting("key"), Some(String::from("value")));
    assert_eq!(s.get_setting("key2"), None);
    assert_eq!(s.get_all_settings().len(), 1);
}

#[test]
fn later_lines_replace_earlier_values() {
    let s = parse_settings("k=1\nk=2");
    assert_eq!(s.get_setting("k"), Some(String::from("2")));
    assert_eq!(s.get_all_settings().len(), 1);
}

#[test]
fn empty_content_gives_no_settings() {
    let s = parse_settings("");
    assert!(s.get_all_settings().is_empty());
}

#[test]
fn value_may_contain_equals() {
    let s = parse_settings("expr = a=b");
    assert_eq!(s.get_setting("expr"), Some(String::from("a=b")));
}

#[test]
fn tilde_expansion() {
    assert_eq!(expand_tilde("~/conf/p.json", Some("/home/u")), String::from("/home/u/conf/p.json"));
    assert_eq!(expand_tilde("/etc/p.json", Some("/home/u")), String::from("/etc/p.json"));
    assert_eq!(expand_tilde("~/conf/p.json", None), String::from("~/conf/p.json"));
    assert_eq!(expand_tilde("~x", Some("/home/u")), String::from("~x"));
}
