use node_cleaner::pattern::{is_exact_path_segment, match_path_with_pattern};
use node_cleaner::text::normalize_separators;

#[test]
fn prefix_wildcard_matches_case_insensitive_prefix() {
    assert!(match_path_with_pattern("README.md", "readme*"));
    assert!(match_path_with_pattern("Readme.txt", "readme*"));
    assert!(match_path_with_pattern("/a/node_modules/pkg/README.md", "readme*"));
}

#[test]
fn prefix_wildcard_rejects_infix_occurrence() {
    assert!(!match_path_with_pattern("my-readme.txt", "readme*"));
    assert!(!match_path_with_pattern("/a/pkg/my-readme.txt", "readme*"));
}

#[test]
fn prefix_wildcard_accepts_exact_path_segment() {
    // "readme" stands as a whole segment elsewhere in the path
    assert!(match_path_with_pattern("/a/readme/notes.txt", "readme*"));
}

#[test]
fn directory_pattern_matches_whole_segment_only() {
    assert!(match_path_with_pattern("/a/node_modules/pkg/test/file.js", "/test/"));
    assert!(!match_path_with_pattern("/a/node_modules/pkg/testing/file.js", "/test/"));
}

#[test]
fn directory_pattern_is_case_sensitive() {
    assert!(!match_path_with_pattern("/a/test/file.js", "/Test/"));
}

#[test]
fn exact_pattern_matches_name_extension_and_segment() {
    assert!(match_path_with_pattern("license", "license"));
    assert!(match_path_with_pattern("LICENSE", "license"));
    assert!(match_path_with_pattern("/pkg/notice.license", "license"));
    assert!(match_path_with_pattern("/pkg/license/a.txt", "license"));
    assert!(!match_path_with_pattern("mylicense.txt", "license"));
    assert!(!match_path_with_pattern("/pkg/mylicense.txt", "license"));
}

#[test]
fn mixed_wildcard_needs_order_and_boundaries() {
    assert!(match_path_with_pattern("readme", "read*me"));
    assert!(match_path_with_pattern("/a/read.me", "read*me"));
    assert!(!match_path_with_pattern("ready", "read*me"));
    // suffix text occurs only before the prefix text
    assert!(!match_path_with_pattern("me-read", "read*me"));
}

#[test]
fn two_stars_match_nothing() {
    assert!(!match_path_with_pattern("aXbXc", "a*b*c"));
    assert!(!match_path_with_pattern("abc", "a*b*c"));
}

#[test]
fn hidden_file_has_no_extension() {
    // a leading dot does not start an extension
    assert!(!match_path_with_pattern("/pkg/.license", "license"));
    assert!(match_path_with_pattern("/pkg/a.license", "license"));
}

#[test]
fn separator_normalization() {
    assert_eq!(normalize_separators("C:\\a\\node_modules\\x"), "C:/a/node_modules/x");
    assert_eq!(normalize_separators("/already/fine"), "/already/fine");
    assert_eq!(normalize_separators(""), "");
}

#[test]
fn exact_path_segment_checks() {
    assert!(is_exact_path_segment("/a/node_modules/b", "node_modules"));
    assert!(is_exact_path_segment("/A/OPT/x", "opt"));
    assert!(!is_exact_path_segment("/a/node_modulesx/b", "node_modules"));
    assert!(!is_exact_path_segment("node_modules_backup", "node_modules"));
}
