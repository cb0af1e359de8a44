use node_cleaner::classifier::{is_ignored, is_inside_known_node_modules};

#[test]
fn pseudo_filesystems_pruned_in_every_mode() {
    assert!(is_ignored("/proc/1/status", false));
    assert!(is_ignored("/proc/1/status", true));
    assert!(is_ignored("/sys/devices/x", true));
    assert!(is_ignored("/usr/share/doc", true));
}

#[test]
fn convenience_exclusions_only_outside_full_scan() {
    assert!(is_ignored("/home/user/Projects/app/node_modules", false));
    assert!(!is_ignored("/home/user/Projects/app/node_modules", true));
    assert!(is_ignored("/home/user/.vscode/ext", false));
    assert!(is_ignored("/opt/tool/bin", false));
}

#[test]
fn ordinary_paths_not_ignored() {
    assert!(!is_ignored("/home/user/code/app", false));
    assert!(!is_ignored("/home/user/projects-archive/app", false));
}

#[test]
fn ancestors_found_in_skip_set() {
    let skip = vec![String::from("/a/node_modules")];
    assert!(is_inside_known_node_modules("/a/node_modules/pkg", &skip));
    assert!(is_inside_known_node_modules("/a/node_modules/pkg/deep/file.js", &skip));
}

#[test]
fn self_match_and_lookalikes_excluded() {
    let skip = vec![String::from("/a/node_modules")];
    assert!(!is_inside_known_node_modules("/a/node_modules", &skip));
    assert!(!is_inside_known_node_modules("/a/node_modulesx/pkg", &skip));
    assert!(!is_inside_known_node_modules("/b/other", &skip));
}
