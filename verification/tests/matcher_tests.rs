use node_cleaner::matcher::{matching_pattern, split_by_type, Config, MatchError, RuleSet};
use node_cleaner::walker::{EntryKind, FsEntry};

fn config(groups: Vec<(&str, Vec<&str>)>) -> Config {
    Config {
        default: String::from("safe"),
        rules: groups
            .into_iter()
            .map(|(name, pats)| {
                (
                    String::from(name),
                    RuleSet {
                        patterns: pats.into_iter().map(String::from).collect(),
                        ignore: Vec::new(),
                    },
                )
            })
            .collect(),
    }
}

#[test]
fn readme_rule_matches_only_the_readme() {
    let files = vec![
        String::from("/root/node_modules/pkg/README.md"),
        String::from("/root/node_modules/pkg/index.js"),
    ];
    let cfg = config(vec![("safe", vec!["readme*"])]);
    let rep = matching_pattern(&files, &cfg).unwrap();
    assert_eq!(rep.matched, vec![String::from("/root/node_modules/pkg/README.md")]);
    assert_eq!(rep.hits, vec![(String::from("readme*"), 1)]);

    // classify the matched paths by their current filesystem kind
    let entries = vec![FsEntry {
        path: String::from("/root/node_modules/pkg/README.md"),
        kind: EntryKind::File,
    }];
    let (matched_files, matched_dirs) = split_by_type(&entries);
    assert_eq!(matched_files, vec![String::from("/root/node_modules/pkg/README.md")]);
    assert!(matched_dirs.is_empty());
}

#[test]
fn missing_safe_group_is_an_error() {
    let files = vec![String::from("/a/license")];
    let cfg = config(vec![("aggressive", vec!["license"])]);
    let r = matching_pattern(&files, &cfg);
    assert_eq!(r.err(), Some(MatchError::MissingSafeRules));
}

#[test]
fn first_match_wins_per_file() {
    let files = vec![
        String::from("/a/node_modules/pkg/license"),
        String::from("/a/node_modules/pkg/readme.md"),
    ];
    let cfg = config(vec![("safe", vec!["license", "readme*"])]);
    let rep = matching_pattern(&files, &cfg).unwrap();
    assert_eq!(rep.matched.len(), 2);
    assert_eq!(rep.hits, vec![(String::from("license"), 1), (String::from("readme*"), 1)]);
}

#[test]
fn earlier_pattern_takes_the_hit() {
    // the file matches both patterns; only the first one counts it
    let files = vec![String::from("/a/pkg/readme.md")];
    let cfg = config(vec![("safe", vec!["readme*", "md"])]);
    let rep = matching_pattern(&files, &cfg).unwrap();
    assert_eq!(rep.matched.len(), 1);
    assert_eq!(rep.hits, vec![(String::from("readme*"), 1), (String::from("md"), 0)]);
}

#[test]
fn unmatched_files_are_left_out() {
    let files = vec![String::from("/a/pkg/main.rs")];
    let cfg = config(vec![("safe", vec!["license", "readme*"])]);
    let rep = matching_pattern(&files, &cfg).unwrap();
    assert!(rep.matched.is_empty());
    assert_eq!(rep.hits, vec![(String::from("license"), 0), (String::from("readme*"), 0)]);
}

#[test]
fn first_group_with_the_name_is_used() {
    let files = vec![String::from("/a/pkg/license")];
    let cfg = config(vec![("safe", vec!["license"]), ("safe", vec!["readme*"])]);
    let rep = matching_pattern(&files, &cfg).unwrap();
    assert_eq!(rep.hits, vec![(String::from("license"), 1)]);
}

#[test]
fn no_files_no_matches() {
    let files: Vec<String> = Vec::new();
    let cfg = config(vec![("safe", vec!["license"])]);
    let rep = matching_pattern(&files, &cfg).unwrap();
    assert!(rep.matched.is_empty());
    assert_eq!(rep.hits, vec![(String::from("license"), 0)]);
}

#[test]
fn empty_pattern_list_matches_nothing() {
    let files = vec![String::from("/a/pkg/license")];
    let cfg = config(vec![("safe", vec![])]);
    let rep = matching_pattern(&files, &cfg).unwrap();
    assert!(rep.matched.is_empty());
    assert!(rep.hits.is_empty());
}

#[test]
fn split_by_type_partitions_by_kind() {
    let entries = vec![
        FsEntry { path: String::from("/x/file"), kind: EntryKind::File },
        FsEntry { path: String::from("/x/dir"), kind: EntryKind::Dir },
        FsEntry { path: String::from("/x/link"), kind: EntryKind::Other },
        FsEntry { path: String::from("/y/file2"), kind: EntryKind::File },
    ];
    let (files, dirs) = split_by_type(&entries);
    assert_eq!(files, vec![String::from("/x/file"), String::from("/y/file2")]);
    assert_eq!(dirs, vec![String::from("/x/dir")]);
}
