use crates_dependency_network::index::{
    filter_deps, is_blank_line, is_index_file, DumpFilters, ErrorCounts, IndexDep, IndexRecord,
};
use crates_dependency_network::release::{crate_from_index_lines, IndexLine};

fn dep(name: &str, optional: bool, kind: Option<&str>) -> IndexDep {
    IndexDep { name: name.to_string(), package: None, optional, kind: kind.map(|k| k.to_string()) }
}

fn renamed(name: &str, package: &str) -> IndexDep {
    IndexDep { name: name.to_string(), package: Some(package.to_string()), optional: false, kind: None }
}

fn no_extras() -> DumpFilters {
    DumpFilters { include_optional: false, include_dev: false, include_build: false }
}

fn record(name: &str, vers: &str, yanked: bool, deps: Vec<IndexDep>) -> IndexLine {
    IndexLine::Record(IndexRecord { name: name.to_string(), vers: vers.to_string(), yanked, deps })
}

fn zero_errors() -> ErrorCounts {
    ErrorCounts { io_errors: 0, json_errors: 0, version_errors: 0 }
}

#[test]
fn default_filters_keep_only_required_normal_deps() {
    let deps = vec![
        dep("serde", false, None),
        dep("rand", false, Some("dev")),
        dep("cc", false, Some("build")),
        dep("log", true, Some("normal")),
        dep("anyhow", false, Some("normal")),
    ];
    assert_eq!(filter_deps(&deps, &no_extras()), vec!["anyhow".to_string(), "serde".to_string()]);
}

#[test]
fn each_filter_adds_its_kind() {
    let deps = vec![
        dep("serde", false, None),
        dep("rand", false, Some("dev")),
        dep("cc", false, Some("build")),
        dep("log", true, Some("normal")),
    ];
    let dev = DumpFilters { include_dev: true, ..no_extras() };
    assert_eq!(filter_deps(&deps, &dev), vec!["rand".to_string(), "serde".to_string()]);
    let build = DumpFilters { include_build: true, ..no_extras() };
    assert_eq!(filter_deps(&deps, &build), vec!["cc".to_string(), "serde".to_string()]);
    let optional = DumpFilters { include_optional: true, ..no_extras() };
    assert_eq!(filter_deps(&deps, &optional), vec!["log".to_string(), "serde".to_string()]);
    let all = DumpFilters { include_optional: true, include_dev: true, include_build: true };
    assert_eq!(
        filter_deps(&deps, &all),
        vec!["cc".to_string(), "log".to_string(), "rand".to_string(), "serde".to_string()]
    );
}

#[test]
fn unknown_kinds_are_dropped_and_names_deduplicated() {
    let deps = vec![
        dep("weird", false, Some("target-specific")),
        dep("alpha", false, None),
        dep("zeta", false, Some("normal")),
        dep("zeta", false, None),
        dep("alpha", false, Some("dev")),
    ];
    assert_eq!(filter_deps(&deps, &no_extras()), vec!["alpha".to_string(), "zeta".to_string()]);
    let all = DumpFilters { include_optional: true, include_dev: true, include_build: true };
    assert_eq!(filter_deps(&deps, &all), vec!["alpha".to_string(), "zeta".to_string()]);
}

#[test]
fn renamed_dependencies_point_at_their_package() {
    let deps = vec![renamed("serde1", "serde"), dep("log", false, None)];
    assert_eq!(filter_deps(&deps, &no_extras()), vec!["log".to_string(), "serde".to_string()]);
}

#[test]
fn filter_deps_orders_by_bytes() {
    let deps = vec![dep("b", false, None), dep("Z", false, None), dep("a-b", false, None), dep("a", false, None), dep("é", false, None)];
    assert_eq!(
        filter_deps(&deps, &no_extras()),
        vec!["Z".to_string(), "a".to_string(), "a-b".to_string(), "b".to_string(), "é".to_string()]
    );
}

#[test]
fn empty_deps_give_empty_list() {
    assert!(filter_deps(&[], &no_extras()).is_empty());
}

#[test]
fn index_files_exclude_config_and_readme() {
    assert!(is_index_file(Some("serde")));
    assert!(is_index_file(Some("config.json.bak")));
    assert!(!is_index_file(Some("config.json")));
    assert!(!is_index_file(Some("README.md")));
    assert!(!is_index_file(None));
}

#[test]
fn blank_lines_are_white_space_only() {
    assert!(is_blank_line(""));
    assert!(is_blank_line(" \t\r\n"));
    assert!(is_blank_line("\u{3000}\u{a0}\u{2028}"));
    assert!(!is_blank_line(" {} "));
    assert!(!is_blank_line("\u{200b}"));
}

#[test]
fn dependencies_of_all_releases_are_merged() {
    let lines = vec![
        record("demo", "1.0.0", false, vec![dep("old", false, None)]),
        IndexLine::Blank,
        record("demo", "1.2.0", false, vec![dep("new", false, None), dep("dev-only", false, Some("dev"))]),
        record("demo", "1.1.9", false, vec![dep("other", false, None)]),
    ];
    let mut errors = zero_errors();
    let found = crate_from_index_lines(&lines, &no_extras(), &mut errors).unwrap();
    assert_eq!(found.name, "demo");
    assert_eq!(found.deps, vec!["new".to_string(), "old".to_string(), "other".to_string()]);
    assert_eq!(errors, zero_errors());
}

#[test]
fn two_releases_give_both_dependencies() {
    let lines = vec![
        record("foo", "1.0.0", false, vec![dep("a", false, None)]),
        record("foo", "2.0.0", false, vec![dep("b", false, None)]),
    ];
    let mut errors = zero_errors();
    let found = crate_from_index_lines(&lines, &no_extras(), &mut errors).unwrap();
    assert_eq!(found.name, "foo");
    assert_eq!(found.deps, vec!["a".to_string(), "b".to_string()]);
}

#[test]
fn renamed_dependency_of_a_release() {
    let lines = vec![record("foo", "1.0.0", false, vec![renamed("serde1", "serde")])];
    let mut errors = zero_errors();
    let found = crate_from_index_lines(&lines, &no_extras(), &mut errors).unwrap();
    assert_eq!(found.deps, vec!["serde".to_string()]);
}

#[test]
fn yanked_and_invalid_releases_still_count() {
    let lines = vec![
        record("demo", "0.9.0", false, vec![dep("kept", false, None)]),
        record("demo", "2.0.0", true, vec![dep("yanked", false, None)]),
        record("demo", "3.0", false, vec![dep("invalid", false, None)]),
        IndexLine::Malformed,
        IndexLine::Malformed,
    ];
    let mut errors = zero_errors();
    let found = crate_from_index_lines(&lines, &no_extras(), &mut errors).unwrap();
    assert_eq!(found.deps, vec!["invalid".to_string(), "kept".to_string(), "yanked".to_string()]);
    assert_eq!(errors, ErrorCounts { io_errors: 0, json_errors: 2, version_errors: 1 });
}

#[test]
fn greatest_release_names_the_crate() {
    let lines = vec![
        record("Old-Name", "1.0.0", false, vec![]),
        record("New-Name", "1.0.1-alpha.1", false, vec![]),
        record("Newest", "1.0.1", false, vec![]),
        record("Pre", "1.0.1-beta", false, vec![]),
    ];
    let mut errors = zero_errors();
    let found = crate_from_index_lines(&lines, &no_extras(), &mut errors).unwrap();
    assert_eq!(found.name, "Newest");
}

#[test]
fn equal_versions_keep_the_first_in_file_order() {
    let mut lines = vec![
        record("second", "1.0.0", false, vec![]),
        record("first", "1.0.0", false, vec![]),
        record("aaa", "0.9.0", false, vec![]),
    ];
    let mut errors = zero_errors();
    let found = crate_from_index_lines(&lines, &no_extras(), &mut errors).unwrap();
    assert_eq!(found.name, "second");
    lines.reverse();
    let found = crate_from_index_lines(&lines, &no_extras(), &mut errors).unwrap();
    assert_eq!(found.name, "first");
}

#[test]
fn yanked_only_file_takes_the_least_record_name_in_any_order() {
    let mut lines = vec![record("x", "1.0.0", true, vec![]), record("y", "2.0.0", true, vec![])];
    let mut errors = zero_errors();
    let found = crate_from_index_lines(&lines, &no_extras(), &mut errors).unwrap();
    assert_eq!(found.name, "x");
    lines.reverse();
    let found = crate_from_index_lines(&lines, &no_extras(), &mut errors).unwrap();
    assert_eq!(found.name, "x");
    assert_eq!(errors, zero_errors());
}

#[test]
fn greatest_release_wins_over_a_lesser_name() {
    let lines = vec![
        record("b-new", "2.0.0", false, vec![]),
        record("a-old", "1.0.0", false, vec![]),
        record("a-yanked", "3.0.0", true, vec![]),
    ];
    let mut errors = zero_errors();
    let found = crate_from_index_lines(&lines, &no_extras(), &mut errors).unwrap();
    assert_eq!(found.name, "b-new");
}

#[test]
fn only_yanked_releases_still_give_the_crate() {
    let lines = vec![record("demo", "1.0.0", true, vec![dep("x", false, None)]), IndexLine::Blank];
    let mut errors = zero_errors();
    let found = crate_from_index_lines(&lines, &no_extras(), &mut errors).unwrap();
    assert_eq!(found.name, "demo");
    assert_eq!(found.deps, vec!["x".to_string()]);
    assert_eq!(errors, zero_errors());
}

#[test]
fn no_record_gives_no_crate() {
    let lines = vec![IndexLine::Blank, IndexLine::Malformed];
    let mut errors = zero_errors();
    assert!(crate_from_index_lines(&lines, &no_extras(), &mut errors).is_none());
    assert_eq!(errors, ErrorCounts { io_errors: 0, json_errors: 1, version_errors: 0 });
}

#[test]
fn line_order_does_not_change_the_crate() {
    let make = || {
        vec![
            record("foo", "1.0.0", false, vec![dep("a", false, None)]),
            IndexLine::Malformed,
            record("foo", "2.0.0", false, vec![dep("b", false, None)]),
            record("foo", "x", false, vec![dep("c", false, None)]),
        ]
    };
    let forward = make();
    let mut backward = make();
    backward.reverse();
    let mut e1 = zero_errors();
    let mut e2 = zero_errors();
    let c1 = crate_from_index_lines(&forward, &no_extras(), &mut e1).unwrap();
    let c2 = crate_from_index_lines(&backward, &no_extras(), &mut e2).unwrap();
    assert_eq!(c1.name, c2.name);
    assert_eq!(c1.deps, c2.deps);
    assert_eq!(e1, e2);
}

#[test]
fn counters_add_to_existing_counts() {
    let lines = vec![IndexLine::Malformed, record("demo", "not-a-version", false, vec![])];
    let mut errors = ErrorCounts { io_errors: 5, json_errors: 1, version_errors: 2 };
    let found = crate_from_index_lines(&lines, &no_extras(), &mut errors).unwrap();
    assert_eq!(found.name, "demo");
    assert_eq!(errors, ErrorCounts { io_errors: 5, json_errors: 2, version_errors: 3 });
}

#[test]
fn white_space_matches_std_for_every_char() {
    for code in 0u32..=0x10ffff {
        if let Some(c) = char::from_u32(code) {
            let text = c.to_string();
            assert_eq!(is_blank_line(&text), text.trim().is_empty(), "char {:#x}", code);
        }
    }
}
