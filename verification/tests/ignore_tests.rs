use rsconstruct::checksum::calculate_checksum_bytes;
use rsconstruct::download::{RetryAction, RetryLoop};
use rsconstruct::executor::retry::{GroupStep, RetryGroup};
use rsconstruct::exit_code::ErrorLink;
use rsconstruct::file_index::FileIndex;
use rsconstruct::ignore::{ignore_patterns, strip_root_of, IgnoreRules};

// checksums of raw data

#[test]
fn checksum_of_empty_data_is_the_sha256_of_nothing() {
    assert_eq!(
        calculate_checksum_bytes(b""),
        "e3b0c44298fc1c149afbf4c8996fb92427ae41e4649b934ca495991b7852b855"
    );
}

#[test]
fn checksum_of_abc() {
    let c = calculate_checksum_bytes(b"abc");
    assert_eq!(c, "ba7816bf8f01cfea414140de5dae2223b00361a396177a9cb410ff61f20015ad");
    assert_eq!(c.len(), 64);
}

// the ignore file

#[test]
fn ignore_patterns_skip_blank_and_comment_lines_and_trim() {
    let content = "# generated\n\n  *.tmp  \nbuild/**\n   # indented comment\n";
    assert_eq!(ignore_patterns(content), vec!["*.tmp", "build/**"]);
}

#[test]
fn ignore_rules_match_relative_to_the_project_root() {
    let rules = IgnoreRules::from_content("/proj", "*.tmp\nbuild/**\n").expect("valid patterns");
    assert!(rules.is_ignored("/proj/a.tmp"));
    assert!(rules.is_ignored("/proj/build/x/y.o"));
    assert!(!rules.is_ignored("/proj/src/main.rs"));
    assert!(rules.is_ignored("build/z"));
}

#[test]
fn empty_rules_ignore_nothing() {
    let rules = IgnoreRules::load("/proj", None).unwrap();
    assert!(!rules.is_ignored("/proj/a.tmp"));
    let rules = IgnoreRules::empty("/proj");
    assert!(!rules.is_ignored("anything"));
    let rules = IgnoreRules::from_content("/proj", "# only a comment\n").unwrap();
    assert!(!rules.is_ignored("/proj/a"));
}

#[test]
fn invalid_ignore_pattern_names_the_pattern() {
    let err = IgnoreRules::from_content("/proj", "ok\na[b\n").err().expect("a[b does not compile");
    assert_eq!(err.links.len(), 2);
    match &err.links[0] {
        ErrorLink::Message(m) => assert_eq!(m, "Invalid glob pattern in .rsbignore: a[b"),
        other => panic!("unexpected {other:?}"),
    }
}

#[test]
fn strip_root_makes_paths_relative() {
    assert_eq!(strip_root_of("/proj", "/proj/src/a.rs"), "src/a.rs");
    assert_eq!(strip_root_of("/proj/", "/proj//src"), "src");
    assert_eq!(strip_root_of("/proj", "/proj"), "");
    assert_eq!(strip_root_of("/proj", "/project/a"), "/project/a");
    assert_eq!(strip_root_of("/proj", "rel/a"), "rel/a");
}

#[test]
fn strip_root_follows_path_components() {
    assert_eq!(strip_root_of("/proj", "/proj/./src/a.c"), "src/a.c");
    assert_eq!(strip_root_of("/proj/.", "/proj/a"), "a");
    assert_eq!(strip_root_of("/proj", "/proj/src/"), "src");
    assert_eq!(strip_root_of("/proj", "/proj//src//a.c"), "src//a.c");
    assert_eq!(strip_root_of("/proj", "/proj/."), "");
    assert_eq!(strip_root_of("", "a/b/"), "a/b");
    assert_eq!(strip_root_of("", "/"), "/");
}

// src_files is an allowlist

fn index() -> FileIndex {
    FileIndex::from_paths(vec!["a.c".to_string(), "b.c".to_string(), "src/c.c".to_string()])
}

#[test]
fn src_files_is_an_allowlist() {
    let idx = index();
    let r = idx.query("", &[".c"], &[], &[], &[], &["a.c"]);
    assert_eq!(r, vec!["a.c"]);
    let r = idx.query("src", &[".h"], &[], &[], &[], &["a.c", "b.c"]);
    assert_eq!(r, vec!["a.c", "b.c"]);
}

#[test]
fn query_results_are_in_index_order() {
    let idx = index();
    let r = idx.query("", &[".c"], &[], &[], &[], &[]);
    assert_eq!(r, vec!["a.c", "b.c", "src/c.c"]);
}

// retries

#[test]
fn retry_loop_returns_the_first_success() {
    let mut l = RetryLoop::start();
    assert_eq!(l.record(false), RetryAction::PauseAndRetry);
    assert_eq!(l.record(true), RetryAction::Return);
}

#[test]
fn retry_loop_gives_up_after_three_failures() {
    let mut l = RetryLoop::start();
    assert_eq!(l.record(false), RetryAction::PauseAndRetry);
    assert_eq!(l.record(false), RetryAction::PauseAndRetry);
    assert_eq!(l.record(false), RetryAction::Return);
    assert_eq!(l.delay_secs(), 2);
}

#[test]
fn group_retry_reruns_only_failures_and_counts_flaky_passes() {
    let mut g = RetryGroup::start(3, 2);
    assert_eq!(g.pending(), &vec![0, 1, 2]);
    assert_eq!(g.record(&vec![true, false, false]), GroupStep::Retry);
    assert_eq!(g.pending(), &vec![1, 2]);
    assert_eq!(g.record(&vec![true, false]), GroupStep::Retry);
    assert_eq!(g.pending(), &vec![2]);
    assert_eq!(g.flaky(), &vec![1]);
    assert_eq!(g.record(&vec![false]), GroupStep::Done);
    assert_eq!(g.finals(), &vec![Some(true), Some(true), Some(false)]);
}

#[test]
fn group_without_retries_settles_in_one_attempt() {
    let mut g = RetryGroup::start(2, 0);
    assert_eq!(g.record(&vec![false, true]), GroupStep::Done);
    assert_eq!(g.finals(), &vec![Some(false), Some(true)]);
    assert!(g.flaky().is_empty());
}
