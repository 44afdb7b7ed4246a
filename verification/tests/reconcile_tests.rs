use snaptest::modes::Metadata;
use snaptest::modes::Options;
use snaptest::modes::OptionsPatch;
use snaptest::modes::StreamMode;
use snaptest::outcome::Outcome;
use snaptest::reconcile::reconcile_all;
use snaptest::reconcile::NoticeKind;
use snaptest::store::Store;
use snaptest::store::Timing;

fn metadata(command: &str, files: &str) -> Metadata {
    Metadata {
        command: command.as_bytes().to_vec(),
        directory: None,
        files: files.as_bytes().to_vec(),
    }
}

fn default_options() -> Options {
    Options::from_patch(&OptionsPatch {
        stdout_mode: None,
        stderr_mode: None,
        env: Vec::new(),
        preserve_env: None,
        timeout_secs: None,
    })
}

fn success(stdout: &str, elapsed_ms: u64) -> Outcome {
    Outcome::Success {
        stdout: stdout.as_bytes().to_vec(),
        stderr: Vec::new(),
        elapsed_ms,
    }
}

fn keys(names: &[&str]) -> Vec<Vec<u8>> {
    names.iter().map(|n| n.as_bytes().to_vec()).collect()
}

fn results_of(store: &Store) -> Vec<(String, Vec<String>)> {
    store
        .results
        .iter()
        .map(|(k, l)| {
            (
                String::from_utf8(k.clone()).unwrap(),
                l.iter()
                    .map(|v| String::from_utf8(v.clone()).unwrap())
                    .collect(),
            )
        })
        .collect()
}

#[test]
fn fresh_record_two_files_both_new() {
    let mut store = Store::fresh(metadata("cat", "*.txt"), default_options());
    let ks = keys(&["a.txt", "b.txt"]);
    let outcomes = vec![success("x", 5), success("y", 7)];
    let (summary, notices) = reconcile_all(&mut store, &ks, &outcomes);
    assert_eq!(summary.success, 2);
    assert_eq!(summary.new_success, 2);
    assert_eq!(summary.failure, 0);
    assert_eq!(summary.timeout, 0);
    assert_eq!(
        results_of(&store),
        vec![
            ("a.txt".to_string(), vec!["x".to_string()]),
            ("b.txt".to_string(), vec!["y".to_string()]),
        ]
    );
    assert_eq!(notices.len(), 2);
    assert_eq!(notices[0].kind, NoticeKind::NewSuccess);
    assert_eq!(notices[0].key, b"a.txt".to_vec());
    assert_eq!(notices[0].text, b"x".to_vec());
    assert_eq!(summary.exit_code(), 0);
}

#[test]
fn rerun_with_one_changed_output() {
    let mut store = Store::fresh(metadata("cat", "*.txt"), default_options());
    let ks = keys(&["a.txt", "b.txt"]);
    let first = vec![success("x", 5), success("y", 7)];
    reconcile_all(&mut store, &ks, &first);
    let second = vec![success("z", 4), success("y", 6)];
    let (summary, notices) = reconcile_all(&mut store, &ks, &second);
    assert_eq!(summary.success, 2);
    assert_eq!(summary.new_success, 1);
    assert_eq!(
        results_of(&store),
        vec![
            ("a.txt".to_string(), vec!["x".to_string(), "z".to_string()]),
            ("b.txt".to_string(), vec!["y".to_string()]),
        ]
    );
    assert_eq!(notices.len(), 1);
    assert_eq!(notices[0].key, b"a.txt".to_vec());
    assert_eq!(summary.exit_code(), 0);
}

#[test]
fn failure_counts_and_leaves_store_untouched() {
    let mut store = Store::fresh(metadata("exit 1", "*.txt"), default_options());
    let ks = keys(&["a.txt"]);
    let outcomes = vec![Outcome::Failure {
        stdout: b"oops".to_vec(),
        stderr: b"bad".to_vec(),
    }];
    let (summary, notices) = reconcile_all(&mut store, &ks, &outcomes);
    assert_eq!(summary.failure, 1);
    assert_eq!(summary.success, 0);
    assert!(store.results.is_empty());
    assert!(store.timing.is_empty());
    assert_eq!(notices.len(), 1);
    assert_eq!(notices[0].kind, NoticeKind::Failed);
    // default modes: stdout Both, stderr Print => both printed
    assert_eq!(notices[0].text, b"oopsbad".to_vec());
    assert_eq!(summary.exit_code(), 1);
}

#[test]
fn timeout_counts_and_leaves_store_untouched() {
    let mut store = Store::fresh(metadata("sleep 5", "*.txt"), default_options());
    let ks = keys(&["a.txt"]);
    let outcomes = vec![Outcome::Timeout];
    let (summary, notices) = reconcile_all(&mut store, &ks, &outcomes);
    assert_eq!(summary.timeout, 1);
    assert_eq!(summary.success, 0);
    assert!(store.results.is_empty());
    assert!(store.timing.is_empty());
    assert_eq!(notices.len(), 1);
    assert_eq!(notices[0].kind, NoticeKind::TimedOut);
    assert_eq!(summary.exit_code(), 1);
}

#[test]
fn seen_success_does_not_touch_results() {
    let mut store = Store::fresh(metadata("cat", "*.txt"), default_options());
    let ks = keys(&["a.txt"]);
    reconcile_all(&mut store, &ks, &vec![success("x", 5)]);
    let before = results_of(&store);
    let (summary, notices) = reconcile_all(&mut store, &ks, &vec![success("x", 9)]);
    assert_eq!(summary.success, 1);
    assert_eq!(summary.new_success, 0);
    assert_eq!(results_of(&store), before);
    assert!(notices.is_empty());
}

#[test]
fn novel_success_appends_exactly_one_entry() {
    let mut store = Store::fresh(metadata("cat", "*.txt"), default_options());
    let ks = keys(&["a.txt"]);
    reconcile_all(&mut store, &ks, &vec![success("one", 5)]);
    let (summary, _) = reconcile_all(&mut store, &ks, &vec![success("two", 5)]);
    assert_eq!(summary.new_success, 1);
    assert_eq!(
        results_of(&store),
        vec![(
            "a.txt".to_string(),
            vec!["one".to_string(), "two".to_string()]
        )]
    );
}

#[test]
fn timing_tracks_fastest_and_most_recent() {
    let mut store = Store::fresh(metadata("cat", "*.txt"), default_options());
    let ks = keys(&["a.txt", "a.txt", "a.txt"]);
    let outcomes = vec![success("a", 30), success("b", 10), success("c", 20)];
    reconcile_all(&mut store, &ks, &outcomes);
    assert_eq!(store.timing.len(), 1);
    assert_eq!(store.timing[0].0, b"a.txt".to_vec());
    assert_eq!(
        store.timing[0].1,
        Timing {
            fastest_ms: 10,
            most_recent_ms: 20
        }
    );
}

#[test]
fn timing_updates_even_for_seen_success() {
    let mut store = Store::fresh(metadata("cat", "*.txt"), default_options());
    let ks = keys(&["a.txt"]);
    reconcile_all(&mut store, &ks, &vec![success("x", 30)]);
    reconcile_all(&mut store, &ks, &vec![success("x", 12)]);
    assert_eq!(
        store.timing[0].1,
        Timing {
            fastest_ms: 12,
            most_recent_ms: 12
        }
    );
}

#[test]
fn stream_modes_project_saved_and_printed_text() {
    // stdout saved but not printed, stderr printed but not saved
    let options = Options::from_patch(&OptionsPatch {
        stdout_mode: Some(StreamMode::Save),
        stderr_mode: Some(StreamMode::Print),
        env: Vec::new(),
        preserve_env: None,
        timeout_secs: None,
    });
    let mut store = Store::fresh(metadata("cat", "*.txt"), options);
    let ks = keys(&["a.txt"]);
    let outcomes = vec![Outcome::Success {
        stdout: b"out".to_vec(),
        stderr: b"err".to_vec(),
        elapsed_ms: 3,
    }];
    let (_, notices) = reconcile_all(&mut store, &ks, &outcomes);
    assert_eq!(results_of(&store), vec![("a.txt".to_string(), vec!["out".to_string()])]);
    assert_eq!(notices[0].text, b"err".to_vec());
}

#[test]
fn exit_code_depends_only_on_failures_and_timeouts() {
    let mut store = Store::fresh(metadata("cat", "*.txt"), default_options());
    let ks = keys(&["a.txt", "b.txt", "c.txt"]);
    let outcomes = vec![
        success("x", 5),
        Outcome::Failure {
            stdout: Vec::new(),
            stderr: Vec::new(),
        },
        Outcome::Timeout,
    ];
    let (summary, _) = reconcile_all(&mut store, &ks, &outcomes);
    assert_eq!(summary.success, 1);
    assert_eq!(summary.failure, 1);
    assert_eq!(summary.timeout, 1);
    assert_eq!(summary.exit_code(), 1);

    let mut store2 = Store::fresh(metadata("cat", "*.txt"), default_options());
    let (clean, _) = reconcile_all(&mut store2, &keys(&["a.txt"]), &vec![success("n", 1)]);
    assert_eq!(clean.exit_code(), 0);
}
