use snaptest::codec_exec::serialize_store;
use snaptest::modes::Metadata;
use snaptest::modes::Options;
use snaptest::modes::OptionsPatch;
use snaptest::modes::StreamMode;
use snaptest::outcome::classify;
use snaptest::outcome::Outcome;
use snaptest::outcome::Summary;
use snaptest::reconcile::reconcile_all;
use snaptest::store::Store;

fn empty_patch() -> OptionsPatch {
    OptionsPatch {
        stdout_mode: None,
        stderr_mode: None,
        env: Vec::new(),
        preserve_env: None,
        timeout_secs: None,
    }
}

#[test]
fn defaults_fill_every_unset_field() {
    let options = Options::from_patch(&empty_patch());
    assert_eq!(options.stdout_mode, StreamMode::Both);
    assert_eq!(options.stderr_mode, StreamMode::Print);
    assert!(options.env.is_empty());
    assert!(!options.preserve_env);
    assert_eq!(options.timeout_secs, 10);
}

#[test]
fn supplied_values_beat_defaults() {
    let options = Options::from_patch(&OptionsPatch {
        stdout_mode: Some(StreamMode::Off),
        stderr_mode: Some(StreamMode::Save),
        env: vec![b"A=1".to_vec()],
        preserve_env: Some(true),
        timeout_secs: Some(3),
    });
    assert_eq!(options.stdout_mode, StreamMode::Off);
    assert_eq!(options.stderr_mode, StreamMode::Save);
    assert_eq!(options.env, vec![b"A=1".to_vec()]);
    assert!(options.preserve_env);
    assert_eq!(options.timeout_secs, 3);
}

#[test]
fn override_replaces_only_supplied_fields() {
    let mut stored = Options {
        stdout_mode: StreamMode::Save,
        stderr_mode: StreamMode::Off,
        env: vec![b"A=1".to_vec()],
        preserve_env: true,
        timeout_secs: 42,
    };
    stored.override_with(&OptionsPatch {
        stdout_mode: Some(StreamMode::Print),
        stderr_mode: None,
        env: Vec::new(),
        preserve_env: None,
        timeout_secs: Some(7),
    });
    assert_eq!(stored.stdout_mode, StreamMode::Print);
    assert_eq!(stored.stderr_mode, StreamMode::Off);
    assert_eq!(stored.env, vec![b"A=1".to_vec()]);
    assert!(stored.preserve_env);
    assert_eq!(stored.timeout_secs, 7);
}

#[test]
fn empty_env_means_leave_as_recorded() {
    let mut stored = Options {
        stdout_mode: StreamMode::Both,
        stderr_mode: StreamMode::Print,
        env: vec![b"KEEP=me".to_vec()],
        preserve_env: false,
        timeout_secs: 10,
    };
    stored.override_with(&empty_patch());
    assert_eq!(stored.env, vec![b"KEEP=me".to_vec()]);

    stored.override_with(&OptionsPatch {
        stdout_mode: None,
        stderr_mode: None,
        env: vec![b"NEW=env".to_vec(), b"TWO=2".to_vec()],
        preserve_env: None,
        timeout_secs: None,
    });
    assert_eq!(stored.env, vec![b"NEW=env".to_vec(), b"TWO=2".to_vec()]);
}

#[test]
fn classify_maps_exits_and_timeouts_to_outcomes() {
    match classify(Some(true), b"o".to_vec(), b"e".to_vec(), 17) {
        Outcome::Success {
            stdout,
            stderr,
            elapsed_ms,
        } => {
            assert_eq!(stdout, b"o".to_vec());
            assert_eq!(stderr, b"e".to_vec());
            assert_eq!(elapsed_ms, 17);
        }
        other => panic!("expected a success, got {other:?}"),
    }
    match classify(Some(false), b"o".to_vec(), b"e".to_vec(), 17) {
        Outcome::Failure { stdout, stderr } => {
            assert_eq!(stdout, b"o".to_vec());
            assert_eq!(stderr, b"e".to_vec());
        }
        other => panic!("expected a failure, got {other:?}"),
    }
    assert!(matches!(
        classify(None, b"o".to_vec(), b"e".to_vec(), 17),
        Outcome::Timeout
    ));
}

#[test]
fn exit_code_truth_table() {
    let case = |failure: u64, timeout: u64| Summary {
        success: 9,
        new_success: 4,
        failure,
        timeout,
    };
    assert_eq!(case(0, 0).exit_code(), 0);
    assert_eq!(case(1, 0).exit_code(), 1);
    assert_eq!(case(0, 1).exit_code(), 1);
    assert_eq!(case(3, 2).exit_code(), 1);
}

#[test]
fn identical_rerun_leaves_the_store_byte_identical() {
    let metadata = Metadata {
        command: b"cat".to_vec(),
        directory: None,
        files: b"*.txt".to_vec(),
    };
    let mut store = Store::fresh(metadata, Options::from_patch(&empty_patch()));
    let ks: Vec<Vec<u8>> = vec![b"a.txt".to_vec(), b"b.txt".to_vec(), b"a.txt".to_vec()];
    let outcomes = vec![
        Outcome::Success {
            stdout: b"x".to_vec(),
            stderr: Vec::new(),
            elapsed_ms: 20,
        },
        Outcome::Success {
            stdout: b"y".to_vec(),
            stderr: Vec::new(),
            elapsed_ms: 9,
        },
        Outcome::Success {
            stdout: b"x2".to_vec(),
            stderr: Vec::new(),
            elapsed_ms: 5,
        },
    ];
    reconcile_all(&mut store, &ks, &outcomes);
    let first = serialize_store(&store);
    reconcile_all(&mut store, &ks, &outcomes);
    let second = serialize_store(&store);
    assert_eq!(first, second);
}
