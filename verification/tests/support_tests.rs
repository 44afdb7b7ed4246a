use snaptest::envvars::resolve_env;
use snaptest::envvars::split_env_entry;
use snaptest::modes::Metadata;
use snaptest::modes::StreamMode;
use snaptest::paths::glob_pattern;
use snaptest::paths::job_keys;
use snaptest::paths::strip_dir_prefix;
use snaptest::progress::ProgressState;

#[test]
fn env_entry_with_one_equals_splits() {
    let (k, v) = split_env_entry(&b"KEY=value".to_vec()).expect("well formed");
    assert_eq!(k, b"KEY".to_vec());
    assert_eq!(v, b"value".to_vec());

    let (k, v) = split_env_entry(&b"=leading".to_vec()).expect("empty key still splits");
    assert_eq!(k, Vec::<u8>::new());
    assert_eq!(v, b"leading".to_vec());
}

#[test]
fn env_entry_without_or_with_two_equals_is_rejected() {
    assert!(split_env_entry(&b"NOEQUALS".to_vec()).is_none());
    assert!(split_env_entry(&b"A=B=C".to_vec()).is_none());
    assert!(split_env_entry(&Vec::new()).is_none());
}

#[test]
fn env_list_resolves_or_names_a_malformed_entry() {
    let ok = resolve_env(&vec![b"A=1".to_vec(), b"B=2".to_vec()]).expect("all well formed");
    assert_eq!(
        ok,
        vec![
            (b"A".to_vec(), b"1".to_vec()),
            (b"B".to_vec(), b"2".to_vec())
        ]
    );
    assert!(resolve_env(&vec![b"A=1".to_vec(), b"broken".to_vec()]).is_none());
    assert_eq!(resolve_env(&Vec::new()), Some(Vec::new()));
}

#[test]
fn glob_pattern_joins_directory_and_files() {
    let with_dir = Metadata {
        command: b"cat".to_vec(),
        directory: Some(b"tests/data".to_vec()),
        files: b"*.txt".to_vec(),
    };
    assert_eq!(glob_pattern(&with_dir), b"tests/data/*.txt".to_vec());
    let without = Metadata {
        command: b"cat".to_vec(),
        directory: None,
        files: b"*.txt".to_vec(),
    };
    assert_eq!(glob_pattern(&without), b"./*.txt".to_vec());
}

#[test]
fn directory_prefix_is_stripped_from_keys() {
    let dir = Some(b"data".to_vec());
    assert_eq!(
        strip_dir_prefix(&b"data/a.txt".to_vec(), &dir),
        b"a.txt".to_vec()
    );
    assert_eq!(
        strip_dir_prefix(&b"other/a.txt".to_vec(), &dir),
        b"other/a.txt".to_vec()
    );
    assert_eq!(strip_dir_prefix(&b"datax".to_vec(), &dir), b"datax".to_vec());
    assert_eq!(
        strip_dir_prefix(&b"a.txt".to_vec(), &None),
        b"a.txt".to_vec()
    );
    let ks = job_keys(&vec![b"data/a".to_vec(), b"data/b".to_vec()], &dir);
    assert_eq!(ks, vec![b"a".to_vec(), b"b".to_vec()]);
    // a directory given with its trailing separator already carries it
    let slashed = Some(b"data/".to_vec());
    assert_eq!(
        strip_dir_prefix(&b"data/a.txt".to_vec(), &slashed),
        b"a.txt".to_vec()
    );
}

#[test]
fn progress_reports_on_advance_and_resets_delay() {
    let mut st = ProgressState::start();
    assert!(!st.poll(0, 500));
    assert!(st.poll(3, 500));
    assert_eq!(st.delay_ms, 1000);
    assert_eq!(st.last_progress, 3);
}

#[test]
fn progress_backs_off_during_a_stall_up_to_the_cap() {
    let mut st = ProgressState::start();
    assert!(st.poll(1, 0));
    let mut delays = Vec::new();
    for _ in 0..7 {
        assert!(!st.poll(1, st.delay_ms));
        assert!(st.poll(1, st.delay_ms + 1));
        delays.push(st.delay_ms);
    }
    assert_eq!(delays, vec![2000, 4000, 8000, 16000, 30000, 30000, 30000]);
    // progress resumes: report at once, delay back to the minimum
    assert!(st.poll(2, 1));
    assert_eq!(st.delay_ms, 1000);
}

#[test]
fn stream_modes_have_lowercase_labels() {
    assert_eq!(StreamMode::Off.label(), "none");
    assert_eq!(StreamMode::Save.label(), "save");
    assert_eq!(StreamMode::Print.label(), "print");
    assert_eq!(StreamMode::Both.label(), "both");
}
