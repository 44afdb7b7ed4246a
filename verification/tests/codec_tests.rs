use snaptest::codec_exec::parse_store;
use snaptest::codec_exec::serialize_store;
use snaptest::modes::Metadata;
use snaptest::modes::Options;
use snaptest::modes::StreamMode;
use snaptest::store::Store;
use snaptest::store::Timing;

fn sample_store() -> Store {
    Store {
        metadata: Metadata {
            command: b"cat".to_vec(),
            directory: Some(b"tests/data".to_vec()),
            files: b"*.txt".to_vec(),
        },
        options: Options {
            stdout_mode: StreamMode::Both,
            stderr_mode: StreamMode::Print,
            env: vec![b"KEY=value".to_vec(), b"OTHER=1".to_vec()],
            preserve_env: false,
            timeout_secs: 10,
        },
        results: vec![
            (b"a.txt".to_vec(), vec![b"x".to_vec(), b"z".to_vec()]),
            (b"b.txt".to_vec(), vec![b"y".to_vec()]),
        ],
        timing: vec![
            (
                b"a.txt".to_vec(),
                Timing {
                    fastest_ms: 3,
                    most_recent_ms: 8,
                },
            ),
        ],
    }
}

#[test]
fn round_trip_reproduces_the_store() {
    let store = sample_store();
    let bytes = serialize_store(&store);
    let back = parse_store(&bytes).expect("round trip must parse");
    assert_eq!(back, store);
}

#[test]
fn round_trip_survives_awkward_content() {
    let mut store = sample_store();
    store.metadata.command = b"printf 'a\nb:c\\\\d'".to_vec();
    store.metadata.directory = None;
    store.results = vec![
        (b"weird.txt".to_vec(), vec![
            b"line one\nline two\n".to_vec(),
            Vec::new(),
            b"5:colon".to_vec(),
            "unicode \u{00e9}\u{4e16}".as_bytes().to_vec(),
        ]),
    ];
    store.timing = vec![];
    let bytes = serialize_store(&store);
    let back = parse_store(&bytes).expect("round trip must parse");
    assert_eq!(back, store);
}

#[test]
fn round_trip_of_an_empty_store() {
    let store = Store {
        metadata: Metadata {
            command: Vec::new(),
            directory: None,
            files: Vec::new(),
        },
        options: Options {
            stdout_mode: StreamMode::Off,
            stderr_mode: StreamMode::Save,
            env: Vec::new(),
            preserve_env: true,
            timeout_secs: 0,
        },
        results: Vec::new(),
        timing: Vec::new(),
    };
    let bytes = serialize_store(&store);
    let back = parse_store(&bytes).expect("round trip must parse");
    assert_eq!(back, store);
}

#[test]
fn serialized_document_is_line_oriented_text() {
    let store = sample_store();
    let bytes = serialize_store(&store);
    let text = String::from_utf8(bytes).expect("sample document is valid text");
    assert!(text.starts_with("snapstore1\n"));
    assert!(text.contains("3:cat\n"));
    assert!(text.contains("5:a.txt\n"));
    assert!(text.ends_with("\n"));
}

#[test]
fn truncated_document_fails_loudly() {
    let store = sample_store();
    let bytes = serialize_store(&store);
    for cut in [0, 1, 11, bytes.len() / 2, bytes.len() - 1] {
        let partial = bytes[..cut].to_vec();
        assert!(parse_store(&partial).is_none(), "cut at {cut} must fail");
    }
}

#[test]
fn trailing_garbage_fails_loudly() {
    let store = sample_store();
    let mut bytes = serialize_store(&store);
    bytes.push(b'x');
    assert!(parse_store(&bytes).is_none());
}

#[test]
fn foreign_document_fails_loudly() {
    assert!(parse_store(&b"{}".to_vec()).is_none());
    assert!(parse_store(&b"snapstore1\n".to_vec()).is_none());
    assert!(parse_store(&Vec::new()).is_none());
}

#[test]
fn duplicate_results_keys_are_refused() {
    // a hand-built document whose results map names the same file twice
    // header; command; no directory; files; modes; env; preserve-env;
    // timeout; then two results entries under the same key; no timing
    let doc = "snapstore1\n3:cat\n-\n1:*\nb\np\n0\nf\n10\n2\n1:k\n1\n1:x\n1:k\n1\n1:y\n0\n";
    assert!(parse_store(&doc.as_bytes().to_vec()).is_none());
}

#[test]
fn duplicate_entries_in_one_results_list_are_refused() {
    // one results entry whose list holds the same text twice
    let doc = "snapstore1\n3:cat\n-\n1:*\nb\np\n0\nf\n10\n1\n1:k\n2\n1:x\n1:x\n0\n";
    assert!(parse_store(&doc.as_bytes().to_vec()).is_none());
}

#[test]
fn oversized_number_fails_loudly() {
    // a timeout line beyond any 64-bit value
    let doc = "snapstore1\n3:cat\n-\n1:*\nb\np\n0\nf\n99999999999999999999\n0\n0\n";
    assert!(parse_store(&doc.as_bytes().to_vec()).is_none());
}

#[test]
fn a_well_formed_handwritten_document_parses() {
    // header; command; no directory; files; modes; one env entry;
    // preserve-env; timeout; one results entry; one timing entry
    let doc = "snapstore1\n3:cat\n-\n5:*.txt\nb\np\n1\n7:KEY=val\nt\n30\n1\n5:a.txt\n1\n1:x\n1\n5:a.txt\n4\n9\n";
    let store = parse_store(&doc.as_bytes().to_vec()).expect("document is well formed");
    assert_eq!(store.metadata.command, b"cat".to_vec());
    assert_eq!(store.metadata.directory, None);
    assert_eq!(store.options.stdout_mode, StreamMode::Both);
    assert_eq!(store.options.stderr_mode, StreamMode::Print);
    assert_eq!(store.options.env, vec![b"KEY=val".to_vec()]);
    assert!(store.options.preserve_env);
    assert_eq!(store.options.timeout_secs, 30);
    assert_eq!(store.results, vec![(b"a.txt".to_vec(), vec![b"x".to_vec()])]);
    assert_eq!(
        store.timing,
        vec![(
            b"a.txt".to_vec(),
            Timing {
                fastest_ms: 4,
                most_recent_ms: 9
            }
        )]
    );
}
