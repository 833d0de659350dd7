use headr::{all_succeeded, run_core, Config, HeaderChoice, RunOutcome, SourceData};

fn loaded(bytes: &[u8]) -> SourceData {
    SourceData::Loaded { data: bytes.to_vec(), sizeable: true }
}

fn flatten(outcomes: &[RunOutcome]) -> Vec<u8> {
    let mut out: Vec<u8> = Vec::new();
    for oc in outcomes {
        if let RunOutcome::Emitted { header, data } = oc {
            if let Some(h) = header {
                out.extend_from_slice(h.as_bytes());
            }
            out.extend_from_slice(data);
        }
    }
    out
}

fn names(names: &[&str]) -> Vec<String> {
    names.iter().map(|n| n.to_string()).collect()
}

#[test]
fn header_scenario() {
    let config = Config {
        files: names(&["a.txt", "b.txt"]),
        lines: 10,
        bytes: None,
        print_header: HeaderChoice::Multiple,
    };
    let sources = vec![loaded(b"AAA\n"), loaded(b"BBB\n")];
    let outcomes = run_core(&config, &sources);
    assert_eq!(
        flatten(&outcomes),
        b"==> a.txt <==\nAAA\n\n==> b.txt <==\nBBB\n".to_vec()
    );
    assert!(all_succeeded(&outcomes));
}

#[test]
fn single_source_has_no_header_under_multiple_only() {
    let config = Config {
        files: names(&["a.txt"]),
        lines: 10,
        bytes: None,
        print_header: HeaderChoice::Multiple,
    };
    let outcomes = run_core(&config, &vec![loaded(b"AAA\n")]);
    assert_eq!(flatten(&outcomes), b"AAA\n".to_vec());
}

#[test]
fn header_policy_always_and_never() {
    let sources = || vec![loaded(b"AAA\n")];
    let always = Config {
        files: names(&["a.txt"]),
        lines: 10,
        bytes: None,
        print_header: HeaderChoice::Always,
    };
    assert_eq!(flatten(&run_core(&always, &sources())), b"==> a.txt <==\nAAA\n".to_vec());
    let never = Config {
        files: names(&["a.txt", "b.txt"]),
        lines: 10,
        bytes: None,
        print_header: HeaderChoice::Never,
    };
    let outcomes = run_core(&never, &vec![loaded(b"AAA\n"), loaded(b"BBB\n")]);
    assert_eq!(flatten(&outcomes), b"AAA\nBBB\n".to_vec());
}

#[test]
fn partial_failure_scenario() {
    let config = Config {
        files: names(&["missing.txt", "ok.txt"]),
        lines: 10,
        bytes: None,
        print_header: HeaderChoice::Multiple,
    };
    let sources = vec![
        SourceData::Unavailable { message: "No such file or directory".to_string() },
        loaded(b"OK\n"),
    ];
    let outcomes = run_core(&config, &sources);
    assert_eq!(outcomes.len(), 2);
    match &outcomes[0] {
        RunOutcome::Failed { message } => assert_eq!(message, "No such file or directory"),
        _ => panic!("first source must fail"),
    }
    match &outcomes[1] {
        RunOutcome::Emitted { header, data } => {
            assert_eq!(header.as_deref(), Some("==> ok.txt <==\n"));
            assert_eq!(data, &b"OK\n".to_vec());
        },
        _ => panic!("second source must be emitted"),
    }
    let flat = flatten(&outcomes);
    assert_eq!(flat, b"==> ok.txt <==\nOK\n".to_vec());
    assert!(!all_succeeded(&outcomes));
}

#[test]
fn separator_counts_emitted_headers_only() {
    let config = Config {
        files: names(&["missing.txt", "a.txt", "b.txt"]),
        lines: 10,
        bytes: None,
        print_header: HeaderChoice::Multiple,
    };
    let sources = vec![
        SourceData::Unavailable { message: "No such file or directory".to_string() },
        loaded(b"AAA\n"),
        loaded(b"BBB\n"),
    ];
    let outcomes = run_core(&config, &sources);
    assert_eq!(
        flatten(&outcomes),
        b"==> a.txt <==\nAAA\n\n==> b.txt <==\nBBB\n".to_vec()
    );
    assert!(!all_succeeded(&outcomes));
}

#[test]
fn extraction_is_idempotent() {
    let config = Config {
        files: names(&["a.txt", "b.txt"]),
        lines: -1,
        bytes: None,
        print_header: HeaderChoice::Multiple,
    };
    let sources = vec![loaded(b"one\ntwo\nthree\n"), loaded(b"x\ny")];
    let first = flatten(&run_core(&config, &sources));
    let second = flatten(&run_core(&config, &sources));
    assert_eq!(first, second);
    assert_eq!(first, b"==> a.txt <==\none\ntwo\n\n==> b.txt <==\nx\n".to_vec());
}

#[test]
fn byte_mode_through_run() {
    let config = Config {
        files: names(&["h.txt"]),
        lines: 10,
        bytes: Some(5),
        print_header: HeaderChoice::Never,
    };
    let outcomes = run_core(&config, &vec![loaded(b"hello\nworld\n")]);
    assert_eq!(flatten(&outcomes), b"hello".to_vec());
    let config = Config { bytes: Some(-2), ..config };
    let outcomes = run_core(&config, &vec![loaded(b"hello\nworld\n")]);
    assert_eq!(flatten(&outcomes), b"hello\nworl".to_vec());
    assert_eq!(outcomes[0].bytes_emitted(), 10);
}

#[test]
fn unsizeable_sources_use_degenerate_totals() {
    let stdin_like = |bytes: &[u8]| SourceData::Loaded { data: bytes.to_vec(), sizeable: false };
    let lines_cfg = Config {
        files: names(&["-"]),
        lines: -1,
        bytes: None,
        print_header: HeaderChoice::Never,
    };
    let outcomes = run_core(&lines_cfg, &vec![stdin_like(b"x\ny\nz\n")]);
    assert_eq!(flatten(&outcomes), b"".to_vec());
    let bytes_cfg = Config {
        files: names(&["-"]),
        lines: 10,
        bytes: Some(-1),
        print_header: HeaderChoice::Never,
    };
    let outcomes = run_core(&bytes_cfg, &vec![stdin_like(b"x\ny\nz\n")]);
    assert_eq!(flatten(&outcomes), b"".to_vec());
    let positive = Config {
        files: names(&["-"]),
        lines: 2,
        bytes: None,
        print_header: HeaderChoice::Never,
    };
    let outcomes = run_core(&positive, &vec![stdin_like(b"x\ny\nz\n")]);
    assert_eq!(flatten(&outcomes), b"x\ny\n".to_vec());
}

#[test]
fn failed_outcome_emits_no_bytes() {
    let config = Config {
        files: names(&["gone"]),
        lines: 10,
        bytes: None,
        print_header: HeaderChoice::Always,
    };
    let sources = vec![SourceData::Unavailable { message: "denied".to_string() }];
    let outcomes = run_core(&config, &sources);
    assert_eq!(outcomes[0].bytes_emitted(), 0);
    assert_eq!(flatten(&outcomes), b"".to_vec());
    assert!(!all_succeeded(&outcomes));
}
