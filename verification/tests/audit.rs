//! The duplication audit.

use mdkb::audit::{
    code_index_path, dup_cache_path, indexed_paths, next_action, scan_options, semantic_requested,
    AuditAction, AuditEvent, CodeDuplicationConfig, DupOverrides, DupReport,
};

/// A repository, as far as an audit looks at it.
struct Repository {
    index: bool,
    symbols: Option<i64>,
    model_loads: bool,
    changed: Result<(), String>,
}

const INDEXED: Repository = Repository {
    index: true,
    symbols: Some(1),
    model_loads: true,
    changed: Ok(()),
};

/// Run an audit of `repository`, and say which actions it took.
fn run(
    repository: &Repository,
    settings: &CodeDuplicationConfig,
    overrides: &DupOverrides,
) -> (Result<DupReport<()>, String>, Vec<AuditAction>) {
    let mut event = AuditEvent::Asked;
    let mut taken = Vec::new();
    loop {
        assert!(taken.len() < 20, "no end: {taken:?}");
        let action = next_action(event, settings, overrides);
        event = match &action {
            AuditAction::FindIndex => AuditEvent::IndexFound(repository.index),
            AuditAction::TakeLiveLock => AuditEvent::LiveLockTaken(Ok(())),
            AuditAction::OpenIndex => AuditEvent::IndexOpened(Ok(())),
            AuditAction::SetTimeout => AuditEvent::TimeoutSet(Ok(())),
            AuditAction::CountSymbols => AuditEvent::SymbolsCounted(repository.symbols),
            AuditAction::OpenCache => AuditEvent::CacheOpened(Ok(())),
            AuditAction::ListChanged => AuditEvent::ChangedListed(repository.changed.clone()),
            AuditAction::LoadModel => AuditEvent::ModelLoaded(repository.model_loads),
            AuditAction::Reconcile => AuditEvent::Reconciled,
            AuditAction::Scan { .. } => AuditEvent::Scanned(Ok(())),
            AuditAction::Report => {
                let options = scan_options(settings, overrides, None);
                let report = DupReport::scanned("# Duplication\n".to_string(), Vec::new(), 1, 0, &options);
                return (Ok(report), taken);
            }
            AuditAction::ReportMissing => return (Ok(DupReport::missing("/repo", settings)), taken),
            AuditAction::Fail(reason) => return (Err(reason.clone()), taken),
        };
        taken.push(action);
    }
}

#[test]
fn a_repository_with_no_code_index_is_reported_not_refused() {
    let bare = Repository { index: false, ..INDEXED };

    let report = run(&bare, &CodeDuplicationConfig::default(), &DupOverrides::default())
        .0
        .unwrap();

    assert!(!report.indexed);
    assert_eq!(report.clusters(), 0);
    assert!(
        report.markdown.contains("No code index"),
        "{}",
        report.markdown
    );
    assert!(
        report.markdown.contains("mdkb code index"),
        "and says what to do about it: {}",
        report.markdown
    );
}

#[test]
fn an_index_holding_no_symbols_is_reported_as_no_index() {
    for symbols in [Some(0), None] {
        let empty = Repository { symbols, ..INDEXED };

        let report = run(&empty, &CodeDuplicationConfig::default(), &DupOverrides::default())
            .0
            .unwrap();

        // The file exists, so existence cannot be the test. "No clusters
        // found" here would answer a question nobody asked.
        assert!(!report.indexed, "{}", report.markdown);
        assert!(
            report.markdown.contains("No code index"),
            "{}",
            report.markdown
        );
    }
}

/// The four ways the semantic pass can be asked for, and the one way it is
/// not. Pure, so this needs no model on disk, which is the point: the
/// decision to load one is made before anything touches the network.
#[test]
fn the_semantic_pass_is_off_unless_something_asks_for_it() {
    let mut settings = CodeDuplicationConfig::default();

    assert!(
        !semantic_requested(&settings, &DupOverrides::default()),
        "a default run must not load a model"
    );
    assert!(
        semantic_requested(
            &settings,
            &DupOverrides {
                semantic: true,
                ..Default::default()
            }
        ),
        "--semantic asks for it"
    );
    assert!(
        semantic_requested(
            &settings,
            &DupOverrides {
                threshold: Some(0.8f32.to_bits()),
                ..Default::default()
            }
        ),
        "a threshold tunes the semantic pass, so it implies it"
    );

    settings.semantic = true;
    assert!(
        semantic_requested(&settings, &DupOverrides::default()),
        "config semantic = true is the standing opt-in"
    );
}

/// A default run never constructs the embedder.
#[test]
fn a_default_run_reports_even_when_the_configured_model_cannot_load() {
    let mut settings = CodeDuplicationConfig::default();
    settings.model = "not-a-model-anyone-ships".to_string();
    assert!(!settings.semantic, "the default this test rests on");
    let broken = Repository { model_loads: false, ..INDEXED };

    let (report, taken) = run(&broken, &settings, &DupOverrides::default());

    let report = report.expect("a default run must not fail on a model it never loads");
    assert!(report.indexed, "{}", report.markdown);
    assert!(!taken.contains(&AuditAction::LoadModel));
}

#[test]
fn command_line_options_win_over_the_configured_ones() {
    // Proven through the option struct the scan actually receives, rather
    // than by reading the report: the two numbers do not show up there.
    let settings = CodeDuplicationConfig::default();
    let overrides = DupOverrides {
        semantic: false,
        threshold: Some(0.9f32.to_bits()),
        min_nodes: Some(3),
        file: Some("src/a.rs".into()),
        since: None,
    };

    let options = scan_options(&settings, &overrides, None);

    assert_eq!(options.min_nodes, 3);
    assert!((f32::from_bits(options.similarity_threshold) - 0.9).abs() < f32::EPSILON);
    assert_eq!(options.file.as_deref(), Some("src/a.rs"));
    // And an option left off keeps the configured value.
    let none = scan_options(&settings, &DupOverrides::default(), None);
    assert_eq!(none.min_nodes, settings.min_nodes);
    assert_eq!(none.similarity_threshold, 0.7f32.to_bits());
    assert_eq!(none.hamming_threshold, 6);
    assert_eq!(none.file, None);
    assert_eq!(none.changed, None);
}

#[test]
fn a_model_that_will_not_load_leaves_the_structural_half() {
    let overrides = DupOverrides { semantic: true, ..Default::default() };
    let settings = CodeDuplicationConfig::default();

    let (report, taken) = run(&INDEXED, &settings, &overrides);
    assert!(report.unwrap().indexed);
    assert!(taken.contains(&AuditAction::Reconcile));
    assert!(taken.contains(&AuditAction::Scan { semantic: true }));

    let broken = Repository { model_loads: false, ..INDEXED };
    let (report, taken) = run(&broken, &settings, &overrides);
    assert!(report.unwrap().indexed);
    assert!(!taken.contains(&AuditAction::Reconcile));
    assert!(taken.contains(&AuditAction::Scan { semantic: false }));
}

#[test]
fn a_ref_that_does_not_resolve_is_an_error() {
    let overrides = DupOverrides { since: Some("nope".to_string()), ..Default::default() };
    let broken = Repository { changed: Err("unknown revision".to_string()), ..INDEXED };
    let (report, _) = run(&broken, &CodeDuplicationConfig::default(), &overrides);
    assert_eq!(report.unwrap_err(), "unknown revision");

    let (report, taken) = run(&INDEXED, &CodeDuplicationConfig::default(), &overrides);
    assert!(report.unwrap().indexed);
    assert!(taken.contains(&AuditAction::ListChanged));
}

#[test]
fn a_step_that_fails_says_what_was_tried() {
    let settings = CodeDuplicationConfig::default();
    let overrides = DupOverrides::default();
    let boom = || Err("boom".to_string());
    let cases = [
        (AuditEvent::LiveLockTaken(boom()), "boom"),
        (AuditEvent::IndexOpened(boom()), "cannot open the code index read-only: boom"),
        (AuditEvent::TimeoutSet(boom()), "cannot configure the code index: boom"),
        (AuditEvent::CacheOpened(boom()), "cannot open the duplication cache: boom"),
        (AuditEvent::ChangedListed(boom()), "boom"),
        (AuditEvent::Scanned(boom()), "boom"),
    ];
    for (event, reason) in cases {
        assert_eq!(
            next_action(event, &settings, &overrides),
            AuditAction::Fail(reason.to_string())
        );
    }
}

#[test]
fn where_an_audit_looks() {
    assert_eq!(code_index_path("/repo"), "/repo/.mdkb/code.sqlite");
    assert_eq!(dup_cache_path("/repo"), "/repo/.mdkb/dup.sqlite");
    assert_eq!(
        indexed_paths("/repo", "src/a.rs"),
        ("/repo/src/a.rs".to_string(), "src/a.rs".to_string())
    );
    assert_eq!(
        indexed_paths("/repo", "/else/a.rs"),
        ("/else/a.rs".to_string(), "/else/a.rs".to_string())
    );
}
