//! The duplication audit, independent of how it was asked for.
//!
//! The command line and the server both land here, so the two surfaces cannot
//! answer differently for the same repository. What the audit reads and writes
//! is done by the caller: [`next_action`] says what to do after each thing that
//! happened.

use vstd::prelude::*;

use crate::code::duplication::body::SIMHASH_HAMMING_THRESHOLD;
use crate::code::duplication::embed::DEFAULT_DUP_MODEL;
use crate::text::{join_path, joined_path};

verus! {

/// What the configuration says about duplication.
///
/// `similarity_threshold` is the bit pattern of a single-precision number.
#[derive(Debug, Clone, PartialEq, Eq)]
pub struct CodeDuplicationConfig {
    /// The standing opt-in to the semantic pass.
    pub semantic: bool,
    pub hamming_threshold: u32,
    pub min_nodes: u32,
    pub similarity_threshold: u32,
    pub model: String,
}

impl Default for CodeDuplicationConfig {
    /// A default run is structural. The similarity threshold is the bit pattern
    /// of 0.70.
    fn default() -> (settings: Self)
        ensures
            !settings.semantic,
            settings.hamming_threshold == SIMHASH_HAMMING_THRESHOLD,
            settings.min_nodes == 30,
            settings.similarity_threshold == 0x3f33_3333,
            settings.model@ == DEFAULT_DUP_MODEL@,
    {
        CodeDuplicationConfig {
            semantic: false,
            hamming_threshold: SIMHASH_HAMMING_THRESHOLD,
            min_nodes: 30,
            similarity_threshold: 0x3f33_3333,
            model: DEFAULT_DUP_MODEL.to_owned(),
        }
    }
}

/// What the caller overrode on the command line. `None` keeps the configured
/// value, so a flag left off means "whatever `[code.duplication]` says".
///
/// `threshold` is the bit pattern of a single-precision number.
#[derive(Debug, Clone, PartialEq, Eq)]
pub struct DupOverrides {
    pub threshold: Option<u32>,
    /// Ask for the semantic pass on this run alone.
    pub semantic: bool,
    pub min_nodes: Option<u32>,
    pub file: Option<String>,
    /// Review mode: a git ref whose changed files the report is narrowed to.
    pub since: Option<String>,
}

impl Default for DupOverrides {
    fn default() -> (none: Self)
        ensures
            none.threshold is None,
            !none.semantic,
            none.min_nodes is None,
            none.file is None,
            none.since is None,
    {
        DupOverrides { threshold: None, semantic: false, min_nodes: None, file: None, since: None }
    }
}

/// Whether a run loads a model.
pub open spec fn wants_model(settings: CodeDuplicationConfig, overrides: DupOverrides) -> bool {
    settings.semantic || overrides.semantic || overrides.threshold is Some
}

/// Whether this run loads a model.
///
/// The pass is loaded only when asked for: `--semantic`, or a threshold
/// override, which tunes the semantic pass and means nothing without it. Config
/// `semantic = true` is the standing opt-in.
///
/// Pure so both surfaces decide identically and the decision can be tested
/// without a model on disk.
pub fn semantic_requested(settings: &CodeDuplicationConfig, overrides: &DupOverrides) -> (asked:
    bool)
    ensures
        asked == wants_model(*settings, *overrides),
        overrides.semantic ==> asked,
        overrides.threshold is Some ==> asked,
        settings.semantic ==> asked,
        asked ==> settings.semantic || overrides.semantic || overrides.threshold is Some,
{
    settings.semantic || overrides.semantic || overrides.threshold.is_some()
}

/// What a scan runs with.
///
/// `similarity_threshold` is the bit pattern of a single-precision number.
#[derive(Debug, Clone, PartialEq, Eq)]
pub struct DupOptions {
    pub min_nodes: u32,
    pub hamming_threshold: u32,
    pub similarity_threshold: u32,
    pub file: Option<String>,
    /// The files the report is narrowed to.
    pub changed: Option<Vec<String>>,
}

/// A value that may be missing, as text.
pub open spec fn text_view(value: Option<String>) -> Option<Seq<char>> {
    match value {
        Some(value) => Some(value@),
        None => None,
    }
}

/// What a scan runs with: what the command line says, and the configured value
/// for an option left off.
pub fn scan_options(
    settings: &CodeDuplicationConfig,
    overrides: &DupOverrides,
    changed: Option<Vec<String>>,
) -> (options: DupOptions)
    ensures
        options.min_nodes == (match overrides.min_nodes {
            Some(n) => n,
            None => settings.min_nodes,
        }),
        options.hamming_threshold == settings.hamming_threshold,
        options.similarity_threshold == (match overrides.threshold {
            Some(t) => t,
            None => settings.similarity_threshold,
        }),
        text_view(options.file) == text_view(overrides.file),
        options.changed == changed,
{
    let min_nodes = match overrides.min_nodes {
        Some(n) => n,
        None => settings.min_nodes,
    };
    let similarity_threshold = match overrides.threshold {
        Some(t) => t,
        None => settings.similarity_threshold,
    };
    let file = match &overrides.file {
        Some(file) => Some(file.clone()),
        None => None,
    };
    DupOptions {
        min_nodes,
        hamming_threshold: settings.hamming_threshold,
        similarity_threshold,
        file,
        changed,
    }
}

/// The audit, ready to print.
#[derive(Debug)]
pub struct DupReport<C> {
    pub markdown: String,
    /// The ranked findings behind `markdown`.
    ///
    /// Carried rather than counted so a caller that wants JSON or CSV renders
    /// the same findings the prose was rendered from, instead of a second
    /// query that could disagree with it.
    pub findings: Vec<C>,
    pub considered: usize,
    pub ignored: usize,
    /// The structural cut the scan ran with, so a caller rendering JSON or CSV
    /// buckets against the same threshold the prose report and the ranking did.
    pub hamming_threshold: u32,
    /// False when there is no code index. The caller reports that and stops;
    /// it is not an error, it is a repository nobody has indexed yet.
    pub indexed: bool,
}

/// What is said of a repository nobody has indexed.
pub open spec fn no_index(root: Seq<char>) -> Seq<char> {
    "# Duplication\n\nNo code index in "@ + root + ". Run `mdkb code index` first.\n"@
}

impl<C> DupReport<C> {
    /// How many clusters the report names.
    pub fn clusters(&self) -> (count: usize)
        ensures
            count == self.findings@.len(),
    {
        self.findings.len()
    }

    /// The report of a repository nobody has indexed.
    ///
    /// No scan ran, so no cut was used. Carrying the configured one keeps the
    /// field honest for a caller that reads it without checking `indexed`.
    pub fn missing(root: &str, settings: &CodeDuplicationConfig) -> (report: Self)
        ensures
            report.markdown@ == no_index(root@),
            report.markdown@ == "# Duplication\n\nNo code index in "@ + root@
                + ". Run `mdkb code index` first.\n"@,
            report.findings@.len() == 0,
            report.considered == 0,
            report.ignored == 0,
            report.hamming_threshold == settings.hamming_threshold,
            !report.indexed,
    {
        let mut markdown = "# Duplication\n\nNo code index in ".to_owned();
        markdown.append(root);
        markdown.append(". Run `mdkb code index` first.\n");
        DupReport {
            markdown,
            findings: Vec::new(),
            considered: 0,
            ignored: 0,
            hamming_threshold: settings.hamming_threshold,
            indexed: false,
        }
    }

    /// The report of a scan.
    pub fn scanned(
        markdown: String,
        findings: Vec<C>,
        considered: usize,
        ignored: usize,
        options: &DupOptions,
    ) -> (report: Self)
        ensures
            report == (DupReport {
                markdown,
                findings,
                considered,
                ignored,
                hamming_threshold: options.hamming_threshold,
                indexed: true,
            }),
    {
        DupReport {
            markdown,
            findings,
            considered,
            ignored,
            hamming_threshold: options.hamming_threshold,
            indexed: true,
        }
    }
}

/// The code index of a repository.
pub fn code_index_path(root: &str) -> (path: String)
    ensures
        path@ == joined_path(root@, ".mdkb/code.sqlite"@),
{
    join_path(root, ".mdkb/code.sqlite")
}

/// The duplication cache of a repository.
pub fn dup_cache_path(root: &str) -> (path: String)
    ensures
        path@ == joined_path(root@, ".mdkb/dup.sqlite"@),
{
    join_path(root, ".mdkb/dup.sqlite")
}

/// Where to read a path the index recorded, in the order to try.
///
/// The index stores whatever path it was given, which is relative for an
/// ordinary run and absolute for a caller that passed one. Trying the path as
/// written after the repository-relative one covers both without the caller
/// having to know which kind its index holds.
pub fn indexed_paths(root: &str, path: &str) -> (tries: (String, String))
    ensures
        tries.0@ == joined_path(root@, path@),
        tries.1@ == path@,
{
    let first = join_path(root, path);
    (first, path.to_owned())
}

/// What an audit does next.
#[derive(Debug, PartialEq, Eq)]
pub enum AuditAction {
    /// See whether the code index is there.
    FindIndex,
    /// Announce the connection before opening it, so that a repair waits.
    TakeLiveLock,
    /// Open the code index, read-only.
    OpenIndex,
    /// Have a busy code index waited for.
    SetTimeout,
    /// Count the symbols in it.
    CountSymbols,
    /// Open the duplication cache.
    OpenCache,
    /// List the files changed since the ref that was asked for.
    ListChanged,
    /// Load the model.
    LoadModel,
    /// Drop the cached embeddings that the model did not make.
    Reconcile,
    /// Scan, with the model if one is loaded.
    Scan {
        /// Whether a model is loaded.
        semantic: bool,
    },
    /// Report what the scan found.
    Report,
    /// Report that there is no index.
    ReportMissing,
    /// Give up, for this reason.
    Fail(String),
}

/// What happened in an audit.
#[derive(Debug, PartialEq, Eq)]
pub enum AuditEvent {
    /// It was asked for.
    Asked,
    /// The code index is there, or it is not.
    IndexFound(bool),
    LiveLockTaken(Result<(), String>),
    IndexOpened(Result<(), String>),
    TimeoutSet(Result<(), String>),
    /// How many symbols the index holds, where it has a table of them.
    SymbolsCounted(Option<i64>),
    CacheOpened(Result<(), String>),
    ChangedListed(Result<(), String>),
    /// The model is loaded, or it will not load.
    ModelLoaded(bool),
    /// The cached embeddings were looked at, whatever came of it.
    Reconciled,
    Scanned(Result<(), String>),
}

/// What an audit does next, with the reason of a failure as text.
pub enum ActionView {
    FindIndex,
    TakeLiveLock,
    OpenIndex,
    SetTimeout,
    CountSymbols,
    OpenCache,
    ListChanged,
    LoadModel,
    Reconcile,
    Scan { semantic: bool },
    Report,
    ReportMissing,
    Fail(Seq<char>),
}

impl View for AuditAction {
    type V = ActionView;

    open spec fn view(&self) -> ActionView {
        match self {
            AuditAction::FindIndex => ActionView::FindIndex,
            AuditAction::TakeLiveLock => ActionView::TakeLiveLock,
            AuditAction::OpenIndex => ActionView::OpenIndex,
            AuditAction::SetTimeout => ActionView::SetTimeout,
            AuditAction::CountSymbols => ActionView::CountSymbols,
            AuditAction::OpenCache => ActionView::OpenCache,
            AuditAction::ListChanged => ActionView::ListChanged,
            AuditAction::LoadModel => ActionView::LoadModel,
            AuditAction::Reconcile => ActionView::Reconcile,
            AuditAction::Scan { semantic } => ActionView::Scan { semantic: *semantic },
            AuditAction::Report => ActionView::Report,
            AuditAction::ReportMissing => ActionView::ReportMissing,
            AuditAction::Fail(reason) => ActionView::Fail(reason@),
        }
    }
}

/// What follows a step that may fail: `then` where it went well, else giving up
/// with what went wrong behind `prefix`.
pub open spec fn unless_failed(
    outcome: Result<(), String>,
    prefix: Seq<char>,
    next: ActionView,
) -> ActionView {
    match outcome {
        Ok(_) => next,
        Err(reason) => ActionView::Fail(prefix + reason@),
    }
}

/// What follows once the changed files are known: the model if it is wanted,
/// else the structural scan.
pub open spec fn towards_scan(wants: bool) -> ActionView {
    if wants {
        ActionView::LoadModel
    } else {
        ActionView::Scan { semantic: false }
    }
}

/// What an audit does after what happened, given whether it is narrowed to
/// changed files and whether the model is wanted.
pub open spec fn action_after(event: AuditEvent, since: bool, wants: bool) -> ActionView {
    match event {
        AuditEvent::Asked => ActionView::FindIndex,
        AuditEvent::IndexFound(found) => if found {
            ActionView::TakeLiveLock
        } else {
            ActionView::ReportMissing
        },
        AuditEvent::LiveLockTaken(outcome) => unless_failed(outcome, ""@, ActionView::OpenIndex),
        AuditEvent::IndexOpened(outcome) => unless_failed(
            outcome,
            "cannot open the code index read-only: "@,
            ActionView::SetTimeout,
        ),
        AuditEvent::TimeoutSet(outcome) => unless_failed(
            outcome,
            "cannot configure the code index: "@,
            ActionView::CountSymbols,
        ),
        AuditEvent::SymbolsCounted(count) => match count {
            Some(n) if n != 0 => ActionView::OpenCache,
            _ => ActionView::ReportMissing,
        },
        AuditEvent::CacheOpened(outcome) => unless_failed(
            outcome,
            "cannot open the duplication cache: "@,
            if since {
                ActionView::ListChanged
            } else {
                towards_scan(wants)
            },
        ),
        AuditEvent::ChangedListed(outcome) => unless_failed(outcome, ""@, towards_scan(wants)),
        AuditEvent::ModelLoaded(loaded) => if loaded {
            ActionView::Reconcile
        } else {
            ActionView::Scan { semantic: false }
        },
        AuditEvent::Reconciled => ActionView::Scan { semantic: true },
        AuditEvent::Scanned(outcome) => unless_failed(outcome, ""@, ActionView::Report),
    }
}

/// Give up with what went wrong behind `prefix`, or go on.
fn go_on(outcome: Result<(), String>, prefix: &str, next: AuditAction) -> (action: AuditAction)
    ensures
        action@ == unless_failed(outcome, prefix@, next@),
{
    match outcome {
        Ok(_) => next,
        Err(reason) => {
            let mut message = prefix.to_owned();
            message.append(reason.as_str());
            AuditAction::Fail(message)
        },
    }
}

fn scan_or_load(wants: bool) -> (action: AuditAction)
    ensures
        action@ == towards_scan(wants),
{
    if wants {
        AuditAction::LoadModel
    } else {
        AuditAction::Scan { semantic: false }
    }
}

/// What an audit does after what happened.
///
/// `mdkb init` creates the index file, so its existence proves nothing. An
/// index holding no symbols is a repository nobody has indexed, and saying "no
/// clusters found" to that would answer a question nobody asked. A missing
/// table counts the same way.
///
/// A ref git cannot resolve is an error, not an empty report: an empty report
/// reads as "your change duplicated nothing", which is the one answer a typo
/// must never be able to produce.
///
/// A model that will not load degrades the pass to its structural half rather
/// than failing it. Only a run that will actually read vectors reconciles the
/// cached embeddings.
pub fn next_action(
    event: AuditEvent,
    settings: &CodeDuplicationConfig,
    overrides: &DupOverrides,
) -> (action: AuditAction)
    ensures
        action@ == action_after(
            event,
            overrides.since is Some,
            wants_model(*settings, *overrides),
        ),
        action is LoadModel ==> settings.semantic || overrides.semantic || overrides.threshold is Some,
        action == (AuditAction::Scan { semantic: true }) <==> event is Reconciled,
        action == (AuditAction::Scan { semantic: false }) && !(event is ModelLoaded) ==> !(
        settings.semantic || overrides.semantic || overrides.threshold is Some),
        action is ListChanged ==> overrides.since is Some,
        action is Report <==> (event matches AuditEvent::Scanned(Ok(_))),
{
    let wants = semantic_requested(settings, overrides);
    match event {
        AuditEvent::Asked => AuditAction::FindIndex,
        AuditEvent::IndexFound(found) => if found {
            AuditAction::TakeLiveLock
        } else {
            AuditAction::ReportMissing
        },
        AuditEvent::LiveLockTaken(outcome) => go_on(outcome, "", AuditAction::OpenIndex),
        AuditEvent::IndexOpened(outcome) => go_on(
            outcome,
            "cannot open the code index read-only: ",
            AuditAction::SetTimeout,
        ),
        AuditEvent::TimeoutSet(outcome) => go_on(
            outcome,
            "cannot configure the code index: ",
            AuditAction::CountSymbols,
        ),
        AuditEvent::SymbolsCounted(count) => match count {
            Some(n) => if n != 0 {
                AuditAction::OpenCache
            } else {
                AuditAction::ReportMissing
            },
            None => AuditAction::ReportMissing,
        },
        AuditEvent::CacheOpened(outcome) => {
            let next = if overrides.since.is_some() {
                AuditAction::ListChanged
            } else {
                scan_or_load(wants)
            };
            go_on(outcome, "cannot open the duplication cache: ", next)
        },
        AuditEvent::ChangedListed(outcome) => go_on(outcome, "", scan_or_load(wants)),
        AuditEvent::ModelLoaded(loaded) => if loaded {
            AuditAction::Reconcile
        } else {
            AuditAction::Scan { semantic: false }
        },
        AuditEvent::Reconciled => AuditAction::Scan { semantic: true },
        AuditEvent::Scanned(outcome) => go_on(outcome, "", AuditAction::Report),
    }
}

/// Whether an event answers an action: it is what can happen when the action
/// is done.
pub open spec fn answers(action: ActionView, event: AuditEvent) -> bool {
    match action {
        ActionView::FindIndex => event is IndexFound,
        ActionView::TakeLiveLock => event is LiveLockTaken,
        ActionView::OpenIndex => event is IndexOpened,
        ActionView::SetTimeout => event is TimeoutSet,
        ActionView::CountSymbols => event is SymbolsCounted,
        ActionView::OpenCache => event is CacheOpened,
        ActionView::ListChanged => event is ChangedListed,
        ActionView::LoadModel => event is ModelLoaded,
        ActionView::Reconcile => event is Reconciled,
        ActionView::Scan { .. } => event is Scanned,
        _ => false,
    }
}

/// Whether an action ends an audit.
pub open spec fn ends(action: ActionView) -> bool {
    action is Report || action is ReportMissing || action is Fail
}

/// How many steps an audit has left at most.
pub open spec fn steps_left(action: ActionView) -> nat {
    match action {
        ActionView::FindIndex => 10,
        ActionView::TakeLiveLock => 9,
        ActionView::OpenIndex => 8,
        ActionView::SetTimeout => 7,
        ActionView::CountSymbols => 6,
        ActionView::OpenCache => 5,
        ActionView::ListChanged => 4,
        ActionView::LoadModel => 3,
        ActionView::Reconcile => 2,
        ActionView::Scan { .. } => 1,
        _ => 0,
    }
}

/// Whether events are what happened in an audit, one for each action.
pub open spec fn is_run(events: Seq<AuditEvent>, since: bool, wants: bool) -> bool {
    &&& events.len() > 0
    &&& events[0] is Asked
    &&& forall|i: int|
        0 < i < events.len() ==> answers(
            action_after(events[i - 1], since, wants),
            #[trigger] events[i],
        )
}

/// An audit ends: every action is answered by what can happen, and each step
/// leaves fewer.
pub proof fn an_audit_ends(action: ActionView, event: AuditEvent, since: bool, wants: bool)
    requires
        answers(action, event),
    ensures
        steps_left(action_after(event, since, wants)) < steps_left(action),
        ends(action_after(event, since, wants)) <==> steps_left(action_after(event, since, wants))
            == 0,
{
}

/// A run that was not asked for the semantic pass loads no model and touches no
/// cached embedding, whatever happens in it.
pub proof fn a_structural_run_loads_no_model(events: Seq<AuditEvent>, since: bool, i: int)
    requires
        is_run(events, since, false),
        0 <= i < events.len(),
    ensures
        !(events[i] is ModelLoaded),
        !(events[i] is Reconciled),
        !(action_after(events[i], since, false) is LoadModel),
        !(action_after(events[i], since, false) is Reconcile),
        action_after(events[i], since, false) != (ActionView::Scan { semantic: true }),
    decreases i,
{
    if i > 0 {
        a_structural_run_loads_no_model(events, since, i - 1);
        assert(answers(action_after(events[i - 1], since, false), events[i]));
    }
}

/// A model that does not load never stops an audit, and then the cached
/// embeddings are left alone.
pub proof fn a_model_that_does_not_load_stops_nothing(since: bool, wants: bool)
    ensures
        action_after(AuditEvent::ModelLoaded(false), since, wants) == (ActionView::Scan {
            semantic: false,
        }),
{
}

/// Only an index that holds symbols is scanned: a scan is reached only past a
/// count other than zero.
pub proof fn only_an_index_with_symbols_is_scanned(
    events: Seq<AuditEvent>,
    since: bool,
    wants: bool,
    i: int,
)
    requires
        is_run(events, since, wants),
        0 <= i < events.len(),
        steps_left(action_after(events[i], since, wants)) <= 5,
        !ends(action_after(events[i], since, wants)) || action_after(events[i], since, wants) is Report,
    ensures
        exists|k: int|
            0 <= k <= i && (#[trigger] events[k] matches AuditEvent::SymbolsCounted(Some(n)) && n
                != 0),
    decreases i,
{
    if events[i] is SymbolsCounted {
        assert(events[i] matches AuditEvent::SymbolsCounted(Some(n)) && n != 0);
    } else if i > 0 {
        assert(answers(action_after(events[i - 1], since, wants), events[i]));
        only_an_index_with_symbols_is_scanned(events, since, wants, i - 1);
        let k = choose|k: int|
            0 <= k <= i - 1 && (#[trigger] events[k] matches AuditEvent::SymbolsCounted(Some(n))
                && n != 0);
        assert(events[k] matches AuditEvent::SymbolsCounted(Some(n)) && n != 0);
    }
}

/// A ref that cannot be resolved ends in a failure that says why, never in a
/// report.
pub proof fn a_bad_ref_is_no_empty_report(reason: String, since: bool, wants: bool)
    ensures
        action_after(AuditEvent::ChangedListed(Err(reason)), since, wants) == ActionView::Fail(
            reason@,
        ),
{
    reveal_strlit("");
    assert(""@ + reason@ =~= reason@);
}

/// What must have happened before each thing that happens: the live lock is
/// taken only on an index that is there, each later step follows one that went
/// well, the changed files are listed exactly in review mode, and the model is
/// loaded exactly where it is wanted, behind the listing in review mode.
pub proof fn every_event_has_its_cause(
    events: Seq<AuditEvent>,
    since: bool,
    wants: bool,
    i: int,
)
    requires
        is_run(events, since, wants),
        0 <= i < events.len(),
    ensures
        events[i] is Asked <==> i == 0,
        events[i] is IndexFound ==> events[i - 1] is Asked,
        events[i] is LiveLockTaken ==> events[i - 1] == AuditEvent::IndexFound(true),
        events[i] is IndexOpened ==> (events[i - 1] matches AuditEvent::LiveLockTaken(Ok(_))),
        events[i] is TimeoutSet ==> (events[i - 1] matches AuditEvent::IndexOpened(Ok(_))),
        events[i] is SymbolsCounted ==> (events[i - 1] matches AuditEvent::TimeoutSet(Ok(_))),
        events[i] is CacheOpened ==> (events[i - 1] matches AuditEvent::SymbolsCounted(Some(n)) && n
            != 0),
        events[i] is ChangedListed ==> since && (events[i - 1] matches AuditEvent::CacheOpened(Ok(_))),
        events[i] is ModelLoaded ==> wants && (if since {
            events[i - 1] matches AuditEvent::ChangedListed(Ok(_))
        } else {
            events[i - 1] matches AuditEvent::CacheOpened(Ok(_))
        }),
        events[i] is Reconciled ==> events[i - 1] == AuditEvent::ModelLoaded(true),
        events[i] is Scanned && wants ==> events[i - 1] == AuditEvent::ModelLoaded(false)
            || events[i - 1] is Reconciled,
        events[i] is Scanned && !wants ==> (if since {
            events[i - 1] matches AuditEvent::ChangedListed(Ok(_))
        } else {
            events[i - 1] matches AuditEvent::CacheOpened(Ok(_))
        }),
    decreases i,
{
    if i > 0 {
        every_event_has_its_cause(events, since, wants, i - 1);
        assert(answers(action_after(events[i - 1], since, wants), events[i]));
    }
}

/// Where a model is wanted nothing is scanned before it was asked for: a scan
/// comes after an attempt to load it, and it is semantic exactly if the model
/// did load.
pub proof fn a_wanted_model_comes_before_the_scan(
    events: Seq<AuditEvent>,
    since: bool,
    i: int,
    semantic: bool,
)
    requires
        is_run(events, since, true),
        0 <= i < events.len(),
        action_after(events[i], since, true) == (ActionView::Scan { semantic }),
    ensures
        exists|k: int|
            0 <= k <= i && (#[trigger] events[k]) == AuditEvent::ModelLoaded(semantic),
        forall|k: int|
            0 <= k <= i && (#[trigger] events[k]) is ModelLoaded ==> events[k]
                == AuditEvent::ModelLoaded(semantic),
        semantic <==> exists|k: int|
            0 <= k <= i && (#[trigger] events[k]) == AuditEvent::ModelLoaded(true),
{
    every_event_has_its_cause(events, since, true, i);
    if i > 0 {
        every_event_has_its_cause(events, since, true, i - 1);
    }
    let k = if events[i] is Reconciled {
        i - 1
    } else {
        i
    };
    assert(events[k] == AuditEvent::ModelLoaded(semantic));
    assert forall|j: int| 0 <= j <= i && (#[trigger] events[j]) is ModelLoaded implies events[j]
        == AuditEvent::ModelLoaded(semantic) by {
        lemma_steps_run_out(events, since, true, j, k);
        lemma_steps_run_out(events, since, true, k, j);
    }
}

/// Behind an event the steps that are left run out.
proof fn lemma_steps_run_out(
    events: Seq<AuditEvent>,
    since: bool,
    wants: bool,
    j: int,
    k: int,
)
    requires
        is_run(events, since, wants),
        0 <= j < events.len(),
        0 <= k < events.len(),
    ensures
        j < k ==> steps_left(action_after(events[k], since, wants)) < steps_left(
            action_after(events[j], since, wants),
        ),
        j < k && events[j] is ModelLoaded ==> !(events[k] is ModelLoaded),
    decreases k - j,
{
    if j < k {
        assert(answers(action_after(events[k - 1], since, wants), events[k]));
        lemma_steps_run_out(events, since, wants, j, k - 1);
        an_audit_ends(
            action_after(events[k - 1], since, wants),
            events[k],
            since,
            wants,
        );
    }
}

/// A scan is semantic only behind cached embeddings that were looked at, and
/// where no model is wanted it is structural, behind the opened cache, and in
/// review mode behind the list of changed files.
pub proof fn what_a_scan_comes_after(
    events: Seq<AuditEvent>,
    since: bool,
    wants: bool,
    i: int,
    semantic: bool,
)
    requires
        is_run(events, since, wants),
        0 <= i < events.len(),
        action_after(events[i], since, wants) == (ActionView::Scan { semantic }),
    ensures
        semantic <==> events[i] is Reconciled,
        semantic ==> wants,
        !wants && since ==> (events[i] matches AuditEvent::ChangedListed(Ok(_))),
        !wants && !since ==> (events[i] matches AuditEvent::CacheOpened(Ok(_))),
        wants && !semantic ==> events[i] == AuditEvent::ModelLoaded(false),
{
    every_event_has_its_cause(events, since, wants, i);
    if i > 0 {
        every_event_has_its_cause(events, since, wants, i - 1);
    }
}

/// What ends an audit: a report exactly behind a scan that went well, the
/// report of a missing index exactly where there is no index or none with
/// symbols, and a failure exactly where a step failed. Nothing else ends it.
pub proof fn what_ends_an_audit(event: AuditEvent, since: bool, wants: bool)
    ensures
        action_after(event, since, wants) is Report <==> (event matches AuditEvent::Scanned(Ok(_))),
        action_after(event, since, wants) is ReportMissing <==> event == AuditEvent::IndexFound(
            false,
        ) || event == AuditEvent::SymbolsCounted(None) || event == AuditEvent::SymbolsCounted(
            Some(0),
        ),
        action_after(event, since, wants) is Fail <==> (match event {
            AuditEvent::LiveLockTaken(outcome) => outcome is Err,
            AuditEvent::IndexOpened(outcome) => outcome is Err,
            AuditEvent::TimeoutSet(outcome) => outcome is Err,
            AuditEvent::CacheOpened(outcome) => outcome is Err,
            AuditEvent::ChangedListed(outcome) => outcome is Err,
            AuditEvent::Scanned(outcome) => outcome is Err,
            _ => false,
        }),
{
}

/// A failure ends with the reason that the failed step gave: word for word
/// where the step speaks for itself, and behind the words that name the step
/// where it does not.
pub proof fn a_failure_says_why(reason: String, since: bool, wants: bool)
    ensures
        action_after(AuditEvent::LiveLockTaken(Err(reason)), since, wants) == ActionView::Fail(
            reason@,
        ),
        action_after(AuditEvent::Scanned(Err(reason)), since, wants) == ActionView::Fail(reason@),
        action_after(AuditEvent::IndexOpened(Err(reason)), since, wants) == ActionView::Fail(
            "cannot open the code index read-only: "@ + reason@,
        ),
        action_after(AuditEvent::TimeoutSet(Err(reason)), since, wants) == ActionView::Fail(
            "cannot configure the code index: "@ + reason@,
        ),
        action_after(AuditEvent::CacheOpened(Err(reason)), since, wants) == ActionView::Fail(
            "cannot open the duplication cache: "@ + reason@,
        ),
{
    reveal_strlit("");
    assert(""@ + reason@ =~= reason@);
}

/// In an audit that reports, an index was found, it was opened and waited for,
/// it holds symbols, the cache was opened, in review mode the changed files were
/// listed, and where a model is wanted it was tried.
pub proof fn a_report_skips_no_step(events: Seq<AuditEvent>, since: bool, wants: bool)
    requires
        is_run(events, since, wants),
        action_after(events.last(), since, wants) is Report,
    ensures
        events.contains(AuditEvent::IndexFound(true)),
        exists|k: int|
            0 <= k < events.len() && (#[trigger] events[k] matches AuditEvent::LiveLockTaken(Ok(_))),
        exists|k: int|
            0 <= k < events.len() && (#[trigger] events[k] matches AuditEvent::IndexOpened(Ok(_))),
        exists|k: int|
            0 <= k < events.len() && (#[trigger] events[k] matches AuditEvent::TimeoutSet(Ok(_))),
        exists|n: i64| n != 0 && #[trigger] events.contains(AuditEvent::SymbolsCounted(Some(n))),
        exists|k: int|
            0 <= k < events.len() && (#[trigger] events[k] matches AuditEvent::CacheOpened(Ok(_))),
        (exists|k: int|
            0 <= k < events.len() && (#[trigger] events[k] matches AuditEvent::ChangedListed(Ok(_)))) <==> since,
        events.contains(AuditEvent::ModelLoaded(true)) || events.contains(
            AuditEvent::ModelLoaded(false),
        ) <==> wants,
        (events.last() matches AuditEvent::Scanned(Ok(_))),
{
    let last = events.len() - 1;
    what_ends_an_audit(events.last(), since, wants);
    lemma_behind(events, since, wants, last);
    if exists|k: int|
        0 <= k < events.len() && (#[trigger] events[k] matches AuditEvent::ChangedListed(Ok(_))) {
        let k = choose|k: int|
            0 <= k < events.len() && (#[trigger] events[k] matches AuditEvent::ChangedListed(Ok(_)));
        every_event_has_its_cause(events, since, wants, k);
    }
    if events.contains(AuditEvent::ModelLoaded(true)) {
        let k = choose|k: int| 0 <= k < events.len() && events[k] == AuditEvent::ModelLoaded(true);
        every_event_has_its_cause(events, since, wants, k);
    }
    if events.contains(AuditEvent::ModelLoaded(false)) {
        let k = choose|k: int| 0 <= k < events.len() && events[k] == AuditEvent::ModelLoaded(false);
        every_event_has_its_cause(events, since, wants, k);
    }
}

/// Behind an event stand the steps before it.
proof fn lemma_behind(events: Seq<AuditEvent>, since: bool, wants: bool, i: int)
    requires
        is_run(events, since, wants),
        0 <= i < events.len(),
    ensures
        i > 0 && !(events[i] is IndexFound) ==> events.contains(AuditEvent::IndexFound(true)),
        i > 0 && !(events[i] is IndexFound || events[i] is LiveLockTaken) ==> exists|k: int|
            0 <= k < events.len() && (#[trigger] events[k] matches AuditEvent::LiveLockTaken(Ok(_))),
        (events[i] is TimeoutSet || events[i] is SymbolsCounted || events[i] is CacheOpened
            || events[i] is ChangedListed || events[i] is ModelLoaded || events[i] is Reconciled
            || events[i] is Scanned) ==> exists|k: int|
            0 <= k < events.len() && (#[trigger] events[k] matches AuditEvent::IndexOpened(Ok(_))),
        (events[i] is SymbolsCounted || events[i] is CacheOpened || events[i] is ChangedListed
            || events[i] is ModelLoaded || events[i] is Reconciled || events[i] is Scanned)
            ==> exists|k: int|
            0 <= k < events.len() && (#[trigger] events[k] matches AuditEvent::TimeoutSet(Ok(_))),
        (events[i] is CacheOpened || events[i] is ChangedListed || events[i] is ModelLoaded
            || events[i] is Reconciled || events[i] is Scanned) ==> exists|n: i64|
            n != 0 && #[trigger] events.contains(AuditEvent::SymbolsCounted(Some(n))),
        (events[i] is ChangedListed || events[i] is ModelLoaded || events[i] is Reconciled
            || events[i] is Scanned) ==> exists|k: int|
            0 <= k < events.len() && (#[trigger] events[k] matches AuditEvent::CacheOpened(Ok(_))),
        since && (events[i] is ModelLoaded || events[i] is Reconciled || events[i] is Scanned)
            ==> exists|k: int|
            0 <= k < events.len() && (#[trigger] events[k] matches AuditEvent::ChangedListed(Ok(_))),
        wants && (events[i] is Reconciled || events[i] is Scanned) ==> events.contains(
            AuditEvent::ModelLoaded(true),
        ) || events.contains(AuditEvent::ModelLoaded(false)),
    decreases i,
{
    if i > 0 {
        every_event_has_its_cause(events, since, wants, i);
        lemma_behind(events, since, wants, i - 1);
        assert(events.contains(events[i - 1]));
        if events[i] is CacheOpened {
            let before = events[i - 1];
            assert(before matches AuditEvent::SymbolsCounted(Some(n)) && events.contains(
                AuditEvent::SymbolsCounted(Some(n)),
            ));
        }
    }
}

/// A model is loaded only where it is asked for, and each way of asking is enough
/// on its own: the configuration, the flag, or a threshold that only the
/// semantic pass reads.
pub proof fn each_way_of_asking_is_enough(settings: CodeDuplicationConfig, overrides: DupOverrides)
    ensures
        settings.semantic ==> wants_model(settings, overrides),
        overrides.semantic ==> wants_model(settings, overrides),
        overrides.threshold is Some ==> wants_model(settings, overrides),
        !settings.semantic && !overrides.semantic && overrides.threshold is None ==> !wants_model(
            settings,
            overrides,
        ),
{
}

/// A repository that nobody has indexed is named, with what to do about it.
pub proof fn a_missing_index_is_named(root: Seq<char>)
    ensures
        no_index(root) == "# Duplication\n\nNo code index in "@ + root
            + ". Run `mdkb code index` first.\n"@,
{
}

} // verus!
