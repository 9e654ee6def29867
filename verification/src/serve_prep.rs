//! The decisions that prepare the server: warn when the index on disk is
//! over its size limit and ask whether to go on, then load the merged index
//! and show its notices. The caller carries out each action, the size
//! messages (written in megabytes) among them, and answers with an event.
use vstd::prelude::*;
use crate::index::SourceIndexKind;

verus! {

/// The sizes of the index on disk, in bytes.
pub struct IndexSize {
    pub total_bytes: u64,
    pub file_bytes: u64,
    pub git_bytes: u64,
}

/// Where the preparation stands. It starts at `CheckingSize`, waiting for
/// the answer to `ServeAction::CheckSize`.
pub enum ServePrep {
    /// Waiting for the size check.
    CheckingSize,
    /// The total size is being shown.
    WarningTotal { total_bytes: u64, file_bytes: u64, git_bytes: u64 },
    /// Waiting for whether `file/` exists.
    CheckingFileDir { file_bytes: u64, git_bytes: u64 },
    /// The size of `file/` is being shown.
    WarningFileDir { file_bytes: u64, git_bytes: u64 },
    /// Waiting for whether `git/` exists.
    CheckingGitDir { git_bytes: u64 },
    /// The size of `git/` is being shown.
    WarningGitDir { git_bytes: u64 },
    /// Waiting for the user's answer to "Continue?".
    Confirming,
    /// Waiting for the merged index.
    Loading,
    /// Notice `next - 1` of `notices` is being shown (nothing is, where
    /// there is no such notice).
    Notifying { notices: Vec<String>, next: usize },
    /// Ready to build the search service.
    Ready,
    /// Stopped with `failure`.
    Failed { failure: ServeFailure },
}

/// Why the preparation stopped.
pub enum ServeFailure {
    /// The user chose not to go on.
    Aborted,
    /// The merged index did not load; the loader's error.
    LoadFailed(String),
    /// The size check or the question failed; its error.
    Error(String),
}

impl ServeFailure {
    /// The message shown to the user.
    pub fn message(&self) -> (m: String)
        ensures
            match self {
                ServeFailure::Aborted => m@ == "Aborted by user."@,
                ServeFailure::LoadFailed(e) => m@ == "Failed to load merged index: "@ + e@,
                ServeFailure::Error(e) => m@ == e@,
            },
    {
        match self {
            ServeFailure::Aborted => "Aborted by user.".to_owned(),
            ServeFailure::LoadFailed(e) => {
                let mut m = "Failed to load merged index: ".to_owned();
                m.append(e.as_str());
                m
            },
            ServeFailure::Error(e) => e.clone(),
        }
    }
}

/// What the caller reports back.
pub enum ServeEvent {
    /// The size check found the index within its limit.
    WithinLimit,
    /// The size check found the index over its limit.
    OverLimit(IndexSize),
    /// Whether the sub-directory asked about exists.
    DirExists(bool),
    /// The user's answer: whether to go on.
    Answer(bool),
    /// The merged index loaded, with these notices.
    Loaded(Vec<String>),
    /// The outside work failed with this message.
    Error(String),
    /// The message was shown.
    Shown,
}

/// What the caller does next.
pub enum ServeAction {
    /// Check the size of the index against its limit.
    CheckSize,
    /// Warn that the index, `total_bytes` in all, is over its limit.
    WarnTotal(u64),
    /// Ask whether the sub-directory of this kind of source exists.
    CheckDir(SourceIndexKind),
    /// Show the size of the sub-directory of this kind of source.
    WarnSubdir(SourceIndexKind, u64),
    /// Ask the user "Continue?".
    Confirm,
    /// Load the merged index.
    Load,
    /// Show this notice.
    Info(String),
    /// Build the search service and serve.
    Build,
    /// Stop with this failure.
    Fail(ServeFailure),
}

/// The action that the state `s` waits on.
pub open spec fn pending_action(s: ServePrep) -> ServeAction {
    match s {
        ServePrep::CheckingSize => ServeAction::CheckSize,
        ServePrep::WarningTotal { total_bytes, .. } => ServeAction::WarnTotal(total_bytes),
        ServePrep::CheckingFileDir { .. } => ServeAction::CheckDir(SourceIndexKind::File),
        ServePrep::WarningFileDir { file_bytes, .. } => ServeAction::WarnSubdir(
            SourceIndexKind::File,
            file_bytes,
        ),
        ServePrep::CheckingGitDir { .. } => ServeAction::CheckDir(SourceIndexKind::Git),
        ServePrep::WarningGitDir { git_bytes } => ServeAction::WarnSubdir(
            SourceIndexKind::Git,
            git_bytes,
        ),
        ServePrep::Confirming => ServeAction::Confirm,
        ServePrep::Loading => ServeAction::Load,
        ServePrep::Notifying { notices, next } => if 0 < next <= notices.len() {
            ServeAction::Info(notices@[next - 1])
        } else {
            ServeAction::Build
        },
        ServePrep::Ready => ServeAction::Build,
        ServePrep::Failed { failure } => ServeAction::Fail(failure),
    }
}

/// The state after the notices `notices` from position `next` on, with the
/// action it waits on: the next notice, or the build once all are shown.
pub open spec fn notices_from(notices: Vec<String>, next: int) -> (ServePrep, ServeAction) {
    if 0 <= next < notices.len() {
        (
            ServePrep::Notifying { notices, next: (next + 1) as usize },
            ServeAction::Info(notices@[next]),
        )
    } else {
        (ServePrep::Ready, ServeAction::Build)
    }
}

/// One step of the preparation: the state `s` and the event `e` give the
/// next state and the action that it waits on. Over the limit, the total is
/// shown, then the size of `file/` and of `git/` where they exist, then the
/// user is asked; a refusal stops the preparation (`Aborted`). Within the
/// limit, or once the user goes on, the index is loaded; a failed load stops
/// it with the loader's error (`LoadFailed`); the notices are shown in
/// order, and then the service is built. A failed size check or question
/// stops with its error. An event that does not answer what `s` waits on
/// changes nothing, and the same action is asked again.
pub open spec fn serve_transition(s: ServePrep, e: ServeEvent) -> (ServePrep, ServeAction) {
    let stay = (s, pending_action(s));
    match s {
        ServePrep::CheckingSize => match e {
            ServeEvent::WithinLimit => (ServePrep::Loading, ServeAction::Load),
            ServeEvent::OverLimit(size) => (
                ServePrep::WarningTotal {
                    total_bytes: size.total_bytes,
                    file_bytes: size.file_bytes,
                    git_bytes: size.git_bytes,
                },
                ServeAction::WarnTotal(size.total_bytes),
            ),
            ServeEvent::Error(m) => (
                ServePrep::Failed { failure: ServeFailure::Error(m) },
                ServeAction::Fail(ServeFailure::Error(m)),
            ),
            _ => stay,
        },
        ServePrep::WarningTotal { file_bytes, git_bytes, .. } => match e {
            ServeEvent::Shown => (
                ServePrep::CheckingFileDir { file_bytes, git_bytes },
                ServeAction::CheckDir(SourceIndexKind::File),
            ),
            _ => stay,
        },
        ServePrep::CheckingFileDir { file_bytes, git_bytes } => match e {
            ServeEvent::DirExists(true) => (
                ServePrep::WarningFileDir { file_bytes, git_bytes },
                ServeAction::WarnSubdir(SourceIndexKind::File, file_bytes),
            ),
            ServeEvent::DirExists(false) => (
                ServePrep::CheckingGitDir { git_bytes },
                ServeAction::CheckDir(SourceIndexKind::Git),
            ),
            _ => stay,
        },
        ServePrep::WarningFileDir { git_bytes, .. } => match e {
            ServeEvent::Shown => (
                ServePrep::CheckingGitDir { git_bytes },
                ServeAction::CheckDir(SourceIndexKind::Git),
            ),
            _ => stay,
        },
        ServePrep::CheckingGitDir { git_bytes } => match e {
            ServeEvent::DirExists(true) => (
                ServePrep::WarningGitDir { git_bytes },
                ServeAction::WarnSubdir(SourceIndexKind::Git, git_bytes),
            ),
            ServeEvent::DirExists(false) => (ServePrep::Confirming, ServeAction::Confirm),
            _ => stay,
        },
        ServePrep::WarningGitDir { .. } => match e {
            ServeEvent::Shown => (ServePrep::Confirming, ServeAction::Confirm),
            _ => stay,
        },
        ServePrep::Confirming => match e {
            ServeEvent::Answer(true) => (ServePrep::Loading, ServeAction::Load),
            ServeEvent::Answer(false) => (
                ServePrep::Failed { failure: ServeFailure::Aborted },
                ServeAction::Fail(ServeFailure::Aborted),
            ),
            ServeEvent::Error(m) => (
                ServePrep::Failed { failure: ServeFailure::Error(m) },
                ServeAction::Fail(ServeFailure::Error(m)),
            ),
            _ => stay,
        },
        ServePrep::Loading => match e {
            ServeEvent::Loaded(notices) => notices_from(notices, 0),
            ServeEvent::Error(m) => (
                ServePrep::Failed { failure: ServeFailure::LoadFailed(m) },
                ServeAction::Fail(ServeFailure::LoadFailed(m)),
            ),
            _ => stay,
        },
        ServePrep::Notifying { notices, next } => match e {
            ServeEvent::Shown => notices_from(notices, next as int),
            _ => stay,
        },
        ServePrep::Ready => stay,
        ServePrep::Failed { .. } => stay,
    }
}

/// Clones the failure `f`.
fn clone_failure(f: &ServeFailure) -> (r: ServeFailure)
    ensures
        r == *f,
{
    match f {
        ServeFailure::Aborted => ServeFailure::Aborted,
        ServeFailure::LoadFailed(e) => ServeFailure::LoadFailed(e.clone()),
        ServeFailure::Error(e) => ServeFailure::Error(e.clone()),
    }
}

/// The action that the state `s` waits on.
fn pending(s: &ServePrep) -> (a: ServeAction)
    ensures
        a == pending_action(*s),
{
    match s {
        ServePrep::CheckingSize => ServeAction::CheckSize,
        ServePrep::WarningTotal { total_bytes, .. } => ServeAction::WarnTotal(*total_bytes),
        ServePrep::CheckingFileDir { .. } => ServeAction::CheckDir(SourceIndexKind::File),
        ServePrep::WarningFileDir { file_bytes, .. } => ServeAction::WarnSubdir(
            SourceIndexKind::File,
            *file_bytes,
        ),
        ServePrep::CheckingGitDir { .. } => ServeAction::CheckDir(SourceIndexKind::Git),
        ServePrep::WarningGitDir { git_bytes } => ServeAction::WarnSubdir(
            SourceIndexKind::Git,
            *git_bytes,
        ),
        ServePrep::Confirming => ServeAction::Confirm,
        ServePrep::Loading => ServeAction::Load,
        ServePrep::Notifying { notices, next } => if 0 < *next && *next <= notices.len() {
            ServeAction::Info(notices[*next - 1].clone())
        } else {
            ServeAction::Build
        },
        ServePrep::Ready => ServeAction::Build,
        ServePrep::Failed { failure } => ServeAction::Fail(clone_failure(failure)),
    }
}

/// The notices `notices` from position `next` on.
fn next_notice(notices: Vec<String>, next: usize) -> (r: (ServePrep, ServeAction))
    ensures
        r == notices_from(notices, next as int),
{
    if next < notices.len() {
        let n = notices[next].clone();
        (ServePrep::Notifying { notices, next: next + 1 }, ServeAction::Info(n))
    } else {
        (ServePrep::Ready, ServeAction::Build)
    }
}

/// One step of the preparation (`serve_transition`).
pub fn serve_step(s: ServePrep, e: ServeEvent) -> (r: (ServePrep, ServeAction))
    ensures
        r == serve_transition(s, e),
{
    let stay = pending(&s);
    match s {
        ServePrep::CheckingSize => match e {
            ServeEvent::WithinLimit => (ServePrep::Loading, ServeAction::Load),
            ServeEvent::OverLimit(size) => (
                ServePrep::WarningTotal {
                    total_bytes: size.total_bytes,
                    file_bytes: size.file_bytes,
                    git_bytes: size.git_bytes,
                },
                ServeAction::WarnTotal(size.total_bytes),
            ),
            ServeEvent::Error(m) => {
                let m2 = m.clone();
                (
                    ServePrep::Failed { failure: ServeFailure::Error(m) },
                    ServeAction::Fail(ServeFailure::Error(m2)),
                )
            },
            _ => (ServePrep::CheckingSize, stay),
        },
        ServePrep::WarningTotal { total_bytes, file_bytes, git_bytes } => match e {
            ServeEvent::Shown => (
                ServePrep::CheckingFileDir { file_bytes, git_bytes },
                ServeAction::CheckDir(SourceIndexKind::File),
            ),
            _ => (ServePrep::WarningTotal { total_bytes, file_bytes, git_bytes }, stay),
        },
        ServePrep::CheckingFileDir { file_bytes, git_bytes } => match e {
            ServeEvent::DirExists(true) => (
                ServePrep::WarningFileDir { file_bytes, git_bytes },
                ServeAction::WarnSubdir(SourceIndexKind::File, file_bytes),
            ),
            ServeEvent::DirExists(false) => (
                ServePrep::CheckingGitDir { git_bytes },
                ServeAction::CheckDir(SourceIndexKind::Git),
            ),
            _ => (ServePrep::CheckingFileDir { file_bytes, git_bytes }, stay),
        },
        ServePrep::WarningFileDir { file_bytes, git_bytes } => match e {
            ServeEvent::Shown => (
                ServePrep::CheckingGitDir { git_bytes },
                ServeAction::CheckDir(SourceIndexKind::Git),
            ),
            _ => (ServePrep::WarningFileDir { file_bytes, git_bytes }, stay),
        },
        ServePrep::CheckingGitDir { git_bytes } => match e {
            ServeEvent::DirExists(true) => (
                ServePrep::WarningGitDir { git_bytes },
                ServeAction::WarnSubdir(SourceIndexKind::Git, git_bytes),
            ),
            ServeEvent::DirExists(false) => (ServePrep::Confirming, ServeAction::Confirm),
            _ => (ServePrep::CheckingGitDir { git_bytes }, stay),
        },
        ServePrep::WarningGitDir { git_bytes } => match e {
            ServeEvent::Shown => (ServePrep::Confirming, ServeAction::Confirm),
            _ => (ServePrep::WarningGitDir { git_bytes }, stay),
        },
        ServePrep::Confirming => match e {
            ServeEvent::Answer(true) => (ServePrep::Loading, ServeAction::Load),
            ServeEvent::Answer(false) => (
                ServePrep::Failed { failure: ServeFailure::Aborted },
                ServeAction::Fail(ServeFailure::Aborted),
            ),
            ServeEvent::Error(m) => {
                let m2 = m.clone();
                (
                    ServePrep::Failed { failure: ServeFailure::Error(m) },
                    ServeAction::Fail(ServeFailure::Error(m2)),
                )
            },
            _ => (ServePrep::Confirming, stay),
        },
        ServePrep::Loading => match e {
            ServeEvent::Loaded(notices) => next_notice(notices, 0),
            ServeEvent::Error(m) => {
                let m2 = m.clone();
                (
                    ServePrep::Failed { failure: ServeFailure::LoadFailed(m) },
                    ServeAction::Fail(ServeFailure::LoadFailed(m2)),
                )
            },
            _ => (ServePrep::Loading, stay),
        },
        ServePrep::Notifying { notices, next } => match e {
            ServeEvent::Shown => next_notice(notices, next),
            _ => (ServePrep::Notifying { notices, next }, stay),
        },
        ServePrep::Ready => (ServePrep::Ready, stay),
        ServePrep::Failed { failure } => (ServePrep::Failed { failure }, stay),
    }
}

/// Once the preparation has stopped, with a failure or ready to build, no
/// event moves it on: it keeps asking for the same last action.
pub proof fn law_stop_is_final(s: ServePrep, e: ServeEvent)
    requires
        s is Failed || s is Ready,
    ensures
        serve_transition(s, e) == (s, pending_action(s)),
{
}

/// The index has been asked to load: the preparation waits for the load,
/// shows its notices, or is ready to build.
pub open spec fn load_requested(s: ServePrep) -> bool {
    s is Loading || s is Notifying || s is Ready
}

/// The state after the events `es`, one after the other, from `s`.
pub open spec fn serve_run(s: ServePrep, es: Seq<ServeEvent>) -> ServePrep
    decreases es.len(),
{
    if es.len() == 0 {
        s
    } else {
        serve_transition(serve_run(s, es.drop_last()), es.last()).0
    }
}

/// The index is asked to load only when the size check finds it within
/// its limit, or when the user answers yes to the question.
pub proof fn law_load_needs_yes(s: ServePrep, e: ServeEvent)
    requires
        !load_requested(s),
        load_requested(serve_transition(s, e).0),
    ensures
        (s is CheckingSize && e is WithinLimit) || (s is Confirming && e == ServeEvent::Answer(true)),
{
}

/// The size check comes first: no step leads back to it.
pub proof fn law_size_check_first(s: ServePrep, e: ServeEvent)
    requires
        serve_transition(s, e).0 is CheckingSize,
    ensures
        s is CheckingSize,
{
}

/// The states of a run after its first `n` events, from the size check
/// that found the index over its limit: never the size check again, and
/// the load only after a yes to the question.
proof fn lemma_run_over_limit(es: Seq<ServeEvent>, n: int)
    requires
        1 <= n <= es.len(),
        es[0] is OverLimit,
    ensures
        !(serve_run(ServePrep::CheckingSize, es.take(n)) is CheckingSize),
        load_requested(serve_run(ServePrep::CheckingSize, es.take(n))) ==> exists|k: int|
            1 <= k < n && serve_run(ServePrep::CheckingSize, es.take(k)) is Confirming && #[trigger] es[k]
                == ServeEvent::Answer(true),
    decreases n,
{
    let s0 = ServePrep::CheckingSize;
    assert(es.take(n).drop_last() =~= es.take(n - 1));
    assert(es.take(n).last() == es[n - 1]);
    let prev = serve_run(s0, es.take(n - 1));
    let cur = serve_run(s0, es.take(n));
    assert(cur == serve_transition(prev, es[n - 1]).0);
    if n == 1 {
        assert(es.take(0) =~= Seq::<ServeEvent>::empty());
        assert(prev == s0);
    } else {
        lemma_run_over_limit(es, n - 1);
        if cur is CheckingSize {
            law_size_check_first(prev, es[n - 1]);
        }
        if load_requested(cur) && !load_requested(prev) {
            law_load_needs_yes(prev, es[n - 1]);
            assert(serve_run(s0, es.take(n - 1)) is Confirming && es[n - 1] == ServeEvent::Answer(
                true,
            ));
        }
    }
}

/// Over its size limit, the index is loaded only after the user answered
/// yes: every run from the size check that found the index over its limit
/// and that asks for the load passed through the question, answered yes.
pub proof fn law_over_limit_asks_before_loading(es: Seq<ServeEvent>)
    requires
        es.len() > 0,
        es[0] is OverLimit,
        load_requested(serve_run(ServePrep::CheckingSize, es)),
    ensures
        exists|k: int|
            1 <= k < es.len() && serve_run(ServePrep::CheckingSize, es.take(k)) is Confirming
                && #[trigger] es[k] == ServeEvent::Answer(true),
{
    assert(es.take(es.len() as int) =~= es);
    lemma_run_over_limit(es, es.len() as int);
}

/// A no to the question stops the preparation for good: after it, no run
/// of events asks for the load.
pub proof fn law_no_stops_for_good(s: ServePrep, es: Seq<ServeEvent>)
    requires
        s is Confirming,
    ensures
        serve_run(serve_transition(s, ServeEvent::Answer(false)).0, es) == (ServePrep::Failed {
            failure: ServeFailure::Aborted,
        }),
    decreases es.len(),
{
    if es.len() > 0 {
        law_no_stops_for_good(s, es.drop_last());
    }
}

/// The events with which a caller answers an index over its limit: the
/// total was shown, `file/` exists when `file_exists` (and its size was
/// shown), `git/` exists when `git_exists` (and its size was shown).
pub open spec fn over_limit_answers(size: IndexSize, file_exists: bool, git_exists: bool) -> Seq<
    ServeEvent,
> {
    seq![ServeEvent::OverLimit(size), ServeEvent::Shown, ServeEvent::DirExists(file_exists)] + (if file_exists {
        seq![ServeEvent::Shown]
    } else {
        Seq::empty()
    }) + seq![ServeEvent::DirExists(git_exists)] + (if git_exists {
        seq![ServeEvent::Shown]
    } else {
        Seq::empty()
    })
}

/// The state after one more event.
proof fn lemma_run_push(s: ServePrep, es: Seq<ServeEvent>, e: ServeEvent)
    ensures
        serve_run(s, es.push(e)) == serve_transition(serve_run(s, es), e).0,
{
    assert(es.push(e).drop_last() =~= es);
}

/// Over the limit, the caller is shown the total, then the size of each
/// sub-directory that exists and of no other, and then asked whether to go
/// on, whichever sub-directories exist.
pub proof fn law_over_limit_warns_then_asks(size: IndexSize, file_exists: bool, git_exists: bool)
    ensures
        ({
            let es = over_limit_answers(size, file_exists, git_exists);
            let s0 = ServePrep::CheckingSize;
            &&& pending_action(serve_run(s0, es.take(1))) == ServeAction::WarnTotal(size.total_bytes)
            &&& pending_action(serve_run(s0, es.take(3))) == if file_exists {
                ServeAction::WarnSubdir(SourceIndexKind::File, size.file_bytes)
            } else {
                ServeAction::CheckDir(SourceIndexKind::Git)
            }
            &&& git_exists ==> pending_action(serve_run(s0, es.take(es.len() - 1)))
                == ServeAction::WarnSubdir(SourceIndexKind::Git, size.git_bytes)
            &&& serve_run(s0, es) is Confirming
            &&& pending_action(serve_run(s0, es)) == ServeAction::Confirm
        }),
{
    let es = over_limit_answers(size, file_exists, git_exists);
    let s0 = ServePrep::CheckingSize;
    let e0 = Seq::<ServeEvent>::empty();
    assert(serve_run(s0, e0) == s0);
    let a1 = es.take(1);
    assert(a1 =~= e0.push(es[0]));
    lemma_run_push(s0, e0, es[0]);
    let a2 = es.take(2);
    assert(a2 =~= a1.push(es[1]));
    lemma_run_push(s0, a1, es[1]);
    let a3 = es.take(3);
    assert(a3 =~= a2.push(es[2]));
    lemma_run_push(s0, a2, es[2]);
    let w2 = ServePrep::CheckingGitDir { git_bytes: size.git_bytes };
    let mut n: int = 3;
    if file_exists {
        assert(es[3] == ServeEvent::Shown);
        assert(es.take(4) =~= a3.push(es[3]));
        lemma_run_push(s0, a3, es[3]);
        n = 4;
    }
    assert(serve_run(s0, es.take(n)) == w2);
    assert(es[n] == ServeEvent::DirExists(git_exists));
    assert(es.take(n + 1) =~= es.take(n).push(es[n]));
    lemma_run_push(s0, es.take(n), es[n]);
    if git_exists {
        assert(es.len() == n + 2);
        assert(es[n + 1] == ServeEvent::Shown);
        assert(es.take(n + 2) =~= es.take(n + 1).push(es[n + 1]));
        lemma_run_push(s0, es.take(n + 1), es[n + 1]);
        assert(es.take(n + 2) =~= es);
    } else {
        assert(es.len() == n + 1);
        assert(es.take(n + 1) =~= es);
    }
}

} // verus!
