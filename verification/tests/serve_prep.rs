use docent::index::SourceIndexKind;
use docent::serve_prep::{serve_step, IndexSize, ServeAction, ServeEvent, ServeFailure, ServePrep};

#[test]
fn within_limit_loads_and_builds() {
    let (s, a) = serve_step(ServePrep::CheckingSize, ServeEvent::WithinLimit);
    assert!(matches!(a, ServeAction::Load));
    let (s, a) = serve_step(s, ServeEvent::Loaded(vec![]));
    assert!(matches!(a, ServeAction::Build));
    assert!(matches!(s, ServePrep::Ready));
}

#[test]
fn over_limit_warns_for_existing_subdirectories_and_asks() {
    let size = IndexSize { total_bytes: 3_000_000, file_bytes: 1_000_000, git_bytes: 2_000_000 };
    let (s, a) = serve_step(ServePrep::CheckingSize, ServeEvent::OverLimit(size));
    assert!(matches!(a, ServeAction::WarnTotal(3_000_000)));
    let (s, a) = serve_step(s, ServeEvent::Shown);
    assert!(matches!(a, ServeAction::CheckDir(SourceIndexKind::File)));
    let (s, a) = serve_step(s, ServeEvent::DirExists(true));
    assert!(matches!(a, ServeAction::WarnSubdir(SourceIndexKind::File, 1_000_000)));
    let (s, a) = serve_step(s, ServeEvent::Shown);
    assert!(matches!(a, ServeAction::CheckDir(SourceIndexKind::Git)));
    let (s, a) = serve_step(s, ServeEvent::DirExists(false));
    assert!(matches!(a, ServeAction::Confirm));
    let (s, a) = serve_step(s, ServeEvent::Answer(true));
    assert!(matches!(a, ServeAction::Load));
    let (s, a) = serve_step(s, ServeEvent::Loaded(vec!["first".to_string(), "second".to_string()]));
    assert!(matches!(a, ServeAction::Info(ref n) if n == "first"));
    let (s, a) = serve_step(s, ServeEvent::Shown);
    assert!(matches!(a, ServeAction::Info(ref n) if n == "second"));
    let (s, a) = serve_step(s, ServeEvent::Shown);
    assert!(matches!(a, ServeAction::Build));
    assert!(matches!(s, ServePrep::Ready));
}

#[test]
fn refusing_to_continue_aborts() {
    let (s, a) = serve_step(ServePrep::Confirming, ServeEvent::Answer(false));
    match a {
        ServeAction::Fail(f) => assert_eq!(f.message(), "Aborted by user."),
        _ => panic!("expected a failure"),
    }
    // Nothing moves a stopped preparation on.
    let (_, a) = serve_step(s, ServeEvent::Loaded(vec![]));
    assert!(matches!(a, ServeAction::Fail(ServeFailure::Aborted)));
}

#[test]
fn failed_load_reports_the_loader_error() {
    let (_, a) = serve_step(ServePrep::Loading, ServeEvent::Error("no header".to_string()));
    match a {
        ServeAction::Fail(f) => assert_eq!(f.message(), "Failed to load merged index: no header"),
        _ => panic!("expected a failure"),
    }
}

#[test]
fn failed_size_check_reports_its_error() {
    let (_, a) = serve_step(ServePrep::CheckingSize, ServeEvent::Error("io".to_string()));
    match a {
        ServeAction::Fail(f) => assert_eq!(f.message(), "io"),
        _ => panic!("expected a failure"),
    }
}

#[test]
fn an_unexpected_event_asks_again() {
    let (s, a) = serve_step(ServePrep::Confirming, ServeEvent::Shown);
    assert!(matches!(s, ServePrep::Confirming));
    assert!(matches!(a, ServeAction::Confirm));
}
