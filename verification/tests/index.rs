use docent::index::{index_run_next, sources_to_index, IndexRunStep, SourceIndexKind};

#[test]
fn source_index_kinds_have_their_own_subdirectories() {
    assert_eq!(SourceIndexKind::File.subdir(), "file");
    assert_eq!(SourceIndexKind::Git.subdir(), "git");
}

#[test]
fn index_run_skips_both_when_file_disabled_and_git_absent() {
    assert!(sources_to_index(Some(false), None).is_empty());
}

#[test]
fn index_run_covers_files_by_default() {
    assert_eq!(sources_to_index(None, None), vec![SourceIndexKind::File]);
}

#[test]
fn index_run_covers_git_only_when_enabled() {
    assert_eq!(sources_to_index(None, Some(false)), vec![SourceIndexKind::File]);
    assert_eq!(
        sources_to_index(Some(true), Some(true)),
        vec![SourceIndexKind::File, SourceIndexKind::Git]
    );
    assert_eq!(sources_to_index(Some(false), Some(true)), vec![SourceIndexKind::Git]);
}

#[test]
fn index_run_stops_at_the_first_failure() {
    let plan = sources_to_index(Some(true), Some(true));
    assert!(matches!(index_run_next(&plan, 0, Ok(())), IndexRunStep::Run(SourceIndexKind::File)));
    assert!(matches!(index_run_next(&plan, 1, Ok(())), IndexRunStep::Run(SourceIndexKind::Git)));
    assert!(matches!(index_run_next(&plan, 2, Ok(())), IndexRunStep::Finished));
    match index_run_next(&plan, 1, Err("file workflow failed".to_string())) {
        IndexRunStep::Failed(e) => assert_eq!(e, "file workflow failed"),
        _ => panic!("expected the run to stop"),
    }
}
