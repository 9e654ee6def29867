use docent::paths::{input_root, PathError};

#[test]
fn input_root_of_a_directory_is_the_directory() {
    let r = input_root("/tmp/docent_test_fs_dir_self", false);
    assert_eq!(r.unwrap(), "/tmp/docent_test_fs_dir_self");
}

#[test]
fn input_root_of_a_file_is_its_parent() {
    let r = input_root("/tmp/docent_test_fs_file_parent/test.md", true);
    assert_eq!(r.unwrap(), "/tmp/docent_test_fs_file_parent");
}

#[test]
fn input_root_of_a_file_at_the_top_is_the_root() {
    let r = input_root("/test.md", true);
    assert_eq!(r.unwrap(), "/");
}

#[test]
fn input_root_of_the_root_as_a_file_has_no_parent() {
    match input_root("/", true) {
        Err(e) => {
            assert!(matches!(e, PathError::NoParent(ref p) if p == "/"));
            assert_eq!(e.message(), "Cannot determine parent of /");
        }
        Ok(r) => panic!("expected an error, got {}", r),
    }
}

#[test]
fn missing_repo_path_message_says_it_does_not_exist() {
    let e = PathError::Missing("/nonexistent/repo/path".to_string());
    let msg = e.message();
    assert!(msg.contains("does not exist"));
    assert_eq!(msg, "path '/nonexistent/repo/path' does not exist");
}
