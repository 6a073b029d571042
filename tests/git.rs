use fstree::git::{git_to_file_status, FileStatus, GitRepoStatus};

#[test]
fn status_tags() {
    assert_eq!(FileStatus::Modified.get_char(), 'M');
    assert_eq!(FileStatus::New.get_char(), 'A');
    assert_eq!(FileStatus::Deleted.get_char(), 'D');
    assert_eq!(FileStatus::Renamed.get_char(), 'R');
    assert_eq!(FileStatus::Typechange.get_char(), 'T');
    assert_eq!(FileStatus::Untracked.get_char(), '?');
    assert_eq!(FileStatus::Conflicted.get_char(), 'C');
}

#[test]
fn status_words() {
    assert_eq!(git_to_file_status(0), None);
    assert_eq!(git_to_file_status(1), Some(FileStatus::New));
    assert_eq!(git_to_file_status(1 << 7), Some(FileStatus::Untracked));
    assert_eq!(git_to_file_status(1 << 8), Some(FileStatus::Modified));
    assert_eq!(git_to_file_status((1 << 15) | 1), Some(FileStatus::Conflicted));
    assert_eq!(git_to_file_status(2 | (1 << 9)), Some(FileStatus::Modified));
    assert_eq!(git_to_file_status(1 << 11), Some(FileStatus::Renamed));
    assert_eq!(git_to_file_status(1 << 14), None);
}

#[test]
fn status_lookup_by_relative_path() {
    let repo = GitRepoStatus {
        cache: vec![("a.txt".to_string(), FileStatus::New), ("dir/b.txt".to_string(), FileStatus::Modified)],
        root: "/repo".to_string(),
    };
    assert_eq!(repo.status_for(&"dir/b.txt".to_string()), Some(FileStatus::Modified));
    assert_eq!(repo.status_for(&"c.txt".to_string()), None);
}
