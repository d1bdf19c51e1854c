use rqbit_core::file_filter::{compute_only_files, select_matching, OnlyFilesError};

fn names(v: &[&str]) -> Vec<String> {
    v.iter().map(|s| s.to_string()).collect()
}

#[test]
fn regex_selects_matching_files() {
    let files = names(&["movie/a.mkv", "movie/a.srt", "movie/sample.mkv", "readme.txt"]);
    assert_eq!(compute_only_files(&files, r"\.mkv$"), Ok(vec![0, 2]));
    assert_eq!(compute_only_files(&files, "readme"), Ok(vec![3]));
}

#[test]
fn regex_errors() {
    let files = names(&["a.txt"]);
    assert_eq!(compute_only_files(&files, "("), Err(OnlyFilesError::BadRegex));
    assert_eq!(compute_only_files(&files, "zzz"), Err(OnlyFilesError::NoMatch));
    assert_eq!(compute_only_files(&vec![], ".*"), Err(OnlyFilesError::NoMatch));
}

#[test]
fn selection_from_matches() {
    assert_eq!(select_matching(&vec![false, true, true]), Ok(vec![1, 2]));
    assert_eq!(select_matching(&vec![false]), Err(OnlyFilesError::NoMatch));
}
