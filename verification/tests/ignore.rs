use cvvc::helpers::MapOfVecs;
use cvvc::ignore::{IgnoreInfo, IgnorePattern};

#[test]
fn matches_file_excluded_literally_in_root_dir() {
    let test_pattern = IgnorePattern::from_str("test").unwrap();
    let mut scoped_map = MapOfVecs::<IgnorePattern>::new();
    scoped_map.insert_missing("", vec![test_pattern]);
    let test_info = IgnoreInfo::new(Vec::<IgnorePattern>::new(), scoped_map);
    let test_path = "test";

    let result = test_info.check_scoped(test_path);

    assert!(result.is_some());
    assert!(result.unwrap());
}

#[test]
fn matches_file_included_literally_in_root_dir() {
    let test_pattern = IgnorePattern::from_str("!test").unwrap();
    let mut scoped_map = MapOfVecs::<IgnorePattern>::new();
    scoped_map.insert_missing("", vec![test_pattern]);
    let test_info = IgnoreInfo::new(Vec::<IgnorePattern>::new(), scoped_map);
    let test_path = "test";

    let result = test_info.check_scoped(test_path);

    assert!(result.is_some());
    assert!(!result.unwrap());
}

#[test]
fn matches_file_in_first_subdir_excluded_literally_in_root_dir() {
    let test_pattern = IgnorePattern::from_str("test").unwrap();
    let mut scoped_map = MapOfVecs::<IgnorePattern>::new();
    scoped_map.insert_missing("", vec![test_pattern]);
    let test_info = IgnoreInfo::new(Vec::<IgnorePattern>::new(), scoped_map);
    let test_path = "a/test";

    let result = test_info.check_scoped(test_path);

    assert!(result.is_some());
    assert!(result.unwrap());
}

#[test]
fn matches_file_in_first_subdir_included_literally_in_root_dir() {
    let test_pattern = IgnorePattern::from_str("!test").unwrap();
    let mut scoped_map = MapOfVecs::<IgnorePattern>::new();
    scoped_map.insert_missing("", vec![test_pattern]);
    let test_info = IgnoreInfo::new(Vec::<IgnorePattern>::new(), scoped_map);
    let test_path = "a/test";

    let result = test_info.check_scoped(test_path);

    assert!(result.is_some());
    assert!(!result.unwrap());
}

#[test]
fn matches_file_in_deeper_subdir_excluded_literally_in_root_dir() {
    let test_pattern = IgnorePattern::from_str("test").unwrap();
    let mut scoped_map = MapOfVecs::<IgnorePattern>::new();
    scoped_map.insert_missing("", vec![test_pattern]);
    let test_info = IgnoreInfo::new(Vec::<IgnorePattern>::new(), scoped_map);
    let test_path = "a/b/c/d/test";

    let result = test_info.check_scoped(test_path);

    assert!(result.is_some());
    assert!(result.unwrap());
}

#[test]
fn matches_file_in_deeper_subdir_included_literally_in_root_dir() {
    let test_pattern = IgnorePattern::from_str("!test").unwrap();
    let mut scoped_map = MapOfVecs::<IgnorePattern>::new();
    scoped_map.insert_missing("", vec![test_pattern]);
    let test_info = IgnoreInfo::new(Vec::<IgnorePattern>::new(), scoped_map);
    let test_path = "a/b/c/d/test";

    let result = test_info.check_scoped(test_path);

    assert!(result.is_some());
    assert!(!result.unwrap());
}

#[test]
fn matches_file_with_parent_excluded_literally_in_root_dir() {
    let test_pattern = IgnorePattern::from_str("test").unwrap();
    let mut scoped_map = MapOfVecs::<IgnorePattern>::new();
    scoped_map.insert_missing("", vec![test_pattern]);
    let test_info = IgnoreInfo::new(Vec::<IgnorePattern>::new(), scoped_map);
    let test_path = "test/a";

    let result = test_info.check_scoped(test_path);

    assert!(result.is_some());
    assert!(result.unwrap());
}

#[test]
fn matches_file_with_parent_included_literally_in_root_dir() {
    let test_pattern = IgnorePattern::from_str("!test").unwrap();
    let mut scoped_map = MapOfVecs::<IgnorePattern>::new();
    scoped_map.insert_missing("", vec![test_pattern]);
    let test_info = IgnoreInfo::new(Vec::<IgnorePattern>::new(), scoped_map);
    let test_path = "test/a";

    let result = test_info.check_scoped(test_path);

    assert!(result.is_some());
    assert!(!result.unwrap());
}

#[test]
fn matches_file_with_deep_parent_excluded_literally_in_root_dir() {
    let test_pattern = IgnorePattern::from_str("test").unwrap();
    let mut scoped_map = MapOfVecs::<IgnorePattern>::new();
    scoped_map.insert_missing("", vec![test_pattern]);
    let test_info = IgnoreInfo::new(Vec::<IgnorePattern>::new(), scoped_map);
    let test_path = "a/test/a";

    let result = test_info.check_scoped(test_path);

    assert!(result.is_some());
    assert!(result.unwrap());
}

#[test]
fn matches_file_excluded_literally_in_sub_dir() {
    let test_pattern = IgnorePattern::from_str("test").unwrap();
    let mut scoped_map = MapOfVecs::<IgnorePattern>::new();
    scoped_map.insert_missing("sub", vec![test_pattern]);
    let test_info = IgnoreInfo::new(Vec::<IgnorePattern>::new(), scoped_map);
    let test_path = "sub/test";

    let result = test_info.check_scoped(test_path);

    assert!(result.is_some());
    assert!(result.unwrap());
}

#[test]
fn matches_file_included_literally_in_sub_dir() {
    let test_pattern = IgnorePattern::from_str("!test").unwrap();
    let mut scoped_map = MapOfVecs::<IgnorePattern>::new();
    scoped_map.insert_missing("sub", vec![test_pattern]);
    let test_info = IgnoreInfo::new(Vec::<IgnorePattern>::new(), scoped_map);
    let test_path = "sub/test";

    let result = test_info.check_scoped(test_path);

    assert!(result.is_some());
    assert!(!result.unwrap());
}

#[test]
fn matches_file_in_first_subdir_excluded_literally_in_sub_dir() {
    let test_pattern = IgnorePattern::from_str("test").unwrap();
    let mut scoped_map = MapOfVecs::<IgnorePattern>::new();
    scoped_map.insert_missing("sub", vec![test_pattern]);
    let test_info = IgnoreInfo::new(Vec::<IgnorePattern>::new(), scoped_map);
    let test_path = "sub/a/test";

    let result = test_info.check_scoped(test_path);

    assert!(result.is_some());
    assert!(result.unwrap());
}

#[test]
fn matches_file_in_first_subdir_included_literally_in_sub_dir() {
    let test_pattern = IgnorePattern::from_str("!test").unwrap();
    let mut scoped_map = MapOfVecs::<IgnorePattern>::new();
    scoped_map.insert_missing("sub", vec![test_pattern]);
    let test_info = IgnoreInfo::new(Vec::<IgnorePattern>::new(), scoped_map);
    let test_path = "sub/a/test";

    let result = test_info.check_scoped(test_path);

    assert!(result.is_some());
    assert!(!result.unwrap());
}

#[test]
fn matches_file_in_deeper_subdir_excluded_literally_in_sub_dir() {
    let test_pattern = IgnorePattern::from_str("test").unwrap();
    let mut scoped_map = MapOfVecs::<IgnorePattern>::new();
    scoped_map.insert_missing("sub", vec![test_pattern]);
    let test_info = IgnoreInfo::new(Vec::<IgnorePattern>::new(), scoped_map);
    let test_path = "sub/a/b/c/d/test";

    let result = test_info.check_scoped(test_path);

    assert!(result.is_some());
    assert!(result.unwrap());
}

#[test]
fn matches_file_in_deeper_subdir_included_literally_in_sub_dir() {
    let test_pattern = IgnorePattern::from_str("!test").unwrap();
    let mut scoped_map = MapOfVecs::<IgnorePattern>::new();
    scoped_map.insert_missing("sub", vec![test_pattern]);
    let test_info = IgnoreInfo::new(Vec::<IgnorePattern>::new(), scoped_map);
    let test_path = "sub/a/b/c/d/test";

    let result = test_info.check_scoped(test_path);

    assert!(result.is_some());
    assert!(!result.unwrap());
}

#[test]
fn matches_file_with_parent_excluded_literally_in_sub_dir() {
    let test_pattern = IgnorePattern::from_str("test").unwrap();
    let mut scoped_map = MapOfVecs::<IgnorePattern>::new();
    scoped_map.insert_missing("sub", vec![test_pattern]);
    let test_info = IgnoreInfo::new(Vec::<IgnorePattern>::new(), scoped_map);
    let test_path = "sub/test/a";

    let result = test_info.check_scoped(test_path);

    assert!(result.is_some());
    assert!(result.unwrap());
}

#[test]
fn matches_file_with_parent_included_literally_in_sub_dir() {
    let test_pattern = IgnorePattern::from_str("!test").unwrap();
    let mut scoped_map = MapOfVecs::<IgnorePattern>::new();
    scoped_map.insert_missing("sub", vec![test_pattern]);
    let test_info = IgnoreInfo::new(Vec::<IgnorePattern>::new(), scoped_map);
    let test_path = "sub/test/a";

    let result = test_info.check_scoped(test_path);

    assert!(result.is_some());
    assert!(!result.unwrap());
}

#[test]
fn matches_file_with_deep_parent_excluded_literally_in_sub_dir() {
    let test_pattern = IgnorePattern::from_str("test").unwrap();
    let mut scoped_map = MapOfVecs::<IgnorePattern>::new();
    scoped_map.insert_missing("sub", vec![test_pattern]);
    let test_info = IgnoreInfo::new(Vec::<IgnorePattern>::new(), scoped_map);
    let test_path = "sub/a/test/a";

    let result = test_info.check_scoped(test_path);

    assert!(result.is_some());
    assert!(result.unwrap());
}

#[test]
fn does_not_match_file_in_root_dir_excluded_literally_in_sub_dir() {
    let test_pattern = IgnorePattern::from_str("test").unwrap();
    let mut scoped_map = MapOfVecs::<IgnorePattern>::new();
    scoped_map.insert_missing("sub", vec![test_pattern]);
    let test_info = IgnoreInfo::new(Vec::<IgnorePattern>::new(), scoped_map);
    let test_path = "test";

    let result = test_info.check_scoped(test_path);

    assert!(result.is_none());
}

#[test]
fn does_not_match_file_in_root_dir_included_literally_in_sub_dir() {
    let test_pattern = IgnorePattern::from_str("!test").unwrap();
    let mut scoped_map = MapOfVecs::<IgnorePattern>::new();
    scoped_map.insert_missing("sub", vec![test_pattern]);
    let test_info = IgnoreInfo::new(Vec::<IgnorePattern>::new(), scoped_map);
    let test_path = "test";

    let result = test_info.check_scoped(test_path);

    assert!(result.is_none());
}

#[test]
fn matches_file_excluded_in_root_dir_by_relative_path() {
    let test_pattern = IgnorePattern::from_str("te/st").unwrap();
    let mut scoped_map = MapOfVecs::<IgnorePattern>::new();
    scoped_map.insert_missing("", vec![test_pattern]);
    let test_info = IgnoreInfo::new(Vec::<IgnorePattern>::new(), scoped_map);
    let test_path = "te/st";

    let result = test_info.check_scoped(test_path);

    assert!(result.is_some());
    assert!(result.unwrap());
}

#[test]
fn matches_file_included_in_root_dir_by_relative_path() {
    let test_pattern = IgnorePattern::from_str("!te/st").unwrap();
    let mut scoped_map = MapOfVecs::<IgnorePattern>::new();
    scoped_map.insert_missing("", vec![test_pattern]);
    let test_info = IgnoreInfo::new(Vec::<IgnorePattern>::new(), scoped_map);
    let test_path = "te/st";

    let result = test_info.check_scoped(test_path);

    assert!(result.is_some());
    assert!(!result.unwrap());
}

#[test]
fn matches_file_parent_excluded_in_root_dir_by_relative_path() {
    let test_pattern = IgnorePattern::from_str("te/st").unwrap();
    let mut scoped_map = MapOfVecs::<IgnorePattern>::new();
    scoped_map.insert_missing("", vec![test_pattern]);
    let test_info = IgnoreInfo::new(Vec::<IgnorePattern>::new(), scoped_map);
    let test_path = "te/st/file";

    let result = test_info.check_scoped(test_path);

    assert!(result.is_some());
    assert!(result.unwrap());
}

#[test]
fn matches_file_parent_included_in_root_dir_by_relative_path() {
    let test_pattern = IgnorePattern::from_str("!te/st").unwrap();
    let mut scoped_map = MapOfVecs::<IgnorePattern>::new();
    scoped_map.insert_missing("", vec![test_pattern]);
    let test_info = IgnoreInfo::new(Vec::<IgnorePattern>::new(), scoped_map);
    let test_path = "te/st/file";

    let result = test_info.check_scoped(test_path);

    assert!(result.is_some());
    assert!(!result.unwrap());
}

#[test]
fn does_not_match_file_in_subdir_with_relative_path() {
    let test_pattern = IgnorePattern::from_str("te/st").unwrap();
    let mut scoped_map = MapOfVecs::<IgnorePattern>::new();
    scoped_map.insert_missing("", vec![test_pattern]);
    let test_info = IgnoreInfo::new(Vec::<IgnorePattern>::new(), scoped_map);
    let test_path = "sub/te/st";

    let result = test_info.check_scoped(test_path);

    assert!(result.is_none());
}

#[test]
fn matches_file_excluded_in_root_dir_by_relative_path_starting_with_slash() {
    let test_pattern = IgnorePattern::from_str("/test").unwrap();
    let mut scoped_map = MapOfVecs::<IgnorePattern>::new();
    scoped_map.insert_missing("", vec![test_pattern]);
    let test_info = IgnoreInfo::new(Vec::<IgnorePattern>::new(), scoped_map);
    let test_path = "test";

    let result = test_info.check_scoped(test_path);

    assert!(result.is_some());
    assert!(result.unwrap());
}

#[test]
fn matches_file_included_in_root_dir_by_relative_path_starting_with_slash() {
    let test_pattern = IgnorePattern::from_str("!/test").unwrap();
    let mut scoped_map = MapOfVecs::<IgnorePattern>::new();
    scoped_map.insert_missing("", vec![test_pattern]);
    let test_info = IgnoreInfo::new(Vec::<IgnorePattern>::new(), scoped_map);
    let test_path = "test";

    let result = test_info.check_scoped(test_path);

    assert!(result.is_some());
    assert!(!result.unwrap());
}

#[test]
fn matches_file_parent_excluded_in_root_dir_by_relative_path_starting_with_slash() {
    let test_pattern = IgnorePattern::from_str("/test").unwrap();
    let mut scoped_map = MapOfVecs::<IgnorePattern>::new();
    scoped_map.insert_missing("", vec![test_pattern]);
    let test_info = IgnoreInfo::new(Vec::<IgnorePattern>::new(), scoped_map);
    let test_path = "test/file";

    let result = test_info.check_scoped(test_path);

    assert!(result.is_some());
    assert!(result.unwrap());
}

#[test]
fn matches_file_parent_included_in_root_dir_by_relative_path_starting_with_slash() {
    let test_pattern = IgnorePattern::from_str("!test").unwrap();
    let mut scoped_map = MapOfVecs::<IgnorePattern>::new();
    scoped_map.insert_missing("", vec![test_pattern]);
    let test_info = IgnoreInfo::new(Vec::<IgnorePattern>::new(), scoped_map);
    let test_path = "test/file";

    let result = test_info.check_scoped(test_path);

    assert!(result.is_some());
    assert!(!result.unwrap());
}

#[test]
fn does_not_match_file_in_subdir_with_relative_path_starting_with_slash() {
    let test_pattern = IgnorePattern::from_str("/test").unwrap();
    let mut scoped_map = MapOfVecs::<IgnorePattern>::new();
    scoped_map.insert_missing("", vec![test_pattern]);
    let test_info = IgnoreInfo::new(Vec::<IgnorePattern>::new(), scoped_map);
    let test_path = "sub/test";

    let result = test_info.check_scoped(test_path);

    assert!(result.is_none());
}

#[test]
fn matches_dir_excluded_literally_in_root_dir() {
    let test_pattern = IgnorePattern::from_str("test/").unwrap();
    let mut scoped_map = MapOfVecs::<IgnorePattern>::new();
    scoped_map.insert_missing("", vec![test_pattern]);
    let test_info = IgnoreInfo::new(Vec::<IgnorePattern>::new(), scoped_map);
    let test_path = "test/";

    let result = test_info.check_scoped(test_path);

    assert!(result.is_some());
    assert!(result.unwrap());
}

#[test]
fn matches_dir_included_literally_in_root_dir() {
    let test_pattern = IgnorePattern::from_str("!test/").unwrap();
    let mut scoped_map = MapOfVecs::<IgnorePattern>::new();
    scoped_map.insert_missing("", vec![test_pattern]);
    let test_info = IgnoreInfo::new(Vec::<IgnorePattern>::new(), scoped_map);
    let test_path = "test/";

    let result = test_info.check_scoped(test_path);

    assert!(result.is_some());
    assert!(!result.unwrap());
}

#[test]
fn does_not_match_file_when_dir_with_same_name_is_excluded_literally_in_root_dir() {
    let test_pattern = IgnorePattern::from_str("test/").unwrap();
    let mut scoped_map = MapOfVecs::<IgnorePattern>::new();
    scoped_map.insert_missing("", vec![test_pattern]);
    let test_info = IgnoreInfo::new(Vec::<IgnorePattern>::new(), scoped_map);
    let test_path = "test";

    let result = test_info.check_scoped(test_path);

    assert!(result.is_none());
}

#[test]
fn does_not_match_file_when_dir_with_same_name_is_included_literally_in_root_dir() {
    let test_pattern = IgnorePattern::from_str("!test/").unwrap();
    let mut scoped_map = MapOfVecs::<IgnorePattern>::new();
    scoped_map.insert_missing("", vec![test_pattern]);
    let test_info = IgnoreInfo::new(Vec::<IgnorePattern>::new(), scoped_map);
    let test_path = "test";

    let result = test_info.check_scoped(test_path);

    assert!(result.is_none());
}

#[test]
fn matches_dir_in_sub_dir_excluded_literally_in_root_dir() {
    let test_pattern = IgnorePattern::from_str("test/").unwrap();
    let mut scoped_map = MapOfVecs::<IgnorePattern>::new();
    scoped_map.insert_missing("", vec![test_pattern]);
    let test_info = IgnoreInfo::new(Vec::<IgnorePattern>::new(), scoped_map);
    let test_path = "a/b/test/";

    let result = test_info.check_scoped(test_path);

    assert!(result.is_some());
    assert!(result.unwrap());
}

#[test]
fn matches_dir_in_sub_dir_included_literally_in_root_dir() {
    let test_pattern = IgnorePattern::from_str("!test/").unwrap();
    let mut scoped_map = MapOfVecs::<IgnorePattern>::new();
    scoped_map.insert_missing("", vec![test_pattern]);
    let test_info = IgnoreInfo::new(Vec::<IgnorePattern>::new(), scoped_map);
    let test_path = "a/b/test/";

    let result = test_info.check_scoped(test_path);

    assert!(result.is_some());
    assert!(!result.unwrap());
}
