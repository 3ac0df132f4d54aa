use cvvc::config::{
    default_repo_config, delete_branch_config, find_user_file, identity_text, last_setting,
    tracking_branch, trimmed_values, GlobalConfig,
};
use cvvc::helpers::MapOfVecs;
use cvvc::ignore::{
    candidate_patterns, directory_of_path, first_decision, last_decision, read_ignore_rules,
    EmptyIgnorePattern, IgnoreInfo, IgnorePattern, ScopedFile,
};
use cvvc::remotes::{get_remote, list_remote_names, remotes_in_sections};
use cvvc::stores::BranchSpec;

fn config(system: &str, user: &str) -> GlobalConfig {
    GlobalConfig::from_files(Some(system), Some(user))
}

fn s(text: &str) -> Option<String> {
    Some(text.to_string())
}

#[test]
fn settings_of_the_user_come_last() {
    let c = config(
        "[user]\nname=System\n[core]\nx=1\n",
        "[user]\nname= One \nname=Two\n",
    );
    assert_eq!(c.get_setting_all("user", "name"), vec!["System", "One", "Two"]);
    assert_eq!(c.get_setting("user", "name").as_deref(), Some("Two"));
    assert_eq!(c.user_name().as_deref(), Some("Two"));
    assert_eq!(c.get_setting("core", "x").as_deref(), Some("1"));
    assert!(c.get_setting("core", "y").is_none());
    assert!(c.get_setting("other", "x").is_none());
}

#[test]
fn values_are_trimmed_and_the_last_one_counts() {
    let values = trimmed_values(&[" a ".to_string(), "b\n".to_string()]);
    assert_eq!(values, vec!["a", "b"]);
    assert_eq!(last_setting(&values).as_deref(), Some("b"));
    assert_eq!(last_setting(&[]), None);
}

#[test]
fn missing_or_invalid_files_hold_no_settings() {
    let c = GlobalConfig::from_files(None, Some("[user\nname=x"));
    assert!(c.user_name().is_none());
    assert!(c.user_email().is_none());
}

#[test]
fn settings_for_roles() {
    let c = config(
        "",
        "[author]\nname=An\nemail=an@x\n[committer]\nname=Co\nemail=co@x\n[user]\nemail=us@x\n",
    );
    assert_eq!(c.author_name(), s("An"));
    assert_eq!(c.author_email(), s("an@x"));
    assert_eq!(c.committer_name(), s("Co"));
    assert_eq!(c.committer_email(), s("co@x"));
    assert_eq!(c.user_email(), s("us@x"));
    assert_eq!(c.author(None, None), "An <an@x>");
    assert_eq!(c.committer(None, None), "Co <co@x>");
    assert_eq!(c.author(Some("En"), Some("en@x")), "En <en@x>");
    assert_eq!(c.committer(Some("En"), None), "En <co@x>");
}

#[test]
fn identity_falls_back_to_the_system() {
    assert_eq!(
        identity_text(None, None, None, None, s("Us"), s("us@x"), s("me"), s("here")),
        "Us <us@x>"
    );
    assert_eq!(
        identity_text(None, None, None, None, None, None, s("me"), s("here")),
        "me <me@here>"
    );
    assert_eq!(
        identity_text(None, None, None, None, None, None, None, s("here")),
        "(unknown) <unknown@here>"
    );
    assert_eq!(
        identity_text(None, None, None, None, None, None, s("me"), None),
        "me <me@unknown>"
    );
}

#[test]
fn settings_of_a_new_repository() {
    let c = default_repo_config();
    let core = c.section(Some("core")).unwrap();
    assert_eq!(core.get("repositoryformatversion"), Some("0"));
    assert_eq!(core.get("filemode"), Some("false"));
    assert_eq!(core.get("bare"), Some("false"));
    assert_eq!(core.len(), 3);
}

#[test]
fn places_of_the_user_file() {
    let p = find_user_file(Some("/c"), Some("/h")).unwrap();
    assert_eq!(p.directory, "/c");
    assert_eq!(
        p.candidates,
        vec![vec![".gitconfig"], vec!["git", "config"]]
    );
    let p = find_user_file(None, Some("/h")).unwrap();
    assert_eq!(p.directory, "/h");
    assert_eq!(
        p.candidates,
        vec![vec![".gitconfig"], vec![".config", "git", "config"]]
    );
    assert!(find_user_file(None, None).is_none());
}

#[test]
fn lines_without_a_rule() {
    for line in ["", "   ", "# comment", "  # comment"] {
        assert!(IgnorePattern::from_str(line).is_err());
    }
    assert_eq!(EmptyIgnorePattern {}.message(), "empty ignore pattern");
}

#[test]
fn rules_stand_for_patterns() {
    let p = IgnorePattern::from_str("build").ok().unwrap();
    assert!(p.exclude);
    assert_eq!(
        p.patterns,
        vec!["build", "build/**", "**/build", "**/build/**"]
    );
    let p = IgnorePattern::from_str("!/build").ok().unwrap();
    assert!(!p.exclude);
    assert_eq!(p.patterns, vec!["build", "build/**"]);
    let p = IgnorePattern::from_str("a/b").ok().unwrap();
    assert_eq!(p.patterns, vec!["a/b", "a/b/**"]);
    let p = IgnorePattern::from_str("a/").ok().unwrap();
    assert_eq!(p.patterns.len(), 4);
    let p = IgnorePattern::from_str("\\#x").ok().unwrap();
    assert_eq!(p.patterns[0], "#x");
    assert_eq!(candidate_patterns("x", true), vec!["x", "x/**"]);
}

#[test]
fn patterns_that_are_not_valid_are_left_out() {
    let p = IgnorePattern::from_str("a**").ok().unwrap();
    assert!(p.patterns.is_empty());
    assert_eq!(p.matches("a**"), None);
}

#[test]
fn decisions_of_rules() {
    assert_eq!(last_decision(&[Some(true), Some(false), None]), Some(false));
    assert_eq!(first_decision(&[None, Some(true), Some(false)]), Some(true));
    assert_eq!(last_decision(&[None]), None);
    assert_eq!(first_decision(&[]), None);
}

#[test]
fn last_rule_of_a_set_counts() {
    let rules = read_ignore_rules("*.o\n# comment\n\n!keep.o\n");
    assert_eq!(rules.len(), 2);
    assert_eq!(IgnorePattern::matches_set(&rules, "a.o"), Some(true));
    assert_eq!(IgnorePattern::matches_set(&rules, "keep.o"), Some(false));
    assert_eq!(IgnorePattern::matches_set(&rules, "a.c"), None);
}

#[test]
fn directories_of_paths() {
    assert_eq!(directory_of_path("a/b/c"), "a/b");
    assert_eq!(directory_of_path("a/b/"), "a");
    assert_eq!(directory_of_path("a"), "");
    assert_eq!(directory_of_path("a/"), "");
    assert_eq!(directory_of_path("a//b"), "a");
    assert_eq!(directory_of_path(""), "");
    for path in [
        "b/.", "b/./", "a/./b", "./b", ".", "./.", "/a", "/", "/.", "//a", "//a//./b/.", "a/..",
        "..", "../a", "a/.b", ".a/b", "a/b.", "./a/b", "a/../.",
    ] {
        let parent = std::path::Path::new(path).parent();
        let expected = parent.map_or("", |p| p.to_str().unwrap());
        assert_eq!(directory_of_path(path), expected, "{path}");
    }
}

#[test]
fn rules_from_files() {
    let info = IgnoreInfo::from_files(
        &["*.tmp\n!x.tmp\n".to_string(), "*.bak\n".to_string()],
        &[
            ScopedFile { directory: "".to_string(), data: b"*.o\n".to_vec() },
            ScopedFile { directory: "dir".to_string(), data: b"lost\n".to_vec() },
            ScopedFile { directory: "dir".to_string(), data: b"!*.o\n".to_vec() },
        ],
    );
    assert!(info.check("a.o"));
    assert!(!info.check("dir/a.o"));
    assert!(info.check("other/a.o"));
    assert!(!info.check("dir/lost"));
    // Of the rules about all files the first one counts.
    assert!(info.check("x.tmp"));
    assert!(info.check("x.bak"));
    assert!(!info.check("x.c"));
    assert_eq!(info.check_scoped("x.tmp"), None);
}

#[test]
fn maps_of_vectors() {
    let mut map = MapOfVecs::<u8>::new();
    cvvc::helpers::add_parent_dirs_to_map_of_vecs(&mut map, "a/b");
    assert_eq!(map.len(), 3);
    assert_eq!((map.key_at(0), map.key_at(1), map.key_at(2)), ("a/b", "a", ""));
    assert!(map.contains_key("a") && !map.contains_key("b"));
}

#[test]
fn remotes_are_read() {
    let config = ini::Ini::load_from_str(
        "x = 1\n[core]\nbare = false\n[remote \"origin\"]\nurl = https://a/\nurl = https://b/\n\
         fetch = +refs/heads/*:refs/remotes/origin/*\nfetch = nonsense\n\
         [remote \"mirror\"]\nurl = https://c/\npushurl = https://d/\n[remote]\n[remotes \"x\"]\n",
    )
    .unwrap();
    assert_eq!(list_remote_names(&config), vec!["origin", "mirror"]);
    let origin = get_remote(&config, "origin").unwrap();
    assert_eq!(origin.name, "origin");
    assert_eq!(origin.fetch_urls, vec!["https://a/", "https://b/"]);
    assert_eq!(origin.push_urls, vec!["https://a/", "https://b/"]);
    assert_eq!(origin.fetch_defs.len(), 1);
    assert!(origin.fetch_defs[0].force);
    let mirror = get_remote(&config, "mirror").unwrap();
    assert_eq!(mirror.push_urls, vec!["https://d/"]);
    assert!(mirror.fetch_defs.is_empty());
    assert!(get_remote(&config, "other").is_none());
    let sections = [None, Some("remote \"\"".to_string()), Some("remote \"".to_string())];
    assert_eq!(remotes_in_sections(&sections), vec![""]);
}

#[test]
fn settings_of_a_branch_are_removed() {
    let mut config = ini::Ini::load_from_str(
        "[branch \"a\"]\nremote = o\nmerge = refs/heads/a\n\
         [branch \"b\"]\nremote = o\nmerge = refs/heads/b\n",
    )
    .unwrap();
    assert!(tracking_branch(&config, "a").is_some());
    delete_branch_config(&mut config, &BranchSpec::local("a"));
    assert!(tracking_branch(&config, "a").is_none());
    assert_eq!(
        tracking_branch(&config, "b").unwrap().to_string(),
        "refs/remotes/o/b"
    );
}
