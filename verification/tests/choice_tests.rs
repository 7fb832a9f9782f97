use git_projects::choice::{filter_repos, matches_any};

fn strings(items: &[&str]) -> Vec<String> {
    items.iter().map(|s| s.to_string()).collect()
}

#[test]
fn keeps_repositories_containing_a_target() {
    let repos = strings(&["github.com/td72/a", "github.com/other/b", "gitlab.com/myorg/c"]);
    let targets = strings(&["github.com/td72", "myorg"]);
    assert_eq!(
        filter_repos(repos, &targets, false),
        strings(&["github.com/td72/a", "gitlab.com/myorg/c"])
    );
}

#[test]
fn shows_everything_when_asked_or_without_targets() {
    let repos = strings(&["x", "y"]);
    assert_eq!(filter_repos(repos.clone(), &strings(&["z"]), true), repos);
    assert_eq!(filter_repos(repos.clone(), &[], false), repos);
}

#[test]
fn substring_match_is_exact() {
    assert!(matches_any("abcabd", &strings(&["abd"])));
    assert!(!matches_any("ab", &strings(&["abc"])));
    assert!(!matches_any("ab", &[]));
}
