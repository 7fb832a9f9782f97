use git_projects::config::{expand_tilde, ghq_root, parse_targets, resolve_root, AppContext, ConfigError};
use git_projects::text::trimmed;

#[test]
fn expands_leading_tilde() {
    assert_eq!(expand_tilde("~/src", Some("/home/me")), "/home/me/src");
    assert_eq!(expand_tilde("~", Some("/home/me")), "/home/me");
}

#[test]
fn leaves_other_paths_alone() {
    assert_eq!(expand_tilde("/opt/src", Some("/home/me")), "/opt/src");
    // A tilde that is not a home reference stays literal.
    assert_eq!(expand_tilde("~user/src", Some("/home/me")), "~user/src");
    assert_eq!(expand_tilde("src/~", Some("/home/me")), "src/~");
}

#[test]
fn keeps_tilde_when_home_is_unknown() {
    assert_eq!(expand_tilde("~/src", None), "~/src");
}

#[test]
fn parses_colon_separated_targets() {
    assert_eq!(
        parse_targets(Some("github.com/td72:github.com/myorg")),
        vec!["github.com/td72", "github.com/myorg"]
    );
}

#[test]
fn treats_missing_or_empty_value_as_no_filter() {
    assert!(parse_targets(None).is_empty());
    assert!(parse_targets(Some("")).is_empty());
    assert!(parse_targets(Some(":")).is_empty());
}

#[test]
fn drops_empty_fragments() {
    assert_eq!(
        parse_targets(Some(":github.com/td72::")),
        vec!["github.com/td72"]
    );
}

#[test]
fn expands_bare_tilde_path_with_non_ascii_home() {
    assert_eq!(expand_tilde("~/código", Some("/home/José")), "/home/José/código");
    assert_eq!(expand_tilde("~/", Some("/h")), "/h/");
    assert_eq!(expand_tilde("", Some("/h")), "");
}

#[test]
fn targets_keep_order_and_spaces() {
    assert_eq!(parse_targets(Some("b: a ::c")), vec!["b", " a ", "c"]);
}

#[test]
fn root_prefers_ghq_setting_and_expands_it() {
    assert_eq!(
        resolve_root(Some("~/ghq".to_string()), Some("/home/me".to_string())),
        Ok("/home/me/ghq".to_string())
    );
    assert_eq!(
        resolve_root(Some("/srv/ghq".to_string()), None),
        Ok("/srv/ghq".to_string())
    );
}

#[test]
fn root_falls_back_to_home_src() {
    assert_eq!(
        resolve_root(None, Some("/home/me".to_string())),
        Ok("/home/me/src".to_string())
    );
}

#[test]
fn root_needs_home_without_ghq_setting() {
    assert_eq!(resolve_root(None, None), Err(ConfigError::HomeNotSet));
}

#[test]
fn ghq_root_is_trimmed_output_of_a_successful_run() {
    assert_eq!(ghq_root(true, b"  ~/ghq\n"), Some("~/ghq".to_string()));
    assert_eq!(ghq_root(true, "\u{3000}/data\t\r\n".as_bytes()), Some("/data".to_string()));
    assert_eq!(ghq_root(true, b"\n"), None);
    assert_eq!(ghq_root(true, b""), None);
    assert_eq!(ghq_root(false, b"/data\n"), None);
}

#[test]
fn ghq_root_replaces_invalid_utf8() {
    assert_eq!(ghq_root(true, b"/d\xffa\n"), Some("/d\u{FFFD}a".to_string()));
}

#[test]
fn load_builds_the_context() {
    let ctx = AppContext::load(
        None,
        Some("/home/me".to_string()),
        Some("github.com/td72:".to_string()),
    )
    .unwrap();
    assert_eq!(ctx.root, "/home/me/src");
    assert_eq!(ctx.targets, vec!["github.com/td72"]);

    let ctx = AppContext::load(Some("~".to_string()), Some("/h".to_string()), None).unwrap();
    assert_eq!(ctx.root, "/h");
    assert!(ctx.targets.is_empty());

    assert!(matches!(
        AppContext::load(None, None, Some("x".to_string())),
        Err(ConfigError::HomeNotSet)
    ));
}

#[test]
fn trimmed_drops_unicode_whitespace_around_text() {
    assert_eq!(trimmed("\u{2003}\u{85} a b \u{3000}"), Some("a b".to_string()));
    assert_eq!(trimmed("\t\n \u{a0}"), None);
    assert_eq!(trimmed("x"), Some("x".to_string()));
}

#[test]
fn parsing_joined_fragments_gives_them_back() {
    let parts = vec!["github.com/td72".to_string(), "a b".to_string(), "é".to_string()];
    assert_eq!(parse_targets(Some(&parts.join(":"))), parts);
}
