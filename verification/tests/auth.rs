use prtoolbar::auth::{resolve_from, trimmed_token};

#[test]
fn env_token_wins() {
    let token = resolve_from(Some(" ghp_env ".into()), || Some("ghp_cli".into())).unwrap();
    assert_eq!(token, "ghp_env");
}

#[test]
fn empty_env_falls_back_to_gh() {
    let token = resolve_from(Some("   ".into()), || Some("ghp_cli".into())).unwrap();
    assert_eq!(token, "ghp_cli");
}

#[test]
fn missing_everything_is_a_clear_error() {
    let err = resolve_from(None, || None).unwrap_err();
    assert_eq!(
        err.to_string(),
        "No GitHub token: set GITHUB_TOKEN or run `gh auth login`"
    );
}

#[test]
fn gh_is_not_asked_when_the_environment_has_a_token() {
    let asked = std::cell::Cell::new(false);
    let token = resolve_from(Some("ghp_env".into()), || {
        asked.set(true);
        None
    })
    .unwrap();
    assert_eq!(token, "ghp_env");
    assert!(!asked.get());
}

#[test]
fn trimmed_token_strips_unicode_whitespace() {
    assert_eq!(trimmed_token("\u{3000}\tghp_x\n\u{a0}").as_deref(), Some("ghp_x"));
    assert_eq!(trimmed_token(" \u{2028} "), None);
    assert_eq!(trimmed_token("a b").as_deref(), Some("a b"));
}
