use package_checker::config::Config;
use package_checker::model::Ecosystem;

#[test]
fn defaults_are_what_the_server_did_before() {
    let config = Config::default();
    assert!(config.online.enabled);
    assert!(!config.offline);
    assert_eq!(config.online.ttl_hours, 12);
    assert!(config.online.exclude.is_empty());
}

#[test]
fn exclude_matches_qualified_and_bare_names() {
    let mut config = Config::default();
    config.online.exclude = vec!["@acme/".to_owned(), "Go:github.com/acme/".to_owned()];

    assert!(!config.may_send(Ecosystem::Npm, "@acme/widgets"));
    assert!(!config.may_send(Ecosystem::Go, "github.com/acme/tool"));
    // A public package that merely starts similarly is still sent.
    assert!(config.may_send(Ecosystem::Npm, "@acmeproducts/public"));
    assert!(config.may_send(Ecosystem::Npm, "lodash"));
}

#[test]
fn nothing_is_excluded_by_default() {
    assert!(Config::default().may_send(Ecosystem::Npm, "@anything/at-all"));
}

#[test]
fn excluding_more_sends_less() {
    let mut config = Config::default();
    config.online.exclude = vec!["@acme/".to_owned()];
    assert!(config.may_send(Ecosystem::PyPI, "internal-tool"));
    config.online.exclude.push("PyPI:internal-".to_owned());
    assert!(!config.may_send(Ecosystem::PyPI, "internal-tool"));
    assert!(config.may_send(Ecosystem::Npm, "internal-tool"));
    assert!(!config.may_send(Ecosystem::Npm, "@acme/widgets"));
}
