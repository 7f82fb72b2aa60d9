//! The dependency rule of the domain: it speaks of itself, of the language it
//! is written in, and of text, and reaches for nothing else.
use package_checker::model::Ecosystem;

/// What the domain may import: `std`, and itself.
fn permitted(import: &str) -> bool {
    import == "std"
        || import.starts_with("std::")
        || import == "crate::model"
        || import.starts_with("crate::model::")
}

#[test]
fn the_check_would_notice_a_violation() {
    assert!(!permitted("tower_lsp_server::ls_types::Diagnostic"));
    assert!(!permitted("serde::Deserialize"));
    assert!(!permitted("crate::db::Database"));
    assert!(!permitted("crate::version::Version"));

    assert!(permitted("std::fmt"));
    assert!(permitted("std::path::{Path, PathBuf}"));

    // The two shapes that are easy to miss.
    assert!(!permitted("stdsomething::Thing"));
    let gated = "mod tests {";
    assert!(gated.starts_with("mod tests"));
}

#[test]
fn every_ecosystem_has_a_name_of_its_own() {
    for e in Ecosystem::all() {
        assert_eq!(Ecosystem::named(e.as_str()), Some(e));
    }
    assert_eq!(Ecosystem::named("NPM"), None);
}
