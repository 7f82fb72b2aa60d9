use package_checker::model::Ecosystem;
use package_checker::progress::{
    describe, ending, first_percentage, megabytes, percentage, title, token,
};

#[test]
fn percentage_is_whole_and_clamped() {
    assert_eq!(percentage(0, Some(200)), Some(0));
    assert_eq!(percentage(100, Some(200)), Some(50));
    assert_eq!(percentage(200, Some(200)), Some(100));
    // A server that under-reports its own length must not produce 140%.
    assert_eq!(percentage(280, Some(200)), Some(100));
    // No content-length means no bar, not a division by zero.
    assert_eq!(percentage(100, None), None);
    assert_eq!(percentage(100, Some(0)), None);
}

#[test]
fn a_huge_download_does_not_overflow_the_percentage() {
    assert_eq!(percentage(u64::MAX, Some(u64::MAX)), Some(100));
}

#[test]
fn sizes_read_as_megabytes() {
    assert_eq!(describe(0, Some(215_232_640)), "0.0 MB of 205.3 MB");
    assert_eq!(describe(1_048_576, None), "1.0 MB");
}

#[test]
fn a_size_is_rounded_as_a_double_is() {
    let shown = |bytes: u64| format!("{:.1} MB", bytes as f64 / (1024.0 * 1024.0));
    for bytes in [
        0,
        1,
        52_428,
        52_429,
        104_857,
        157_286,
        157_287,
        // Exactly between two tenths, where the even one is shown.
        262_144,
        786_432,
        1_310_720,
        215_232_640,
        u64::MAX / 3,
        u64::MAX - 1,
        u64::MAX,
        // Above what a double holds exactly.
        (1 << 53) + 1,
        (1 << 54) + 2,
        (1 << 60) + 129,
    ] {
        assert_eq!(megabytes(bytes), shown(bytes), "{bytes}");
    }
}

#[test]
fn a_download_is_named() {
    assert_eq!(token(Ecosystem::CratesIo), "package-checker/crates.io");
    assert_ne!(token(Ecosystem::Npm), token(Ecosystem::Go));
    assert_eq!(title(Ecosystem::Npm), "Downloading npm advisories");
    assert_eq!(ending(Ecosystem::Npm, None), "npm advisories ready");
    assert_eq!(ending(Ecosystem::Npm, Some("timed out")), "npm failed: timed out");
    assert_eq!(first_percentage(Some(10)), Some(0));
    assert_eq!(first_percentage(None), None);
}
