use package_checker::extract::Format;
use package_checker::manifest::cargo::{cargo_lock, cargo_self, cargo_toml};
use package_checker::manifest::go::go_mod;
use package_checker::manifest::lowest_satisfying;
use package_checker::manifest::npm::{package_json, package_lock};
use package_checker::manifest::python::{requirement_includes, requirements};
use package_checker::model::{Ecosystem, ExtractedPackage, Position, Range};

const PACKAGE_JSON: &str =
    "{\n  \"name\": \"p\",\n  \"dependencies\": {\n    \"lodash\": \"4.17.15\"\n  }\n}\n";
const PACKAGE_LOCK: &str = "{\n  \"lockfileVersion\": 3,\n  \"packages\": {\n    \"node_modules/lodash\": {\n      \"version\": \"4.17.15\"\n    }\n  }\n}\n";
const GO_MOD: &str = "module example.com/p\n\nrequire github.com/gin-gonic/gin v1.6.0\n";
const CARGO_TOML: &str = "[package]\nname = \"p\"\n\n[dependencies]\ntime = \"0.1.44\"\n";
const CARGO_LOCK: &str = "version = 3\n\n[[package]]\nname = \"time\"\nversion = \"0.1.44\"\n";
const REQUIREMENTS: &str = "requests==2.19.1\n";

/// Every format, with the file it serves and a sample naming one package.
const PARSERS: &[(&str, Format, &str)] = &[
    ("package.json", Format::PackageJson, PACKAGE_JSON),
    ("package-lock.json", Format::PackageLock, PACKAGE_LOCK),
    ("go.mod", Format::GoMod, GO_MOD),
    ("Cargo.toml", Format::CargoToml, CARGO_TOML),
    ("Cargo.lock", Format::CargoLock, CARGO_LOCK),
    ("requirements.txt", Format::Requirements, REQUIREMENTS),
];

fn path_for(name: &str) -> String {
    format!("/p/{name}")
}

/// A position back to the byte offset it came from.
fn offset_of(src: &str, position: Position) -> usize {
    let line_start: usize =
        src.split_inclusive('\n').take(position.line as usize).map(str::len).sum();
    line_start + position.column as usize
}

/// The text that a span covers.
fn slice(src: &str, range: Range) -> &str {
    &src[offset_of(src, range.start)..offset_of(src, range.end)]
}

fn names_and_versions(found: &[ExtractedPackage]) -> Vec<(String, String)> {
    found
        .iter()
        .map(|f| (f.package.name().to_owned(), f.package.version.to_string()))
        .collect()
}

#[test]
fn every_sample_names_exactly_one_package() {
    for (name, format, sample) in PARSERS {
        let found = format.parse(sample, &path_for(name));
        assert_eq!(found.len(), 1, "{name} found {found:?}");
    }
}

#[test]
fn empty_input_yields_nothing() {
    for (name, format, _) in PARSERS {
        for src in ["", "\n", "\n\n\n", "   ", "\r\n"] {
            assert!(
                format.parse(src, &path_for(name)).is_empty(),
                "{name} found something in {src:?}"
            );
        }
    }
}

#[test]
fn hostile_input_yields_nothing_rather_than_panicking() {
    let hostile: Vec<String> = vec![
        "\0".into(),
        "{".into(),
        "[".into(),
        "=".into(),
        "[[".into(),
        "\u{feff}".into(),
        "\"".repeat(10_000),
        "\\\n".repeat(1_000),
        "[".repeat(600),
        "{\"a\":".repeat(600),
        "x".repeat(1_000_000),
        "require (".into(),
        "[[package]]".into(),
    ];
    for (name, format, _) in PARSERS {
        for src in &hostile {
            let found = format.parse(src, &path_for(name));
            assert!(
                found.is_empty(),
                "{name} found {} package(s) in hostile input",
                found.len()
            );
        }
    }
}

#[test]
fn crlf_reads_the_same_as_lf() {
    for (name, format, sample) in PARSERS {
        let unix = format.parse(sample, &path_for(name));
        let dos = format.parse(&sample.replace('\n', "\r\n"), &path_for(name));
        assert_eq!(unix.len(), dos.len(), "{name}: count differs under CRLF");
        for (a, b) in unix.iter().zip(&dos) {
            assert_eq!(a.package, b.package, "{name}: package differs under CRLF");
            assert_eq!(a.evidence.range, b.evidence.range, "{name}: span differs under CRLF");
        }
    }
}

#[test]
fn every_span_lies_within_the_source_and_covers_an_identifier() {
    for (name, format, sample) in PARSERS {
        for found in format.parse(sample, &path_for(name)) {
            let range = found.evidence.range;
            let start = offset_of(sample, range.start);
            let end = offset_of(sample, range.end);
            assert!(start <= end, "{name}: inverted span {range:?}");
            assert!(end <= sample.len(), "{name}: span past the end of {name}");

            let covered = &sample[start..end];
            assert!(
                covered == found.package.name() || covered == found.package.version,
                "{name}: span covers {covered:?}, not {} or {}",
                found.package.name(),
                found.package.version
            );
        }
    }
}

#[test]
fn a_deeply_nested_lockfile_does_not_overflow_the_stack() {
    let depth = 600;
    let mut src = String::from("{\"dependencies\":");
    for _ in 0..depth {
        src.push_str("{\"a\":{\"version\":\"1.0.0\",\"dependencies\":");
    }
    src.push_str("{}");
    for _ in 0..depth {
        src.push_str("}}");
    }
    src.push('}');

    let found = package_lock(&src, &path_for("package-lock.json"));
    assert!(
        found.is_empty(),
        "a lockfile nested past the parser's limit must yield nothing, got {}",
        found.len()
    );

    // The same shape within the limit does parse.
    let mut shallow = String::from("{\"dependencies\":");
    for _ in 0..8 {
        shallow.push_str("{\"a\":{\"version\":\"1.0.0\",\"dependencies\":");
    }
    shallow.push_str("{}");
    for _ in 0..8 {
        shallow.push_str("}}");
    }
    shallow.push('}');
    assert_eq!(package_lock(&shallow, &path_for("package-lock.json")).len(), 8);
}

#[test]
fn parsing_is_deterministic() {
    for (name, format, sample) in PARSERS {
        assert_eq!(
            format.parse(sample, &path_for(name)),
            format.parse(sample, &path_for(name)),
            "{name} is not deterministic"
        );
    }
}

#[test]
fn the_path_is_echoed_never_inspected() {
    for (_, format, sample) in PARSERS {
        let path = "/nonexistent/deeply/nested/file";
        for found in format.parse(sample, path) {
            assert_eq!(found.evidence.path, path);
        }
    }
}

#[test]
fn a_version_span_covers_exactly_the_version_it_reported() {
    for (name, format, sample) in PARSERS {
        for found in format.parse(sample, &path_for(name)) {
            let Some(span) = found.version_span else {
                continue;
            };
            assert_eq!(
                slice(sample, span),
                found.package.version,
                "{name} span covers the wrong text"
            );
        }
    }
}

#[test]
fn lockfiles_offer_no_version_span() {
    for (name, format, sample) in PARSERS {
        if !name.contains("lock") {
            continue;
        }
        for found in format.parse(sample, &path_for(name)) {
            assert!(found.version_span.is_none(), "{name} offered a span");
        }
    }
}

#[test]
fn a_span_excludes_the_operator_so_a_bound_survives_a_bump() {
    let src = "{\n  \"dependencies\": {\n    \"a\": \"^4.17.0\",\n    \"b\": \">=1.0.0 <2.0.0\"\n  }\n}\n";
    let found = package_json(src, &path_for("package.json"));
    let spans: Vec<&str> = found.iter().map(|f| slice(src, f.version_span.unwrap())).collect();
    assert_eq!(spans, vec!["4.17.0", "1.0.0"]);
}

#[test]
fn a_cargo_span_excludes_the_operator_too() {
    let src =
        "[dependencies]\nserde = \"^1.0.1\"\ntime = { version = \">=0.1.44\", features = [] }\n";
    let found = cargo_toml(src, &path_for("Cargo.toml"));
    let spans: Vec<&str> = found.iter().map(|f| slice(src, f.version_span.unwrap())).collect();
    assert_eq!(spans, vec!["1.0.1", "0.1.44"]);
}

#[test]
fn a_go_span_starts_after_the_v() {
    let src = "require (\n\tgithub.com/x/y v1.6.0 // indirect\n)\n";
    let found = go_mod(src, &path_for("go.mod"));
    assert_eq!(slice(src, found[0].version_span.unwrap()), "1.6.0");
}

#[test]
fn a_continued_requirement_withholds_its_span() {
    let src = "requests==2.19.1\nflask\\\n==1.0.0\n";
    let found = requirements(src, &path_for("requirements.txt"));
    assert_eq!(found.len(), 2);
    assert_eq!(slice(src, found[0].version_span.unwrap()), "2.19.1");
    assert!(found[1].version_span.is_none());
}

#[test]
fn a_span_is_in_bytes_past_wide_characters() {
    let src = "# caf\u{e9}\n\u{3000}kept==1.0 # \u{1f980}\n";
    let found = requirements(src, "r.txt");
    assert_eq!(names_and_versions(&found), [("kept".to_owned(), "1.0".to_owned())]);
    assert_eq!(slice(src, found[0].evidence.range), "kept");
    assert_eq!(slice(src, found[0].version_span.unwrap()), "1.0");
}

#[test]
fn the_lowest_version_of_a_constraint_is_placed_in_bytes() {
    let lowest = |s: &str| {
        let chars: Vec<char> = s.chars().collect();
        lowest_satisfying(&chars).map(|(v, a, b)| (v.into_iter().collect::<String>(), a, b))
    };
    assert_eq!(lowest(" ^1.2.3"), Some(("1.2.3".to_owned(), 2, 7)));
    assert_eq!(lowest(">=1.0.0 <2.0.0"), Some(("1.0.0".to_owned(), 2, 7)));
    assert_eq!(lowest("\u{3000}~4"), Some(("4".to_owned(), 4, 5)));
    assert_eq!(lowest("node16"), None);
    assert_eq!(lowest("*"), None);
    // An upper bound is no version to look up.
    assert_eq!(lowest("<2.0.0"), None);
    assert_eq!(lowest("<=2.0.0"), None);
    assert_eq!(lowest("<2.0.0 >=1.0.0"), Some(("1.0.0".to_owned(), 9, 14)));
    assert_eq!(lowest("<2.0, >=1.0"), Some(("1.0".to_owned(), 8, 11)));
}

// ---- Cargo ----

#[test]
fn cargo_toml_ignores_the_package_table() {
    let src = "[package]\nname = \"fixture\"\nversion = \"1.0.0\"\n";
    assert!(cargo_toml(src, &path_for("Cargo.toml")).is_empty());
}

#[test]
fn cargo_toml_prefers_the_production_declaration() {
    let src = "[dev-dependencies]\ntime = \"0.2\"\n\n[dependencies]\ntime = \"0.1.44\"\n";
    let found = cargo_toml(src, &path_for("Cargo.toml"));
    assert_eq!(found.len(), 1, "{found:?}");
    assert_eq!(found[0].evidence.range.start.line, 4);
    assert!(found[0].dep_groups.is_empty());
}

#[test]
fn a_renamed_crate_is_reported_under_its_published_name() {
    let src = "[dependencies]\nclock = { package = \"time\", version = \"0.1\" } # pinned\n";
    let found = cargo_toml(src, "Cargo.toml");
    assert_eq!(names_and_versions(&found), [("time".to_owned(), "0.1".to_owned())]);
    assert_eq!(slice(src, found[0].evidence.range), "clock");
}

#[test]
fn a_crate_names_itself() {
    assert_eq!(cargo_self("[package]\nname = \"fixture\"\n"), Some("fixture".to_owned()));
    assert_eq!(cargo_self("[workspace]\nname = \"fixture\"\n"), None);
}

#[test]
fn cargo_lock_lists_every_entry() {
    let src = "[[package]]\nname = \"a\"\nversion = \"1.0.0\"\n\n[[package]]\nname = \"b\"\nversion = \"2.0.0\"\n";
    let found = cargo_lock(src, "Cargo.lock");
    assert_eq!(
        names_and_versions(&found),
        [("a".to_owned(), "1.0.0".to_owned()), ("b".to_owned(), "2.0.0".to_owned())]
    );
    assert!(found.iter().all(|f| f.package.ecosystem() == Ecosystem::CratesIo && !f.from_range));
}

#[test]
fn a_cargo_requirement_reports_its_lowest_version() {
    let src = "[dependencies]\nserde = \"^1.0.1\"\nany = \"*\"\nold = \"<2.0\"\n";
    let found = cargo_toml(src, "Cargo.toml");
    assert_eq!(found[0].package.version, "1.0.1");
    assert!(found[0].from_range);
    assert_eq!(slice(src, found[0].version_span.unwrap()), "1.0.1");
    // What names no lowest version stands as it is written.
    assert_eq!(found[1].package.version, "*");
    assert_eq!(found[2].package.version, "<2.0");
    assert!(found[1].version_span.is_none() && found[2].version_span.is_none());
}

#[test]
fn a_comment_does_not_move_the_span_of_a_locked_crate() {
    let src = "[[package]]\nname = \"time\" # pinned\nversion = \"0.1.44\"\n";
    let found = cargo_lock(src, "Cargo.lock");
    assert_eq!(names_and_versions(&found), [("time".to_owned(), "0.1.44".to_owned())]);
    let range = found[0].evidence.range;
    assert_eq!(range.start, Position { line: 1, column: 8 });
    assert_eq!(range.end, Position { line: 1, column: 12 });
    let src = "[[package]]\nname = \"name\"\nversion = \"1.0.0\"\n";
    assert_eq!(cargo_lock(src, "Cargo.lock")[0].evidence.range.start.column, 8);
}

// ---- Go ----

#[test]
fn go_mod_replace_substitutes_name_and_version() {
    let src = "module m\n\nrequire example.com/old v1.0.0\n\nreplace example.com/old => example.com/fork v1.2.0\n";
    let found = go_mod(src, &path_for("go.mod"));
    assert_eq!(
        names_and_versions(&found),
        [("example.com/fork".into(), "1.2.0".into())]
    );
    // The require line is still where the user acts.
    assert_eq!(found[0].evidence.range.start.line, 2);
    // Rewriting the require's version would not change what is built.
    assert!(found[0].version_span.is_none());
}

#[test]
fn go_mod_replace_with_a_version_applies_only_to_that_version() {
    let src = "module m\n\nrequire example.com/a v1.0.0\n\nreplace example.com/a v2.0.0 => example.com/b v2.1.0\n";
    let found = go_mod(src, &path_for("go.mod"));
    assert_eq!(
        names_and_versions(&found),
        [("example.com/a".into(), "1.0.0".into())]
    );
}

#[test]
fn go_mod_replace_to_a_local_path_drops_the_module() {
    let src = "module m\n\nrequire (\n\texample.com/old v1.0.0\n\texample.com/kept v2.0.0\n)\n\nreplace example.com/old => ../old\n";
    let found = go_mod(src, &path_for("go.mod"));
    assert_eq!(
        names_and_versions(&found),
        [("example.com/kept".into(), "2.0.0".into())]
    );
}

#[test]
fn go_mod_replace_block_is_read() {
    let src = "module m\n\nrequire example.com/a v1.0.0\n\nreplace (\n\texample.com/a => example.com/b v1.5.0\n)\n";
    let found = go_mod(src, &path_for("go.mod"));
    assert_eq!(
        names_and_versions(&found),
        [("example.com/b".into(), "1.5.0".into())]
    );
}

#[test]
fn go_mod_toolchain_wins_over_the_go_directive() {
    let src = "module m\n\ngo 1.21\n\ntoolchain go1.21.5\n";
    let found = go_mod(src, &path_for("go.mod"));
    assert_eq!(
        names_and_versions(&found),
        [("stdlib".into(), "1.21.5".into())]
    );
    assert_eq!(found[0].evidence.range.start.line, 4, "anchored on the toolchain line");
}

#[test]
fn go_mod_module_itself_is_not_a_dependency() {
    let found = go_mod("module example.com/fixture\n\ngo 1.21\n", &path_for("go.mod"));
    assert!(found.iter().all(|f| f.package.name() != "example.com/fixture"));
}

#[test]
fn a_toolchain_suffix_is_not_part_of_the_version() {
    let src = "toolchain go1.22.1-custom\n";
    let found = go_mod(src, "go.mod");
    assert_eq!(names_and_versions(&found), [("stdlib".to_owned(), "1.22.1".to_owned())]);
    assert_eq!(slice(src, found[0].version_span.unwrap()), "1.22.1");
}

#[test]
fn one_go_before_a_toolchain_is_dropped() {
    let src = "toolchain gogo1.21\n";
    let found = go_mod(src, "go.mod");
    assert_eq!(names_and_versions(&found), [("stdlib".to_owned(), "go1.21".to_owned())]);
    assert_eq!(slice(src, found[0].version_span.unwrap()), "go1.21");
}

// ---- Python ----

#[test]
fn requirements_of_only_comments_yield_nothing() {
    assert!(requirements("# nothing here\n\n  \n", &path_for("requirements.txt")).is_empty());
}

#[test]
fn requirements_with_unsupported_constraints_name_no_version() {
    let src = "requests<2.0\nflask!=1.0\nnumpy==*\ndjango>=1,<2\nkept>=1.0\npinned==2.0\n";
    let found = requirements(src, &path_for("requirements.txt"));
    assert_eq!(
        names_and_versions(&found),
        [("kept".into(), "1.0".into()), ("pinned".into(), "2.0".into())]
    );
}

#[test]
fn an_upper_bound_is_no_version() {
    assert!(requirements("requests<=2.0\n", "requirements.txt").is_empty());
}

#[test]
fn requirement_includes_are_listed() {
    let src =
        "-r base.txt\n--requirement ../shared/common.txt\n-c constraints.txt\nrequests==2.0\n";
    assert_eq!(requirement_includes(src), ["base.txt", "../shared/common.txt"]);
}
