use ardon_r2::paths::{PathStyle, join_path};
use ardon_r2::pkg::{
    PkgError, list_installed, missing_manifest, missing_source, not_installed, package_source_files,
    parse_manifest, parse_string_literal, pkg_dir, pkg_root, strip_assign, validate_name,
};

fn entries(v: &[(&str, bool)]) -> Vec<(String, bool)> {
    v.iter().map(|(n, d)| (n.to_string(), *d)).collect()
}

#[test]
fn manifest_parses_basic_fields() {
    let src = r#"
# This is the example package manifest.
package_name <- "mymath"
package_version <- "0.1.0"
package_description <- "Toy helpers."
package_author <- "Devendra"
package_license <- "MIT"
package_exports <- c("add_one", "double_it")
"#;
    let m = parse_manifest(src).unwrap();
    assert_eq!(m.name, "mymath");
    assert_eq!(m.version, "0.1.0");
    assert_eq!(m.description, "Toy helpers.");
    assert_eq!(m.author, "Devendra");
    assert_eq!(m.license, "MIT");
    assert_eq!(m.exports, vec!["add_one", "double_it"]);
}

#[test]
fn manifest_handles_equals_and_single_quotes() {
    let src = "package_name = 'foo'\npackage_exports = c('bar')\n";
    let m = parse_manifest(src).unwrap();
    assert_eq!(m.name, "foo");
    assert_eq!(m.exports, vec!["bar"]);
}

#[test]
fn manifest_without_name_field_errors() {
    let src = "package_version <- \"0.1.0\"\n";
    assert!(parse_manifest(src).is_err());
}

#[test]
fn validate_name_rejects_path_traversal() {
    assert!(validate_name("..").is_err());
    assert!(validate_name("foo/bar").is_err());
    assert!(validate_name("foo\\bar").is_err());
    assert!(validate_name(".hidden").is_err());
    assert!(validate_name("").is_err());
}

#[test]
fn validate_name_accepts_typical_names() {
    for n in &["mymath", "r2-survival", "my_pkg", "Hotelling2"] {
        assert!(validate_name(n).is_ok(), "should accept '{}'", n);
    }
}

#[test]
fn name_faults_are_told_apart() {
    let text = |n: &str| validate_name(n).unwrap_err().message();
    assert_eq!(text(""), "package name is empty");
    assert_eq!(text(&"a".repeat(101)), "package name too long (max 100 chars)");
    assert!(validate_name(&"a".repeat(100)).is_ok());
    assert_eq!(
        text("a b"),
        "package name 'a b' contains invalid character ' '. Use letters, digits, '_', '-', '.' only."
    );
    assert_eq!(text(".x"), "package name '.x' is reserved");
    assert!(matches!(validate_name("a b"), Err(PkgError::BadArg(_))));
}

#[test]
fn errors_have_messages() {
    assert_eq!(PkgError::NotFound("x".to_string()).message(), "package not found: x");
    assert_eq!(PkgError::Io("x".to_string()).message(), "io error: x");
    assert_eq!(PkgError::BadManifest("x".to_string()).message(), "bad manifest: x");
    assert_eq!(not_installed("zoo").message().contains("zoo"), true);
    assert_eq!(missing_manifest("/d").message().contains("/d"), true);
    assert_eq!(missing_source("/d").message().contains("/d"), true);
}

#[test]
fn the_package_root_prefers_the_override() {
    let s = |t: &str| Some(t.to_string());
    assert_eq!(pkg_root(PathStyle::Unix, s("/custom"), s("/home/a"), None).unwrap(), "/custom");
    assert_eq!(pkg_root(PathStyle::Unix, None, s("/home/a"), s("/users/b")).unwrap(), "/home/a/.r2/packages");
    assert_eq!(pkg_root(PathStyle::Unix, None, None, s("/users/b")).unwrap(), "/users/b/.r2/packages");
    assert!(pkg_root(PathStyle::Unix, None, None, None).is_err());
}

#[test]
fn package_directories_stay_under_the_root() {
    assert_eq!(pkg_dir(PathStyle::Unix, "/root", "mymath").unwrap(), "/root/mymath");
    assert!(pkg_dir(PathStyle::Unix, "/root", "../etc").is_err());
    assert_eq!(join_path(PathStyle::Unix, "/a", "b"), "/a/b");
    assert_eq!(join_path(PathStyle::Unix, "/a/", "b"), "/a/b");
    assert_eq!(join_path(PathStyle::Unix, "", "b"), "b");
    assert_eq!(join_path(PathStyle::Unix, "a\\", "b"), "a\\/b");
}

#[test]
fn package_directories_on_windows() {
    let s = |t: &str| Some(t.to_string());
    assert_eq!(pkg_root(PathStyle::Windows, None, None, s("C:\\Users\\b")).unwrap(), "C:\\Users\\b\\.r2\\packages");
    assert_eq!(pkg_dir(PathStyle::Windows, "C:\\root", "mymath").unwrap(), "C:\\root\\mymath");
    assert_eq!(join_path(PathStyle::Windows, "C:/root/", "b"), "C:/root/b");
    assert_eq!(join_path(PathStyle::Windows, "C:", "b"), "C:b");
    assert_eq!(join_path(PathStyle::Windows, "CC", "b"), "CC\\b");
}

#[test]
fn installed_packages_are_listed_in_order() {
    let found = list_installed(&entries(&[("zeta", true), ("alpha", true), ("file.R", false)]));
    assert_eq!(found, vec!["alpha", "zeta"]);
    let found =
        package_source_files(&entries(&[("b.r2", true), ("a.r2", true), ("notes.txt", true), (".r2", true), ("dir.r2", false)]));
    assert_eq!(found, vec!["a.r2", "b.r2"]);
}

#[test]
fn assignments_and_literals() {
    let chars = |s: &str| s.chars().collect::<Vec<char>>();
    assert!(strip_assign(&chars("package_name <- \"x\""), "package_name").is_some());
    assert!(strip_assign(&chars("package_names <- \"x\""), "package_name").is_none());
    assert_eq!(parse_string_literal(&chars("\"x y\"")), Some("x y".to_string()));
    assert_eq!(parse_string_literal(&chars("'x'")), Some("x".to_string()));
    assert_eq!(parse_string_literal(&chars("x")), None);
}

#[test]
fn comments_do_not_change_a_manifest() {
    let plain = parse_manifest("package_name <- \"a\"\npackage_version <- \"2\"\n").unwrap();
    let noted = parse_manifest("# one\npackage_name <- \"a\"\n\n  # two\npackage_version <- \"2\"\n").unwrap();
    assert_eq!(plain.name, noted.name);
    assert_eq!(plain.version, noted.version);
    let ended = parse_manifest("package_name <- \"a\"\r\n# two\r\n \t\r\npackage_version <- \"2\"").unwrap();
    assert_eq!(ended.name, plain.name);
    assert_eq!(ended.version, plain.version);
    assert!(parse_manifest("# package_name <- \"a\"\n").is_err());
}

#[test]
fn quoted_texts_read_back() {
    let read = |s: &str| parse_string_literal(&s.chars().collect::<Vec<char>>());
    for body in ["", "x", "a 'b' ", "# no comment"] {
        assert_eq!(read(&format!("\"{}\"", body)), Some(body.to_string()));
        assert_eq!(read(&format!("\"{}\" and \u{e9} \n", body)), Some(body.to_string()));
        assert_eq!(read(&format!("\"{}", body)), None);
    }
    assert_eq!(read("  'a \"b\"'"), Some("a \"b\"".to_string()));
    assert_eq!(read("'a \"b\""), None);
    assert_eq!(read("\"a\\n\\\"b\""), Some("a\n\"b".to_string()));
}
