use staged_build::manifest::qualify_cargo_toml_paths_in_text;
use staged_build::manifest::qualify_paths_with_escaped_base;

#[test]
fn test_path_fixup_1() {
    let input = r#"
[dependencies]
lib-crate = { path = "../../lib-crate" }
"#;
    let expected = r#"
[dependencies]
lib-crate = { path = "/basedir/../../lib-crate" }
"#;

    assert_eq!(
        qualify_cargo_toml_paths_in_text(input, "/basedir"),
        expected.to_string()
    );
}

#[test]
fn test_path_fixup_2() {
    let input = r#"
[dependencies]
lib-crate = { path="../../lib-crate" }
"#;
    let expected = r#"
[dependencies]
lib-crate = { path="/basedir/../../lib-crate" }
"#;

    assert_eq!(
        qualify_cargo_toml_paths_in_text(input, "/basedir"),
        expected.to_string()
    );
}

#[test]
fn test_path_fixup_3() {
    let input = r#"
[dependencies]
lib-crate = { path = '../../lib-crate' }
"#;
    let expected = r#"
[dependencies]
lib-crate = { path = '/basedir/../../lib-crate' }
"#;

    assert_eq!(
        qualify_cargo_toml_paths_in_text(input, "/basedir"),
        expected.to_string()
    );
}

#[test]
fn test_path_fixup_4() {
    let input = r#"
[dependencies]
lib-crate = { path='../../lib-crate' }
"#;
    let expected = r#"
[dependencies]
lib-crate = { path='/basedir/../../lib-crate' }
"#;

    assert_eq!(
        qualify_cargo_toml_paths_in_text(input, "/basedir"),
        expected.to_string()
    );
}

#[test]
fn rewriting_twice_inserts_base_twice() {
    let input = "dep = { path = \"../lib\" }\n";
    let once = qualify_cargo_toml_paths_in_text(input, "/proj");
    let twice = qualify_cargo_toml_paths_in_text(&once, "/proj");
    assert_eq!(once, "dep = { path = \"/proj/../lib\" }\n");
    assert_eq!(twice, "dep = { path = \"/proj//proj/../lib\" }\n");
}

#[test]
fn staged_manifest_is_anchored_at_project() {
    let input = "[package]\nname = \"b\"\n\n[dependencies]\ndep = { path = \"../lib\" }\n";
    let expected = "[package]\nname = \"b\"\n\n[dependencies]\ndep = { path = \"/proj/../lib\" }\n";
    assert_eq!(qualify_cargo_toml_paths_in_text(input, "/proj"), expected);
}

#[test]
fn text_without_path_literals_is_unchanged() {
    let input = "[dependencies]\nserde = \"1\"\nname = 'path'\npath_x = \"y\"\n";
    assert_eq!(qualify_cargo_toml_paths_in_text(input, "/proj"), input);
    assert_eq!(qualify_cargo_toml_paths_in_text("", "/proj"), "");
}

#[test]
fn every_occurrence_of_every_spelling_is_rewritten() {
    let input = "a = { path = \"x\" }\nb = { path=\"y\" }\n# path = 'z'\nc = { path='w' }\nd = { path = \"v\" }\n";
    let expected = "a = { path = \"/b/x\" }\nb = { path=\"/b/y\" }\n# path = '/b/z'\nc = { path='/b/w' }\nd = { path = \"/b/v\" }\n";
    assert_eq!(qualify_cargo_toml_paths_in_text(input, "/b"), expected);
}

#[test]
fn base_dir_is_escaped_before_insertion() {
    let input = "dep = { path = \"../lib\" }";
    assert_eq!(
        qualify_cargo_toml_paths_in_text(input, "C:\\proj\\x"),
        "dep = { path = \"C:\\\\proj\\\\x/../lib\" }"
    );
    assert_eq!(
        qualify_cargo_toml_paths_in_text(input, "/it's"),
        "dep = { path = \"/it\\'s/../lib\" }"
    );
    assert_eq!(
        qualify_cargo_toml_paths_in_text(input, "/caf\u{e9}"),
        "dep = { path = \"/caf\\u{e9}/../lib\" }"
    );
}

#[test]
fn escaped_base_is_inserted_as_given() {
    let input = "x = { path='../a' } y = { path = \"b\" }";
    assert_eq!(
        qualify_paths_with_escaped_base(input, "\\\\srv"),
        "x = { path='\\\\srv/../a' } y = { path = \"\\\\srv/b\" }"
    );
}

#[test]
fn non_ascii_text_is_kept() {
    let input = "# d\u{e9}pendances \u{1f600}\ndep = { path = \"../lib\" }";
    let expected = "# d\u{e9}pendances \u{1f600}\ndep = { path = \"/p/../lib\" }";
    assert_eq!(qualify_cargo_toml_paths_in_text(input, "/p"), expected);
}

#[test]
fn rewriting_twice_inserts_base_twice_after_every_opener() {
    let input = "a = { path = \"x\" }\nb = { path = \"y\" }\n# path = \"z\"\n";
    let once = qualify_cargo_toml_paths_in_text(input, "/p");
    let twice = qualify_cargo_toml_paths_in_text(&once, "/p");
    assert_eq!(
        twice,
        "a = { path = \"/p//p/x\" }\nb = { path = \"/p//p/y\" }\n# path = \"/p//p/z\"\n"
    );
    assert_ne!(twice, once);
    assert_eq!(twice.len(), input.len() + 2 * 3 * ("/p".len() + 1));
}
