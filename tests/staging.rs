use staged_build::staging::is_strictly_within;
use staged_build::staging::staging_dir_name;
use staged_build::staging::BuildDir;

fn components(parts: &[&str]) -> Vec<Vec<u8>> {
    parts.iter().map(|p| p.as_bytes().to_vec()).collect()
}

#[test]
fn staging_name_carries_the_seconds() {
    assert_eq!(staging_dir_name(1700000000), b"build-script-1700000000".to_vec());
    assert_eq!(staging_dir_name(0), b"build-script-0".to_vec());
    assert_eq!(
        staging_dir_name(u64::MAX),
        b"build-script-18446744073709551615".to_vec()
    );
}

#[test]
fn fresh_staging_dir_lies_under_temp_root() {
    let root = components(&["/", "tmp"]);
    let dir = BuildDir::new(&root, 42);
    assert_eq!(dir.path, components(&["/", "tmp", "build-script-42"]));
    assert!(dir.may_remove(&root));
}

#[test]
fn altered_staging_dir_is_not_removed() {
    let root = components(&["/", "tmp"]);
    let mut dir = BuildDir::new(&root, 42);
    dir.path = components(&["/", "home", "user"]);
    assert!(!dir.may_remove(&root));
    dir.path = components(&["/", "tmp"]);
    assert!(!dir.may_remove(&root));
    dir.path = components(&["/"]);
    assert!(!dir.may_remove(&root));
    dir.path = components(&["/", "tmpx", "build-script-42"]);
    assert!(!dir.may_remove(&root));
}

#[test]
fn within_compares_whole_components() {
    let root = components(&["/", "tmp"]);
    assert!(is_strictly_within(&components(&["/", "tmp", "a", "b"]), &root));
    assert!(!is_strictly_within(&components(&["/", "tm", "a"]), &root));
    assert!(!is_strictly_within(&components(&["/", "tmp"]), &root));
}

#[test]
fn staged_paths_of_manifest_and_executable() {
    let root = components(&["/", "tmp"]);
    let dir = BuildDir::new(&root, 7);
    assert_eq!(
        dir.manifest_path(),
        components(&["/", "tmp", "build-script-7", "Cargo.toml"])
    );
    assert_eq!(
        dir.executable_path(&b"gen".to_vec()),
        components(&["/", "tmp", "build-script-7", "target", "debug", "gen"])
    );
}

#[test]
fn path_leaving_root_through_dots_is_not_removed() {
    let root = components(&["/", "tmp"]);
    let mut dir = BuildDir::new(&root, 42);
    dir.path = components(&["/", "tmp", "..", "etc"]);
    assert!(!dir.may_remove(&root));
    dir.path = components(&["/", "tmp", ".", "x"]);
    assert!(!dir.may_remove(&root));
    dir.path = components(&["/", "tmp", "/etc"]);
    assert!(!dir.may_remove(&root));
    dir.path = components(&["/", "tmp", "../x"]);
    assert!(!dir.may_remove(&root));
    dir.path = components(&["/", "tmp", "a\\..\\b"]);
    assert!(!dir.may_remove(&root));
    dir.path = components(&["/", "tmp", ""]);
    assert!(!dir.may_remove(&root));
    dir.path = components(&["/", "tmp", "build-script-42", "..."]);
    assert!(dir.may_remove(&root));
}
