use staged_build::config::BuildEnv;
use staged_build::config::EnvError;

fn s(v: &str) -> Option<String> {
    Some(v.to_string())
}

#[test]
fn optional_variables_default_to_empty() {
    let env = match BuildEnv::from_vars(s("/bin/cargo"), None, s("/bin"), None, s("/proj"), None, None) {
        Ok(e) => e,
        Err(_) => panic!("required variables were all given"),
    };
    assert_eq!(env.cargo, "/bin/cargo");
    assert_eq!(env.temp, "");
    assert_eq!(env.path, "/bin");
    assert_eq!(env.ssh_auth_sock, "");
    assert_eq!(env.manifest_dir, "/proj");
    assert_eq!(env.rustup_home, "");
    assert_eq!(env.rustup_toolchain, "");
}

#[test]
fn missing_required_variables_are_reported_in_order() {
    assert!(matches!(
        BuildEnv::from_vars(None, None, None, None, None, None, None),
        Err(EnvError::MissingCargo)
    ));
    assert!(matches!(
        BuildEnv::from_vars(s("c"), s("t"), None, None, None, None, None),
        Err(EnvError::MissingPath)
    ));
    assert!(matches!(
        BuildEnv::from_vars(s("c"), s("t"), s("p"), s("a"), None, s("h"), s("n")),
        Err(EnvError::MissingManifestDir)
    ));
}

#[test]
fn compile_env_is_the_allow_list() {
    let env = match BuildEnv::from_vars(s("c"), s("/t"), s("/bin"), s("/sock"), s("/m"), s("/rh"), s("stable")) {
        Ok(e) => e,
        Err(_) => panic!("required variables were all given"),
    };
    let vars = env.compile_env("C:\\Windows".to_string());
    let expected: Vec<(&str, String)> = vec![
        ("TEMP", "/t".to_string()),
        ("SYSTEMROOT", "C:\\Windows".to_string()),
        ("PATH", "/bin".to_string()),
        ("SSH_AUTH_SOCK", "/sock".to_string()),
        ("RUSTUP_HOME", "/rh".to_string()),
        ("RUSTUP_TOOLCHAIN", "stable".to_string()),
    ];
    assert_eq!(vars, expected);
}
