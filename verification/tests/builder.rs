use map_segments::arguments::{is_package_name_argument, Arguments};
use map_segments::builder::{
    build_script_hash_from_fingerprint, cargo_build_args, choose_elf, dep_bin_file_name,
    fingerprint_file_name, flag_is_set, flag_value, is_trimmed_lower_hex_of,
    build_script_run_path, dep_bin_path, fingerprint_directory_path, fingerprint_json_path,
    memory_x_path, root_output_path,
    matches_build_script_run, BuildFlag, BuildOption,
};

fn no_arguments() -> Arguments {
    Arguments {
        binary: None,
        bin: None,
        example: None,
        release: false,
        features: None,
        all_features: false,
        no_default_features: false,
        profile: None,
        target: None,
        package: None,
        manifest_path: None,
        memory_map: None,
        width: None,
    }
}

#[test]
fn default_build_arguments() {
    assert_eq!(
        cargo_build_args(&no_arguments()),
        vec!["build".to_string(), "--message-format=json".to_string()]
    );
}

#[test]
fn passthrough_build_arguments() {
    let mut a = no_arguments();
    a.release = true;
    a.no_default_features = true;
    a.bin = Some("app".to_string());
    a.features = Some("defmt".to_string());
    a.manifest_path = Some("x/Cargo.toml".to_string());
    assert!(flag_is_set(&a, BuildFlag::Release));
    assert!(!flag_is_set(&a, BuildFlag::AllFeatures));
    assert_eq!(flag_value(&a, BuildOption::FeaturesShort), Some("defmt".to_string()));
    assert_eq!(flag_value(&a, BuildOption::Target), None);
    assert_eq!(
        cargo_build_args(&a),
        vec![
            "build",
            "--message-format=json",
            "--release",
            "--no-default-features",
            "--bin",
            "app",
            "--features",
            "defmt",
            "-F",
            "defmt",
            "--manifest-path",
            "x/Cargo.toml",
        ]
    );
}

#[test]
fn elf_choice() {
    let a = no_arguments();
    let none = choose_elf(&vec![], &a);
    assert!(none.path.is_none());
    assert!(!none.warn_multiple);
    let two = choose_elf(&vec!["a".to_string(), "b".to_string()], &a);
    assert_eq!(two.path, Some("a".to_string()));
    assert!(two.warn_multiple);
    let mut picked = no_arguments();
    picked.example = Some("demo".to_string());
    assert!(!choose_elf(&vec!["a".to_string(), "b".to_string()], &picked).warn_multiple);
}

#[test]
fn package_name_argument() {
    assert!(is_package_name_argument(1, Some("map-segments")));
    assert!(!is_package_name_argument(0, Some("map-segments")));
    assert!(!is_package_name_argument(1, Some("--bin")));
    assert!(!is_package_name_argument(1, None));
}

#[test]
fn fingerprint_file_names() {
    assert_eq!(dep_bin_file_name("fw"), "dep-bin-fw");
    assert_eq!(fingerprint_file_name("fw"), "bin-fw.json");
}

#[test]
fn build_script_hash_from_json() {
    let json = r#"{"rustc":1,"deps":[[0,"core",false,11],[1,"build_script_build",false,12345],[2,"build_script_build",false,7]]}"#;
    assert_eq!(build_script_hash_from_fingerprint(json), Some(12345));
    assert_eq!(build_script_hash_from_fingerprint(r#"{"deps":[[0,"core",false,1]]}"#), None);
    assert_eq!(build_script_hash_from_fingerprint(r#"{"deps":[[0,"build_script_build",false,"x"]]}"#), None);
    assert_eq!(build_script_hash_from_fingerprint(r#"{"deps":3}"#), None);
    assert_eq!(build_script_hash_from_fingerprint("not json"), None);
}

#[test]
fn build_script_run_file_contents() {
    let hash: u64 = 0x0123_4567_89ab_cdef;
    let expected = format!("{:x}", hash.to_be());
    assert!(matches_build_script_run(&format!("  {}\n", expected), hash));
    assert!(!matches_build_script_run(&format!("{}0", expected), hash));
    if hash.to_be() != hash {
        assert!(matches_build_script_run("efcdab8967452301", hash));
        assert!(!matches_build_script_run("123456789abcdef", hash));
    }
}

#[test]
fn trimmed_lower_hex() {
    assert!(is_trimmed_lower_hex_of("\t1f\n", 0x1f));
    assert!(is_trimmed_lower_hex_of("0", 0));
    assert!(!is_trimmed_lower_hex_of("1F", 0x1f));
    assert!(!is_trimmed_lower_hex_of("01f", 0x1f));
    assert!(!is_trimmed_lower_hex_of("", 0));
    assert!(is_trimmed_lower_hex_of("ffffffffffffffff", u64::MAX));
}

#[test]
fn fingerprint_paths() {
    assert_eq!(fingerprint_directory_path(), vec![".fingerprint"]);
    assert_eq!(dep_bin_path("app-1f2e", "app"), vec![".fingerprint", "app-1f2e", "dep-bin-app"]);
    assert_eq!(
        fingerprint_json_path("app-1f2e", "app"),
        vec![".fingerprint", "app-1f2e", "bin-app.json"]
    );
    assert_eq!(
        build_script_run_path("app-9a"),
        vec![".fingerprint", "app-9a", "run-build-script-build-script-build"]
    );
    assert_eq!(root_output_path("app-9a"), vec!["build", "app-9a", "root-output"]);
    assert_eq!(
        memory_x_path("  /t/debug/build/app-9a/out\n"),
        vec!["/t/debug/build/app-9a/out", "memory.x"]
    );
}
