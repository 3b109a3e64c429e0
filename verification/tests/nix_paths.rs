use nixbench::{
    attrpaths_len, nix_env_args, nix_env_path,
    chunk_count, eval_version, load_nix_paths, order_nix_paths, sort_nix_paths, standardize_version,
    strip_nix_hash,
};

fn strings(v: &[&str]) -> Vec<String> {
    v.iter().map(|s| s.to_string()).collect()
}

#[test]
fn strip_nix_hash_takes_name_after_hash() {
    assert_eq!(strip_nix_hash("/nix/store/abc123-nix-2.35.0"), Some("nix-2.35.0"));
    assert_eq!(strip_nix_hash("/nix/store/h-lix-2.93.3"), Some("lix-2.93.3"));
    assert_eq!(strip_nix_hash("/nix/store/-x"), Some("x"));
}

#[test]
fn strip_nix_hash_rejects_other_paths() {
    assert_eq!(strip_nix_hash("/usr/bin/nix"), None);
    assert_eq!(strip_nix_hash("/nix/store/nohash"), None);
    assert_eq!(strip_nix_hash("/nix/store"), None);
    assert_eq!(strip_nix_hash(""), None);
}

#[test]
fn standardize_version_examples() {
    assert_eq!(standardize_version("nix-2.35.0pre20260413_bec8cdc").as_deref(), Some("nix-2.35"));
    assert_eq!(standardize_version("nix-2.34.5").as_deref(), Some("nix-2.34"));
    assert_eq!(standardize_version("nix-2.30.4+1").as_deref(), Some("nix-2.30"));
    assert_eq!(standardize_version("lix-2.96.0-devpre20260411-dev_9899ed2").as_deref(), Some("lix-2.96"));
    assert_eq!(standardize_version("lix-2.95.1").as_deref(), Some("lix-2.95"));
}

#[test]
fn standardize_version_skips_to_first_minor_digit() {
    assert_eq!(standardize_version("nix-2.x5").as_deref(), Some("nix-2.5"));
    assert_eq!(standardize_version("nix-2..7b").as_deref(), Some("nix-2.7"));
    assert_eq!(standardize_version("nix-10.123rc1").as_deref(), Some("nix-10.123"));
}

#[test]
fn standardize_version_rejects() {
    assert_eq!(standardize_version("guix-2.3"), None);
    assert_eq!(standardize_version("nix"), None);
    assert_eq!(standardize_version("nix-2"), None);
    assert_eq!(standardize_version("nix-2."), None);
    assert_eq!(standardize_version("nix-.3"), None);
    assert_eq!(standardize_version("nix-2a.3"), None);
    assert_eq!(standardize_version("nixx-2.3"), None);
    assert_eq!(standardize_version("nix-"), None);
}

#[test]
fn standardize_version_is_idempotent_on_example() {
    let once = standardize_version("nix-2.28.6").unwrap();
    assert_eq!(standardize_version(&once).as_deref(), Some("nix-2.28"));
}

#[test]
fn sort_nix_paths_orders_by_name() {
    let paths = strings(&[
        "/nix/store/zzz-nix-2.20.10",
        "/nix/store/aaa-nix-2.18.10",
        "/nix/store/mmm-lix-2.91.3",
        "/nix/store/bbb-nix-2.19.8",
    ]);
    let sorted = sort_nix_paths(paths);
    assert_eq!(
        sorted,
        strings(&[
            "/nix/store/mmm-lix-2.91.3",
            "/nix/store/aaa-nix-2.18.10",
            "/nix/store/bbb-nix-2.19.8",
            "/nix/store/zzz-nix-2.20.10",
        ])
    );
}

#[test]
fn sort_nix_paths_is_stable_for_equal_names() {
    let paths = strings(&[
        "/nix/store/zzz-nix-2.20.10",
        "/other/b",
        "/nix/store/aaa-nix-2.20.10",
        "/other/a",
        "/nix/store/ccc-nix-2.18.10",
    ]);
    let sorted = sort_nix_paths(paths);
    assert_eq!(
        sorted,
        strings(&[
            "/other/b",
            "/other/a",
            "/nix/store/ccc-nix-2.18.10",
            "/nix/store/zzz-nix-2.20.10",
            "/nix/store/aaa-nix-2.20.10",
        ])
    );
}

#[test]
fn sort_nix_paths_empty() {
    assert_eq!(sort_nix_paths(Vec::new()), Vec::<String>::new());
}

#[test]
fn order_nix_paths_removes_duplicates() {
    let paths = strings(&[
        "/nix/store/zzz-nix-2.20.10",
        "/nix/store/aaa-nix-2.20.10",
        "/nix/store/zzz-nix-2.20.10",
        "/nix/store/ccc-nix-2.18.10",
        "/nix/store/aaa-nix-2.20.10",
    ]);
    assert_eq!(
        order_nix_paths(&paths),
        strings(&[
            "/nix/store/ccc-nix-2.18.10",
            "/nix/store/aaa-nix-2.20.10",
            "/nix/store/zzz-nix-2.20.10",
        ])
    );
}

#[test]
fn load_nix_paths_reads_json_array() {
    let text = r#"["/nix/store/b-nix-2.19.8", "/nix/store/a-lix-2.95.1", "/nix/store/b-nix-2.19.8"]"#;
    let paths = load_nix_paths(text).ok().unwrap();
    assert_eq!(paths, strings(&["/nix/store/a-lix-2.95.1", "/nix/store/b-nix-2.19.8"]));
}

#[test]
fn load_nix_paths_rejects_malformed_json() {
    let err = load_nix_paths("[\"/nix/store/a-nix-2.3\"").err().unwrap();
    assert!(!err.message.is_empty());
    assert!(load_nix_paths("{\"a\": 1}").is_err());
    assert!(load_nix_paths("[1, 2]").is_err());
}

#[test]
fn eval_version_of_store_path() {
    assert_eq!(eval_version("/nix/store/abc-nix-2.31.4").as_deref(), Some("nix-2.31"));
    assert_eq!(eval_version("/nix/store/abc-lix-2.94.1").as_deref(), Some("lix-2.94"));
    assert_eq!(eval_version("/nix/store/abc-hello-2.12"), None);
    assert_eq!(eval_version("/opt/nix-2.31.4"), None);
}

#[test]
fn chunk_count_is_ceiling() {
    assert_eq!(chunk_count(1, 15000), 1);
    assert_eq!(chunk_count(15000, 15000), 1);
    assert_eq!(chunk_count(15001, 15000), 2);
    assert_eq!(chunk_count(30000, 15000), 2);
    assert_eq!(chunk_count(30001, 15000), 3);
    assert_eq!(chunk_count(7, 1), 7);
}

#[test]
fn non_ascii_text_is_handled_by_character() {
    assert_eq!(standardize_version("nix-2.é3ü").as_deref(), Some("nix-2.3"));
    assert_eq!(strip_nix_hash("/nix/store/häsh-nix-2.3"), Some("nix-2.3"));
    assert_eq!(eval_version("/nix/store/ß-lix-2.91.3"), Some("lix-2.91".to_string()));
}

#[test]
fn sort_nix_paths_orders_names_by_code_point() {
    let paths = strings(&["/nix/store/a-é", "/nix/store/b-z", "/nix/store/c-Z"]);
    assert_eq!(
        sort_nix_paths(paths),
        strings(&["/nix/store/c-Z", "/nix/store/b-z", "/nix/store/a-é"])
    );
}

#[test]
fn attrpaths_len_measures_top_level() {
    assert_eq!(attrpaths_len(r#"["a", "b", "c"]"#).ok(), Some(3));
    assert_eq!(attrpaths_len(r#"{"a": 1, "b": 2, "a": 3}"#).ok(), Some(2));
    assert_eq!(attrpaths_len(r#""héllo""#).ok(), Some(6));
    assert_eq!(attrpaths_len("42").ok(), Some(0));
    assert_eq!(attrpaths_len("null").ok(), Some(0));
    assert_eq!(attrpaths_len("[]").ok(), Some(0));
    assert!(attrpaths_len("[1, 2").is_err());
}

#[test]
fn nix_env_program_and_arguments() {
    assert_eq!(nix_env_path("/nix/store/abc-nix-2.31.4"), "/nix/store/abc-nix-2.31.4/bin/nix-env");
    let args = nix_env_args("/src/nixpkgs", "/tmp/attrpaths.json", 15000, 7);
    let expected = strings(&[
        "-f",
        "/src/nixpkgs/ci/eval/chunk.nix",
        "--option",
        "restrict-eval",
        "true",
        "--option",
        "allow-import-from-derivation",
        "false",
        "--query",
        "--available",
        "--out-path",
        "--json",
        "--meta",
        "--show-trace",
        "--arg",
        "chunkSize",
        "15000",
        "--arg",
        "myChunk",
        "7",
        "--arg",
        "attrpathFile",
        "/tmp/attrpaths.json",
        "--arg",
        "systems",
        "[ \"x86_64-linux\" ]",
        "--arg",
        "includeBroken",
        "false",
        "--argstr",
        "extraNixpkgsConfigJson",
        "{}",
        "-I",
        "/src/nixpkgs",
        "-I",
        "/tmp/attrpaths.json",
    ]);
    assert_eq!(args, expected);
}

#[test]
fn nix_env_args_join_and_chunk_size() {
    let args = nix_env_args("/src/nixpkgs/", "a.json", 500, 0);
    assert_eq!(args[1], "/src/nixpkgs/ci/eval/chunk.nix");
    assert_eq!(args[16], "500");
    assert_eq!(args[19], "0");
    let args = nix_env_args("", "a.json", 1, 12);
    assert_eq!(args[1], "ci/eval/chunk.nix");
    assert_eq!(args[19], "12");
}

#[test]
fn json_errors_keep_their_category() {
    let eof = load_nix_paths("[\"/nix/store/a-nix-2.3\"").err().unwrap();
    assert_eq!(eof.category, nixbench::JsonErrorCategory::Eof);
    let data = load_nix_paths("[1, 2]").err().unwrap();
    assert_eq!(data.category, nixbench::JsonErrorCategory::Data);
    let syntax = attrpaths_len("[1 2]").err().unwrap();
    assert_eq!(syntax.category, nixbench::JsonErrorCategory::Syntax);
}

#[test]
fn standardized_version_ignores_non_digit_suffix() {
    for x in ["", ".10", "pre2026", "-dev_9899ed2", "+1"] {
        assert_eq!(standardize_version(&format!("nix-2.18{x}")).as_deref(), Some("nix-2.18"));
    }
}
