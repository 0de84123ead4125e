use bundle_rs::manifest::{
    check_manifest, external_dep_entries, external_deps_of, local_dep_paths, local_deps_of,
    merge_external_deps, ManifestError, TomlValue,
};

const MANIFEST: &str = "[package]\nname = \"unionfind\"\nversion = \"0.1.0\"\nedition = \"2024\"\n\n[dependencies]\nproconio = { version = \"0.5.0\", features = [\"derive\"] }\nquery = { path = \"../../../macro/query\" }\nunion-find = { path = \"../../../data-structure/union-find\" }\nserde = \"1\"\n";

#[test]
fn local_dependencies_are_those_with_a_path() {
    let deps = local_dep_paths(MANIFEST).ok().unwrap();
    assert_eq!(
        deps,
        vec![
            ("query".to_string(), "../../../macro/query".to_string()),
            ("union-find".to_string(), "../../../data-structure/union-find".to_string()),
        ]
    );
}

#[test]
fn external_dependencies_are_those_without_a_path() {
    let deps = external_dep_entries(MANIFEST).ok().unwrap();
    let names: Vec<&str> = deps.iter().map(|(n, _)| n.as_str()).collect();
    assert_eq!(names, vec!["proconio", "serde"]);
    match &deps[1].1 {
        TomlValue::String(s) => assert_eq!(s, "1"),
        _ => panic!("serde's version is a string"),
    }
    match &deps[0].1 {
        TomlValue::Table(t) => {
            assert_eq!(t[0].0, "features");
            assert_eq!(t[1].0, "version");
        }
        _ => panic!("proconio's entry is a table"),
    }
}

#[test]
fn manifest_without_dependencies() {
    assert!(local_dep_paths("[package]\nname = \"x\"\n").ok().unwrap().is_empty());
    assert!(external_dep_entries("").ok().unwrap().is_empty());
}

#[test]
fn a_path_that_is_not_a_string_is_no_local_dependency() {
    let m = "[dependencies]\na = { path = 3 }\n";
    assert!(local_dep_paths(m).ok().unwrap().is_empty());
    assert!(external_dep_entries(m).ok().unwrap().is_empty());
}

#[test]
fn invalid_toml_is_an_error() {
    assert!(local_dep_paths("[dependencies\n").is_err());
    assert!(external_dep_entries("a = ").is_err());
}

fn s(x: &str) -> TomlValue {
    TomlValue::String(x.to_string())
}

#[test]
fn merge_keeps_the_first_entry_of_each_name() {
    let own = vec!["serde".to_string()];
    let libs = vec![
        vec![("a".to_string(), s("1")), ("serde".to_string(), s("2"))],
        vec![("a".to_string(), s("2")), ("b".to_string(), TomlValue::Integer(3))],
        vec![("a".to_string(), s("1"))],
    ];
    let (added, conflicts) = merge_external_deps(&own, &libs);
    assert_eq!(
        added,
        vec![("a".to_string(), s("1")), ("b".to_string(), TomlValue::Integer(3))]
    );
    assert_eq!(conflicts, vec![("a".to_string(), s("1"))]);
}

#[test]
fn merge_reports_conflicts_on_names_the_table_already_has() {
    let own = vec!["x".to_string()];
    let libs = vec![
        vec![("x".to_string(), s("1"))],
        vec![("x".to_string(), TomlValue::Table(vec![("version".to_string(), s("1"))]))],
    ];
    let (added, conflicts) = merge_external_deps(&own, &libs);
    assert!(added.is_empty());
    assert_eq!(conflicts, vec![("x".to_string(), s("1"))]);
}

#[test]
fn merge_of_equal_tables_has_no_conflict() {
    let t = || TomlValue::Table(vec![
        ("features".to_string(), TomlValue::Array(vec![s("derive")])),
        ("version".to_string(), s("0.5.0")),
    ]);
    let libs = vec![vec![("p".to_string(), t())], vec![("p".to_string(), t())]];
    let (added, conflicts) = merge_external_deps(&Vec::new(), &libs);
    assert_eq!(added, vec![("p".to_string(), t())]);
    assert!(conflicts.is_empty());
}

#[test]
fn merge_of_manifests_read_by_the_parser() {
    let a = external_dep_entries("[dependencies]\nrand = \"0.8\"\nitertools = \"0.12\"\n").ok().unwrap();
    let b = external_dep_entries("[dependencies]\nrand = \"0.9\"\nlocal = { path = \"../x\" }\n").ok().unwrap();
    let (added, conflicts) = merge_external_deps(&vec!["itertools".to_string()], &vec![a, b]);
    assert_eq!(added, vec![("rand".to_string(), s("0.8"))]);
    assert_eq!(conflicts, vec![("rand".to_string(), s("0.8"))]);
}

#[test]
fn check_manifest_replaces_local_dependencies_by_the_libraries_registry_ones() {
    let main = "[package]\nname = \"x\"\n\n[dependencies]\nq = { path = \"../q\" }\nserde = \"1\"\n";
    let libs = vec![
        vec![("rand".to_string(), s("0.8")), ("serde".to_string(), s("2"))],
        vec![("rand".to_string(), s("0.9"))],
    ];
    let (text, conflicts) = check_manifest(main, &libs).ok().unwrap();
    assert!(local_dep_paths(&text).ok().unwrap().is_empty());
    assert_eq!(
        external_dep_entries(&text).ok().unwrap(),
        vec![("rand".to_string(), s("0.8")), ("serde".to_string(), s("1"))]
    );
    assert_eq!(conflicts, vec![("rand".to_string(), s("0.8"))]);
    assert!(text.contains("name = \"x\""));
}

#[test]
fn check_manifest_without_dependencies_is_unchanged() {
    let main = "[package]\nname = \"x\"\n";
    let libs = vec![vec![("a".to_string(), s("1"))], vec![("a".to_string(), s("2"))]];
    let (text, conflicts) = check_manifest(main, &libs).ok().unwrap();
    assert!(external_dep_entries(&text).ok().unwrap().is_empty());
    assert!(conflicts.is_empty());
    assert!(text.contains("name = \"x\""));
}

#[test]
fn check_manifest_of_invalid_toml_is_an_error() {
    assert!(matches!(check_manifest("[package", &vec![]), Err(ManifestError::Toml(_))));
}

#[test]
fn readers_of_a_parsed_document() {
    let doc = TomlValue::Table(vec![(
        "dependencies".to_string(),
        TomlValue::Table(vec![
            ("a".to_string(), TomlValue::Table(vec![("path".to_string(), s("../a"))])),
            ("b".to_string(), s("1")),
            ("c".to_string(), TomlValue::Table(vec![("path".to_string(), TomlValue::Integer(1))])),
        ]),
    )]);
    assert_eq!(local_deps_of(&doc), vec![("a".to_string(), "../a".to_string())]);
    assert_eq!(external_deps_of(&doc), vec![("b".to_string(), s("1"))]);
    assert!(local_deps_of(&s("x")).is_empty());
}

#[test]
fn floats_conflict_as_f64_values_do() {
    let f = |t: &str| TomlValue::Float(t.to_string());
    let libs = vec![
        vec![("a".to_string(), f("NaN")), ("z".to_string(), f("0"))],
        vec![("a".to_string(), f("NaN")), ("z".to_string(), f("-0"))],
    ];
    let (_, conflicts) = merge_external_deps(&Vec::new(), &libs);
    assert_eq!(conflicts, vec![("a".to_string(), f("NaN"))]);
    let libs = vec![vec![("x".to_string(), f("1.5"))], vec![("x".to_string(), f("2"))]];
    let (_, conflicts) = merge_external_deps(&Vec::new(), &libs);
    assert_eq!(conflicts, vec![("x".to_string(), f("1.5"))]);
}
