use bundle_rs::bundle::{bundle_text, BundledCrate};
use bundle_rs::deps::{used_deps, DepInfo};
use bundle_rs::expand::SourceFile;

fn krate(name: &str, lib: &str, dir: &str, files: Vec<SourceFile>) -> BundledCrate {
    BundledCrate {
        name: name.to_string(),
        lib_source: lib.to_string(),
        src_dir: dir.to_string(),
        files,
    }
}

#[test]
fn program_without_crates_is_only_rewritten() {
    let out = bundle_text("fn main() {}\n", &vec![], &vec![], false);
    assert_eq!(out, Some("fn main() {}\n".to_string()));
}

#[test]
fn crates_follow_the_separator_as_modules() {
    let lib = "pub struct X;\n#[cfg(test)]\nmod tests {\n    fn t() {}\n}\n";
    let out = bundle_text(
        "use foo_bar::X;\nfn main() {}",
        &vec!["foo-bar".to_string()],
        &vec![krate("foo-bar", lib, "/c/src", vec![])],
        false,
    );
    assert_eq!(
        out,
        Some(
            "use crate::foo_bar::X;\nfn main() {}\n\n// --- bundled ---\n\npub mod foo_bar {\n    pub struct X;\n}\n\n"
                .to_string()
        )
    );
}

#[test]
fn a_program_ending_in_a_blank_line_gets_no_more() {
    let out = bundle_text(
        "fn main() {}\n\n",
        &vec!["a".to_string()],
        &vec![krate("a", "pub fn f() {}\n", "/a/src", vec![])],
        false,
    );
    assert_eq!(
        out,
        Some("fn main() {}\n\n// --- bundled ---\n\npub mod a {\n    pub fn f() {}\n}\n\n".to_string())
    );
}

// The comment line leaves an empty first line, which the tidying keeps.
#[test]
fn submodules_are_inlined_and_comments_removed_on_request() {
    let files = vec![SourceFile {
        path: "/a/src/inner.rs".to_string(),
        content: "// helper\npub fn g() {}\n".to_string(),
    }];
    let out = bundle_text(
        "use a::inner::g;\n",
        &vec!["a".to_string()],
        &vec![krate("a", "pub mod inner;\n", "/a/src", files)],
        true,
    );
    assert_eq!(
        out,
        Some(
            "use crate::a::inner::g;\n\n// --- bundled ---\n\npub mod a {\n    pub mod inner {\n\n        pub fn g() {}\n    }\n}\n\n"
                .to_string()
        )
    );
}

#[test]
fn only_used_crates_are_kept_in_table_order() {
    let info = |d: &[&str]| DepInfo { path: "/p".to_string(), deps: d.iter().map(|s| s.to_string()).collect() };
    let all = vec![
        ("a".to_string(), info(&[])),
        ("b".to_string(), info(&["c"])),
        ("c".to_string(), info(&[])),
        ("d".to_string(), info(&[])),
    ];
    let local = vec!["a".to_string(), "b".to_string(), "d".to_string()];
    let used = used_deps("use b::Y;\nfn main() {}\n", &local, all);
    let names: Vec<&str> = used.iter().map(|(n, _)| n.as_str()).collect();
    assert_eq!(names, vec!["b", "c"]);
}
