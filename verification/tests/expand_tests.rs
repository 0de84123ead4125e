use bundle_rs::strip::remove_comments;
use bundle_rs::expand::{
    expand_module_source, expansion_fits, is_inline_mod_open, parse_external_mod, SourceFile,
};

fn file(path: &str, content: &str) -> SourceFile {
    SourceFile { path: path.to_string(), content: content.to_string() }
}

fn crates(names: &[&str]) -> Vec<String> {
    names.iter().map(|s| s.to_string()).collect()
}

#[test]
fn external_mod_declarations_parse() {
    let d = parse_external_mod("pub mod union_find;").unwrap();
    assert_eq!(d.visibility, "pub ");
    assert_eq!(d.name, "union_find");
    let d = parse_external_mod("mod a1;").unwrap();
    assert_eq!(d.visibility, "");
    assert_eq!(d.name, "a1");
    let d = parse_external_mod("pub(crate) mod x;").unwrap();
    assert_eq!(d.visibility, "pub(crate) ");
    assert_eq!(d.name, "x");
    let d = parse_external_mod("pub (super) mod y ;;").unwrap();
    assert_eq!(d.visibility, "pub (super) ");
    assert_eq!(d.name, "y");
}

#[test]
fn other_lines_are_no_external_mod() {
    assert!(parse_external_mod("pub mod inner {").is_none());
    assert!(parse_external_mod("mod a { }").is_none());
    assert!(parse_external_mod("mod a").is_none());
    assert!(parse_external_mod("mod ;").is_none());
    assert!(parse_external_mod("mod a-b;").is_none());
    assert!(parse_external_mod("pub(crate mod a;").is_none());
    assert!(parse_external_mod("use a;").is_none());
}

#[test]
fn inline_mod_openings() {
    assert!(is_inline_mod_open("pub mod inner {"));
    assert!(is_inline_mod_open("mod t{"));
    assert!(is_inline_mod_open("pub(crate) mod t {"));
    assert!(!is_inline_mod_open("mod t;"));
    assert!(!is_inline_mod_open("fn f() {"));
    assert!(!is_inline_mod_open("pub(crate mod t {"));
}

#[test]
fn submodule_files_are_inlined() {
    let files = vec![
        file("/src/a.rs", "use crate::b::B;\npub fn f() {}\n"),
        file("/src/b/mod.rs", "pub struct B;\n"),
    ];
    let src = "pub mod a;\nmod b;\nuse crate::a::f;\n";
    let out = expand_module_source(src, "/src", &files, &crates(&[]), "    ", 0, false);
    assert_eq!(
        out,
        "    pub mod a {\n        use super::b::B;\n        pub fn f() {}\n    }\n    mod b {\n        pub struct B;\n    }\n    use crate::a::f;\n"
    );
}

#[test]
fn name_rs_is_preferred_to_mod_rs() {
    let files = vec![file("d/m/mod.rs", "two\n"), file("d/m.rs", "one\n")];
    let out = expand_module_source("mod m;\n", "d", &files, &crates(&[]), "", 0, false);
    assert_eq!(out, "mod m {\n    one\n}\n");
}

#[test]
fn missing_module_file_drops_the_declaration() {
    let out = expand_module_source("mod missing;\nfn f() {}\n", "/src", &vec![], &crates(&[]), "", 0, false);
    assert_eq!(out, "fn f() {}\n");
}

#[test]
fn blank_lines_stay_empty() {
    let out = expand_module_source("a\n\n   \nb\n", "/s", &vec![], &crates(&[]), "  ", 0, false);
    assert_eq!(out, "  a\n\n\n  b\n");
}

#[test]
fn inline_module_deepens_self_refs() {
    let src = "pub mod inner {\n    use crate::x::Y;\n}\nuse crate::x::Z;\n";
    let out = expand_module_source(src, "/s", &vec![], &crates(&[]), "", 0, false);
    assert_eq!(out, "pub mod inner {\n    use super::x::Y;\n}\nuse crate::x::Z;\n");
}

#[test]
fn local_crate_uses_in_submodules() {
    let files = vec![file("/s/m.rs", "use query::Q;\n")];
    let out = expand_module_source("mod m;\n", "/s", &files, &crates(&["query"]), "", 0, false);
    assert_eq!(out, "mod m {\n    use super::query::Q;\n}\n");
}

#[test]
fn comments_are_removed_when_asked() {
    let files = vec![file("/s/m.rs", "// doc\nfn g() {} // x\n")];
    let out = expand_module_source("/// m\nmod m;\n", "/s", &files, &crates(&[]), "", 0, true);
    assert_eq!(out, "\nmod m {\n\n    fn g() {}\n}\n");
}

#[test]
fn expansion_budget() {
    let files = vec![file("/s/m.rs", "x\n")];
    assert!(expansion_fits("mod m;\n", "/s", &files, 0));
    assert!(!expansion_fits("mod m;\n", "/s", &files, usize::MAX));
}

#[test]
fn expanding_without_comments_equals_expanding_the_stripped_text() {
    let src = "fn f() {} // c\n/* b */ struct S;\n";
    let a = expand_module_source(src, "/s", &vec![], &crates(&[]), "  ", 0, true);
    let b = expand_module_source(&remove_comments(src), "/s", &vec![], &crates(&[]), "  ", 0, false);
    assert_eq!(a, b);
    assert!(a.ends_with('\n'));
}

#[test]
fn every_line_carries_the_indent_and_the_count_is_kept() {
    let src = "fn f() {\n    let x = 1;\n\n}\nmod t {\n}\n";
    let out = expand_module_source(src, "/s", &vec![], &crates(&[]), "  ", 0, false);
    for l in out.lines() {
        assert!(l.is_empty() || l.starts_with("  "));
    }
    assert_eq!(out.lines().count(), src.lines().count());
    let files = vec![file("/s/m.rs", "fn g() {}\n")];
    let nested = expand_module_source("mod m;\n", "/s", &files, &crates(&[]), "  ", 0, false);
    assert_eq!(nested, "  mod m {\n      fn g() {}\n  }\n");
}
