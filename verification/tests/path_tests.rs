use bundle_rs::path::{rewrite_crate_self_refs, rewrite_line, rewrite_source};

fn crates(names: &[&str]) -> Vec<String> {
    names.iter().map(|s| s.to_string()).collect()
}

#[test]
fn use_of_local_crate_goes_through_crate_root() {
    let c = crates(&["union-find"]);
    assert_eq!(
        rewrite_line("use union_find::UnionFind;", &c),
        "use crate::union_find::UnionFind;"
    );
}

#[test]
fn use_keeps_indent_and_drops_trailing_space() {
    let c = crates(&["query"]);
    assert_eq!(rewrite_line("    use query::Q;  ", &c), "    use crate::query::Q;");
}

#[test]
fn bare_use_of_local_crate() {
    let c = crates(&["query"]);
    assert_eq!(rewrite_line("  use query;", &c), "  use crate::query;");
}

#[test]
fn use_of_other_crate_is_unchanged() {
    let c = crates(&["query"]);
    assert_eq!(rewrite_line("use std::io::Read;", &c), "use std::io::Read;");
    assert_eq!(rewrite_line("use proconio::input;", &c), "use proconio::input;");
}

#[test]
fn macro_path_of_local_crate_is_removed() {
    let c = crates(&["query", "union-find"]);
    assert_eq!(
        rewrite_line("    query::define_query! { union_find::X }", &c),
        "    define_query! { X }"
    );
}

#[test]
fn macro_paths_are_removed_crate_by_crate_in_order() {
    // "ba::f": removing "a::" first leaves "bf"; removing "ba::" first leaves "f".
    assert_eq!(rewrite_line("ba::f()", &crates(&["a", "ba"])), "bf()");
    assert_eq!(rewrite_line("ba::f()", &crates(&["ba", "a"])), "f()");
}

#[test]
fn line_without_crates_is_unchanged() {
    let c = crates(&["query"]);
    assert_eq!(rewrite_line("let x = 1; // query", &c), "let x = 1; // query");
}

#[test]
fn self_refs_become_super_chains() {
    assert_eq!(rewrite_crate_self_refs("use crate::a::B;", 1), "use super::a::B;");
    assert_eq!(
        rewrite_crate_self_refs("    use crate::a::B; use crate::c;", 3),
        "    use super::super::super::a::B; use super::super::super::c;"
    );
}

#[test]
fn self_refs_at_depth_zero() {
    assert_eq!(rewrite_crate_self_refs("use crate::a;", 0), "use ::a;");
}

#[test]
fn self_refs_leave_other_lines() {
    assert_eq!(rewrite_crate_self_refs("pub fn crate_name() {}", 2), "pub fn crate_name() {}");
}

#[test]
fn rewrite_source_keeps_final_newline() {
    let c = crates(&["union-find"]);
    let src = "use union_find::UnionFind;\n\nfn main() {}\n";
    assert_eq!(
        rewrite_source(src, &c),
        "use crate::union_find::UnionFind;\n\nfn main() {}\n"
    );
    assert_eq!(rewrite_source("a\nb", &c), "a\nb");
}

#[test]
fn rewrite_source_normalises_crlf() {
    let c = crates(&[]);
    assert_eq!(rewrite_source("a\r\nb\r\n", &c), "a\nb\n");
}

#[test]
fn rewrite_source_of_empty_text() {
    assert_eq!(rewrite_source("", &crates(&["x"])), "");
}

#[test]
fn no_crate_path_is_left_below_the_root() {
    let out = rewrite_crate_self_refs("use crate::a; use crate::b::{c, d};", 2);
    assert_eq!(out, "use super::super::a; use super::super::b::{c, d};");
    assert!(!out.contains("use crate::"));
}

#[test]
fn each_crate_path_becomes_one_super_path() {
    let line = "use super::x; use crate::y; use crate::z;";
    let out = rewrite_crate_self_refs(line, 3);
    assert_eq!(out.matches("use super::").count(), 1 + 2);
    assert_eq!(out, "use super::x; use super::super::super::y; use super::super::super::z;");
}
