use bundle_rs::strip::{remove_cfg_test, remove_comments};

#[test]
fn line_and_nested_block_comments_are_removed() {
    let src = "fn main() { // hi\n    let s = \"// not\"; /* a /* b */ c */ x\n}\n";
    assert_eq!(
        remove_comments(src),
        "fn main() {\n    let s = \"// not\";  x\n}\n"
    );
}

#[test]
fn doc_comments_are_removed() {
    let src = "//! crate doc\n/// item doc\npub fn f() {}\n";
    assert_eq!(remove_comments(src), "\npub fn f() {}\n");
}

#[test]
fn blank_lines_collapse() {
    assert_eq!(remove_comments("a\n\n\n\nb\n"), "a\n\nb\n");
}

#[test]
fn trailing_whitespace_and_final_newlines() {
    assert_eq!(remove_comments("a   \n// c\n"), "a\n");
    assert_eq!(remove_comments("a\t\n\n\n"), "a\n");
}

#[test]
fn text_without_final_newline_gets_one() {
    assert_eq!(remove_comments("let x = 1;"), "let x = 1;\n");
}

#[test]
fn empty_text_stays_empty() {
    assert_eq!(remove_comments(""), "");
    assert_eq!(remove_comments("// only a comment"), "");
}

#[test]
fn char_literals_are_kept() {
    assert_eq!(remove_comments("let c = '/'; // x\n"), "let c = '/';\n");
    assert_eq!(remove_comments("let c = '\\n'; // x\n"), "let c = '\\n';\n");
}

#[test]
fn raw_strings_are_kept() {
    let src = "let r = r#\"/* not */ \"// x\"#; // c\n";
    assert_eq!(remove_comments(src), "let r = r#\"/* not */ \"// x\"#;\n");
}

#[test]
fn escaped_quote_in_string_is_kept() {
    let src = "let s = \"a\\\"// b\"; // c\n";
    assert_eq!(remove_comments(src), "let s = \"a\\\"// b\";\n");
}

#[test]
fn lifetimes_pass_through() {
    let src = "fn f<'a>(x: &'a str) {} // c\n";
    assert_eq!(remove_comments(src), "fn f<'a>(x: &'a str) {}\n");
}

#[test]
fn unterminated_block_comment_runs_to_the_end() {
    assert_eq!(remove_comments("a /* b\nc\n"), "a\n");
}

#[test]
fn cfg_test_module_is_removed() {
    let src = "fn a() {}\n#[cfg(test)]\nmod tests {\n    #[test]\n    fn t() {}\n}\nfn b() {}\n";
    assert_eq!(remove_cfg_test(src), "fn a() {}\nfn b() {}\n");
}

#[test]
fn cfg_test_single_item_is_removed() {
    assert_eq!(remove_cfg_test("#[cfg(test)]\nuse foo;\nfn x() {}"), "fn x() {}");
}

#[test]
fn cfg_test_on_the_last_line() {
    assert_eq!(remove_cfg_test("fn x() {}\n    #[cfg(test)]\n"), "fn x() {}\n");
}

#[test]
fn cfg_test_block_on_one_line() {
    assert_eq!(
        remove_cfg_test("#[cfg(test)]\nmod t { fn f() {} }\nfn g() {}\n"),
        "fn g() {}\n"
    );
}

#[test]
fn cfg_test_unclosed_block_runs_to_the_end() {
    assert_eq!(remove_cfg_test("a\n#[cfg(test)]\nmod t {\nfn f() {\n"), "a\n");
}

#[test]
fn text_without_cfg_test_is_kept() {
    assert_eq!(remove_cfg_test("a\nb\n"), "a\nb\n");
    assert_eq!(remove_cfg_test("a\r\nb"), "a\nb");
}


#[test]
fn the_bundled_separator_line_is_kept() {
    assert_eq!(remove_comments("// --- bundled ---\n"), "// --- bundled ---\n");
    assert_eq!(
        remove_comments("fn main() {}\n\n  // --- bundled ---  \n\npub mod a {} // x\n"),
        "fn main() {}\n\n  // --- bundled ---\n\npub mod a {}\n"
    );
    assert_eq!(remove_comments("x // --- bundled ---\n"), "x\n");
    assert_eq!(remove_comments("// --- bundled --- more\n"), "\n");
}

#[test]
fn text_without_cfg_test_is_unchanged() {
    let src = "fn a() {}\n\nmod m {\n    fn b() {}\n}\n";
    assert_eq!(remove_cfg_test(src), src);
}

#[test]
fn kept_lines_stay_in_order() {
    let src = "a\n#[cfg(test)]\nmod t {\n  x\n}\nb\n#[cfg(test)]\nuse y;\nc";
    assert_eq!(remove_cfg_test(src), "a\nb\nc");
}

#[test]
fn a_division_sign_is_no_comment() {
    assert_eq!(remove_comments("let x = a / b;  \n\n\n\nlet y = 1;\n\n"), "let x = a / b;\n\nlet y = 1;\n");
}
