use bundle_rs::deps::{find_used_crates, topological_sort, DepInfo, DepResolver};

fn info(path: &str, deps: &[&str]) -> DepInfo {
    DepInfo { path: path.to_string(), deps: deps.iter().map(|s| s.to_string()).collect() }
}

fn table(entries: &[(&str, &[&str])]) -> Vec<(String, DepInfo)> {
    entries.iter().map(|(n, d)| (n.to_string(), info(&format!("/p/{}", n), d))).collect()
}

#[test]
fn dependencies_come_first() {
    let g = table(&[("a", &["b"]), ("b", &[]), ("c", &["a", "b", "z"])]);
    assert_eq!(topological_sort(&g), vec!["b", "a", "c"]);
}

#[test]
fn independent_crates_in_name_order() {
    let g = table(&[("union-find", &[]), ("query", &[]), ("fenwick", &["query"])]);
    assert_eq!(topological_sort(&g), vec!["query", "union-find", "fenwick"]);
}

#[test]
fn crates_ready_together_in_name_order() {
    let g = table(&[("root", &[]), ("zeta", &["root"]), ("alpha", &["root"])]);
    assert_eq!(topological_sort(&g), vec!["root", "alpha", "zeta"]);
}

#[test]
fn crates_follow_the_position_of_their_last_dependency() {
    let g = table(&[("r1", &[]), ("r2", &[]), ("a", &["r2"]), ("b", &["r1"]), ("c", &["a", "r1"])]);
    assert_eq!(topological_sort(&g), vec!["r1", "r2", "b", "a", "c"]);
}

#[test]
fn cycles_are_left_out() {
    let g = table(&[("x", &["y"]), ("y", &["x"]), ("w", &[]), ("v", &["x"])]);
    assert_eq!(topological_sort(&g), vec!["w"]);
}

#[test]
fn empty_table_sorts_to_nothing() {
    assert!(topological_sort(&vec![]).is_empty());
}

#[test]
fn used_crates_and_their_dependencies() {
    let main = "use union_find::UnionFind;\nquery::define_query! {}\nfn main() {}\n";
    let local: Vec<String> = vec!["union-find".into(), "query".into(), "unused".into()];
    let all = table(&[("union-find", &[]), ("query", &["helper"]), ("helper", &["deep"]), ("deep", &[]), ("unused", &[])]);
    let mut used = find_used_crates(main, &local, &all);
    used.sort();
    assert_eq!(used, vec!["deep", "helper", "query", "union-find"]);
}

#[test]
fn no_crate_named_no_crate_used() {
    let local: Vec<String> = vec!["a".into()];
    let all = table(&[("a", &[])]);
    assert!(find_used_crates("fn main() { let a = 1; }", &local, &all).is_empty());
}

#[test]
fn resolver_walks_the_dependency_graph() {
    let mut r = DepResolver::new(vec![("a".to_string(), "/p/a".to_string())]);
    assert_eq!(r.next_request(), Some(("a".to_string(), "/p/a".to_string())));
    r.record(vec![("b".to_string(), "/p/b".to_string()), ("c".to_string(), "/p/c".to_string())]);
    assert_eq!(r.next_request(), Some(("b".to_string(), "/p/b".to_string())));
    r.record(vec![("a".to_string(), "/p/a".to_string()), ("c".to_string(), "/q/c".to_string())]);
    assert_eq!(r.next_request(), Some(("c".to_string(), "/p/c".to_string())));
    r.record(vec![]);
    assert_eq!(r.next_request(), None);
    let all = r.into_deps();
    let names: Vec<&str> = all.iter().map(|(n, _)| n.as_str()).collect();
    assert_eq!(names, vec!["a", "b", "c"]);
    assert_eq!(all[0].1.deps, vec!["b", "c"]);
    assert_eq!(all[1].1.path, "/p/b");
    assert_eq!(all[2].1.path, "/p/c");
    assert!(all[2].1.deps.is_empty());
}

#[test]
fn resolver_without_dependencies() {
    let mut r = DepResolver::new(vec![]);
    assert_eq!(r.next_request(), None);
    assert!(r.into_deps().is_empty());
}

#[test]
fn a_direct_dependency_keeps_its_own_path() {
    let mut r = DepResolver::new(vec![
        ("a".to_string(), "/p/a".to_string()),
        ("b".to_string(), "/p/b".to_string()),
    ]);
    assert_eq!(r.next_request(), Some(("a".to_string(), "/p/a".to_string())));
    r.record(vec![("b".to_string(), "/q/b".to_string())]);
    assert_eq!(r.next_request(), Some(("b".to_string(), "/p/b".to_string())));
    r.record(vec![]);
    assert_eq!(r.next_request(), None);
    let all = r.into_deps();
    assert_eq!(all[1].1.path, "/p/b");
}

#[test]
fn the_order_ignores_how_the_table_is_written() {
    let g1 = table(&[("a", &["b"]), ("b", &[]), ("c", &["a", "b", "z"])]);
    let mut g2 = table(&[("c", &["b", "zz", "a", "b"]), ("b", &["nothing"]), ("a", &["b", "b"])]);
    g2[0].1.path = "/elsewhere".to_string();
    assert_eq!(topological_sort(&g1), topological_sort(&g2));
}
