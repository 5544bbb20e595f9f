use doc_cache::folders::{
    build_external_node, build_node, common_parent, contains_path, next_below, path_starts_with,
    same_path, virtual_children,
};

fn p(parts: &[&str]) -> Vec<String> {
    parts.iter().map(|s| s.to_string()).collect()
}

#[test]
fn external_node_is_labelled_by_its_full_path() {
    let selected = vec![p(&["C:", "repo", "inc"])];
    let n = build_external_node("C:\\other\\src", &p(&["C:", "other", "src"]), true, &selected);
    assert_eq!(n.id, "C:\\other\\src");
    assert_eq!(n.label, "C:\\other\\src");
    assert_eq!(n.full_path, "C:\\other\\src");
    assert!(n.children.is_empty());
    assert!(n.exists);
    assert!(!n.selected);
    assert!(!n.inside_repo);
    assert_eq!(
        n.registed,
        vec![("arrayA".to_string(), false), ("arrayB".to_string(), false), ("arrayC".to_string(), false)]
    );
}

#[test]
fn external_node_is_selected_when_its_path_is() {
    let selected = vec![p(&["/", "a"]), p(&["/", "x"])];
    let n = build_external_node("/x", &p(&["/", "x"]), false, &selected);
    assert!(!n.exists);
    assert!(n.selected);
    assert!(!n.inside_repo);
    let m = build_external_node("/x/y", &p(&["/", "x", "y"]), true, &selected);
    assert!(!m.selected);
    assert!(!build_external_node("/x", &p(&["/", "x"]), true, &vec![]).selected);
}

#[test]
fn build_node_labels_by_name_inside_and_by_path_outside() {
    let child = build_external_node("/repo/inc/a", &p(&["/", "repo", "inc", "a"]), true, &vec![]);
    let inside = build_node("/repo/inc", "inc", true, false, true, vec![child]);
    assert_eq!(inside.id, "/repo/inc");
    assert_eq!(inside.label, "inc");
    assert_eq!(inside.full_path, "/repo/inc");
    assert_eq!(inside.children.len(), 1);
    assert_eq!(inside.children[0].id, "/repo/inc/a");
    assert!(inside.inside_repo);
    assert_eq!(inside.registed.len(), 3);
    let outside = build_node("/elsewhere/x", "x", false, true, false, vec![]);
    assert_eq!(outside.label, "/elsewhere/x");
    assert!(outside.selected);
    assert!(!outside.exists);
}

#[test]
fn same_path_compares_component_by_component() {
    assert!(same_path(&p(&["/", "a", "b"]), &p(&["/", "a", "b"])));
    assert!(!same_path(&p(&["/", "a", "b"]), &p(&["/", "a"])));
    assert!(!same_path(&p(&["/", "a", "b"]), &p(&["/", "a", "c"])));
    assert!(!same_path(&p(&["/", "a/b"]), &p(&["/", "a", "b"])));
    assert!(same_path(&p(&[]), &p(&[])));
}

#[test]
fn path_starts_with_is_a_prefix_of_components() {
    assert!(path_starts_with(&p(&["/", "repo", "inc"]), &p(&["/", "repo"])));
    assert!(path_starts_with(&p(&["/", "repo"]), &p(&["/", "repo"])));
    assert!(path_starts_with(&p(&["/", "repo"]), &p(&[])));
    assert!(!path_starts_with(&p(&["/", "repo"]), &p(&["/", "repo", "inc"])));
    assert!(!path_starts_with(&p(&["/", "repository"]), &p(&["/", "repo"])));
    assert!(!path_starts_with(&p(&["/", "x", "repo"]), &p(&["/", "repo"])));
}

#[test]
fn contains_path_finds_equal_paths() {
    let all = vec![p(&["/", "a"]), p(&["/", "b", "c"])];
    assert!(contains_path(&all, &p(&["/", "b", "c"])));
    assert!(!contains_path(&all, &p(&["/", "b"])));
    assert!(!contains_path(&vec![], &p(&["/", "b"])));
}

#[test]
fn common_parent_is_the_longest_shared_prefix() {
    let root = p(&["/", "repo"]);
    let paths = vec![p(&["/", "repo", "inc", "a", "b"]), p(&["/", "repo", "inc", "g", "h"])];
    assert_eq!(common_parent(&root, &paths), p(&["/", "repo", "inc"]));
    let one = vec![p(&["/", "repo", "inc", "a"])];
    assert_eq!(common_parent(&root, &one), p(&["/", "repo", "inc", "a"]));
    let nested = vec![p(&["/", "repo", "inc"]), p(&["/", "repo", "inc", "a"])];
    assert_eq!(common_parent(&root, &nested), p(&["/", "repo", "inc"]));
}

#[test]
fn common_parent_falls_back_to_the_repository_root() {
    let root = p(&["/", "repo"]);
    assert_eq!(common_parent(&root, &vec![]), root);
    let apart = vec![p(&["/", "repo", "a"]), p(&["/", "other", "a"])];
    assert_eq!(common_parent(&root, &apart), root);
    let outside = vec![p(&["/", "other", "a"]), p(&["/", "other", "b"])];
    assert_eq!(common_parent(&root, &outside), root);
    let above = vec![p(&["/", "repo", "a"]), p(&["/", "repo2", "a"])];
    assert_eq!(common_parent(&root, &above), root);
}

#[test]
fn next_below_is_one_component_deeper() {
    let base = p(&["/", "repo", "inc"]);
    assert_eq!(next_below(&base, &p(&["/", "repo", "inc", "a", "b"])), Some(p(&["/", "repo", "inc", "a"])));
    assert_eq!(next_below(&base, &p(&["/", "repo", "inc", "a"])), Some(p(&["/", "repo", "inc", "a"])));
    assert_eq!(next_below(&base, &p(&["/", "repo", "inc"])), None);
    assert_eq!(next_below(&base, &p(&["/", "repo", "src", "a"])), None);
    assert_eq!(next_below(&base, &p(&["/", "repo"])), None);
}

#[test]
fn virtual_children_come_once_and_skip_what_exists() {
    let base = p(&["/", "repo", "inc"]);
    let selected = vec![
        p(&["/", "repo", "inc", "g", "h"]),
        p(&["/", "elsewhere", "src"]),
        p(&["/", "repo", "inc", "a", "b"]),
        p(&["/", "repo", "inc", "g", "i"]),
        p(&["/", "repo", "inc", "z"]),
        p(&["/", "repo", "inc"]),
    ];
    let existing = vec![p(&["/", "repo", "inc", "a"])];
    assert_eq!(
        virtual_children(&base, &selected, &existing),
        vec![p(&["/", "repo", "inc", "g"]), p(&["/", "repo", "inc", "z"])]
    );
    assert_eq!(
        virtual_children(&base, &selected, &vec![]),
        vec![p(&["/", "repo", "inc", "g"]), p(&["/", "repo", "inc", "a"]), p(&["/", "repo", "inc", "z"])]
    );
    assert!(virtual_children(&base, &vec![], &existing).is_empty());
}
