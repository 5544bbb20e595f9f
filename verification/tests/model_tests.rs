use doc_cache::edit::{resolve, sort_nodes, split_named, name_key_of, Edit};
use doc_cache::error::{DocError, ErrorKind};
use doc_cache::model::{is_element_named, DocElement, XmlNode};
use doc_cache::path::parse;
use doc_cache::xml::{parse_document, serialize_element};

const HEAD: &str = "<?xml version=\"1.0\" encoding=\"UTF-8\"?>";

fn doc(xml: &str) -> DocElement {
    parse_document(xml).unwrap()
}

fn written(e: &DocElement) -> String {
    let text = serialize_element(e).unwrap();
    assert!(text.starts_with(HEAD));
    text[HEAD.len()..].to_string()
}

fn named(name: &str, text: &str) -> XmlNode {
    let mut file = DocElement::new("file");
    let mut n = DocElement::new("name");
    n.children.push(XmlNode::Text(text.to_string()));
    file.children.push(XmlNode::Element(n));
    XmlNode::Element({
        let mut e = file;
        e.name = name.to_string();
        e
    })
}

#[test]
fn new_element_is_bare() {
    let e = DocElement::new("files");
    assert_eq!(e.name, "files");
    assert_eq!(e.prefix, None);
    assert_eq!(e.namespace, None);
    assert_eq!(e.namespaces, None);
    assert!(e.attributes.is_empty());
    assert!(e.children.is_empty());
}

#[test]
fn is_element_named_looks_at_the_tag_of_elements_only() {
    assert!(is_element_named(&XmlNode::Element(DocElement::new("file")), "file"));
    assert!(!is_element_named(&XmlNode::Element(DocElement::new("files")), "file"));
    assert!(!is_element_named(&XmlNode::Text("file".to_string()), "file"));
    assert!(!is_element_named(&XmlNode::Comment("file".to_string()), "file"));
}

#[test]
fn child_position_counts_only_children_with_the_tag() {
    let e = doc("<r>text<a/><b/><!-- c --><a/><b/><a/></r>");
    assert_eq!(e.child_position("a", 1), Some(1));
    assert_eq!(e.child_position("a", 2), Some(4));
    assert_eq!(e.child_position("a", 3), Some(6));
    assert_eq!(e.child_position("a", 4), None);
    assert_eq!(e.child_position("b", 2), Some(5));
    assert_eq!(e.child_position("a", 0), None);
    assert_eq!(e.child_position("c", 1), None);
}

#[test]
fn find_child_element_gives_the_first_with_the_tag() {
    let e = doc("<r><a><name>1</name></a><b/><a><name>2</name></a></r>");
    let a = e.find_child_element("a").unwrap();
    assert_eq!(a.get_child_text("name"), Some("1".to_string()));
    assert!(e.find_child_element("c").is_none());
}

#[test]
fn get_child_text_concatenates_text_nodes() {
    let e = doc("<r><name>ab<x/>cd</name><name>second</name></r>");
    assert_eq!(e.get_child_text("name"), Some("abcd".to_string()));
    assert_eq!(e.get_child_text("other"), None);
}

#[test]
fn get_child_text_is_none_for_empty_text() {
    let e = doc("<r><name></name></r>");
    assert_eq!(e.get_child_text("name"), None);
    let f = doc("<r><name><x>inner</x></name></r>");
    assert_eq!(f.get_child_text("name"), None);
}

#[test]
fn text_leaves_out_other_nodes() {
    let mut e = DocElement::new("n");
    e.children.push(XmlNode::Text("a".to_string()));
    e.children.push(XmlNode::CData("b".to_string()));
    e.children.push(XmlNode::Comment("c".to_string()));
    e.children.push(XmlNode::Text("d".to_string()));
    assert_eq!(e.text(), "ad");
}

#[test]
fn get_children_by_name_keeps_document_order() {
    let e = doc("<r><a><name>1</name></a><b/><a><name>2</name></a>x<a/></r>");
    let found = e.get_children_by_name("a");
    assert_eq!(found.len(), 3);
    assert_eq!(found[0].get_child_text("name"), Some("1".to_string()));
    assert_eq!(found[1].get_child_text("name"), Some("2".to_string()));
    assert_eq!(found[2].get_child_text("name"), None);
    assert!(e.get_children_by_name("zz").is_empty());
}

#[test]
fn deep_copy_equals_its_source() {
    let e = doc("<r a=\"1\" b=\"2\"><x><y>t</y></x><!-- c --><?pi data?></r>");
    assert_eq!(e.deep_copy(), e);
}

#[test]
fn resolve_walks_by_tag_and_index() {
    let e = doc("<project><target><name>T1</name></target><x/><target><name>T2</name><groups><group><name>G</name></group></groups></target></project>");
    let t2 = resolve(&e, &parse("/project/target[2]").unwrap()).unwrap();
    assert_eq!(t2.get_child_text("name"), Some("T2".to_string()));
    let g = resolve(&e, &parse("/project/target[2]/groups/group[1]").unwrap()).unwrap();
    assert_eq!(g.get_child_text("name"), Some("G".to_string()));
    let root = resolve(&e, &parse("/project").unwrap()).unwrap();
    assert_eq!(root, &e);
}

#[test]
fn resolve_takes_the_root_for_project_whatever_its_tag() {
    let e = doc("<workspace><target><name>T</name></target></workspace>");
    let t = resolve(&e, &parse("/project/target").unwrap()).unwrap();
    assert_eq!(t.get_child_text("name"), Some("T".to_string()));
}

#[test]
fn resolve_fails_with_not_found() {
    let e = doc("<project><target/></project>");
    for text in ["/project/target[2]", "/project/groups", "/target", "", "/project[2]", "/workspace/target", "/project/target/groups/group"] {
        let err = resolve(&e, &parse(text).unwrap()).unwrap_err();
        assert_eq!(err, DocError::NotFound, "{}", text);
        assert_eq!(err.kind(), ErrorKind::NotFound);
        assert_eq!(err.message(), "not found");
    }
}

#[test]
fn name_key_is_the_name_text_or_empty() {
    assert_eq!(name_key_of(&named("file", "B")), "B");
    assert_eq!(name_key_of(&XmlNode::Element(DocElement::new("file"))), "");
    assert_eq!(name_key_of(&XmlNode::Text("x".to_string())), "");
}

#[test]
fn split_named_keeps_both_orders() {
    let e = doc("<files>t<file><name>B</name></file><x/><file><name>A</name></file><!-- c --></files>");
    let (files, others) = split_named(e.children, "file");
    assert_eq!(files.len(), 2);
    assert_eq!(name_key_of(&files[0]), "B");
    assert_eq!(name_key_of(&files[1]), "A");
    assert_eq!(others.len(), 3);
    assert_eq!(others[0], XmlNode::Text("t".to_string()));
    assert!(is_element_named(&others[1], "x"));
    assert_eq!(others[2], XmlNode::Comment(" c ".to_string()));
}

#[test]
fn sort_nodes_is_stable() {
    let mut nodes = Vec::new();
    for (name, mark) in [("b", "1"), ("a", "2"), ("b", "3"), ("", "4"), ("a", "5")] {
        let mut n = named("file", name);
        if let XmlNode::Element(e) = &mut n {
            e.attributes.push(("mark".to_string(), mark.to_string()));
        }
        nodes.push(n);
    }
    let marks = |v: &Vec<XmlNode>| -> String {
        v.iter()
            .map(|n| match n {
                XmlNode::Element(e) => e.attributes[0].1.clone(),
                _ => String::new(),
            })
            .collect()
    };
    let up = sort_nodes(nodes, true);
    assert_eq!(marks(&up), "42513");
    let down = sort_nodes(up, false);
    assert_eq!(marks(&down), "13254");
}

#[test]
fn sort_files_puts_files_last_in_order() {
    let mut e = doc("<files><file><name>B</name></file><note/><file><name>A</name></file>tail</files>");
    e.sort_files(true);
    assert_eq!(written(&e), "<files><note />tail<file><name>A</name></file><file><name>B</name></file></files>");
    e.sort_files(false);
    assert_eq!(written(&e), "<files><note />tail<file><name>B</name></file><file><name>A</name></file></files>");
}

#[test]
fn sort_group_sorts_the_first_files_container() {
    let mut g = doc("<group><name>G</name><files><file><name>b</name></file><file><name>a</name></file></files><files><file><name>z</name></file><file><name>y</name></file></files></group>");
    g.sort_group(true);
    assert_eq!(written(&g), "<group><name>G</name><files><file><name>a</name></file><file><name>b</name></file></files><files><file><name>z</name></file><file><name>y</name></file></files></group>");
}

#[test]
fn sort_group_without_container_changes_nothing() {
    let mut g = doc("<group><name>G</name></group>");
    g.sort_group(true);
    assert_eq!(written(&g), "<group><name>G</name></group>");
}

#[test]
fn sorting_twice_equals_sorting_once() {
    for ascending in [true, false] {
        let mut once = doc("<group><files><file><name>b</name></file>x<file><name>a</name></file><file><name>b</name><k/></file><file/></files></group>");
        once.sort_group(ascending);
        let mut twice = once.deep_copy();
        twice.sort_group(ascending);
        assert_eq!(once, twice);
    }
}

#[test]
fn descending_reverses_ascending_for_distinct_names() {
    let mut g = doc("<group><files><file><name>c</name></file><file><name>a</name></file><file><name>d</name></file><file><name>b</name></file></files></group>");
    g.sort_group(true);
    let up: Vec<String> = g.find_child_element("files").unwrap().children.iter().map(name_key_of).collect();
    assert_eq!(up, vec!["a", "b", "c", "d"]);
    g.sort_group(false);
    let down: Vec<String> = g.find_child_element("files").unwrap().children.iter().map(name_key_of).collect();
    assert_eq!(down, vec!["d", "c", "b", "a"]);
}

#[test]
fn add_file_appends_to_the_container() {
    let mut g = doc("<group><files><file><name>A</name></file></files><tail/></group>");
    g.add_file("C");
    g.add_file("C");
    assert_eq!(written(&g), "<group><files><file><name>A</name></file><file><name>C</name></file><file><name>C</name></file></files><tail /></group>");
}

#[test]
fn add_file_creates_a_missing_container_as_last_child() {
    let mut g = doc("<group><name>G</name></group>");
    g.add_file("new.c");
    assert_eq!(written(&g), "<group><name>G</name><files><file><name>new.c</name></file></files></group>");
}

#[test]
fn remove_child_takes_the_nth_with_the_tag() {
    let mut f = doc("<files><file><name>A</name></file><x/><file><name>B</name></file><file><name>C</name></file></files>");
    assert_eq!(f.remove_child("file", 2), Ok(()));
    assert_eq!(written(&f), "<files><file><name>A</name></file><x /><file><name>C</name></file></files>");
    assert_eq!(f.remove_child("file", 3), Err(DocError::NotFound));
    assert_eq!(f.remove_child("file", 0), Err(DocError::NotFound));
    assert_eq!(written(&f), "<files><file><name>A</name></file><x /><file><name>C</name></file></files>");
}

#[test]
fn add_then_remove_the_last_file_gives_the_container_back() {
    let before = doc("<group><files>t<file><name>A</name></file><x/></files></group>");
    let mut g = before.deep_copy();
    g.add_file("X");
    let p = g.child_position("files", 1).unwrap();
    if let XmlNode::Element(files) = &mut g.children[p] {
        let n = files.get_children_by_name("file").len();
        assert_eq!(n, 2);
        assert_eq!(files.remove_child("file", n), Ok(()));
    }
    assert_eq!(g, before);
}

#[test]
fn apply_carries_out_each_edit() {
    let mut g = doc("<group><files><file><name>B</name></file><file><name>A</name></file></files></group>");
    assert_eq!(g.apply(&Edit::SortFiles(true)), Ok(()));
    assert_eq!(g.apply(&Edit::AddFile("C".to_string())), Ok(()));
    assert_eq!(g.apply(&Edit::RemoveChild("files".to_string(), 2)), Err(DocError::NotFound));
    assert_eq!(written(&g), "<group><files><file><name>A</name></file><file><name>B</name></file><file><name>C</name></file></files></group>");
    assert_eq!(g.apply(&Edit::RemoveChild("files".to_string(), 1)), Ok(()));
    assert_eq!(written(&g), "<group />");
}

#[test]
fn edit_document_edits_at_the_path() {
    let mut d = doc("<project><target><groups><group><files><file><name>B</name></file><file><name>A</name></file></files></group><group><files><file><name>Z</name></file><file><name>Y</name></file></files></group></groups></target></project>");
    let second = parse("/project/target/groups/group[2]").unwrap();
    assert_eq!(d.edit_document(&second, 4, &Edit::SortFiles(true)), Ok(()));
    assert_eq!(written(&d), "<project><target><groups><group><files><file><name>B</name></file><file><name>A</name></file></files></group><group><files><file><name>Y</name></file><file><name>Z</name></file></files></group></groups></target></project>");
    let third = parse("/project/target/groups/group[3]").unwrap();
    let before = d.deep_copy();
    assert_eq!(d.edit_document(&third, 4, &Edit::SortFiles(true)), Err(DocError::NotFound));
    assert_eq!(d.edit_document(&second, 0, &Edit::SortFiles(true)), Err(DocError::NotFound));
    assert_eq!(d, before);
}

#[test]
fn edit_below_follows_the_given_segments() {
    let mut d = doc("<project><target><groups><group><files><file><name>A</name></file></files></group></groups></target></project>");
    let file = parse("/project/target/groups/group/files/file").unwrap();
    assert_eq!(d.edit_below(&file, 1, 5, &Edit::RemoveChild("file".to_string(), 1)), Ok(()));
    assert_eq!(written(&d), "<project><target><groups><group><files /></group></groups></target></project>");
}
