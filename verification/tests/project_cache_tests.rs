use doc_cache::edit::{attribute, node_key_of, sort_nodes_by, SortKey};
use doc_cache::error::{DocError, ErrorKind};
use doc_cache::model::{DocElement, XmlNode};
use doc_cache::project_cache::ProjectCache;
use doc_cache::xml::{parse_document, serialize_element};

const HEAD: &str = "<?xml version=\"1.0\" encoding=\"UTF-8\"?>";

const FLAT: &str = "<project><target><group name=\"group1\"><file name=\"fileB.c\"/><note/><file name=\"fileA.c\"/><file/><file name=\"fileA.c\" extra=\"1\"/></group><group><file name=\"x\"/></group><group name=\"group2\"/><other name=\"group3\"/></target></project>";

fn written(e: &DocElement) -> String {
    let text = serialize_element(e).unwrap();
    text[HEAD.len()..].to_string()
}

#[test]
fn attribute_finds_the_first_value() {
    let e = parse_document("<f name=\"a\" other=\"b\"/>").unwrap();
    assert_eq!(attribute(&e, "name"), Some(&"a".to_string()));
    assert_eq!(attribute(&e, "other"), Some(&"b".to_string()));
    assert_eq!(attribute(&e, "none"), None);
    let mut twice = DocElement::new("f");
    twice.attributes.push(("k".to_string(), "1".to_string()));
    twice.attributes.push(("k".to_string(), "2".to_string()));
    assert_eq!(attribute(&twice, "k"), Some(&"1".to_string()));
}

#[test]
fn node_key_reads_child_or_attribute() {
    let e = XmlNode::Element(parse_document("<file name=\"attr\"><name>child</name></file>").unwrap());
    assert_eq!(node_key_of(&e, SortKey::NameChild), "child");
    assert_eq!(node_key_of(&e, SortKey::NameAttribute), "attr");
    let bare = XmlNode::Element(DocElement::new("file"));
    assert_eq!(node_key_of(&bare, SortKey::NameAttribute), "");
    assert_eq!(node_key_of(&XmlNode::Text("t".to_string()), SortKey::NameAttribute), "");
}

#[test]
fn sort_nodes_by_attribute_is_stable() {
    let e = parse_document("<g><file name=\"b\" n=\"1\"/><file name=\"a\" n=\"2\"/><file name=\"b\" n=\"3\"/><file n=\"4\"/></g>").unwrap();
    let sorted = sort_nodes_by(e.children, SortKey::NameAttribute, true);
    let marks: Vec<String> = sorted
        .iter()
        .map(|n| match n {
            XmlNode::Element(f) => attribute(f, "n").unwrap().clone(),
            _ => String::new(),
        })
        .collect();
    assert_eq!(marks, vec!["4", "2", "1", "3"]);
}

#[test]
fn load_from_text_copies_target_and_named_groups() {
    let cache = ProjectCache::load_from_text("sample1.xml", FLAT).unwrap();
    assert_eq!(cache.file_path(), "sample1.xml");
    assert_eq!(cache.project(), &parse_document(FLAT).unwrap());
    assert_eq!(cache.target().name, "target");
    assert_eq!(cache.target().children.len(), 4);
    assert_eq!(cache.group("group1").unwrap().children.len(), 5);
    assert_eq!(cache.group("group2").unwrap().children.len(), 0);
    assert!(cache.group("group3").is_none());
    assert!(cache.group("").is_none());
}

#[test]
fn load_from_text_keeps_the_later_of_two_groups_with_one_name() {
    let cache = ProjectCache::load_from_text("p", "<project><target><group name=\"g\"><file name=\"1\"/></group><group name=\"h\"/><group name=\"g\"><file name=\"2\"/><file name=\"3\"/></group></target></project>").unwrap();
    assert_eq!(cache.group("g").unwrap().children.len(), 2);
}

#[test]
fn load_from_text_fails_without_target_or_on_bad_markup() {
    assert_eq!(ProjectCache::load_from_text("p", "<project><group/></project>").unwrap_err(), DocError::NotFound);
    let err = ProjectCache::load_from_text("p", "<project>").unwrap_err();
    assert_eq!(err.kind(), ErrorKind::ParseFailure);
}

#[test]
fn sort_group_files_orders_by_the_name_attribute() {
    let mut cache = ProjectCache::load_from_text("p", FLAT).unwrap();
    cache.sort_group_files("group1");
    assert_eq!(
        written(cache.group("group1").unwrap()),
        "<group name=\"group1\"><note /><file /><file name=\"fileA.c\" /><file name=\"fileA.c\" extra=\"1\" /><file name=\"fileB.c\" /></group>"
    );
    cache.sort_group_files("missing");
    assert_eq!(cache.group("group2").unwrap().children.len(), 0);
}

#[test]
fn remove_file_removes_every_file_with_the_name() {
    let mut cache = ProjectCache::load_from_text("p", FLAT).unwrap();
    cache.remove_file("group1", "fileA.c");
    assert_eq!(
        written(cache.group("group1").unwrap()),
        "<group name=\"group1\"><file name=\"fileB.c\" /><note /><file /></group>"
    );
    cache.remove_file("group1", "absent");
    cache.remove_file("absent", "fileB.c");
    assert_eq!(cache.group("group1").unwrap().children.len(), 3);
}

#[test]
fn add_file_appends_a_file_with_the_name_attribute() {
    let mut cache = ProjectCache::load_from_text("p", FLAT).unwrap();
    cache.add_file("group2", "new_file.c");
    cache.add_file("group2", "new_file.c");
    cache.add_file("absent", "new_file.c");
    assert_eq!(
        written(cache.group("group2").unwrap()),
        "<group name=\"group2\"><file name=\"new_file.c\" /><file name=\"new_file.c\" /></group>"
    );
}

#[test]
fn save_writes_the_project_as_it_was_read() {
    let mut cache = ProjectCache::load_from_text("out.xml", "<project><target><group name=\"g\"><file name=\"b\"/><file name=\"a\"/></group></target></project>").unwrap();
    cache.sort_group_files("g");
    cache.add_file("g", "c");
    let request = cache.save().unwrap();
    assert_eq!(request.path, "out.xml");
    assert_eq!(
        request.text,
        format!("{}<project><target><group name=\"g\"><file name=\"b\" /><file name=\"a\" /></group></target></project>", HEAD)
    );
}
