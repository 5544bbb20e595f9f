use doc_cache::error::{DocError, ErrorKind};
use doc_cache::store::{run_step, CachedDoc, DocumentStore, Request};
use doc_cache::tree::{materialize, NodeKind, TreeNode};
use doc_cache::nodemap::NodeMap;
use doc_cache::xml::{extract_project_name_from_text, parse_document, pick_first_value, serialize_element};
use doc_cache::outside::QueryValue;
use doc_cache::model::{DocElement, XmlNode};

const HEAD: &str = "<?xml version=\"1.0\" encoding=\"UTF-8\"?>";

const SAMPLE: &str = "<project><name>P</name><target><name>T</name><groups><group><name>G1</name><files><file><name>B</name></file><file><name>A</name></file></files></group></groups></target></project>";

fn group_xml(names: &[&str]) -> String {
    let files: String = names.iter().map(|n| format!("<file><name>{}</name></file>", n)).collect();
    format!("<project><name>P</name><target><name>T</name><groups><group><name>G1</name><files>{}</files></group></groups></target></project>", files)
}

fn loaded(xml: &str) -> DocumentStore {
    let mut store = DocumentStore::new();
    store.load("a.xml", xml).unwrap();
    store
}

fn tree(store: &mut DocumentStore) -> TreeNode {
    let mut trees = store.get_tree("a.xml").unwrap();
    assert_eq!(trees.len(), 1);
    trees.remove(0)
}

fn group(t: &TreeNode) -> &TreeNode {
    &t.children[0].children[0]
}

fn file_labels(store: &mut DocumentStore) -> Vec<String> {
    let t = tree(store);
    group(&t).children.iter().map(|f| f.label.clone()).collect()
}

fn text(store: &DocumentStore) -> String {
    store.get("a.xml").unwrap().text().clone()
}

fn shape(t: &TreeNode) -> String {
    let inner: Vec<String> = t.children.iter().map(shape).collect();
    format!("{}:{}[{}]", t.kind.name(), t.label, inner.join(","))
}

fn keys(t: &TreeNode, out: &mut Vec<String>) {
    out.push(t.key.clone());
    for c in &t.children {
        keys(c, out);
    }
}

#[test]
fn load_reports_path_and_project_name() {
    let mut store = DocumentStore::new();
    let summary = store.load("dir/a.xml", SAMPLE).unwrap();
    assert_eq!(summary.path, "dir/a.xml");
    assert_eq!(summary.project_name, Some("P".to_string()));
    assert_eq!(store.len(), 1);
    let doc = store.get("dir/a.xml").unwrap();
    assert_eq!(doc.path(), "dir/a.xml");
    assert_eq!(doc.text(), SAMPLE);
    assert_eq!(doc.dom(), &parse_document(SAMPLE).unwrap());
    assert_eq!(doc.node_map().len(), 0);
}

#[test]
fn load_without_a_project_name_reports_none() {
    let mut store = DocumentStore::new();
    let summary = store.load("a.xml", "<project><target/></project>").unwrap();
    assert_eq!(summary.project_name, None);
    let other = store.load("b.xml", "<workspace><name>W</name></workspace>").unwrap();
    assert_eq!(other.project_name, None);
}

#[test]
fn load_rejects_malformed_markup_and_keeps_the_store() {
    let mut store = loaded(SAMPLE);
    let err = store.load("b.xml", "<project><target></project>").unwrap_err();
    assert_eq!(err.kind(), ErrorKind::ParseFailure);
    assert!(err.message().starts_with("xml parse error: "));
    assert!(err.message().len() > "xml parse error: ".len());
    assert_eq!(store.len(), 1);
    assert!(store.load("c.xml", "").is_err());
    assert!(store.load("d.xml", "no markup").is_err());
    assert_eq!(store.len(), 1);
    assert_eq!(text(&store), SAMPLE);
}

#[test]
fn load_again_replaces_the_record_and_its_identifiers() {
    let mut store = loaded(SAMPLE);
    let old = tree(&mut store);
    store.load("b.xml", "<project/>").unwrap();
    store.load("a.xml", &group_xml(&["Z", "Y"])).unwrap();
    assert_eq!(store.len(), 2);
    assert_eq!(store.get("a.xml").unwrap().node_map().len(), 0);
    store.sort_groups(&vec![group(&old).key.clone()], true).unwrap();
    assert_eq!(file_labels(&mut store), vec!["Z", "Y"]);
}

#[test]
fn get_fails_for_a_path_that_is_not_loaded() {
    let store = loaded(SAMPLE);
    let err = store.get("b.xml").unwrap_err();
    assert_eq!(err, DocError::NotLoaded);
    assert_eq!(err.kind(), ErrorKind::NotLoaded);
    assert_eq!(err.message(), "not loaded");
}

#[test]
fn get_tree_and_save_fail_for_a_path_that_is_not_loaded() {
    let mut store = loaded(SAMPLE);
    assert_eq!(store.get_tree("A.xml").unwrap_err(), DocError::NotLoaded);
    assert_eq!(store.save_file("").unwrap_err(), DocError::NotLoaded);
}

#[test]
fn get_tree_shows_four_levels() {
    let mut store = loaded("<project><name>P</name><target><name>T1</name><groups><group><name>G1</name><files><file><name>B</name><deeper><file><name>hidden</name></file></deeper></file><file/></files></group><group/></groups></target><target/></project>");
    let t = tree(&mut store);
    assert_eq!(
        shape(&t),
        "project:/project/P[target:T1[group:G1[file:B[],file:<no-name>[]],group:<no-name>[]],target:<no-name>[]]"
    );
    assert_eq!(t.kind, NodeKind::Project);
    assert_eq!(t.children[0].kind, NodeKind::Target);
    assert_eq!(group(&t).kind, NodeKind::Group);
    assert_eq!(group(&t).children[0].kind, NodeKind::File);
}

#[test]
fn get_tree_of_an_empty_document_is_a_single_node() {
    let mut store = loaded("<anything/>");
    let t = tree(&mut store);
    assert_eq!(shape(&t), "project:/project/<no-name>[]");
    assert_eq!(store.get("a.xml").unwrap().node_map().len(), 1);
}

#[test]
fn get_tree_binds_every_node_to_its_path() {
    let mut store = loaded("<project><target/><target><groups><group/><group><files><file/><file/></files></group></groups></target></project>");
    let t = tree(&mut store);
    let map = store.get("a.xml").unwrap().node_map();
    assert_eq!(map.len(), 7);
    assert_eq!(map.get(&t.key).unwrap(), "/project");
    assert_eq!(map.get(&t.children[0].key).unwrap(), "/project/target[1]");
    assert_eq!(map.get(&t.children[1].key).unwrap(), "/project/target[2]");
    let groups = &t.children[1].children;
    assert_eq!(map.get(&groups[0].key).unwrap(), "/project/target[2]/groups/group[1]");
    assert_eq!(map.get(&groups[1].key).unwrap(), "/project/target[2]/groups/group[2]");
    assert_eq!(map.get(&groups[1].children[0].key).unwrap(), "/project/target[2]/groups/group[2]/files/file[1]");
    assert_eq!(map.get(&groups[1].children[1].key).unwrap(), "/project/target[2]/groups/group[2]/files/file[2]");
    assert!(map.get("no such identifier").is_none());
}

#[test]
fn get_tree_mints_distinct_identifiers_each_time() {
    let mut store = loaded(SAMPLE);
    let first = tree(&mut store);
    let second = tree(&mut store);
    let mut all = Vec::new();
    keys(&first, &mut all);
    keys(&second, &mut all);
    assert_eq!(all.len(), 10);
    let mut unique = all.clone();
    unique.sort();
    unique.dedup();
    assert_eq!(unique.len(), 10);
    for (i, k) in all.iter().enumerate() {
        let stamp = format!("-{}-{}", 1 + i / 5, i % 5);
        assert!(k.ends_with(&stamp), "{}", k);
        assert_eq!(k.len(), 36 + stamp.len());
    }
}

#[test]
fn get_tree_binds_the_file_of_the_second_target() {
    let mut store = loaded("<project><target/><target><groups><group><files><file/></files></group></groups></target></project>");
    let t = tree(&mut store);
    assert_eq!(t.children.len(), 2);
    assert!(t.children[0].children.is_empty());
    let f = &t.children[1].children[0].children[0];
    assert_eq!(f.kind.name(), "file");
    let map = store.get("a.xml").unwrap().node_map();
    assert_eq!(map.get(&f.key).unwrap(), "/project/target[2]/groups/group[1]/files/file[1]");
}

#[test]
fn get_tree_drops_every_identifier_of_the_tree_before() {
    let mut store = loaded(SAMPLE);
    let first = tree(&mut store);
    let mut old_keys = Vec::new();
    keys(&first, &mut old_keys);
    let _second = tree(&mut store);
    let map = store.get("a.xml").unwrap().node_map();
    for k in &old_keys {
        assert!(map.get(k).is_none());
    }
    let before = text(&store);
    store.delete_file_nodes(&old_keys).unwrap();
    store.add_file_to_groups(&old_keys, "X").unwrap();
    assert_eq!(file_labels(&mut store), vec!["B", "A"]);
    assert_eq!(before, SAMPLE);
}

#[test]
fn get_tree_twice_gives_the_same_shape() {
    let mut store = loaded(SAMPLE);
    let first = tree(&mut store);
    let second = tree(&mut store);
    assert_eq!(shape(&first), shape(&second));
    assert_eq!(shape(&first), "project:/project/P[target:T[group:G1[file:B[],file:A[]]]]");
    assert_ne!(first.key, second.key);
}

#[test]
fn get_tree_forgets_the_identifiers_of_the_tree_before() {
    let mut store = loaded(SAMPLE);
    let old = tree(&mut store);
    let _new = tree(&mut store);
    assert_eq!(store.get("a.xml").unwrap().node_map().len(), 5);
    store.sort_groups(&vec![group(&old).key.clone()], true).unwrap();
    assert_eq!(file_labels(&mut store), vec!["B", "A"]);
}

#[test]
fn get_tree_leaves_model_and_text_alone() {
    let mut store = loaded(SAMPLE);
    let _ = tree(&mut store);
    assert_eq!(text(&store), SAMPLE);
    assert_eq!(store.get("a.xml").unwrap().dom(), &parse_document(SAMPLE).unwrap());
}

#[test]
fn concrete_scenario_sort_add_delete() {
    let mut store = loaded(SAMPLE);
    let t = tree(&mut store);
    let g1 = group(&t).key.clone();
    assert_eq!(group(&t).label, "G1");
    store.sort_groups(&vec![g1.clone()], true).unwrap();
    assert_eq!(file_labels(&mut store), vec!["A", "B"]);
    let t = tree(&mut store);
    let g1 = group(&t).key.clone();
    store.add_file_to_groups(&vec![g1], "C").unwrap();
    assert_eq!(file_labels(&mut store), vec!["A", "B", "C"]);
    let t = tree(&mut store);
    assert_eq!(group(&t).children[1].label, "B");
    store.delete_file_nodes(&vec![group(&t).children[1].key.clone()]).unwrap();
    assert_eq!(file_labels(&mut store), vec!["A", "C"]);
    assert_eq!(text(&store), format!("{}{}", HEAD, group_xml(&["A", "C"])));
}

#[test]
fn identifiers_stay_usable_while_positions_hold() {
    let mut store = loaded(SAMPLE);
    let t = tree(&mut store);
    let g1 = group(&t).key.clone();
    store.sort_groups(&vec![g1.clone()], true).unwrap();
    let sorted = tree(&mut store);
    let g1 = group(&sorted).key.clone();
    let b = group(&sorted).children[1].key.clone();
    store.add_file_to_groups(&vec![g1], "C").unwrap();
    store.delete_file_nodes(&vec![b]).unwrap();
    assert_eq!(file_labels(&mut store), vec!["A", "C"]);
}

#[test]
fn stale_identifier_addresses_the_position_not_the_node() {
    let mut store = loaded(&group_xml(&["A", "B", "C"]));
    let t = tree(&mut store);
    let a = group(&t).children[0].key.clone();
    let b = group(&t).children[1].key.clone();
    let c = group(&t).children[2].key.clone();
    store.delete_file_nodes(&vec![a]).unwrap();
    assert_eq!(text(&store), format!("{}{}", HEAD, group_xml(&["B", "C"])));
    let err = store.delete_file_nodes(&vec![c]).unwrap_err();
    assert_eq!(err, DocError::NotFound);
    assert_eq!(text(&store), format!("{}{}", HEAD, group_xml(&["B", "C"])));
    store.delete_file_nodes(&vec![b]).unwrap();
    assert_eq!(text(&store), format!("{}{}", HEAD, group_xml(&["B"])));
}

#[test]
fn batch_soft_fail_sort_changes_only_the_group() {
    let mut store = loaded(SAMPLE);
    let t = tree(&mut store);
    let ids = vec![group(&t).children[0].key.clone(), group(&t).key.clone()];
    store.sort_groups(&ids, true).unwrap();
    assert_eq!(text(&store), format!("{}{}", HEAD, group_xml(&["A", "B"])));
}

#[test]
fn batch_soft_fail_delete_removes_only_the_file() {
    let mut store = loaded(SAMPLE);
    let t = tree(&mut store);
    let ids = vec![group(&t).key.clone(), group(&t).children[0].key.clone(), t.key.clone(), t.children[0].key.clone()];
    store.delete_file_nodes(&ids).unwrap();
    assert_eq!(text(&store), format!("{}{}", HEAD, group_xml(&["A"])));
}

#[test]
fn add_passes_over_identifiers_of_other_kinds() {
    let mut store = loaded(SAMPLE);
    let t = tree(&mut store);
    let ids = vec![t.key.clone(), t.children[0].key.clone(), group(&t).children[1].key.clone()];
    store.add_file_to_groups(&ids, "X").unwrap();
    assert_eq!(text(&store), format!("{}{}", HEAD, SAMPLE));
}

#[test]
fn add_then_delete_removes_exactly_the_new_file() {
    let mut store = loaded(SAMPLE);
    let t = tree(&mut store);
    store.add_file_to_groups(&vec![group(&t).key.clone()], "X").unwrap();
    assert_eq!(file_labels(&mut store), vec!["B", "A", "X"]);
    let t = tree(&mut store);
    let x = group(&t).children[2].key.clone();
    assert_eq!(group(&t).children[2].label, "X");
    store.delete_file_nodes(&vec![x]).unwrap();
    assert_eq!(text(&store), format!("{}{}", HEAD, SAMPLE));
    assert_eq!(store.get("a.xml").unwrap().dom(), &parse_document(SAMPLE).unwrap());
}

#[test]
fn adding_the_same_name_twice_gives_two_files() {
    let mut store = loaded(SAMPLE);
    let t = tree(&mut store);
    let g = group(&t).key.clone();
    store.add_file_to_groups(&vec![g.clone(), g], "X").unwrap();
    assert_eq!(file_labels(&mut store), vec!["B", "A", "X", "X"]);
}

#[test]
fn add_creates_the_files_container() {
    let mut store = loaded("<project><target><groups><group><name>G</name></group></groups></target></project>");
    let t = tree(&mut store);
    store.add_file_to_groups(&vec![group(&t).key.clone()], "n.c").unwrap();
    assert_eq!(text(&store), format!("{}<project><target><groups><group><name>G</name><files><file><name>n.c</name></file></files></group></groups></target></project>", HEAD));
}

#[test]
fn sort_descending_and_ties_keep_their_order() {
    let mut store = loaded("<project><target><groups><group><files><file><name>b</name><n>1</n></file><file><name>a</name></file><file><name>b</name><n>2</n></file><file><name>c</name></file></files></group></groups></target></project>");
    let t = tree(&mut store);
    store.sort_groups(&vec![group(&t).key.clone()], false).unwrap();
    assert_eq!(text(&store), format!("{}<project><target><groups><group><files><file><name>c</name></file><file><name>b</name><n>1</n></file><file><name>b</name><n>2</n></file><file><name>a</name></file></files></group></groups></target></project>", HEAD));
}

#[test]
fn sort_twice_gives_the_same_text() {
    let mut store = loaded(&group_xml(&["c", "a", "b", "a"]));
    let t = tree(&mut store);
    let g = vec![group(&t).key.clone()];
    store.sort_groups(&g, true).unwrap();
    let once = text(&store);
    store.sort_groups(&g, true).unwrap();
    assert_eq!(text(&store), once);
    assert_eq!(once, format!("{}{}", HEAD, group_xml(&["a", "a", "b", "c"])));
}

#[test]
fn sort_up_then_down_reverses_distinct_names() {
    let mut store = loaded(&group_xml(&["c", "a", "d", "b"]));
    let t = tree(&mut store);
    let g = vec![group(&t).key.clone()];
    store.sort_groups(&g, true).unwrap();
    assert_eq!(file_labels(&mut store), vec!["a", "b", "c", "d"]);
    let t = tree(&mut store);
    store.sort_groups(&vec![group(&t).key.clone()], false).unwrap();
    assert_eq!(file_labels(&mut store), vec!["d", "c", "b", "a"]);
}

#[test]
fn a_command_rewrites_the_text_even_when_nothing_matches() {
    let mut store = loaded("<project>\n  <name>P</name>\n</project>\n");
    store.sort_groups(&vec!["unknown".to_string()], true).unwrap();
    assert_eq!(text(&store), format!("{}<project><name>P</name></project>", HEAD));
    let mut other = loaded("<project>\n  <name>P</name>\n</project>\n");
    other.delete_file_nodes(&vec![]).unwrap();
    assert_eq!(text(&other), format!("{}<project><name>P</name></project>", HEAD));
}

#[test]
fn a_failure_does_not_stop_the_batch() {
    let mut store = loaded(&group_xml(&["A", "B", "C"]));
    let t = tree(&mut store);
    let files = &group(&t).children;
    let ids = vec![files[2].key.clone(), files[2].key.clone(), files[0].key.clone()];
    let err = store.delete_file_nodes(&ids).unwrap_err();
    assert_eq!(err.kind(), ErrorKind::NotFound);
    assert_eq!(text(&store), format!("{}{}", HEAD, group_xml(&["B"])));
}

#[test]
fn commands_probe_every_loaded_document() {
    let mut store = DocumentStore::new();
    store.load("a.xml", &group_xml(&["b", "a"])).unwrap();
    store.load("b.xml", &group_xml(&["d", "c"])).unwrap();
    let ta = store.get_tree("a.xml").unwrap().remove(0);
    let tb = store.get_tree("b.xml").unwrap().remove(0);
    store.sort_groups(&vec![group(&tb).key.clone()], true).unwrap();
    assert_eq!(store.get("a.xml").unwrap().text(), &format!("{}{}", HEAD, group_xml(&["b", "a"])));
    assert_eq!(store.get("b.xml").unwrap().text(), &format!("{}{}", HEAD, group_xml(&["c", "d"])));
    store.delete_file_nodes(&vec![group(&ta).children[0].key.clone(), group(&tb).children[1].key.clone()]).unwrap();
    assert_eq!(store.get("a.xml").unwrap().text(), &format!("{}{}", HEAD, group_xml(&["a"])));
    assert_eq!(store.get("b.xml").unwrap().text(), &format!("{}{}", HEAD, group_xml(&["c"])));
}

#[test]
fn save_file_hands_out_the_latest_text_and_the_source_path() {
    let mut store = loaded("<project>\n<name>P</name></project>");
    let first = store.save_file("a.xml").unwrap();
    assert_eq!(first.path, "a.xml");
    assert_eq!(first.text, "<project>\n<name>P</name></project>");
    store.sort_groups(&vec![], true).unwrap();
    let second = store.save_file("a.xml").unwrap();
    assert_eq!(second.text, format!("{}<project><name>P</name></project>", HEAD));
}

#[test]
fn run_step_reports_malformed_and_unresolved_paths() {
    let mut dom = parse_document(SAMPLE).unwrap();
    let before = dom.deep_copy();
    assert_eq!(run_step(&mut dom, "/project/target/groups/group[x]", &Request::Sort(true)), Err(DocError::MalformedPath));
    assert_eq!(run_step(&mut dom, "/project/target/groups/group[2]", &Request::Sort(true)), Err(DocError::NotFound));
    assert_eq!(run_step(&mut dom, "/other/target/groups/group", &Request::Add("x".to_string())), Err(DocError::NotFound));
    assert_eq!(run_step(&mut dom, "/project/target/groups/group/files/file[3]", &Request::Delete), Err(DocError::NotFound));
    assert_eq!(run_step(&mut dom, "/project/target[2]/groups/group/files/file", &Request::Delete), Err(DocError::NotFound));
    assert_eq!(run_step(&mut dom, "/project/target", &Request::Delete), Ok(()));
    assert_eq!(run_step(&mut dom, "/project/target/groups/group/files/file", &Request::Sort(true)), Ok(()));
    assert_eq!(dom, before);
    assert_eq!(run_step(&mut dom, "/project/target/groups/group/files/file[2]", &Request::Delete), Ok(()));
    assert_eq!(serialize_element(&dom).unwrap(), format!("{}{}", HEAD, group_xml(&["B"])));
}

#[test]
fn cached_doc_runs_a_batch_on_its_own() {
    let mut doc = CachedDoc::new("p", parse_document(SAMPLE).unwrap(), SAMPLE);
    let t = doc.get_tree();
    let ids = vec![group(&t).key.clone(), "stranger".to_string()];
    assert_eq!(doc.run(&ids, &Request::Sort(true)), Ok(()));
    assert_eq!(doc.text(), &format!("{}{}", HEAD, group_xml(&["A", "B"])));
    assert_eq!(doc.path(), "p");
}

#[test]
fn materialize_appends_to_the_given_map() {
    let dom = parse_document(SAMPLE).unwrap();
    let mut map = NodeMap::new();
    let old = map.bind("old", "/kept".to_string());
    let t = materialize(&dom, &mut map);
    assert_eq!(map.len(), 6);
    assert_eq!(map.get(&old).unwrap(), "/kept");
    assert_eq!(map.get(&group(&t).children[1].key).unwrap(), "/project/target[1]/groups/group[1]/files/file[2]");
    assert!(t.key.ends_with("-0-1"));
}

#[test]
fn node_map_stamps_its_identifiers() {
    let mut map = NodeMap::new();
    assert!(map.get("k-0-0").is_none());
    assert_eq!(map.bind("k", "/a".to_string()), "k-0-0");
    assert_eq!(map.bind("k", "/b".to_string()), "k-0-1");
    assert_eq!(map.bind("", "/c".to_string()), "-0-2");
    assert_eq!(map.get("k-0-0").unwrap(), "/a");
    assert_eq!(map.get("k-0-1").unwrap(), "/b");
    assert_eq!(map.get("-0-2").unwrap(), "/c");
    assert!(map.get("k").is_none());
    assert_eq!(map.len(), 3);
}

#[test]
fn node_map_renewal_enters_the_next_generation() {
    let mut map = NodeMap::new();
    let first = map.bind("k", "/a".to_string());
    map.renew();
    assert_eq!(map.len(), 0);
    assert!(map.get(&first).is_none());
    assert_eq!(map.bind("k", "/a".to_string()), "k-1-0");
    for _ in 0..9 {
        map.renew();
    }
    assert_eq!(map.bind("k", "/a".to_string()), "k-10-0");
    for _ in 0..90 {
        map.renew();
    }
    assert_eq!(map.bind("", "/a".to_string()), "-100-0");
}

#[test]
fn parse_document_builds_the_model() {
    let e = parse_document("<p:root xmlns:p=\"urn:x\" b=\"2\" a=\"1\">t<child/><!--c--><![CDATA[raw]]><?pi d?></p:root>").unwrap();
    assert_eq!(e.name, "root");
    assert_eq!(e.prefix, Some("p".to_string()));
    assert_eq!(e.namespace, Some("urn:x".to_string()));
    assert_eq!(e.attributes, vec![("b".to_string(), "2".to_string()), ("a".to_string(), "1".to_string())]);
    assert_eq!(e.children.len(), 5);
    assert_eq!(e.children[0], XmlNode::Text("t".to_string()));
    assert_eq!(e.children[2], XmlNode::Comment("c".to_string()));
    assert_eq!(e.children[3], XmlNode::Text("raw".to_string()));
    assert_eq!(e.children[4], XmlNode::ProcessingInstruction("pi".to_string(), Some("d".to_string())));
    assert!(e.is_writable());
}

#[test]
fn serialize_element_writes_canonical_text() {
    let mut e = DocElement::new("project");
    e.attributes.push(("b".to_string(), "2".to_string()));
    e.attributes.push(("a".to_string(), "<1>".to_string()));
    e.children.push(XmlNode::Text("x & y".to_string()));
    e.children.push(XmlNode::Element(DocElement::new("empty")));
    e.children.push(XmlNode::CData("raw".to_string()));
    assert_eq!(
        serialize_element(&e).unwrap(),
        format!("{}<project b=\"2\" a=\"&lt;1&gt;\">x &amp; y<empty /><![CDATA[raw]]></project>", HEAD)
    );
}

#[test]
fn serialize_element_rejects_a_repeated_attribute() {
    let mut e = DocElement::new("project");
    let mut inner = DocElement::new("target");
    inner.attributes.push(("a".to_string(), "1".to_string()));
    inner.attributes.push(("a".to_string(), "2".to_string()));
    e.children.push(XmlNode::Element(inner));
    assert!(!e.is_writable());
    let err = serialize_element(&e).unwrap_err();
    assert_eq!(err.kind(), ErrorKind::EncodingFailure);
    assert!(err.message().starts_with("serialize error: "));
}

#[test]
fn serialize_element_rejects_bindings_out_of_order() {
    let mut e = DocElement::new("project");
    e.namespaces = Some(vec![("b".to_string(), "urn:b".to_string()), ("a".to_string(), "urn:a".to_string())]);
    assert!(!e.is_writable());
    assert_eq!(serialize_element(&e).unwrap_err().kind(), ErrorKind::EncodingFailure);
    e.namespaces = Some(vec![("a".to_string(), "urn:a".to_string()), ("b".to_string(), "urn:b".to_string())]);
    assert!(e.is_writable());
    assert!(serialize_element(&e).is_ok());
}

#[test]
fn round_trip_keeps_the_structure() {
    let inputs = [
        SAMPLE,
        "<?xml version=\"1.0\"?>\n<project>\n  <name>P</name>\n  <target attr=\"v\" other=\"w\">\n    <name>T &amp; co</name>\n  </target>\n  <!-- note -->\n</project>\n",
        "<a:project xmlns:a=\"urn:a\" xmlns=\"urn:d\"><a:name>n</a:name><plain k=\"&quot;\"/></a:project>",
        "<project><name>é日本</name><![CDATA[<raw>]]></project>",
    ];
    for input in inputs {
        let first = parse_document(input).unwrap();
        let text = serialize_element(&first).unwrap();
        let second = parse_document(&text).unwrap();
        assert_eq!(second, first, "{}", input);
        assert_eq!(serialize_element(&second).unwrap(), text);
    }
}

#[test]
fn extract_project_name_reads_the_first_name_text() {
    assert_eq!(extract_project_name_from_text("<project><name>First</name><name>Second</name></project>"), Some("First".to_string()));
    assert_eq!(extract_project_name_from_text("<project><name>a<b/>c</name></project>"), Some("a".to_string()));
    assert_eq!(extract_project_name_from_text("<project><name/></project>"), None);
    assert_eq!(extract_project_name_from_text("<project><target><name>T</name></target></project>"), None);
    assert_eq!(extract_project_name_from_text("<project><name>broken"), None);
    assert_eq!(extract_project_name_from_text(""), None);
}

#[test]
fn pick_first_value_takes_the_first_node_or_the_scalar() {
    assert_eq!(pick_first_value(QueryValue::Nodes(vec!["a".to_string(), "b".to_string()])), Some("a".to_string()));
    assert_eq!(pick_first_value(QueryValue::Nodes(vec![])), None);
    assert_eq!(pick_first_value(QueryValue::Scalar("s".to_string())), Some("s".to_string()));
    assert_eq!(pick_first_value(QueryValue::Scalar(String::new())), Some(String::new()));
}

#[test]
fn round_trip_joins_text_that_stood_beside_a_cdata_section() {
    let first = parse_document("<a>x<![CDATA[y]]></a>").unwrap();
    assert_eq!(first.children, vec![XmlNode::Text("x".to_string()), XmlNode::Text("y".to_string())]);
    let text = serialize_element(&first).unwrap();
    assert_eq!(text, format!("{}<a>xy</a>", HEAD));
    let second = parse_document(&text).unwrap();
    assert_eq!(second.children, vec![XmlNode::Text("xy".to_string())]);
}
