//! A cache of one project document in the flat dialect: the groups stand
//! directly below the single target, the files directly below their group,
//! and names are `name` attributes.
//!
//! The cache holds the project as it was read, a copy of its target, and a
//! copy of every named group. The edits work on the copies of the groups.

use vstd::prelude::*;
use vstd::string::*;
use crate::edit::{
    attribute, attribute_of, keyed, named, not_named, sort_nodes_by, split_named, SortKey,
};
use crate::error::{kind_of, DocError, ErrorKind};
use crate::model::{
    lemma_children_model, nodes_model, DocElement, ElementModel, NodeModel, XmlNode,
};
use crate::outside::parsed_document;
use crate::sort::stable_sort;
use crate::store::SaveRequest;
use crate::text::same_text;
use crate::xml::{parse_document, serialize_element, serialized_text};

verus! {

/// The cache of one project document.
#[derive(Debug, PartialEq, Eq)]
pub struct ProjectCache {
    file_path: String,
    project: DocElement,
    target: DocElement,
    groups: Vec<(String, DocElement)>,
}

/// The mathematical value of a cache. The groups stand in the order in which
/// their names first occurred.
pub struct CacheModel {
    pub file_path: Seq<char>,
    pub project: ElementModel,
    pub target: ElementModel,
    pub groups: Seq<(Seq<char>, ElementModel)>,
}

/// The values of a run of named groups.
pub open spec fn groups_model(groups: Seq<(String, DocElement)>) -> Seq<(Seq<char>, ElementModel)> {
    Seq::new(groups.len(), |i: int| (groups[i].0@, groups[i].1@))
}

impl View for ProjectCache {
    type V = CacheModel;

    closed spec fn view(&self) -> CacheModel {
        CacheModel {
            file_path: self.file_path@,
            project: self.project@,
            target: self.target@,
            groups: groups_model(self.groups@),
        }
    }
}

/// The position of the first group with the given name, at or after `from`.
pub open spec fn group_position(groups: Seq<(Seq<char>, ElementModel)>, name: Seq<char>, from: int)
    -> Option<int>
    decreases groups.len() - from,
{
    if from < 0 || from >= groups.len() {
        None
    } else if groups[from].0 == name {
        Some(from)
    } else {
        group_position(groups, name, from + 1)
    }
}

/// The groups with one more: it takes the place of the group with its name,
/// or comes last where there was none.
pub open spec fn with_group(
    groups: Seq<(Seq<char>, ElementModel)>,
    name: Seq<char>,
    group: ElementModel,
) -> Seq<(Seq<char>, ElementModel)> {
    match group_position(groups, name, 0) {
        Some(i) => groups.update(i, (name, group)),
        None => groups.push((name, group)),
    }
}

/// The named groups among the first `upto` children of a target: every
/// `group` element with a `name` attribute, under that name; of two with one
/// name, the later.
pub open spec fn groups_of(children: Seq<NodeModel>, upto: int) -> Seq<(Seq<char>, ElementModel)>
    decreases upto,
{
    if upto <= 0 || upto > children.len() {
        Seq::empty()
    } else {
        let before = groups_of(children, upto - 1);
        match children[upto - 1] {
            NodeModel::Element(e) => if e.name == "group"@ {
                match attribute_of(e.attributes, "name"@, 0) {
                    Some(name) => with_group(before, name, e),
                    None => before,
                }
            } else {
                before
            },
            _ => before,
        }
    }
}

/// The children of a group after sorting: what is no `file` element stays
/// in front, in its order; the `file` elements follow, in ascending order of
/// their `name` attribute.
pub open spec fn attribute_sorted(children: Seq<NodeModel>) -> Seq<NodeModel> {
    children.filter(not_named("file"@)) + stable_sort(
        children.filter(named("file"@)),
        keyed(SortKey::NameAttribute),
        true,
    )
}

/// Whether a node is a `file` element whose `name` attribute is `file_name`.
pub open spec fn is_file_called(n: NodeModel, file_name: Seq<char>) -> bool {
    match n {
        NodeModel::Element(e) => e.name == "file"@ && attribute_of(e.attributes, "name"@, 0)
            == Some(file_name),
        _ => false,
    }
}

/// The test for anything but a `file` element with the given name.
pub open spec fn not_file_called(file_name: Seq<char>) -> spec_fn(NodeModel) -> bool {
    |n: NodeModel| !is_file_called(n, file_name)
}

/// A `file` element with the given `name` attribute and nothing else.
pub open spec fn file_with_attribute(file_name: Seq<char>) -> NodeModel {
    NodeModel::Element(
        ElementModel {
            prefix: None,
            namespace: None,
            namespaces: None,
            name: "file"@,
            attributes: seq![("name"@, file_name)],
            children: Seq::empty(),
        },
    )
}

/// The groups with the children of the group called `name` replaced; the
/// groups as they are where there is no such group.
pub open spec fn with_group_children(
    groups: Seq<(Seq<char>, ElementModel)>,
    name: Seq<char>,
    change: spec_fn(Seq<NodeModel>) -> Seq<NodeModel>,
) -> Seq<(Seq<char>, ElementModel)> {
    match group_position(groups, name, 0) {
        Some(i) => groups.update(
            i,
            (groups[i].0, ElementModel { children: change(groups[i].1.children), ..groups[i].1 }),
        ),
        None => groups,
    }
}

/// The change that sorts the files of a group.
pub open spec fn sorting() -> spec_fn(Seq<NodeModel>) -> Seq<NodeModel> {
    |c: Seq<NodeModel>| attribute_sorted(c)
}

/// The change that removes the files with the given name.
pub open spec fn removing(file_name: Seq<char>) -> spec_fn(Seq<NodeModel>) -> Seq<NodeModel> {
    |c: Seq<NodeModel>| c.filter(not_file_called(file_name))
}

/// The change that appends a file with the given name.
pub open spec fn adding(file_name: Seq<char>) -> spec_fn(Seq<NodeModel>) -> Seq<NodeModel> {
    |c: Seq<NodeModel>| c.push(file_with_attribute(file_name))
}

/// The position of the group with the given name.
fn find_group(groups: &Vec<(String, DocElement)>, name: &str) -> (r: Option<usize>)
    ensures
        match r {
            Some(i) => i < groups@.len() && group_position(groups_model(groups@), name@, 0) == Some(
                i as int,
            ),
            None => group_position(groups_model(groups@), name@, 0) is None,
        },
{
    let ghost m = groups_model(groups@);
    let mut i: usize = 0;
    while i < groups.len()
        invariant
            i <= groups@.len(),
            m == groups_model(groups@),
            group_position(m, name@, 0) == group_position(m, name@, i as int),
        decreases groups@.len() - i,
    {
        if same_text(groups[i].0.as_str(), name) {
            return Some(i);
        }
        i += 1;
    }
    None
}

/// Whether a node is a `file` element whose `name` attribute is
/// `file_name`.
fn is_file_with_name(node: &XmlNode, file_name: &str) -> (r: bool)
    ensures
        r == is_file_called(node@, file_name@),
{
    match node {
        XmlNode::Element(e) => {
            if !same_text(e.name.as_str(), "file") {
                return false;
            }
            match attribute(e, "name") {
                Some(v) => same_text(v.as_str(), file_name),
                None => false,
            }
        },
        _ => false,
    }
}

/// The nodes without the `file` elements with the given name.
fn without_files_called(nodes: Vec<XmlNode>, file_name: &str) -> (r: Vec<XmlNode>)
    ensures
        nodes_model(r@) == nodes_model(nodes@).filter(not_file_called(file_name@)),
{
    let ghost input = nodes_model(nodes@);
    let mut rest = nodes;
    let mut kept: Vec<XmlNode> = Vec::new();
    let ghost mut done: int = 0;
    proof {
        reveal(Seq::filter);
        assert(input.take(0) =~= Seq::<NodeModel>::empty());
        assert(nodes_model(kept@) =~= Seq::<NodeModel>::empty());
        assert(nodes_model(rest@) =~= input.skip(0));
    }
    while rest.len() > 0
        invariant
            0 <= done <= input.len(),
            rest@.len() == input.len() - done,
            nodes_model(rest@) == input.skip(done),
            nodes_model(kept@) == input.take(done).filter(not_file_called(file_name@)),
        decreases rest@.len(),
    {
        let ghost old_rest = rest@;
        let ghost old_kept = nodes_model(kept@);
        let node = rest.remove(0);
        proof {
            reveal(Seq::filter);
            assert(node@ == input[done]) by {
                assert(nodes_model(old_rest)[0] == input.skip(done)[0]);
            }
            assert(input.take(done + 1).drop_last() =~= input.take(done));
            assert(input.take(done + 1).last() == node@);
            assert forall|j: int| 0 <= j < rest@.len() implies nodes_model(rest@)[j]
                == input.skip(done + 1)[j] by {
                assert(nodes_model(old_rest)[j + 1] == input.skip(done)[j + 1]);
            }
            assert(nodes_model(rest@) =~= input.skip(done + 1));
        }
        if !is_file_with_name(&node, file_name) {
            kept.push(node);
            assert(nodes_model(kept@) =~= old_kept.push(input[done]));
        }
        proof {
            done = done + 1;
        }
    }
    assert(input.take(done) =~= input);
    kept
}

impl DocElement {
    /// Sorts the `file` children of this element by their `name` attribute,
    /// ascending; the other children come first, in their order.
    pub fn sort_files_by_attribute(&mut self)
        ensures
            final(self)@ == (ElementModel {
                children: attribute_sorted(old(self)@.children),
                ..old(self)@
            }),
    {
        proof {
            lemma_children_model(*self);
        }
        let mut taken: Vec<XmlNode> = Vec::new();
        std::mem::swap(&mut self.children, &mut taken);
        let (files, mut others) = split_named(taken, "file");
        let mut sorted = sort_nodes_by(files, SortKey::NameAttribute, true);
        let ghost kept = nodes_model(others@);
        let ghost tail = nodes_model(sorted@);
        others.append(&mut sorted);
        assert(nodes_model(others@) =~= kept + tail);
        self.children = others;
        proof {
            lemma_children_model(*self);
        }
    }

    /// Removes every `file` child whose `name` attribute is `file_name`.
    pub fn remove_files_called(&mut self, file_name: &str)
        ensures
            final(self)@ == (ElementModel {
                children: old(self)@.children.filter(not_file_called(file_name@)),
                ..old(self)@
            }),
    {
        proof {
            lemma_children_model(*self);
        }
        let mut taken: Vec<XmlNode> = Vec::new();
        std::mem::swap(&mut self.children, &mut taken);
        self.children = without_files_called(taken, file_name);
        proof {
            lemma_children_model(*self);
        }
    }

    /// Appends a `file` child with the given `name` attribute.
    pub fn add_file_with_attribute(&mut self, file_name: &str)
        ensures
            final(self)@ == (ElementModel {
                children: old(self)@.children.push(file_with_attribute(file_name@)),
                ..old(self)@
            }),
    {
        proof {
            lemma_children_model(*self);
        }
        let mut file = DocElement::new("file");
        file.attributes.push((String::from_str("name"), String::from_str(file_name)));
        proof {
            lemma_children_model(file);
            assert(file@.attributes =~= seq![("name"@, file_name@)]);
            assert(file@.children =~= Seq::<NodeModel>::empty());
        }
        self.children.push(XmlNode::Element(file));
        proof {
            lemma_children_model(*self);
            assert(self@.children =~= old(self)@.children.push(file_with_attribute(file_name@)));
        }
    }
}

/// Copies of the named groups of a target, each under its name.
fn collect_groups(target: &DocElement) -> (r: Vec<(String, DocElement)>)
    ensures
        groups_model(r@) == groups_of(target@.children, target@.children.len() as int),
{
    let mut groups: Vec<(String, DocElement)> = Vec::new();
    let mut i: usize = 0;
    assert(groups_model(groups@) =~= Seq::<(Seq<char>, ElementModel)>::empty());
    while i < target.children.len()
        invariant
            i <= target.children@.len(),
            groups_model(groups@) == groups_of(target@.children, i as int),
        decreases target.children@.len() - i,
    {
        let ghost before = groups_model(groups@);
        assert(target@.children[i as int] == target.children@[i as int]@);
        match &target.children[i] {
            XmlNode::Element(e) => {
                if same_text(e.name.as_str(), "group") {
                    match attribute(e, "name") {
                        Some(name) => {
                            let copy = e.deep_copy();
                            match find_group(&groups, name.as_str()) {
                                Some(at) => {
                                    groups[at] = (name.clone(), copy);
                                    assert(groups_model(groups@) =~= before.update(
                                        at as int,
                                        (name@, e@),
                                    ));
                                },
                                None => {
                                    groups.push((name.clone(), copy));
                                    assert(groups_model(groups@) =~= before.push((name@, e@)));
                                },
                            }
                        },
                        None => {},
                    }
                }
            },
            _ => {},
        }
        i += 1;
    }
    groups
}

impl ProjectCache {
    /// Builds the cache of a document from its text. Fails with
    /// `ParseFailure` exactly when the text is rejected, and with `NotFound`
    /// exactly when the document has no `target`.
    pub fn load_from_text(path: &str, text: &str) -> (r: Result<ProjectCache, DocError>)
        ensures
            match parsed_document(text@) {
                Some(project) => match project.find_child("target"@) {
                    Some(target) => r is Ok && r->Ok_0@ == (CacheModel {
                        file_path: path@,
                        project,
                        target,
                        groups: groups_of(target.children, target.children.len() as int),
                    }),
                    None => r is Err && r->Err_0 == DocError::NotFound,
                },
                None => r is Err && kind_of(r->Err_0) == ErrorKind::ParseFailure,
            },
    {
        let project = match parse_document(text) {
            Ok(p) => p,
            Err(e) => {
                return Err(e);
            },
        };
        let target = match project.find_child_element("target") {
            Some(t) => t.deep_copy(),
            None => {
                return Err(DocError::NotFound);
            },
        };
        let groups = collect_groups(&target);
        Ok(ProjectCache { file_path: String::from_str(path), project, target, groups })
    }

    /// The path of the document.
    pub fn file_path(&self) -> (r: &String)
        ensures
            r@ == self@.file_path,
    {
        &self.file_path
    }

    /// The project as it was read.
    pub fn project(&self) -> (r: &DocElement)
        ensures
            r@ == self@.project,
    {
        &self.project
    }

    /// The copy of the target.
    pub fn target(&self) -> (r: &DocElement)
        ensures
            r@ == self@.target,
    {
        &self.target
    }

    /// The copy of the group called `name`.
    pub fn group(&self, name: &str) -> (r: Option<&DocElement>)
        ensures
            match group_position(self@.groups, name@, 0) {
                Some(i) => r is Some && r->0@ == self@.groups[i].1,
                None => r is None,
            },
    {
        match find_group(&self.groups, name) {
            Some(i) => Some(&self.groups[i].1),
            None => None,
        }
    }

    /// Sorts the files of the group called `group_name` by their `name`
    /// attribute. Without such a group nothing changes.
    pub fn sort_group_files(&mut self, group_name: &str)
        ensures
            final(self)@ == (CacheModel {
                groups: with_group_children(old(self)@.groups, group_name@, sorting()),
                ..old(self)@
            }),
    {
        match find_group(&self.groups, group_name) {
            Some(i) => {
                self.groups[i].1.sort_files_by_attribute();
                assert(groups_model(self.groups@) =~= with_group_children(
                    old(self)@.groups,
                    group_name@,
                    sorting(),
                ));
            },
            None => {},
        }
    }

    /// Removes from the group called `group_name` every file whose `name`
    /// attribute is `file_name`. Without such a group nothing changes.
    pub fn remove_file(&mut self, group_name: &str, file_name: &str)
        ensures
            final(self)@ == (CacheModel {
                groups: with_group_children(old(self)@.groups, group_name@, removing(file_name@)),
                ..old(self)@
            }),
    {
        match find_group(&self.groups, group_name) {
            Some(i) => {
                self.groups[i].1.remove_files_called(file_name);
                assert(groups_model(self.groups@) =~= with_group_children(
                    old(self)@.groups,
                    group_name@,
                    removing(file_name@),
                ));
            },
            None => {},
        }
    }

    /// Appends a file with the given `name` attribute to the group called
    /// `group_name`. Without such a group nothing changes.
    pub fn add_file(&mut self, group_name: &str, file_name: &str)
        ensures
            final(self)@ == (CacheModel {
                groups: with_group_children(old(self)@.groups, group_name@, adding(file_name@)),
                ..old(self)@
            }),
    {
        match find_group(&self.groups, group_name) {
            Some(i) => {
                self.groups[i].1.add_file_with_attribute(file_name);
                assert(groups_model(self.groups@) =~= with_group_children(
                    old(self)@.groups,
                    group_name@,
                    adding(file_name@),
                ));
            },
            None => {},
        }
    }

    /// What is to be written to save the cache: the text of the project as
    /// it was read, to the path of the document. The copies of the groups
    /// are no part of it. Fails with `EncodingFailure` exactly when the
    /// project has no text.
    pub fn save(&self) -> (r: Result<SaveRequest, DocError>)
        ensures
            match serialized_text(self@.project) {
                Some(t) => r is Ok && r->Ok_0.path@ == self@.file_path && r->Ok_0.text@ == t,
                None => r is Err && kind_of(r->Err_0) == ErrorKind::EncodingFailure,
            },
    {
        match serialize_element(&self.project) {
            Ok(text) => Ok(SaveRequest { path: self.file_path.clone(), text }),
            Err(e) => Err(e),
        }
    }
}

} // verus!
