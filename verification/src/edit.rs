//! Structural edits of a document: sorting the files of a group, adding a
//! file to a group, deleting a file, each at a position that a path gives.

use vstd::prelude::*;
use vstd::string::*;
use crate::error::DocError;
use crate::model::{
    is_element_named, lemma_children_model, lemma_nth_named_from, nodes_model, DocElement,
    ElementModel, NodeModel, XmlNode,
};
use crate::path::{PathExpr, SegmentModel};
use crate::sort::{comes_before, insertion_point, stable_sort};
use crate::text::{less_than, same_text};

verus! {

/// The key by which file nodes are ordered: the text of the `name` child, or
/// the empty text where there is none.
#[verifier::opaque]
pub open spec fn name_key(n: NodeModel) -> Seq<char> {
    match n {
        NodeModel::Element(e) => match e.child_text("name"@) {
            Some(t) => t,
            None => Seq::empty(),
        },
        _ => Seq::empty(),
    }
}

/// The value of the first attribute with the given name.
pub open spec fn attribute_of(attributes: Seq<(Seq<char>, Seq<char>)>, name: Seq<char>, from: int)
    -> Option<Seq<char>>
    decreases attributes.len() - from,
{
    if from < 0 || from >= attributes.len() {
        None
    } else if attributes[from].0 == name {
        Some(attributes[from].1)
    } else {
        attribute_of(attributes, name, from + 1)
    }
}

/// The key by which file nodes with a `name` attribute are ordered: the
/// value of the attribute, or the empty text where there is none.
#[verifier::opaque]
pub open spec fn attribute_key(n: NodeModel) -> Seq<char> {
    match n {
        NodeModel::Element(e) => match attribute_of(e.attributes, "name"@, 0) {
            Some(t) => t,
            None => Seq::empty(),
        },
        _ => Seq::empty(),
    }
}

/// Where the name of a file node stands.
#[derive(Clone, Copy, Debug, PartialEq, Eq, Structural)]
pub enum SortKey {
    /// In the text of the `name` child.
    NameChild,
    /// In the `name` attribute.
    NameAttribute,
}

/// The key of a node.
pub open spec fn node_key(n: NodeModel, key: SortKey) -> Seq<char> {
    match key {
        SortKey::NameChild => name_key(n),
        SortKey::NameAttribute => attribute_key(n),
    }
}

/// The key function for the chosen place of the name.
pub open spec fn keyed(key: SortKey) -> spec_fn(NodeModel) -> Seq<char> {
    |n: NodeModel| node_key(n, key)
}

/// The key function of the documents with `name` children.
pub open spec fn by_name() -> spec_fn(NodeModel) -> Seq<char> {
    keyed(SortKey::NameChild)
}

/// The test for an element with the given tag.
pub open spec fn named(name: Seq<char>) -> spec_fn(NodeModel) -> bool {
    |n: NodeModel| n.is_element_named(name)
}

/// The test for anything but an element with the given tag.
pub open spec fn not_named(name: Seq<char>) -> spec_fn(NodeModel) -> bool {
    |n: NodeModel| !n.is_element_named(name)
}

/// The children of a `files` container after sorting: what is no `file`
/// element stays in front, in its order; the `file` elements follow, ordered
/// by name.
#[verifier::opaque]
pub open spec fn sorted_children(children: Seq<NodeModel>, ascending: bool) -> Seq<NodeModel> {
    children.filter(not_named("file"@)) + stable_sort(
        children.filter(named("file"@)),
        by_name(),
        ascending,
    )
}

/// An element with other children.
pub open spec fn with_children(e: ElementModel, children: Seq<NodeModel>) -> ElementModel {
    ElementModel { children, ..e }
}

/// An element with the child at position `p` replaced by the element `c`.
pub open spec fn with_child(e: ElementModel, p: int, c: ElementModel) -> ElementModel {
    ElementModel { children: e.children.update(p, NodeModel::Element(c)), ..e }
}

/// An element with the given tag and children, and nothing else.
pub open spec fn plain_element(name: Seq<char>, children: Seq<NodeModel>) -> ElementModel {
    ElementModel {
        prefix: None,
        namespace: None,
        namespaces: None,
        name,
        attributes: Seq::empty(),
        children,
    }
}

/// The entry for a new file: `<file><name>file_name</name></file>`.
pub open spec fn file_entry(file_name: Seq<char>) -> NodeModel {
    NodeModel::Element(
        plain_element(
            "file"@,
            seq![NodeModel::Element(plain_element("name"@, seq![NodeModel::Text(file_name)]))],
        ),
    )
}

/// A group with the files of its first `files` container sorted. A group
/// without such a container stays as it is.
pub open spec fn sort_group(group: ElementModel, ascending: bool) -> ElementModel {
    match group.child_position("files"@, 1) {
        Some(p) => {
            let files = group.children[p].as_element();
            with_child(group, p, with_children(files, sorted_children(files.children, ascending)))
        },
        None => group,
    }
}

/// A group with a new file entry appended to its first `files` container. A
/// group without such a container gets one, as its last child.
pub open spec fn add_file_to_group(group: ElementModel, file_name: Seq<char>) -> ElementModel {
    match group.child_position("files"@, 1) {
        Some(p) => {
            let files = group.children[p].as_element();
            with_child(group, p, with_children(files, files.children.push(file_entry(file_name))))
        },
        None => with_children(
            group,
            group.children.push(
                NodeModel::Element(plain_element("files"@, seq![file_entry(file_name)])),
            ),
        ),
    }
}

/// An element without its `n`-th (1-based) child element with tag `tag`;
/// nothing where it has fewer than `n` such children.
pub open spec fn remove_nth(e: ElementModel, tag: Seq<char>, n: nat) -> Option<ElementModel> {
    match e.child_position(tag, n) {
        Some(p) => Some(with_children(e, e.children.remove(p))),
        None => None,
    }
}

/// An edit of one element.
#[derive(Clone, Debug, PartialEq, Eq)]
pub enum Edit {
    /// Sort the files of the group, ascending or descending.
    SortFiles(bool),
    /// Add a file with the given name to the group.
    AddFile(String),
    /// Remove the child element with the given tag and 1-based index.
    RemoveChild(String, usize),
}

/// The mathematical value of an edit.
pub enum EditModel {
    SortFiles(bool),
    AddFile(Seq<char>),
    RemoveChild(Seq<char>, nat),
}

impl View for Edit {
    type V = EditModel;

    open spec fn view(&self) -> EditModel {
        match self {
            Edit::SortFiles(a) => EditModel::SortFiles(*a),
            Edit::AddFile(n) => EditModel::AddFile(n@),
            Edit::RemoveChild(t, i) => EditModel::RemoveChild(t@, *i as nat),
        }
    }
}

/// The element after the edit; nothing where the edit finds no node to work
/// on.
pub open spec fn apply_edit(e: ElementModel, edit: EditModel) -> Option<ElementModel> {
    match edit {
        EditModel::SortFiles(ascending) => Some(sort_group(e, ascending)),
        EditModel::AddFile(name) => Some(add_file_to_group(e, name)),
        EditModel::RemoveChild(tag, n) => remove_nth(e, tag, n),
    }
}

/// The element after an edit of the descendant that `segs` leads to; nothing
/// where `segs` leads nowhere or the edit finds no node.
pub open spec fn edit_at(e: ElementModel, segs: Seq<SegmentModel>, edit: EditModel) -> Option<
    ElementModel,
>
    decreases segs.len(),
{
    if segs.len() == 0 {
        apply_edit(e, edit)
    } else {
        match e.child_position(segs[0].tag, segs[0].index) {
            Some(p) => match edit_at(e.children[p].as_element(), segs.drop_first(), edit) {
                Some(c) => Some(with_child(e, p, c)),
                None => None,
            },
            None => None,
        }
    }
}

/// Whether a path starts at the document root: its first segment is
/// `project`, index 1, whatever tag the root element has.
pub open spec fn is_rooted(expr: Seq<SegmentModel>) -> bool {
    expr.len() >= 1 && expr[0].tag == "project"@ && expr[0].index == 1
}

/// The document after an edit at the position that `expr` gives.
pub open spec fn edit_document(root: ElementModel, expr: Seq<SegmentModel>, edit: EditModel)
    -> Option<ElementModel> {
    if is_rooted(expr) {
        edit_at(root, expr.drop_first(), edit)
    } else {
        None
    }
}

/// The element that `segs` leads to from `e`.
pub open spec fn descend(e: ElementModel, segs: Seq<SegmentModel>) -> Option<ElementModel>
    decreases segs.len(),
{
    if segs.len() == 0 {
        Some(e)
    } else {
        match e.child_position(segs[0].tag, segs[0].index) {
            Some(p) => descend(e.children[p].as_element(), segs.drop_first()),
            None => None,
        }
    }
}

/// The element at the position that `expr` gives: the first segment stands
/// for the root itself, each further one selects among the children with its
/// tag the one at its index.
pub open spec fn resolve_model(root: ElementModel, expr: Seq<SegmentModel>) -> Option<
    ElementModel,
> {
    if is_rooted(expr) {
        descend(root, expr.drop_first())
    } else {
        None
    }
}

/// The key of a file node.
pub fn name_key_of(node: &XmlNode) -> (r: String)
    ensures
        r@ == name_key(node@),
{
    reveal(name_key);
    match node {
        XmlNode::Element(e) => match e.get_child_text("name") {
            Some(t) => t,
            None => String::new(),
        },
        _ => String::new(),
    }
}

/// The value of the first attribute of `e` with the given name.
pub fn attribute<'a>(e: &'a DocElement, name: &str) -> (r: Option<&'a String>)
    ensures
        match r {
            Some(v) => attribute_of(e@.attributes, name@, 0) == Some(v@),
            None => attribute_of(e@.attributes, name@, 0) is None,
        },
{
    let mut i: usize = 0;
    while i < e.attributes.len()
        invariant
            i <= e.attributes@.len(),
            attribute_of(e@.attributes, name@, 0) == attribute_of(e@.attributes, name@, i as int),
        decreases e.attributes@.len() - i,
    {
        if same_text(e.attributes[i].0.as_str(), name) {
            return Some(&e.attributes[i].1);
        }
        i += 1;
    }
    None
}

/// The key of a node.
pub fn node_key_of(node: &XmlNode, key: SortKey) -> (r: String)
    ensures
        r@ == node_key(node@, key),
{
    match key {
        SortKey::NameChild => name_key_of(node),
        SortKey::NameAttribute => {
            reveal(attribute_key);
            match node {
                XmlNode::Element(e) => match attribute(e, "name") {
                    Some(v) => v.clone(),
                    None => String::new(),
                },
                _ => String::new(),
            }
        },
    }
}

/// Whether key `a` must stand before key `b` in the chosen direction.
fn key_comes_before(a: &str, b: &str, ascending: bool) -> (r: bool)
    ensures
        r == comes_before(a@, b@, ascending),
{
    if ascending {
        less_than(a, b)
    } else {
        less_than(b, a)
    }
}

/// Sorts nodes by the chosen key, keeping the order of nodes with equal
/// keys.
pub fn sort_nodes_by(nodes: Vec<XmlNode>, key_at: SortKey, ascending: bool) -> (r: Vec<XmlNode>)
    ensures
        nodes_model(r@) == stable_sort(nodes_model(nodes@), keyed(key_at), ascending),
{
    let ghost input = nodes_model(nodes@);
    let mut rest = nodes;
    let mut out: Vec<XmlNode> = Vec::new();
    let mut keys: Vec<String> = Vec::new();
    let ghost mut done: int = 0;
    assert(input.take(0) =~= Seq::<NodeModel>::empty());
    assert(nodes_model(out@) =~= Seq::<NodeModel>::empty());
    assert(nodes_model(rest@) =~= input.skip(0));
    while rest.len() > 0
        invariant
            0 <= done <= input.len(),
            rest@.len() == input.len() - done,
            nodes_model(rest@) == input.skip(done),
            nodes_model(out@) == stable_sort(input.take(done), keyed(key_at), ascending),
            keys@.len() == out@.len(),
            forall|j: int| 0 <= j < keys@.len() ==> (#[trigger] keys@[j])@ == node_key(out@[j]@, key_at),
        decreases rest@.len(),
    {
        let ghost front = nodes_model(out@);
        let ghost old_rest = rest@;
        let node = rest.remove(0);
        let key = node_key_of(&node, key_at);
        assert(node@ == input[done]) by {
            assert(nodes_model(old_rest)[0] == input.skip(done)[0]);
        }
        let mut p: usize = 0;
        while p < keys.len() && !key_comes_before(key.as_str(), keys[p].as_str(), ascending)
            invariant
                p <= keys@.len(),
                keys@.len() == out@.len(),
                front == nodes_model(out@),
                forall|j: int|
                    0 <= j < keys@.len() ==> (#[trigger] keys@[j])@ == node_key(out@[j]@, key_at),
                insertion_point(front, keyed(key_at), key@, ascending, 0) == insertion_point(
                    front,
                    keyed(key_at),
                    key@,
                    ascending,
                    p as int,
                ),
            decreases keys@.len() - p,
        {
            assert(keyed(key_at)(front[p as int]) == keys@[p as int]@);
            p += 1;
        }
        proof {
            if p < keys@.len() {
                assert(keyed(key_at)(front[p as int]) == keys@[p as int]@);
            }
            assert(input.take(done + 1).drop_last() =~= input.take(done));
            assert(input.take(done + 1).last() == node@);
            assert(keyed(key_at)(node@) == key@);
        }
        out.insert(p, node);
        keys.insert(p, key);
        proof {
            assert(nodes_model(out@) =~= front.insert(p as int, node@));
            assert forall|j: int| 0 <= j < rest@.len() implies nodes_model(rest@)[j]
                == input.skip(done + 1)[j] by {
                assert(nodes_model(old_rest)[j + 1] == input.skip(done)[j + 1]);
            }
            assert(nodes_model(rest@) =~= input.skip(done + 1));
            done = done + 1;
        }
    }
    assert(input.take(done) =~= input);
    out
}

/// Sorts nodes by their name key, keeping the order of nodes with equal keys.
pub fn sort_nodes(nodes: Vec<XmlNode>, ascending: bool) -> (r: Vec<XmlNode>)
    ensures
        nodes_model(r@) == stable_sort(nodes_model(nodes@), by_name(), ascending),
{
    sort_nodes_by(nodes, SortKey::NameChild, ascending)
}

/// Splits nodes into the elements with tag `name` and the rest, each part in
/// its order.
pub fn split_named(nodes: Vec<XmlNode>, name: &str) -> (r: (Vec<XmlNode>, Vec<XmlNode>))
    ensures
        nodes_model(r.0@) == nodes_model(nodes@).filter(named(name@)),
        nodes_model(r.1@) == nodes_model(nodes@).filter(not_named(name@)),
{
    let ghost input = nodes_model(nodes@);
    let mut rest = nodes;
    let mut yes: Vec<XmlNode> = Vec::new();
    let mut no: Vec<XmlNode> = Vec::new();
    let ghost mut done: int = 0;
    proof {
        reveal(Seq::filter);
        assert(input.take(0) =~= Seq::<NodeModel>::empty());
        assert(nodes_model(yes@) =~= Seq::<NodeModel>::empty());
        assert(nodes_model(no@) =~= Seq::<NodeModel>::empty());
        assert(nodes_model(rest@) =~= input.skip(0));
    }
    while rest.len() > 0
        invariant
            0 <= done <= input.len(),
            rest@.len() == input.len() - done,
            nodes_model(rest@) == input.skip(done),
            nodes_model(yes@) == input.take(done).filter(named(name@)),
            nodes_model(no@) == input.take(done).filter(not_named(name@)),
        decreases rest@.len(),
    {
        let ghost old_rest = rest@;
        let ghost old_yes = nodes_model(yes@);
        let ghost old_no = nodes_model(no@);
        let node = rest.remove(0);
        proof {
            reveal(Seq::filter);
            assert(node@ == input[done]) by {
                assert(nodes_model(old_rest)[0] == input.skip(done)[0]);
            }
            assert(input.take(done + 1).drop_last() =~= input.take(done));
            assert(input.take(done + 1).last() == node@);
            assert forall|j: int| 0 <= j < rest@.len() implies nodes_model(rest@)[j]
                == input.skip(done + 1)[j] by {
                assert(nodes_model(old_rest)[j + 1] == input.skip(done)[j + 1]);
            }
            assert(nodes_model(rest@) =~= input.skip(done + 1));
        }
        if is_element_named(&node, name) {
            yes.push(node);
            assert(nodes_model(yes@) =~= old_yes.push(input[done]));
        } else {
            no.push(node);
            assert(nodes_model(no@) =~= old_no.push(input[done]));
        }
        proof {
            done = done + 1;
        }
    }
    assert(input.take(done) =~= input);
    (yes, no)
}

impl DocElement {
    /// Sorts the `file` children of this container by name; the other
    /// children come first, in their order.
    pub fn sort_files(&mut self, ascending: bool)
        ensures
            final(self)@ == with_children(
                old(self)@,
                sorted_children(old(self)@.children, ascending),
            ),
    {
        proof {
            reveal(sorted_children);
            lemma_children_model(*self);
        }
        let mut taken: Vec<XmlNode> = Vec::new();
        std::mem::swap(&mut self.children, &mut taken);
        let (files, mut others) = split_named(taken, "file");
        let mut sorted = sort_nodes(files, ascending);
        let ghost kept = nodes_model(others@);
        let ghost tail = nodes_model(sorted@);
        others.append(&mut sorted);
        assert(nodes_model(others@) =~= kept + tail);
        self.children = others;
        proof {
            lemma_children_model(*self);
        }
    }


    /// Sorts the files of this group: the `file` children of its first
    /// `files` container. Without such a container nothing changes.
    pub fn sort_group(&mut self, ascending: bool)
        ensures
            final(self)@ == sort_group(old(self)@, ascending),
    {
        proof {
            lemma_children_model(*self);
            lemma_nth_named_from(self@.children, "files"@, 1, 0);
        }
        match self.child_position("files", 1) {
            Some(p) => {
                match &mut self.children[p] {
                    XmlNode::Element(files) => {
                        files.sort_files(ascending);
                    },
                    _ => {},
                }
                proof {
                    lemma_children_model(*self);
                    assert(self@.children =~= sort_group(old(self)@, ascending).children);
                }
            },
            None => {},
        }
    }

    /// Appends a file entry with the given name to the first `files`
    /// container of this group, creating the container as the last child
    /// where there is none.
    pub fn add_file(&mut self, file_name: &str)
        ensures
            final(self)@ == add_file_to_group(old(self)@, file_name@),
    {
        proof {
            lemma_children_model(*self);
            lemma_nth_named_from(self@.children, "files"@, 1, 0);
        }
        let mut name_el = DocElement::new("name");
        name_el.children.push(XmlNode::Text(String::from_str(file_name)));
        let mut file_el = DocElement::new("file");
        proof {
            lemma_children_model(name_el);
            assert(name_el@.children =~= seq![NodeModel::Text(file_name@)]);
        }
        file_el.children.push(XmlNode::Element(name_el));
        proof {
            lemma_children_model(file_el);
            assert(file_el@.children =~= seq![NodeModel::Element(name_el@)]);
            assert(NodeModel::Element(file_el@) == file_entry(file_name@));
        }
        match self.child_position("files", 1) {
            Some(p) => {
                match &mut self.children[p] {
                    XmlNode::Element(files) => {
                        let ghost before = files@;
                        proof {
                            lemma_children_model(*files);
                        }
                        files.children.push(XmlNode::Element(file_el));
                        proof {
                            lemma_children_model(*files);
                            assert(files@.children =~= before.children.push(
                                file_entry(file_name@),
                            ));
                        }
                    },
                    _ => {},
                }
                proof {
                    lemma_children_model(*self);
                    assert(self@.children =~= add_file_to_group(old(self)@, file_name@).children);
                }
            },
            None => {
                let mut files = DocElement::new("files");
                files.children.push(XmlNode::Element(file_el));
                proof {
                    lemma_children_model(files);
                    assert(files@.children =~= seq![file_entry(file_name@)]);
                }
                self.children.push(XmlNode::Element(files));
                proof {
                    lemma_children_model(*self);
                    assert(self@.children =~= add_file_to_group(old(self)@, file_name@).children);
                }
            },
        }
    }

    /// Removes the `n`-th (1-based) child element with tag `tag`. Fails with
    /// `NotFound`, changing nothing, when there are fewer than `n`.
    pub fn remove_child(&mut self, tag: &str, n: usize) -> (r: Result<(), DocError>)
        ensures
            match remove_nth(old(self)@, tag@, n as nat) {
                Some(after) => r is Ok && final(self)@ == after,
                None => r == Err::<(), DocError>(DocError::NotFound) && final(self)@ == old(self)@,
            },
    {
        proof {
            lemma_children_model(*self);
        }
        match self.child_position(tag, n) {
            Some(p) => {
                self.children.remove(p);
                proof {
                    lemma_children_model(*self);
                    assert(self@.children =~= old(self)@.children.remove(p as int));
                }
                Ok(())
            },
            None => Err(DocError::NotFound),
        }
    }

    /// Applies an edit to this element.
    pub fn apply(&mut self, edit: &Edit) -> (r: Result<(), DocError>)
        ensures
            match apply_edit(old(self)@, edit@) {
                Some(after) => r is Ok && final(self)@ == after,
                None => r == Err::<(), DocError>(DocError::NotFound) && final(self)@ == old(self)@,
            },
    {
        match edit {
            Edit::SortFiles(ascending) => {
                self.sort_group(*ascending);
                Ok(())
            },
            Edit::AddFile(name) => {
                self.add_file(name.as_str());
                Ok(())
            },
            Edit::RemoveChild(tag, n) => self.remove_child(tag.as_str(), *n),
        }
    }

    /// Applies an edit to the descendant that the segments `from..upto` of
    /// `expr` lead to. Fails with `NotFound`, changing nothing, when they
    /// lead nowhere or the edit finds no node.
    pub fn edit_below(&mut self, expr: &PathExpr, from: usize, upto: usize, edit: &Edit) -> (r:
        Result<(), DocError>)
        requires
            from <= upto <= expr@.len(),
        ensures
            match edit_at(old(self)@, expr@.subrange(from as int, upto as int), edit@) {
                Some(after) => r is Ok && final(self)@ == after,
                None => r == Err::<(), DocError>(DocError::NotFound) && final(self)@ == old(self)@,
            },
        decreases upto - from,
    {
        let ghost segs = expr@.subrange(from as int, upto as int);
        if from == upto {
            return self.apply(edit);
        }
        let seg = &expr.segments[from];
        proof {
            lemma_children_model(*self);
            assert(segs[0] == seg@);
            assert(segs.drop_first() =~= expr@.subrange(from + 1, upto as int));
            lemma_nth_named_from(self@.children, seg@.tag, seg@.index, 0);
        }
        match self.child_position(seg.tag.as_str(), seg.index) {
            Some(p) => {
                let r = match &mut self.children[p] {
                    XmlNode::Element(c) => c.edit_below(expr, from + 1, upto, edit),
                    _ => Err(DocError::NotFound),
                };
                proof {
                    lemma_children_model(*self);
                    match edit_at(old(self)@, segs, edit@) {
                        Some(after) => {
                            assert(self@.children =~= after.children);
                        },
                        None => {
                            assert(self@.children =~= old(self)@.children);
                        },
                    }
                }
                r
            },
            None => Err(DocError::NotFound),
        }
    }
}

/// Resolves a path against a document: the element at the position that the
/// path gives. Fails with `NotFound` as soon as a segment selects nothing.
pub fn resolve<'a>(root: &'a DocElement, expr: &PathExpr) -> (r: Result<&'a DocElement, DocError>)
    ensures
        match r {
            Ok(e) => resolve_model(root@, expr@) == Some(e@),
            Err(err) => err == DocError::NotFound && resolve_model(root@, expr@) is None,
        },
{
    if !starts_at_root(expr) {
        return Err(DocError::NotFound);
    }
    let mut current = root;
    let mut i: usize = 1;
    assert(expr@.drop_first() =~= expr@.skip(1));
    while i < expr.segments.len()
        invariant
            1 <= i <= expr@.len(),
            resolve_model(root@, expr@) == descend(current@, expr@.skip(i as int)),
        decreases expr@.len() - i,
    {
        let seg = &expr.segments[i];
        proof {
            let rest = expr@.skip(i as int);
            assert(rest[0] == seg@);
            assert(rest.drop_first() =~= expr@.skip(i + 1));
            lemma_nth_named_from(current@.children, seg@.tag, seg@.index, 0);
        }
        match current.child_position(seg.tag.as_str(), seg.index) {
            Some(p) => {
                current = current.element_at(p);
            },
            None => {
                return Err(DocError::NotFound);
            },
        }
        i += 1;
    }
    Ok(current)
}

/// Whether the path starts at the document root.
pub fn starts_at_root(expr: &PathExpr) -> (r: bool)
    ensures
        r == is_rooted(expr@),
{
    if expr.segments.len() == 0 {
        return false;
    }
    let first = &expr.segments[0];
    let r = first.index == 1 && same_text(first.tag.as_str(), "project");
    assert(expr@[0] == first@);
    r
}

impl DocElement {
    /// Applies an edit at the position that the first `upto` segments of
    /// `expr` give, this element being the document root. Fails with
    /// `NotFound`, changing nothing, when they lead nowhere or the edit finds
    /// no node.
    pub fn edit_document(&mut self, expr: &PathExpr, upto: usize, edit: &Edit) -> (r: Result<
        (),
        DocError,
    >)
        requires
            upto <= expr@.len(),
        ensures
            match edit_document(old(self)@, expr@.take(upto as int), edit@) {
                Some(after) => r is Ok && final(self)@ == after,
                None => r == Err::<(), DocError>(DocError::NotFound) && final(self)@ == old(self)@,
            },
    {
        if upto == 0 || !starts_at_root(expr) {
            return Err(DocError::NotFound);
        }
        assert(expr@.take(upto as int).drop_first() =~= expr@.subrange(1, upto as int));
        self.edit_below(expr, 1, upto, edit)
    }
}

} // verus!
