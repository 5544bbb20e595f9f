//! The tree materializer: walks a document, mints an identifier for every
//! node that it shows, binds the identifier to the node's path, and builds
//! the display tree.
//!
//! The identifiers are minted by the map: a random part, the generation of
//! the map and the serial number of the binding.

use vstd::prelude::*;
use vstd::string::*;
use crate::model::{DocElement, ElementModel};
use crate::nodemap::{distinct_ids, NodeMap};
use crate::outside::fresh_identifier;
use crate::path::{format_path, PathExpr, SegmentModel};

verus! {

/// What a display node stands for.
#[derive(Clone, Copy, Debug, PartialEq, Eq, Structural)]
pub enum NodeKind {
    Project,
    Target,
    Group,
    File,
}

/// A node of the display tree.
#[derive(Debug, PartialEq, Eq)]
pub struct TreeNode {
    pub key: String,
    pub label: String,
    pub children: Vec<TreeNode>,
    pub kind: NodeKind,
}

/// The mathematical value of a display node.
pub struct TreeModel {
    pub key: Seq<char>,
    pub label: Seq<char>,
    pub children: Seq<TreeModel>,
    pub kind: NodeKind,
}

/// The value of a display node.
pub open spec fn tree_model(t: TreeNode) -> TreeModel
    decreases t,
{
    TreeModel {
        key: t.key@,
        label: t.label@,
        children: Seq::new(
            t.children@.len(),
            |i: int|
                if 0 <= i < t.children@.len() {
                    tree_model(t.children@[i])
                } else {
                    arbitrary()
                },
        ),
        kind: t.kind,
    }
}

impl View for TreeNode {
    type V = TreeModel;

    open spec fn view(&self) -> TreeModel {
        tree_model(*self)
    }
}

/// The values of a run of display nodes.
pub open spec fn trees_model(v: Seq<TreeNode>) -> Seq<TreeModel> {
    Seq::new(v.len(), |i: int| tree_model(v[i]))
}

/// A display tree without its identifiers: what remains is its shape.
pub open spec fn erase_keys(t: TreeModel) -> TreeModel
    decreases t,
{
    TreeModel {
        key: Seq::empty(),
        label: t.label,
        children: Seq::new(
            t.children.len(),
            |i: int|
                if 0 <= i < t.children.len() {
                    erase_keys(t.children[i])
                } else {
                    arbitrary()
                },
        ),
        kind: t.kind,
    }
}

/// The label of an element: the text of its `name` child, or a placeholder.
pub open spec fn label_of(e: ElementModel) -> Seq<char> {
    match e.child_text("name"@) {
        Some(t) => t,
        None => "<no-name>"@,
    }
}

/// The elements with tag `item` in the first child with tag `container`;
/// none where there is no such child.
pub open spec fn container_items(e: ElementModel, container: Seq<char>, item: Seq<char>) -> Seq<
    ElementModel,
> {
    match e.find_child(container) {
        Some(c) => c.children_named(item),
        None => Seq::empty(),
    }
}

/// The shape of the display node of a file.
pub open spec fn file_shape(e: ElementModel) -> TreeModel {
    TreeModel { key: Seq::empty(), label: label_of(e), children: Seq::empty(), kind: NodeKind::File }
}

/// The shape of the display node of a group: its files below it.
pub open spec fn group_shape(e: ElementModel) -> TreeModel {
    TreeModel {
        key: Seq::empty(),
        label: label_of(e),
        children: container_items(e, "files"@, "file"@).map_values(|f: ElementModel| file_shape(f)),
        kind: NodeKind::Group,
    }
}

/// The shape of the display node of a target: its groups below it.
pub open spec fn target_shape(e: ElementModel) -> TreeModel {
    TreeModel {
        key: Seq::empty(),
        label: label_of(e),
        children: container_items(e, "groups"@, "group"@).map_values(
            |g: ElementModel| group_shape(g),
        ),
        kind: NodeKind::Target,
    }
}

/// The shape of the display tree of a document: the root stands for the
/// project whatever its tag is, and four levels are shown.
pub open spec fn project_shape(root: ElementModel) -> TreeModel {
    TreeModel {
        key: Seq::empty(),
        label: "/project/"@ + label_of(root),
        children: root.children_named("target"@).map_values(|t: ElementModel| target_shape(t)),
        kind: NodeKind::Project,
    }
}

/// The segment `tag[index]`.
pub open spec fn segment(tag: Seq<char>, index: int) -> SegmentModel {
    SegmentModel { tag, index: index as nat, indexed: true }
}

/// The segment `tag`, which stands for index 1 and writes none.
pub open spec fn plain(tag: Seq<char>) -> SegmentModel {
    SegmentModel { tag, index: 1, indexed: false }
}

/// The path of the root node.
pub open spec fn root_path() -> Seq<SegmentModel> {
    seq![plain("project"@)]
}

/// The path of the `i`-th (0-based) child of a display node of the given
/// kind and path.
pub open spec fn child_path(kind: NodeKind, path: Seq<SegmentModel>, i: int) -> Seq<SegmentModel> {
    match kind {
        NodeKind::Project => path.push(segment("target"@, i + 1)),
        NodeKind::Target => path.push(plain("groups"@)).push(segment("group"@, i + 1)),
        NodeKind::Group => path.push(plain("files"@)).push(segment("file"@, i + 1)),
        NodeKind::File => path,
    }
}

/// The bindings that a display tree at the given path stands for, in the
/// order in which the nodes are visited: a node before its children, the
/// children in their order.
pub open spec fn bindings_of(t: TreeModel, path: Seq<SegmentModel>) -> Seq<(Seq<char>, Seq<char>)>
    decreases t, 0int,
{
    seq![(t.key, format_path(path))] + children_bindings(
        t.children,
        t.kind,
        path,
        t.children.len() as int,
    )
}

/// The bindings of the first `upto` of the children of a node.
pub open spec fn children_bindings(
    children: Seq<TreeModel>,
    kind: NodeKind,
    path: Seq<SegmentModel>,
    upto: int,
) -> Seq<(Seq<char>, Seq<char>)>
    decreases children, upto,
{
    if upto <= 0 || upto > children.len() {
        Seq::empty()
    } else {
        children_bindings(children, kind, path, upto - 1) + bindings_of(
            children[upto - 1],
            child_path(kind, path, upto - 1),
        )
    }
}

/// The children of a display node's value are the values of its children.
pub proof fn lemma_tree_children(t: TreeNode)
    ensures
        t@.children == trees_model(t.children@),
{
    assert(t@.children =~= trees_model(t.children@));
}

/// The bindings of the first children depend on those children alone.
proof fn lemma_children_bindings_prefix(
    a: Seq<TreeModel>,
    b: Seq<TreeModel>,
    kind: NodeKind,
    path: Seq<SegmentModel>,
    upto: int,
)
    requires
        0 <= upto <= a.len() <= b.len(),
        forall|i: int| 0 <= i < upto ==> a[i] == b[i],
    ensures
        children_bindings(a, kind, path, upto) == children_bindings(b, kind, path, upto),
    decreases upto,
{
    if upto > 0 {
        lemma_children_bindings_prefix(a, b, kind, path, upto - 1);
    }
}

/// The label of an element.
pub fn label_text(e: &DocElement) -> (r: String)
    ensures
        r@ == label_of(e@),
{
    match e.get_child_text("name") {
        Some(t) => t,
        None => String::from_str("<no-name>"),
    }
}

/// The child elements with tag `item` of the first child with tag
/// `container`.
pub fn items_in<'a>(e: &'a DocElement, container: &str, item: &str) -> (r: Vec<&'a DocElement>)
    ensures
        r@.map_values(|x: &DocElement| x@) == container_items(e@, container@, item@),
{
    match e.find_child_element(container) {
        Some(c) => c.get_children_by_name(item),
        None => {
            let r: Vec<&DocElement> = Vec::new();
            assert(r@.map_values(|x: &DocElement| x@) =~= Seq::<ElementModel>::empty());
            r
        },
    }
}

/// Shows one node: mints its identifier, binds it to the node's path, and
/// shows its children, each at its own path.
fn show_node(e: &DocElement, kind: NodeKind, path: &PathExpr, map: &mut NodeMap) -> (r: TreeNode)
    requires
        old(map).wf(),
    ensures
        erase_keys(r@) == shape_of(e@, kind),
        final(map).wf(),
        final(map).generation() == old(map).generation(),
        final(map).bindings() == old(map).bindings() + bindings_of(r@, path@),
    decreases depth_below(kind),
{
    let random = fresh_identifier();
    let key = map.bind(random.as_str(), path.format());
    let label = match kind {
        NodeKind::Project => String::from_str("/project/").concat(label_text(e).as_str()),
        _ => label_text(e),
    };
    let ghost first = seq![(key@, format_path(path@))];
    let items: Vec<&DocElement> = match kind {
        NodeKind::Project => e.get_children_by_name("target"),
        NodeKind::Target => items_in(e, "groups", "group"),
        NodeKind::Group => items_in(e, "files", "file"),
        NodeKind::File => Vec::new(),
    };
    let ghost sources = items@.map_values(|x: &DocElement| x@);
    assert(sources == sources_of(e@, kind)) by {
        if kind == NodeKind::File {
            assert(sources =~= Seq::<ElementModel>::empty());
        }
    }
    let mut children: Vec<TreeNode> = Vec::new();
    let mut i: usize = 0;
    assert(map.bindings() =~= old(map).bindings() + (first + children_bindings(
        trees_model(children@),
        kind,
        path@,
        0,
    )));
    while i < items.len()
        invariant
            i <= items@.len(),
            kind == NodeKind::File ==> items@.len() == 0,
            children@.len() == i,
            sources == items@.map_values(|x: &DocElement| x@),
            forall|k: int|
                0 <= k < i ==> erase_keys(#[trigger] trees_model(children@)[k]) == shape_of(
                    sources[k],
                    below(kind),
                ),
            map.bindings() == old(map).bindings() + (first + children_bindings(
                trees_model(children@),
                kind,
                path@,
                i as int,
            )),
            map.wf(),
            map.generation() == old(map).generation(),
        decreases items@.len() - i,
    {
        let ghost before = trees_model(children@);
        let ghost bound = map.bindings();
        let next = match kind {
            NodeKind::Project => path.child("target", i + 1),
            NodeKind::Target => path.child_plain("groups").child("group", i + 1),
            _ => path.child_plain("files").child("file", i + 1),
        };
        assert(next@ == child_path(kind, path@, i as int));
        assert(sources[i as int] == items@[i as int]@);
        let child = show_node(items[i], below_kind(kind), &next, map);
        children.push(child);
        proof {
            let after = trees_model(children@);
            assert(after[i as int] == child@);
            assert forall|k: int| 0 <= k < i + 1 implies erase_keys(#[trigger] after[k])
                == shape_of(sources[k], below(kind)) by {
                if k < i {
                    assert(after[k] == before[k]);
                }
            }
            lemma_children_bindings_prefix(before, after, kind, path@, i as int);
            let so_far = first + children_bindings(before, kind, path@, i as int);
            let added = bindings_of(child@, next@);
            let now = first + children_bindings(after, kind, path@, i + 1);
            assert(now =~= so_far + added);
            assert(bound =~= old(map).bindings() + so_far);
            assert(map.bindings() =~= old(map).bindings() + now);
        }
        i += 1;
    }
    let r = TreeNode { key, label, children, kind };
    proof {
        lemma_tree_children(r);
        assert(erase_keys(r@).children =~= shape_of(e@, kind).children);
    }
    r
}

/// The kind of the children of a node of the given kind.
pub open spec fn below(kind: NodeKind) -> NodeKind {
    match kind {
        NodeKind::Project => NodeKind::Target,
        NodeKind::Target => NodeKind::Group,
        _ => NodeKind::File,
    }
}

/// The number of levels shown below a node of the given kind.
pub open spec fn depth_below(kind: NodeKind) -> nat {
    match kind {
        NodeKind::Project => 3,
        NodeKind::Target => 2,
        NodeKind::Group => 1,
        NodeKind::File => 0,
    }
}

/// The elements that the children of a display node stand for.
pub open spec fn sources_of(e: ElementModel, kind: NodeKind) -> Seq<ElementModel> {
    match kind {
        NodeKind::Project => e.children_named("target"@),
        NodeKind::Target => container_items(e, "groups"@, "group"@),
        NodeKind::Group => container_items(e, "files"@, "file"@),
        NodeKind::File => Seq::empty(),
    }
}

/// The shape of the display node of the given kind for an element.
pub open spec fn shape_of(e: ElementModel, kind: NodeKind) -> TreeModel {
    match kind {
        NodeKind::Project => project_shape(e),
        NodeKind::Target => target_shape(e),
        NodeKind::Group => group_shape(e),
        NodeKind::File => file_shape(e),
    }
}

/// The kind of the children of a node of the given kind.
fn below_kind(kind: NodeKind) -> (r: NodeKind)
    ensures
        r == below(kind),
{
    match kind {
        NodeKind::Project => NodeKind::Target,
        NodeKind::Target => NodeKind::Group,
        _ => NodeKind::File,
    }
}

/// Materializes the display tree of a document. Every shown node gets a
/// fresh identifier, bound in `map` to the text of the node's path; the
/// bindings are made in the order of the visit, after those that `map` held.
/// The shape of the tree depends on the document alone, and no two nodes of
/// the tree get the same identifier.
pub fn materialize(root: &DocElement, map: &mut NodeMap) -> (r: TreeNode)
    requires
        old(map).wf(),
    ensures
        erase_keys(r@) == project_shape(root@),
        final(map).wf(),
        final(map).generation() == old(map).generation(),
        final(map).bindings() == old(map).bindings() + bindings_of(r@, root_path()),
        distinct_ids(bindings_of(r@, root_path())),
{
    let mut path = PathExpr::new();
    path.push_plain("project");
    assert(path@ =~= root_path());
    let r = show_node(root, NodeKind::Project, &path, map);
    proof {
        map.lemma_distinct();
        let all = map.bindings();
        let made = bindings_of(r@, root_path());
        let before = old(map).bindings().len() as int;
        assert forall|i: int, j: int| 0 <= i < j < made.len() implies (#[trigger] made[i]).0 != (
        #[trigger] made[j]).0 by {
            assert(all[before + i] == made[i] && all[before + j] == made[j]);
        }
    }
    r
}

impl NodeKind {
    /// The name of the kind: `project`, `target`, `group` or `file`.
    pub fn name(&self) -> (r: &'static str)
        ensures
            r@ == kind_name(*self),
    {
        match self {
            NodeKind::Project => "project",
            NodeKind::Target => "target",
            NodeKind::Group => "group",
            NodeKind::File => "file",
        }
    }
}

/// The name of a kind.
pub open spec fn kind_name(kind: NodeKind) -> Seq<char> {
    match kind {
        NodeKind::Project => "project"@,
        NodeKind::Target => "target"@,
        NodeKind::Group => "group"@,
        NodeKind::File => "file"@,
    }
}

} // verus!
