//! Laws of the library: what holds of every document, stated over the
//! mathematical functions that the contracts use, and proved.

use vstd::prelude::*;
use crate::edit::{
    add_file_to_group, apply_edit, by_name, descend, edit_at, edit_document, file_entry, named,
    not_named, plain_element, remove_nth, resolve_model, sort_group, sorted_children,
    with_child, with_children, EditModel,
};
use crate::error::ErrorKind;
use crate::model::{
    count_named, lemma_nth_named_from, nth_named_from, writable, ElementModel, NodeModel,
};
use crate::nodemap::{bindings_map, distinct_ids, lemma_distinct_bindings};
use crate::path::{
    decimal_digits, format_path, format_segment, is_file_position, is_group_position,
    lemma_path_round_trip, parse_path, valid_path, valid_segment, SegmentModel,
};
use crate::sort::{
    distinct_keys, lemma_descending_reverses_ascending, lemma_reversal_needs_distinct_keys,
    lemma_sort_idempotent, lemma_sort_keeps_items, lemma_sort_len, stable_sort,
};
use crate::store::{
    batch, doc_failure, planned_edit, step, store_failure, DocModel, Outcome, RequestModel,
};
use crate::xml::serialized_text;
use crate::tree::{
    bindings_of, child_path, children_bindings, container_items, erase_keys, plain,
    project_shape, root_path, segment, sources_of, NodeKind, TreeModel,
};

verus! {

/// Filtering keeps a sequence whose items all pass.
pub proof fn lemma_filter_keeps_all<T>(s: Seq<T>, pred: spec_fn(T) -> bool)
    requires
        forall|i: int| 0 <= i < s.len() ==> pred(#[trigger] s[i]),
    ensures
        s.filter(pred) == s,
    decreases s.len(),
{
    reveal(Seq::filter);
    if s.len() > 0 {
        let front = s.drop_last();
        assert forall|i: int| 0 <= i < front.len() implies pred(#[trigger] front[i]) by {
            assert(front[i] == s[i]);
        }
        lemma_filter_keeps_all(front, pred);
        assert(front.push(s.last()) =~= s);
    }
}

/// Filtering empties a sequence of which no item passes.
pub proof fn lemma_filter_drops_all<T>(s: Seq<T>, pred: spec_fn(T) -> bool)
    requires
        forall|i: int| 0 <= i < s.len() ==> !pred(#[trigger] s[i]),
    ensures
        s.filter(pred) == Seq::<T>::empty(),
    decreases s.len(),
{
    reveal(Seq::filter);
    if s.len() > 0 {
        let front = s.drop_last();
        assert forall|i: int| 0 <= i < front.len() implies !pred(#[trigger] front[i]) by {
            assert(front[i] == s[i]);
        }
        lemma_filter_drops_all(front, pred);
    } else {
        assert(s =~= Seq::<T>::empty());
    }
}

/// Sorting splits the children into what is no file and the files: each
/// part can be read back from the result.
pub proof fn lemma_sorted_children_parts(children: Seq<NodeModel>, ascending: bool)
    ensures
        sorted_children(children, ascending).filter(not_named("file"@)) == children.filter(
            not_named("file"@),
        ),
        sorted_children(children, ascending).filter(named("file"@)) == stable_sort(
            children.filter(named("file"@)),
            by_name(),
            ascending,
        ),
{
    reveal(sorted_children);
    let others = children.filter(not_named("file"@));
    let files = children.filter(named("file"@));
    let sorted = stable_sort(files, by_name(), ascending);
    assert forall|i: int| 0 <= i < files.len() implies named("file"@)(#[trigger] files[i]) by {
        children.lemma_filter_pred(named("file"@), i);
    }
    assert forall|i: int| 0 <= i < others.len() implies not_named("file"@)(
        #[trigger] others[i],
    ) by {
        children.lemma_filter_pred(not_named("file"@), i);
    }
    lemma_sort_keeps_items(files, by_name(), ascending);
    assert forall|i: int| 0 <= i < sorted.len() implies named("file"@)(#[trigger] sorted[i])
        && !not_named("file"@)(sorted[i]) by {
        assert(files.contains(sorted[i]));
        let m = choose|m: int| 0 <= m < files.len() && files[m] == sorted[i];
        assert(named("file"@)(files[m]));
    }
    assert forall|i: int| 0 <= i < others.len() implies not_named("file"@)(#[trigger] others[i])
        && !named("file"@)(others[i]) by {}
    lemma_filter_keeps_all(others, not_named("file"@));
    lemma_filter_drops_all(others, named("file"@));
    lemma_filter_keeps_all(sorted, named("file"@));
    lemma_filter_drops_all(sorted, not_named("file"@));
    Seq::filter_distributes_over_add(others, sorted, not_named("file"@));
    Seq::filter_distributes_over_add(others, sorted, named("file"@));
    assert(others + Seq::<NodeModel>::empty() =~= others);
    assert(Seq::<NodeModel>::empty() + sorted =~= sorted);
}

/// Sorting the children of a container twice in the same direction gives
/// what sorting once gives.
pub proof fn law_sorted_children_idempotent(children: Seq<NodeModel>, ascending: bool)
    ensures
        sorted_children(sorted_children(children, ascending), ascending) == sorted_children(
            children,
            ascending,
        ),
{
    lemma_sorted_children_parts(children, ascending);
    lemma_sort_idempotent(children.filter(named("file"@)), by_name(), ascending);
    lemma_sorted_from_parts(
        sorted_children(children, ascending),
        children.filter(not_named("file"@)),
        stable_sort(children.filter(named("file"@)), by_name(), ascending),
        stable_sort(children.filter(named("file"@)), by_name(), ascending),
        ascending,
    );
    lemma_sorted_from_parts(
        children,
        children.filter(not_named("file"@)),
        children.filter(named("file"@)),
        stable_sort(children.filter(named("file"@)), by_name(), ascending),
        ascending,
    );
}

/// Where no two files of a container have the same name, sorting down what
/// was sorted up leaves the files in the reverse order, behind the other
/// children.
pub proof fn law_descending_reverses_ascending(children: Seq<NodeModel>)
    requires
        distinct_keys(children.filter(named("file"@)), by_name()),
    ensures
        sorted_children(sorted_children(children, true), false) == children.filter(
            not_named("file"@),
        ) + stable_sort(children.filter(named("file"@)), by_name(), true).reverse(),
{
    let files = children.filter(named("file"@));
    let up = stable_sort(files, by_name(), true);
    lemma_descending_reverses_ascending(files, by_name());
    lemma_sorted_children_parts(children, true);
    lemma_sorted_from_parts(
        sorted_children(children, true),
        children.filter(not_named("file"@)),
        up,
        up.reverse(),
        false,
    );
}

/// Where no file of a container occurs twice, sorting down what was sorted
/// up reverses the files exactly when no two of them have the same name.
pub proof fn law_reversal_exactly_when_distinct(children: Seq<NodeModel>)
    requires
        children.filter(named("file"@)).no_duplicates(),
    ensures
        distinct_keys(children.filter(named("file"@)), by_name()) <==> sorted_children(
            sorted_children(children, true),
            false,
        ) == children.filter(not_named("file"@)) + stable_sort(
            children.filter(named("file"@)),
            by_name(),
            true,
        ).reverse(),
{
    let files = children.filter(named("file"@));
    let others = children.filter(not_named("file"@));
    let up = stable_sort(files, by_name(), true);
    let down = stable_sort(up, by_name(), false);
    if distinct_keys(files, by_name()) {
        law_descending_reverses_ascending(children);
    }
    if sorted_children(sorted_children(children, true), false) == others + up.reverse() {
        lemma_sorted_children_parts(children, true);
        lemma_sorted_from_parts(sorted_children(children, true), others, up, down, false);
        lemma_sort_len(up, by_name(), false);
        assert(down =~= up.reverse()) by {
            assert forall|k: int| 0 <= k < down.len() implies down[k] == up.reverse()[k] by {
                assert((others + down)[others.len() + k] == down[k]);
                assert((others + up.reverse())[others.len() + k] == up.reverse()[k]);
            }
        }
        lemma_reversal_needs_distinct_keys(files, by_name());
    }
}

/// The sorted children, put together from the two parts of the children.
proof fn lemma_sorted_from_parts(
    whole: Seq<NodeModel>,
    others: Seq<NodeModel>,
    files: Seq<NodeModel>,
    sorted: Seq<NodeModel>,
    ascending: bool,
)
    requires
        whole.filter(not_named("file"@)) == others,
        whole.filter(named("file"@)) == files,
        stable_sort(files, by_name(), ascending) == sorted,
    ensures
        sorted_children(whole, ascending) == others + sorted,
{
    reveal(sorted_children);
}

/// Replacing a child element by one with the same tag moves no position:
/// the `n`-th child with any tag is found where it was.
pub proof fn lemma_same_tag_keeps_positions(
    children: Seq<NodeModel>,
    p: int,
    c: ElementModel,
    name: Seq<char>,
    n: nat,
    from: int,
)
    requires
        0 <= p < children.len(),
        children[p] is Element,
        children[p].as_element().name == c.name,
        0 <= from,
    ensures
        nth_named_from(children.update(p, NodeModel::Element(c)), name, n, from) == nth_named_from(
            children,
            name,
            n,
            from,
        ),
    decreases children.len() - from,
{
    let after = children.update(p, NodeModel::Element(c));
    if from < children.len() && n > 0 {
        assert(after[from].is_element_named(name) == children[from].is_element_named(name));
        if children[from].is_element_named(name) {
            if n > 1 {
                lemma_same_tag_keeps_positions(children, p, c, name, (n - 1) as nat, from + 1);
            }
        } else {
            lemma_same_tag_keeps_positions(children, p, c, name, n, from + 1);
        }
    }
}

/// Sorting the files of a group twice in the same direction gives what
/// sorting once gives.
pub proof fn law_sort_group_idempotent(group: ElementModel, ascending: bool)
    ensures
        sort_group(sort_group(group, ascending), ascending) == sort_group(group, ascending),
{
    match group.child_position("files"@, 1) {
        Some(p) => {
            lemma_nth_named_from(group.children, "files"@, 1, 0);
            let files = group.children[p].as_element();
            let sorted = with_children(files, sorted_children(files.children, ascending));
            let once = sort_group(group, ascending);
            lemma_same_tag_keeps_positions(group.children, p, sorted, "files"@, 1, 0);
            assert(once.child_position("files"@, 1) == Some(p));
            assert(once.children[p].as_element() == sorted);
            law_sorted_children_idempotent(files.children, ascending);
            assert(once.children.update(p, NodeModel::Element(sorted)) =~= once.children);
        },
        None => {},
    }
}

/// The number of children with a tag does not shrink as more children are
/// counted.
pub proof fn lemma_count_named_grows(children: Seq<NodeModel>, name: Seq<char>, a: int, b: int)
    requires
        0 <= a <= b <= children.len(),
    ensures
        count_named(children, name, a) <= count_named(children, name, b),
    decreases b - a,
{
    if a < b {
        lemma_count_named_grows(children, name, a, b - 1);
    }
}

/// Adding a file to a container and then deleting the file that came last
/// gives the container back: exactly the new entry leaves, and every other
/// child stays where it was.
pub proof fn law_add_then_delete(container: ElementModel, file_name: Seq<char>)
    ensures
        remove_nth(
            with_children(container, container.children.push(file_entry(file_name))),
            "file"@,
            count_named(
                container.children.push(file_entry(file_name)),
                "file"@,
                (container.children.len() + 1) as int,
            ),
        ) == Some(container),
{
    let after = container.children.push(file_entry(file_name));
    let last = container.children.len() as int;
    let n = count_named(after, "file"@, last + 1);
    assert(after[last] == file_entry(file_name));
    assert(after[last].is_element_named("file"@));
    assert(n == count_named(after, "file"@, last) + 1);
    lemma_nth_named_from(after, "file"@, n, 0);
    match nth_named_from(after, "file"@, n, 0) {
        Some(p) => {
            if p < last {
                lemma_count_named_grows(after, "file"@, p + 1, last);
                assert(count_named(after, "file"@, p + 1) == count_named(after, "file"@, p) + 1);
            }
            assert(after.remove(last) =~= container.children);
        },
        None => {},
    }
}

/// The same, for a group: after adding a file and deleting the file that
/// came last, a group that had a `files` container is as it was.
pub proof fn law_add_then_delete_in_group(group: ElementModel, file_name: Seq<char>)
    requires
        group.child_position("files"@, 1) is Some,
    ensures
        ({
            let p = group.child_position("files"@, 1)->0;
            let added = add_file_to_group(group, file_name);
            let files = added.children[p].as_element();
            let n = count_named(files.children, "file"@, files.children.len() as int);
            &&& added.child_position("files"@, 1) == Some(p)
            &&& remove_nth(files, "file"@, n) is Some
            &&& with_child(added, p, remove_nth(files, "file"@, n)->0) == group
        }),
{
    let p = group.child_position("files"@, 1)->0;
    lemma_nth_named_from(group.children, "files"@, 1, 0);
    let before = group.children[p].as_element();
    let files = with_children(before, before.children.push(file_entry(file_name)));
    lemma_same_tag_keeps_positions(group.children, p, files, "files"@, 1, 0);
    law_add_then_delete(before, file_name);
    let added = add_file_to_group(group, file_name);
    assert(added.children[p].as_element() == files);
    assert(added.children.update(p, NodeModel::Element(before)) =~= group.children);
}

/// A request passes over an identifier that addresses a node of the wrong
/// kind: sorting and adding leave a file's identifier alone, deleting leaves
/// a group's identifier alone, and none of them fails on it.
pub proof fn law_wrong_kind_is_passed_over(
    dom: ElementModel,
    expr: Seq<SegmentModel>,
    ascending: bool,
    file_name: Seq<char>,
)
    requires
        valid_path(expr),
    ensures
        is_file_position(expr) ==> step(dom, format_path(expr), RequestModel::Sort(ascending)) == (
        Outcome { dom, failure: None }),
        is_file_position(expr) ==> step(dom, format_path(expr), RequestModel::Add(file_name)) == (
        Outcome { dom, failure: None }),
        is_group_position(expr) ==> step(dom, format_path(expr), RequestModel::Delete) == (Outcome {
            dom,
            failure: None,
        }),
{
    lemma_path_round_trip(expr);
    reveal_strlit("file");
    reveal_strlit("group");
    assert("file"@.len() != "group"@.len());
}

/// The shape of a display tree depends on the document alone: two trees
/// materialized from one document differ in their identifiers at most.
pub proof fn law_shape_is_determined(dom: ElementModel, first: TreeModel, second: TreeModel)
    requires
        erase_keys(first) == project_shape(dom),
        erase_keys(second) == project_shape(dom),
    ensures
        erase_keys(first) == erase_keys(second),
{
}

/// A failure of one identifier is of one of two kinds.
pub proof fn law_step_failures(dom: ElementModel, path_text: Seq<char>, request: RequestModel)
    ensures
        match step(dom, path_text, request).failure {
            Some(k) => (k == ErrorKind::MalformedPath || k == ErrorKind::NotFound) && step(
                dom,
                path_text,
                request,
            ).dom == dom,
            None => true,
        },
{
}

/// Among the first `upto` children, as many pass the filter for a tag as
/// are counted for it.
pub proof fn lemma_count_is_filter_len(children: Seq<NodeModel>, name: Seq<char>, upto: int)
    requires
        0 <= upto <= children.len(),
    ensures
        children.take(upto).filter(named(name)).len() == count_named(children, name, upto),
    decreases upto,
{
    reveal(Seq::filter);
    if upto > 0 {
        lemma_count_is_filter_len(children, name, upto - 1);
        assert(children.take(upto).drop_last() =~= children.take(upto - 1));
    }
}

/// The `i`-th (0-based) of the children with a tag is the child that the
/// (1-based) index `i + 1` selects.
pub proof fn lemma_nth_named_is_filtered(children: Seq<NodeModel>, name: Seq<char>, i: int)
    requires
        0 <= i < children.filter(named(name)).len(),
    ensures
        nth_named_from(children, name, (i + 1) as nat, 0) is Some,
        children[nth_named_from(children, name, (i + 1) as nat, 0)->0] == children.filter(
            named(name),
        )[i],
        children[nth_named_from(children, name, (i + 1) as nat, 0)->0].is_element_named(name),
{
    let all = children.len() as int;
    lemma_nth_named_from(children, name, (i + 1) as nat, 0);
    lemma_count_is_filter_len(children, name, all);
    assert(children.take(all) =~= children);
    let p = nth_named_from(children, name, (i + 1) as nat, 0)->0;
    lemma_count_is_filter_len(children, name, p);
    let front = children.take(p);
    let back = children.skip(p + 1);
    assert(children =~= front + seq![children[p]] + back);
    Seq::filter_distributes_over_add(front + seq![children[p]], back, named(name));
    Seq::filter_distributes_over_add(front, seq![children[p]], named(name));
    assert(seq![children[p]].filter(named(name)) =~= seq![children[p]]) by {
        lemma_filter_keeps_all(seq![children[p]], named(name));
    }
}

/// Following two runs of segments one after the other is following their
/// concatenation.
pub proof fn lemma_descend_append(e: ElementModel, a: Seq<SegmentModel>, b: Seq<SegmentModel>)
    ensures
        descend(e, a + b) == match descend(e, a) {
            Some(m) => descend(m, b),
            None => None,
        },
    decreases a.len(),
{
    if a.len() == 0 {
        assert(a + b =~= b);
    } else {
        assert((a + b)[0] == a[0]);
        assert((a + b).drop_first() =~= a.drop_first() + b);
        match e.child_position(a[0].tag, a[0].index) {
            Some(p) => {
                lemma_descend_append(e.children[p].as_element(), a.drop_first(), b);
            },
            None => {},
        }
    }
}

/// The path under which a display node is bound leads to the element that
/// the node shows: where `path` leads to the element of a shown node, the
/// path of the node's `i`-th child leads to the element of that child.
pub proof fn law_child_path_resolves(
    root: ElementModel,
    path: Seq<SegmentModel>,
    e: ElementModel,
    kind: NodeKind,
    i: int,
)
    requires
        resolve_model(root, path) == Some(e),
        0 <= i < sources_of(e, kind).len(),
    ensures
        resolve_model(root, child_path(kind, path, i)) == Some(sources_of(e, kind)[i]),
{
    let below = child_path(kind, path, i);
    let steps = below.skip(path.len() as int);
    assert(below =~= path + steps);
    assert(below.drop_first() =~= path.drop_first() + steps);
    assert(below[0] == path[0]);
    lemma_descend_append(root, path.drop_first(), steps);
    match kind {
        NodeKind::Project => {
            lemma_nth_named_is_filtered(e.children, "target"@, i);
            let p = nth_named_from(e.children, "target"@, (i + 1) as nat, 0)->0;
            let child = e.children[p].as_element();
            assert(steps.len() == 1 && steps[0].tag == "target"@ && steps[0].index == i + 1);
            assert(steps.drop_first().len() == 0);
            assert(descend(child, steps.drop_first()) == Some(child));
            assert(descend(e, steps) == Some(child));
            assert(sources_of(e, kind)[i] == child);
        },
        NodeKind::Target => {
            lemma_container_item(e, "groups"@, "group"@, i);
            lemma_descend_two(e, steps);
        },
        NodeKind::Group => {
            lemma_container_item(e, "files"@, "file"@, i);
            lemma_descend_two(e, steps);
        },
        NodeKind::File => {},
    }
}

/// Following two segments, spelled out.
proof fn lemma_descend_two(e: ElementModel, steps: Seq<SegmentModel>)
    requires
        steps.len() == 2,
    ensures
        descend(e, steps) == match e.child_position(steps[0].tag, steps[0].index) {
            Some(p) => match e.children[p].as_element().child_position(
                steps[1].tag,
                steps[1].index,
            ) {
                Some(q) => Some(e.children[p].as_element().children[q].as_element()),
                None => None,
            },
            None => None,
        },
{
    let rest = steps.drop_first();
    assert(rest.len() == 1 && rest[0] == steps[1]);
    assert(rest.drop_first().len() == 0);
    match e.child_position(steps[0].tag, steps[0].index) {
        Some(p) => {
            let c = e.children[p].as_element();
            assert(descend(c, rest) == match c.child_position(rest[0].tag, rest[0].index) {
                Some(q) => descend(c.children[q].as_element(), rest.drop_first()),
                None => None,
            });
        },
        None => {},
    }
}

/// The `i`-th item of a container is found through the container's
/// position and the item's index.
proof fn lemma_container_item(e: ElementModel, container: Seq<char>, item: Seq<char>, i: int)
    requires
        0 <= i < container_items(e, container, item).len(),
    ensures
        e.child_position(container, 1) is Some,
        e.children[e.child_position(container, 1)->0].as_element().child_position(
            item,
            (i + 1) as nat,
        ) is Some,
        ({
            let c = e.children[e.child_position(container, 1)->0].as_element();
            c.children[c.child_position(item, (i + 1) as nat)->0].as_element()
                == container_items(e, container, item)[i]
        }),
{
    let c = e.find_child(container)->0;
    lemma_nth_named_is_filtered(c.children, item, i);
}

/// An edit lands on the element that the path leads to, and nowhere else on
/// the way: the edit succeeds exactly when the path leads to an element on
/// which it succeeds, and afterwards the path leads to that element as
/// edited.
pub proof fn law_edit_lands_where_the_path_leads(
    e: ElementModel,
    segs: Seq<SegmentModel>,
    edit: EditModel,
)
    ensures
        match descend(e, segs) {
            Some(target) => match apply_edit(target, edit) {
                Some(edited) => edit_at(e, segs, edit) is Some && descend(
                    edit_at(e, segs, edit)->0,
                    segs,
                ) == Some(edited),
                None => edit_at(e, segs, edit) is None,
            },
            None => edit_at(e, segs, edit) is None,
        },
        edit_at(e, segs, edit) is Some ==> edit_at(e, segs, edit)->0.name == e.name,
    decreases segs.len(),
{
    if segs.len() > 0 {
        match e.child_position(segs[0].tag, segs[0].index) {
            Some(p) => {
                lemma_nth_named_from(e.children, segs[0].tag, segs[0].index, 0);
                let c = e.children[p].as_element();
                law_edit_lands_where_the_path_leads(c, segs.drop_first(), edit);
                match edit_at(c, segs.drop_first(), edit) {
                    Some(c2) => {
                        lemma_same_tag_keeps_positions(
                            e.children,
                            p,
                            c2,
                            segs[0].tag,
                            segs[0].index,
                            0,
                        );
                        let after = with_child(e, p, c2);
                        assert(after.children[p].as_element() == c2);
                    },
                    None => {},
                }
            },
            None => {},
        }
    }
}

/// A request for an identifier that is bound to the text of a valid path
/// is the planned edit at that path.
pub proof fn law_step_follows_the_bound_path(
    dom: ElementModel,
    expr: Seq<SegmentModel>,
    request: RequestModel,
)
    requires
        valid_path(expr),
    ensures
        step(dom, format_path(expr), request) == match planned_edit(expr, request) {
            None => Outcome { dom, failure: None },
            Some((target, edit)) => match edit_document(dom, target, edit) {
                Some(after) => Outcome { dom: after, failure: None },
                None => Outcome { dom, failure: Some(ErrorKind::NotFound) },
            },
        },
{
    lemma_path_round_trip(expr);
}

/// After a materialization every node of the tree is bound: the map holds
/// the identifier of each node, bound to the text of the node's path.
pub proof fn law_every_node_is_bound(tree: TreeModel, i: int)
    requires
        distinct_ids(bindings_of(tree, root_path())),
        0 <= i < bindings_of(tree, root_path()).len(),
    ensures
        bindings_map(bindings_of(tree, root_path())).contains_key(
            bindings_of(tree, root_path())[i].0,
        ),
        bindings_map(bindings_of(tree, root_path()))[bindings_of(tree, root_path())[i].0]
            == bindings_of(tree, root_path())[i].1,
{
    lemma_distinct_bindings(bindings_of(tree, root_path()), i);
}

/// The paths under which display nodes are bound can stand in a path text:
/// the path of the root can, and with the path of a node that of each of its
/// children.
pub proof fn law_display_paths_are_valid(kind: NodeKind, path: Seq<SegmentModel>, i: int)
    requires
        valid_path(path),
        0 <= i < usize::MAX,
    ensures
        valid_path(root_path()),
        valid_path(child_path(kind, path, i)),
{
    reveal_strlit("project");
    reveal_strlit("target");
    reveal_strlit("groups");
    reveal_strlit("group");
    reveal_strlit("files");
    reveal_strlit("file");
    let below = child_path(kind, path, i);
    assert forall|k: int| 0 <= k < below.len() implies valid_segment(#[trigger] below[k]) by {
        if k < path.len() {
            assert(below[k] == path[k]);
        }
    }
}

/// Sorting the files of the group at a path twice in the same direction
/// gives what sorting once gives.
pub proof fn law_sort_at_path_idempotent(e: ElementModel, segs: Seq<SegmentModel>, ascending: bool)
    ensures
        match edit_at(e, segs, EditModel::SortFiles(ascending)) {
            Some(once) => edit_at(once, segs, EditModel::SortFiles(ascending)) == Some(once),
            None => true,
        },
    decreases segs.len(),
{
    let edit = EditModel::SortFiles(ascending);
    if segs.len() == 0 {
        law_sort_group_idempotent(e, ascending);
    } else {
        match e.child_position(segs[0].tag, segs[0].index) {
            Some(p) => {
                lemma_nth_named_from(e.children, segs[0].tag, segs[0].index, 0);
                let c = e.children[p].as_element();
                law_sort_at_path_idempotent(c, segs.drop_first(), ascending);
                law_edit_lands_where_the_path_leads(c, segs.drop_first(), edit);
                match edit_at(c, segs.drop_first(), edit) {
                    Some(c1) => {
                        let once = with_child(e, p, c1);
                        lemma_same_tag_keeps_positions(
                            e.children,
                            p,
                            c1,
                            segs[0].tag,
                            segs[0].index,
                            0,
                        );
                        assert(once.children[p].as_element() == c1);
                        assert(once.children.update(p, NodeModel::Element(c1)) =~= once.children);
                    },
                    None => {},
                }
            },
            None => {},
        }
    }
}

/// Sorting for the same identifier twice in the same direction leaves the
/// document as sorting once leaves it, and fails or succeeds as sorting once
/// does.
pub proof fn law_sort_step_idempotent(dom: ElementModel, path_text: Seq<char>, ascending: bool)
    ensures
        step(
            step(dom, path_text, RequestModel::Sort(ascending)).dom,
            path_text,
            RequestModel::Sort(ascending),
        ) == step(dom, path_text, RequestModel::Sort(ascending)),
{
    match parse_path(path_text) {
        Some(expr) => {
            if is_group_position(expr) && expr.len() >= 1 {
                law_sort_at_path_idempotent(dom, expr.drop_first(), ascending);
            }
        },
        None => {},
    }
}

/// Whether every element among the nodes can be written as it stands.
pub open spec fn all_writable(children: Seq<NodeModel>) -> bool {
    forall|i: int|
        0 <= i < children.len() ==> match #[trigger] children[i] {
            NodeModel::Element(c) => writable(c),
            _ => true,
        }
}

/// An element with other children can be written where the element could
/// and the new children can.
pub proof fn lemma_writable_with_children(e: ElementModel, children: Seq<NodeModel>)
    requires
        writable(e),
        all_writable(children),
    ensures
        writable(with_children(e, children)),
        all_writable(e.children),
{
}

/// Nodes that all stand among writable nodes are writable.
pub proof fn lemma_writable_among(children: Seq<NodeModel>, chosen: Seq<NodeModel>)
    requires
        all_writable(children),
        forall|i: int| 0 <= i < chosen.len() ==> children.contains(#[trigger] chosen[i]),
    ensures
        all_writable(chosen),
{
    assert forall|i: int| 0 <= i < chosen.len() implies match #[trigger] chosen[i] {
        NodeModel::Element(c) => writable(c),
        _ => true,
    } by {
        assert(children.contains(chosen[i]));
        let m = choose|m: int| 0 <= m < children.len() && children[m] == chosen[i];
        assert(children[m] == chosen[i]);
    }
}

/// Sorting the children of a container keeps them writable.
pub proof fn lemma_sorted_children_writable(children: Seq<NodeModel>, ascending: bool)
    requires
        all_writable(children),
    ensures
        all_writable(sorted_children(children, ascending)),
{
    reveal(sorted_children);
    let others = children.filter(not_named("file"@));
    let files = children.filter(named("file"@));
    let sorted = stable_sort(files, by_name(), ascending);
    let result = others + sorted;
    lemma_sort_keeps_items(files, by_name(), ascending);
    assert forall|i: int| 0 <= i < result.len() implies children.contains(#[trigger] result[i]) by {
        if i < others.len() {
            assert(others.contains(others[i]));
            children.lemma_filter_contains_rev(not_named("file"@), others[i]);
        } else {
            let k = i - others.len();
            assert(result[i] == sorted[k]);
            assert(files.contains(sorted[k]));
            children.lemma_filter_contains_rev(named("file"@), sorted[k]);
        }
    }
    lemma_writable_among(children, result);
}

/// The entry for a new file can be written as it stands.
pub proof fn lemma_file_entry_writable(file_name: Seq<char>)
    ensures
        all_writable(seq![file_entry(file_name)]),
{
    let name = plain_element("name"@, seq![NodeModel::Text(file_name)]);
    assert(writable(name));
    let file = plain_element("file"@, seq![NodeModel::Element(name)]);
    assert(writable(file)) by {
        assert forall|i: int| 0 <= i < file.children.len() implies match #[trigger] file.children[i] {
            NodeModel::Element(c) => writable(c),
            _ => true,
        } by {}
    }
}

/// An edit of an element that can be written leaves one that can be
/// written.
pub proof fn law_apply_keeps_writable(e: ElementModel, edit: EditModel)
    requires
        writable(e),
    ensures
        apply_edit(e, edit) is Some ==> writable(apply_edit(e, edit)->0),
{
    lemma_writable_with_children(e, e.children);
    match edit {
        EditModel::SortFiles(ascending) => {
            match e.child_position("files"@, 1) {
                Some(p) => {
                    lemma_nth_named_from(e.children, "files"@, 1, 0);
                    let files = e.children[p].as_element();
                    assert(writable(files));
                    lemma_writable_with_children(files, files.children);
                    lemma_sorted_children_writable(files.children, ascending);
                    let sorted = with_children(files, sorted_children(files.children, ascending));
                    lemma_writable_with_children(files, sorted.children);
                    lemma_writable_with_child(e, p, sorted);
                },
                None => {},
            }
        },
        EditModel::AddFile(name) => {
            lemma_file_entry_writable(name);
            let entry = file_entry(name);
            assert(seq![entry][0] == entry);
            match e.child_position("files"@, 1) {
                Some(p) => {
                    lemma_nth_named_from(e.children, "files"@, 1, 0);
                    let files = e.children[p].as_element();
                    assert(writable(files));
                    lemma_writable_with_children(files, files.children);
                    let more = files.children.push(entry);
                    assert(all_writable(more)) by {
                        assert forall|i: int| 0 <= i < more.len() implies match #[trigger] more[i] {
                            NodeModel::Element(c) => writable(c),
                            _ => true,
                        } by {
                            if i < files.children.len() {
                                assert(more[i] == files.children[i]);
                            }
                        }
                    }
                    lemma_writable_with_children(files, more);
                    lemma_writable_with_child(e, p, with_children(files, more));
                },
                None => {
                    let files = plain_element("files"@, seq![entry]);
                    assert(writable(files));
                    let more = e.children.push(NodeModel::Element(files));
                    assert(all_writable(more)) by {
                        assert forall|i: int| 0 <= i < more.len() implies match #[trigger] more[i] {
                            NodeModel::Element(c) => writable(c),
                            _ => true,
                        } by {
                            if i < e.children.len() {
                                assert(more[i] == e.children[i]);
                            }
                        }
                    }
                    lemma_writable_with_children(e, more);
                },
            }
        },
        EditModel::RemoveChild(tag, n) => {
            match e.child_position(tag, n) {
                Some(p) => {
                    lemma_nth_named_from(e.children, tag, n, 0);
                    let fewer = e.children.remove(p);
                    assert(all_writable(fewer)) by {
                        assert forall|i: int| 0 <= i < fewer.len() implies match #[trigger] fewer[i] {
                            NodeModel::Element(c) => writable(c),
                            _ => true,
                        } by {
                            if i < p {
                                assert(fewer[i] == e.children[i]);
                            } else {
                                assert(fewer[i] == e.children[i + 1]);
                            }
                        }
                    }
                    lemma_writable_with_children(e, fewer);
                },
                None => {},
            }
        },
    }
}

/// An element with one child replaced by an element that can be written can
/// be written where it could before.
pub proof fn lemma_writable_with_child(e: ElementModel, p: int, c: ElementModel)
    requires
        writable(e),
        writable(c),
        0 <= p < e.children.len(),
    ensures
        writable(with_child(e, p, c)),
{
    let after = e.children.update(p, NodeModel::Element(c));
    assert forall|i: int| 0 <= i < after.len() implies match #[trigger] after[i] {
        NodeModel::Element(x) => writable(x),
        _ => true,
    } by {
        if i != p {
            assert(after[i] == e.children[i]);
        }
    }
}

/// An edit at a path in a document that can be written leaves one that can
/// be written.
pub proof fn law_edit_keeps_writable(e: ElementModel, segs: Seq<SegmentModel>, edit: EditModel)
    requires
        writable(e),
    ensures
        edit_at(e, segs, edit) is Some ==> writable(edit_at(e, segs, edit)->0),
    decreases segs.len(),
{
    if segs.len() == 0 {
        law_apply_keeps_writable(e, edit);
    } else {
        match e.child_position(segs[0].tag, segs[0].index) {
            Some(p) => {
                lemma_nth_named_from(e.children, segs[0].tag, segs[0].index, 0);
                let c = e.children[p].as_element();
                assert(writable(c));
                law_edit_keeps_writable(c, segs.drop_first(), edit);
                match edit_at(c, segs.drop_first(), edit) {
                    Some(c2) => {
                        lemma_writable_with_child(e, p, c2);
                    },
                    None => {},
                }
            },
            None => {},
        }
    }
}

/// A command on a document that can be written leaves one that can be
/// written, whatever identifiers it is given.
pub proof fn law_batch_keeps_writable(
    dom: ElementModel,
    map: Map<Seq<char>, Seq<char>>,
    ids: Seq<Seq<char>>,
    request: RequestModel,
)
    requires
        writable(dom),
    ensures
        writable(batch(dom, map, ids, request).dom),
    decreases ids.len(),
{
    if ids.len() > 0 {
        law_batch_keeps_writable(dom, map, ids.drop_last(), request);
        let before = batch(dom, map, ids.drop_last(), request);
        if map.contains_key(ids.last()) {
            match parse_path(map[ids.last()]) {
                Some(expr) => match planned_edit(expr, request) {
                    Some((target, edit)) => {
                        if target.len() >= 1 {
                            law_edit_keeps_writable(before.dom, target.drop_first(), edit);
                        }
                    },
                    None => {},
                },
                None => {},
            }
        }
    }
}

/// A command on a document that can be written fails only where one of its
/// identifiers fails: the text is written anew without fail.
pub proof fn law_command_fails_with_an_identifier_only(
    doc: DocModel,
    ids: Seq<Seq<char>>,
    request: RequestModel,
)
    requires
        writable(doc.dom),
    ensures
        doc_failure(doc, ids, request) == batch(doc.dom, doc.node_map, ids, request).failure,
        serialized_text(batch(doc.dom, doc.node_map, ids, request).dom) is Some,
{
    law_batch_keeps_writable(doc.dom, doc.node_map, ids, request);
}

/// A command on documents that can all be written succeeds where no
/// identifier fails in any of them.
pub proof fn law_command_succeeds(
    docs: Seq<DocModel>,
    ids: Seq<Seq<char>>,
    request: RequestModel,
    upto: int,
)
    requires
        0 <= upto <= docs.len(),
        forall|i: int| 0 <= i < upto ==> writable((#[trigger] docs[i]).dom),
        forall|i: int|
            0 <= i < upto ==> batch(
                (#[trigger] docs[i]).dom,
                docs[i].node_map,
                ids,
                request,
            ).failure is None,
    ensures
        store_failure(docs, ids, request, upto) is None,
    decreases upto,
{
    if upto > 0 {
        law_command_succeeds(docs, ids, request, upto - 1);
        law_command_fails_with_an_identifier_only(docs[upto - 1], ids, request);
    }
}

/// The text of a path with one more segment is the text of the path and
/// the text of the segment.
pub proof fn lemma_format_push(path: Seq<SegmentModel>, seg: SegmentModel)
    ensures
        format_path(path.push(seg)) == format_path(path) + format_segment(seg),
    decreases path.len(),
{
    let more = path.push(seg);
    if path.len() == 0 {
        assert(more.drop_first() =~= Seq::<SegmentModel>::empty());
        assert(format_path(more.drop_first()) =~= Seq::<char>::empty());
        assert(format_path(more) =~= format_segment(seg));
        assert(format_path(path) + format_segment(seg) =~= format_segment(seg));
    } else {
        lemma_format_push(path.drop_first(), seg);
        assert(more.drop_first() =~= path.drop_first().push(seg));
        assert(more[0] == path[0]);
        assert(format_path(more) =~= format_path(path) + format_segment(seg));
    }
}

/// The texts under which display nodes are bound: the root under
/// `/project`, the `i`-th target under the root's text and `/target[i]`,
/// the `j`-th group of a target under the target's text and
/// `/groups/group[j]`, the `k`-th file of a group under the group's text and
/// `/files/file[k]`, the indexes counted from 1.
pub proof fn law_path_texts(kind: NodeKind, path: Seq<SegmentModel>, i: int)
    requires
        0 <= i,
    ensures
        format_path(root_path()) == "/project"@,
        format_path(child_path(kind, path, i)) == format_path(path) + match kind {
            NodeKind::Project => "/target["@ + decimal_digits((i + 1) as nat) + "]"@,
            NodeKind::Target => "/groups/group["@ + decimal_digits((i + 1) as nat) + "]"@,
            NodeKind::Group => "/files/file["@ + decimal_digits((i + 1) as nat) + "]"@,
            NodeKind::File => Seq::<char>::empty(),
        },
{
    reveal_strlit("/project");
    reveal_strlit("project");
    reveal_strlit("target");
    reveal_strlit("groups");
    reveal_strlit("group");
    reveal_strlit("files");
    reveal_strlit("file");
    reveal_strlit("/target[");
    reveal_strlit("/groups/group[");
    reveal_strlit("/files/file[");
    reveal_strlit("]");
    let digits = decimal_digits((i + 1) as nat);
    let root = root_path();
    assert(root.drop_first() =~= Seq::<SegmentModel>::empty());
    assert(format_path(root.drop_first()) =~= Seq::<char>::empty());
    assert(format_path(root) =~= "/project"@);
    match kind {
        NodeKind::Project => {
            let seg = segment("target"@, i + 1);
            lemma_format_push(path, seg);
            assert(format_segment(seg) =~= "/target["@ + digits + "]"@);
        },
        NodeKind::Target => {
            let mid = plain("groups"@);
            let seg = segment("group"@, i + 1);
            lemma_format_push(path, mid);
            lemma_format_push(path.push(mid), seg);
            assert(format_segment(mid) + format_segment(seg) =~= "/groups/group["@ + digits
                + "]"@);
            assert(format_path(path) + format_segment(mid) + format_segment(seg) =~= format_path(
                path,
            ) + (format_segment(mid) + format_segment(seg)));
        },
        NodeKind::Group => {
            let mid = plain("files"@);
            let seg = segment("file"@, i + 1);
            lemma_format_push(path, mid);
            lemma_format_push(path.push(mid), seg);
            assert(format_segment(mid) + format_segment(seg) =~= "/files/file["@ + digits + "]"@);
            assert(format_path(path) + format_segment(mid) + format_segment(seg) =~= format_path(
                path,
            ) + (format_segment(mid) + format_segment(seg)));
        },
        NodeKind::File => {
            assert(format_path(path) + Seq::<char>::empty() =~= format_path(path));
        },
    }
}

/// Whether every binding of `part` is among the bindings `all`.
pub open spec fn holds_all(all: Seq<(Seq<char>, Seq<char>)>, part: Seq<(Seq<char>, Seq<char>)>)
    -> bool {
    forall|k: int| 0 <= k < part.len() ==> all.contains(#[trigger] part[k])
}

/// The bindings of the first children of a node hold the bindings of each
/// of those children.
pub proof fn lemma_children_bindings_hold(
    children: Seq<TreeModel>,
    kind: NodeKind,
    path: Seq<SegmentModel>,
    upto: int,
    i: int,
)
    requires
        0 <= i < upto <= children.len(),
    ensures
        holds_all(
            children_bindings(children, kind, path, upto),
            bindings_of(children[i], child_path(kind, path, i)),
        ),
    decreases upto,
{
    let whole = children_bindings(children, kind, path, upto);
    let front = children_bindings(children, kind, path, upto - 1);
    let last = bindings_of(children[upto - 1], child_path(kind, path, upto - 1));
    let part = bindings_of(children[i], child_path(kind, path, i));
    assert(whole == front + last);
    if i == upto - 1 {
        assert forall|k: int| 0 <= k < part.len() implies whole.contains(#[trigger] part[k]) by {
            assert(whole[front.len() + k] == part[k]);
        }
    } else {
        lemma_children_bindings_hold(children, kind, path, upto - 1, i);
        assert forall|k: int| 0 <= k < part.len() implies whole.contains(#[trigger] part[k]) by {
            assert(front.contains(part[k]));
            let m = choose|m: int| 0 <= m < front.len() && front[m] == part[k];
            assert(whole[m] == part[k]);
        }
    }
}

/// Where the bindings of a node are among some bindings, so are those of
/// each of its children, and with them the binding of the child itself: its
/// identifier to the text of its path.
pub proof fn law_child_is_bound(
    all: Seq<(Seq<char>, Seq<char>)>,
    t: TreeModel,
    path: Seq<SegmentModel>,
    i: int,
)
    requires
        holds_all(all, bindings_of(t, path)),
        0 <= i < t.children.len(),
    ensures
        holds_all(all, bindings_of(t.children[i], child_path(t.kind, path, i))),
        all.contains((t.children[i].key, format_path(child_path(t.kind, path, i)))),
        all.contains((t.key, format_path(path))),
{
    let own = bindings_of(t, path);
    let below = children_bindings(t.children, t.kind, path, t.children.len() as int);
    let part = bindings_of(t.children[i], child_path(t.kind, path, i));
    lemma_children_bindings_hold(t.children, t.kind, path, t.children.len() as int, i);
    assert(own[0] == (t.key, format_path(path)));
    assert(all.contains(own[0]));
    assert forall|k: int| 0 <= k < part.len() implies all.contains(#[trigger] part[k]) by {
        assert(below.contains(part[k]));
        let m = choose|m: int| 0 <= m < below.len() && below[m] == part[k];
        assert(own[1 + m] == part[k]);
        assert(all.contains(own[1 + m]));
    }
    assert(part[0] == (t.children[i].key, format_path(child_path(t.kind, path, i))));
}

/// Where no identifier occurs twice, the map holds every binding as it was
/// made.
pub proof fn law_bound_where_distinct(
    all: Seq<(Seq<char>, Seq<char>)>,
    key: Seq<char>,
    text: Seq<char>,
)
    requires
        distinct_ids(all),
        all.contains((key, text)),
    ensures
        bindings_map(all).contains_key(key),
        bindings_map(all)[key] == text,
{
    let m = choose|m: int| 0 <= m < all.len() && all[m] == (key, text);
    lemma_distinct_bindings(all, m);
}

/// After a materialization the map binds the root to `/project`, the
/// `i`-th target to `/project/target[i]`, its `j`-th group to that and
/// `/groups/group[j]`, and the group's `k`-th file to that and
/// `/files/file[k]`; the numbers here count from 0, the indexes in the texts
/// from 1.
pub proof fn law_file_is_bound(tree: TreeModel, i: int, j: int, k: int)
    requires
        distinct_ids(bindings_of(tree, root_path())),
        tree.kind == NodeKind::Project,
        0 <= i < tree.children.len(),
        tree.children[i].kind == NodeKind::Target,
        0 <= j < tree.children[i].children.len(),
        tree.children[i].children[j].kind == NodeKind::Group,
        0 <= k < tree.children[i].children[j].children.len(),
    ensures
        ({
            let map = bindings_map(bindings_of(tree, root_path()));
            let target = tree.children[i];
            let group = target.children[j];
            let file = group.children[k];
            let target_text = "/project/target["@ + decimal_digits((i + 1) as nat) + "]"@;
            let group_text = target_text + "/groups/group["@ + decimal_digits((j + 1) as nat)
                + "]"@;
            let file_text = group_text + "/files/file["@ + decimal_digits((k + 1) as nat) + "]"@;
            &&& map.contains_key(tree.key) && map[tree.key] == "/project"@
            &&& map.contains_key(target.key) && map[target.key] == target_text
            &&& map.contains_key(group.key) && map[group.key] == group_text
            &&& map.contains_key(file.key) && map[file.key] == file_text
        }),
{
    let all = bindings_of(tree, root_path());
    let target = tree.children[i];
    let group = target.children[j];
    let file = group.children[k];
    let p0 = root_path();
    let p1 = child_path(NodeKind::Project, p0, i);
    let p2 = child_path(NodeKind::Target, p1, j);
    let p3 = child_path(NodeKind::Group, p2, k);
    assert(holds_all(all, all)) by {
        assert forall|m: int| 0 <= m < all.len() implies all.contains(#[trigger] all[m]) by {}
    }
    law_child_is_bound(all, tree, p0, i);
    law_child_is_bound(all, target, p1, j);
    law_child_is_bound(all, group, p2, k);
    law_path_texts(NodeKind::Project, p0, i);
    law_path_texts(NodeKind::Target, p1, j);
    law_path_texts(NodeKind::Group, p2, k);
    law_bound_where_distinct(all, tree.key, format_path(p0));
    law_bound_where_distinct(all, target.key, format_path(p1));
    law_bound_where_distinct(all, group.key, format_path(p2));
    law_bound_where_distinct(all, file.key, format_path(p3));
    assert("/project"@ + ("/target["@ + decimal_digits((i + 1) as nat) + "]"@) =~= "/project/target["@
        + decimal_digits((i + 1) as nat) + "]"@) by {
        reveal_strlit("/project");
        reveal_strlit("/target[");
        reveal_strlit("/project/target[");
    }
    assert(format_path(p1) + ("/groups/group["@ + decimal_digits((j + 1) as nat) + "]"@)
        =~= format_path(p1) + "/groups/group["@ + decimal_digits((j + 1) as nat) + "]"@);
    assert(format_path(p2) + ("/files/file["@ + decimal_digits((k + 1) as nat) + "]"@)
        =~= format_path(p2) + "/files/file["@ + decimal_digits((k + 1) as nat) + "]"@);
}

} // verus!
