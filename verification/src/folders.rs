//! The folder picker's tree: nodes for candidate folders, inside
//! and outside a repository. What is on disk is found out elsewhere; this
//! module decides what the nodes say.
//!
//! A folder path comes as the sequence of its components, so that two paths
//! are equal, or one lies below the other, component by component.

use vstd::prelude::*;
use vstd::string::*;
use crate::text::same_text;

verus! {

/// One node of the folder tree.
#[derive(Debug, PartialEq, Eq)]
pub struct TreeIncludeNode {
    pub id: String,
    pub label: String,
    pub full_path: String,
    pub children: Vec<TreeIncludeNode>,
    pub exists: bool,
    pub selected: bool,
    pub inside_repo: bool,
    pub registed: Vec<(String, bool)>,
}

/// The mathematical value of a node of the folder tree.
pub struct IncludeModel {
    pub id: Seq<char>,
    pub label: Seq<char>,
    pub full_path: Seq<char>,
    pub children: Seq<IncludeModel>,
    pub exists: bool,
    pub selected: bool,
    pub inside_repo: bool,
    pub registed: Seq<(Seq<char>, bool)>,
}

/// The value of a node of the folder tree.
pub open spec fn folder_model(n: TreeIncludeNode) -> IncludeModel
    decreases n,
{
    IncludeModel {
        id: n.id@,
        label: n.label@,
        full_path: n.full_path@,
        children: Seq::new(
            n.children@.len(),
            |i: int|
                if 0 <= i < n.children@.len() {
                    folder_model(n.children@[i])
                } else {
                    arbitrary()
                },
        ),
        exists: n.exists,
        selected: n.selected,
        inside_repo: n.inside_repo,
        registed: Seq::new(n.registed@.len(), |i: int| (n.registed@[i].0@, n.registed@[i].1)),
    }
}

impl View for TreeIncludeNode {
    type V = IncludeModel;

    open spec fn view(&self) -> IncludeModel {
        folder_model(*self)
    }
}

/// The values of a run of nodes.
pub open spec fn folders_model(v: Seq<TreeIncludeNode>) -> Seq<IncludeModel> {
    Seq::new(v.len(), |i: int| folder_model(v[i]))
}

/// The registry of a new node: none of the three arrays holds it yet.
pub open spec fn fresh_registry() -> Seq<(Seq<char>, bool)> {
    seq![("arrayA"@, false), ("arrayB"@, false), ("arrayC"@, false)]
}

/// The registry of a new node.
fn new_registry() -> (r: Vec<(String, bool)>)
    ensures
        Seq::new(r@.len(), |i: int| (r@[i].0@, r@[i].1)) == fresh_registry(),
{
    let mut r: Vec<(String, bool)> = Vec::new();
    r.push((String::from_str("arrayA"), false));
    r.push((String::from_str("arrayB"), false));
    r.push((String::from_str("arrayC"), false));
    assert(Seq::new(r@.len(), |i: int| (r@[i].0@, r@[i].1)) =~= fresh_registry());
    r
}

/// The node of a folder outside the repository: it stands alone, and its
/// label is its full path. It is selected exactly when its path is among the
/// selected ones.
pub fn build_external_node(
    path: &str,
    parts: &Vec<String>,
    exists: bool,
    all_selected: &Vec<Vec<String>>,
) -> (r: TreeIncludeNode)
    ensures
        r@ == (IncludeModel {
            id: path@,
            label: path@,
            full_path: path@,
            children: Seq::empty(),
            exists,
            selected: all_components(all_selected@).contains(components(parts@)),
            inside_repo: false,
            registed: fresh_registry(),
        }),
{
    let r = TreeIncludeNode {
        id: String::from_str(path),
        label: String::from_str(path),
        full_path: String::from_str(path),
        children: Vec::new(),
        exists,
        selected: contains_path(all_selected, parts),
        inside_repo: false,
        registed: new_registry(),
    };
    assert(r@.children =~= Seq::empty());
    r
}

/// The components of a path, as texts.
pub open spec fn components(path: Seq<String>) -> Seq<Seq<char>> {
    Seq::new(path.len(), |i: int| path[i]@)
}

/// The components of each of a run of paths.
pub open spec fn all_components(paths: Seq<Vec<String>>) -> Seq<Seq<Seq<char>>> {
    Seq::new(paths.len(), |i: int| components(paths[i]@))
}

/// Whether `path` is `base` or lies below it.
pub open spec fn lies_below(path: Seq<Seq<char>>, base: Seq<Seq<char>>) -> bool {
    base.len() <= path.len() && path.take(base.len() as int) == base
}

/// Whether every path has a component at position `i` and all agree on
/// it.
pub open spec fn agree_at(paths: Seq<Seq<Seq<char>>>, i: int) -> bool {
    forall|k: int| 0 <= k < paths.len() ==> i < (#[trigger] paths[k]).len() && paths[k][i] == paths[0][i]
}

/// The number of leading components, counted from `from`, on which all
/// paths agree.
pub open spec fn common_length(paths: Seq<Seq<Seq<char>>>, from: int) -> int
    decreases paths[0].len() - from,
{
    if paths.len() > 0 && 0 <= from < paths[0].len() && agree_at(paths, from) {
        common_length(paths, from + 1)
    } else {
        from
    }
}

/// The deepest folder that holds all the paths, unless it lies outside the
/// repository or there is no path: then the repository root.
pub open spec fn common_parent_of(repo_root: Seq<Seq<char>>, paths: Seq<Seq<Seq<char>>>) -> Seq<
    Seq<char>,
> {
    if paths.len() == 0 {
        repo_root
    } else {
        let common = paths[0].take(common_length(paths, 0));
        if lies_below(common, repo_root) {
            common
        } else {
            repo_root
        }
    }
}

/// The folder directly below `base` on the way to `selected`; nothing
/// where `selected` is `base` or lies elsewhere.
pub open spec fn next_below_of(base: Seq<Seq<char>>, selected: Seq<Seq<char>>) -> Option<
    Seq<Seq<char>>,
> {
    if lies_below(selected, base) && selected.len() > base.len() {
        Some(selected.take(base.len() as int + 1))
    } else {
        None
    }
}

/// The folders below `base` that the first `upto` selected paths ask for
/// and that are not among `existing`: each once, in the order of the
/// selection.
pub open spec fn virtual_children_of(
    base: Seq<Seq<char>>,
    selected: Seq<Seq<Seq<char>>>,
    existing: Seq<Seq<Seq<char>>>,
    upto: int,
) -> Seq<Seq<Seq<char>>>
    decreases upto,
{
    if upto <= 0 || upto > selected.len() {
        Seq::empty()
    } else {
        let before = virtual_children_of(base, selected, existing, upto - 1);
        match next_below_of(base, selected[upto - 1]) {
            Some(next) => if existing.contains(next) || before.contains(next) {
                before
            } else {
                before.push(next)
            },
            None => before,
        }
    }
}

/// The label of a folder: inside the repository its own name, outside its
/// full path.
pub open spec fn label_of(full_path: Seq<char>, file_name: Seq<char>, inside_repo: bool) -> Seq<
    char,
> {
    if inside_repo {
        file_name
    } else {
        full_path
    }
}

/// Whether two paths have the same components.
pub fn same_path(a: &Vec<String>, b: &Vec<String>) -> (r: bool)
    ensures
        r == (components(a@) == components(b@)),
{
    if a.len() != b.len() {
        assert(components(a@).len() != components(b@).len());
        return false;
    }
    let mut i: usize = 0;
    while i < a.len()
        invariant
            i <= a@.len(),
            a@.len() == b@.len(),
            forall|k: int| 0 <= k < i ==> a@[k]@ == b@[k]@,
        decreases a@.len() - i,
    {
        if !same_text(a[i].as_str(), b[i].as_str()) {
            assert(components(a@)[i as int] != components(b@)[i as int]);
            return false;
        }
        i += 1;
    }
    assert(components(a@) =~= components(b@));
    true
}

/// Whether `path` is `base` or lies below it.
pub fn path_starts_with(path: &Vec<String>, base: &Vec<String>) -> (r: bool)
    ensures
        r == lies_below(components(path@), components(base@)),
{
    if base.len() > path.len() {
        return false;
    }
    let ghost p = components(path@);
    let ghost b = components(base@);
    let mut i: usize = 0;
    while i < base.len()
        invariant
            i <= base@.len() <= path@.len(),
            p == components(path@),
            b == components(base@),
            forall|k: int| 0 <= k < i ==> p[k] == b[k],
        decreases base@.len() - i,
    {
        if !same_text(path[i].as_str(), base[i].as_str()) {
            assert(p.take(b.len() as int)[i as int] != b[i as int]);
            return false;
        }
        i += 1;
    }
    assert(p.take(b.len() as int) =~= b);
    true
}

/// Whether `path` is among `paths`.
pub fn contains_path(paths: &Vec<Vec<String>>, path: &Vec<String>) -> (r: bool)
    ensures
        r == all_components(paths@).contains(components(path@)),
{
    let ghost all = all_components(paths@);
    let mut i: usize = 0;
    while i < paths.len()
        invariant
            i <= paths@.len(),
            all == all_components(paths@),
            forall|k: int| 0 <= k < i ==> all[k] != components(path@),
        decreases paths@.len() - i,
    {
        if same_path(&paths[i], path) {
            assert(all[i as int] == components(path@));
            return true;
        }
        i += 1;
    }
    false
}

/// A copy of the first `upto` components of a path.
fn copy_components(path: &Vec<String>, upto: usize) -> (r: Vec<String>)
    requires
        upto <= path@.len(),
    ensures
        components(r@) == components(path@).take(upto as int),
{
    let mut out: Vec<String> = Vec::new();
    let mut i: usize = 0;
    while i < upto
        invariant
            i <= upto <= path@.len(),
            out@.len() == i,
            forall|k: int| 0 <= k < i ==> out@[k]@ == path@[k]@,
        decreases upto - i,
    {
        out.push(path[i].clone());
        i += 1;
    }
    assert(components(out@) =~= components(path@).take(upto as int));
    out
}

/// Whether every path has a component at position `i` and all agree on it.
fn all_agree_at(paths: &Vec<Vec<String>>, i: usize) -> (r: bool)
    requires
        paths@.len() > 0,
        i < paths@[0]@.len(),
    ensures
        r == agree_at(all_components(paths@), i as int),
{
    let ghost all = all_components(paths@);
    let mut k: usize = 0;
    while k < paths.len()
        invariant
            k <= paths@.len(),
            paths@.len() > 0,
            i < paths@[0]@.len(),
            all == all_components(paths@),
            forall|j: int| 0 <= j < k ==> i < (#[trigger] all[j]).len() && all[j][i as int] == all[0][i as int],
        decreases paths@.len() - k,
    {
        if i >= paths[k].len() || !same_text(paths[k][i].as_str(), paths[0][i].as_str()) {
            assert(!(i < all[k as int].len() && all[k as int][i as int] == all[0][i as int]));
            return false;
        }
        k += 1;
    }
    true
}

/// The deepest folder that holds all the paths, unless it lies outside the
/// repository or there is no path: then the repository root.
pub fn common_parent(repo_root: &Vec<String>, paths: &Vec<Vec<String>>) -> (r: Vec<String>)
    ensures
        components(r@) == common_parent_of(components(repo_root@), all_components(paths@)),
{
    if paths.len() == 0 {
        let r = copy_components(repo_root, repo_root.len());
        assert(components(repo_root@).take(repo_root@.len() as int) =~= components(repo_root@));
        return r;
    }
    let ghost all = all_components(paths@);
    let mut n: usize = 0;
    while n < paths[0].len() && all_agree_at(paths, n)
        invariant
            paths@.len() > 0,
            n <= paths@[0]@.len(),
            all == all_components(paths@),
            common_length(all, 0) == common_length(all, n as int),
        decreases paths@[0]@.len() - n,
    {
        n += 1;
    }
    let common = copy_components(&paths[0], n);
    if path_starts_with(&common, repo_root) {
        common
    } else {
        let r = copy_components(repo_root, repo_root.len());
        assert(components(repo_root@).take(repo_root@.len() as int) =~= components(repo_root@));
        r
    }
}

/// The folder directly below `base` on the way to `selected`.
pub fn next_below(base: &Vec<String>, selected: &Vec<String>) -> (r: Option<Vec<String>>)
    ensures
        match r {
            Some(next) => next_below_of(components(base@), components(selected@)) == Some(
                components(next@),
            ),
            None => next_below_of(components(base@), components(selected@)) is None,
        },
{
    if path_starts_with(selected, base) && selected.len() > base.len() {
        Some(copy_components(selected, base.len() + 1))
    } else {
        None
    }
}

/// The folders below `base` that are to be shown although they are not on
/// disk: one for each selected path below `base`, unless it is among
/// `existing` or was asked for before.
pub fn virtual_children(
    base: &Vec<String>,
    selected: &Vec<Vec<String>>,
    existing: &Vec<Vec<String>>,
) -> (r: Vec<Vec<String>>)
    ensures
        all_components(r@) == virtual_children_of(
            components(base@),
            all_components(selected@),
            all_components(existing@),
            selected@.len() as int,
        ),
{
    let ghost sel = all_components(selected@);
    let mut out: Vec<Vec<String>> = Vec::new();
    let mut i: usize = 0;
    assert(all_components(out@) =~= Seq::<Seq<Seq<char>>>::empty());
    while i < selected.len()
        invariant
            i <= selected@.len(),
            sel == all_components(selected@),
            all_components(out@) == virtual_children_of(
                components(base@),
                sel,
                all_components(existing@),
                i as int,
            ),
        decreases selected@.len() - i,
    {
        let ghost before = all_components(out@);
        assert(sel[i as int] == components(selected@[i as int]@));
        match next_below(base, &selected[i]) {
            Some(next) => {
                if !contains_path(existing, &next) && !contains_path(&out, &next) {
                    let ghost added = components(next@);
                    out.push(next);
                    assert(all_components(out@) =~= before.push(added));
                }
            },
            None => {},
        }
        i += 1;
    }
    out
}

/// The node of a folder, given what was found out about it and the nodes
/// of the folders below it.
pub fn build_node(
    full_path: &str,
    file_name: &str,
    exists: bool,
    selected: bool,
    inside_repo: bool,
    children: Vec<TreeIncludeNode>,
) -> (r: TreeIncludeNode)
    ensures
        r@ == (IncludeModel {
            id: full_path@,
            label: label_of(full_path@, file_name@, inside_repo),
            full_path: full_path@,
            children: folders_model(children@),
            exists,
            selected,
            inside_repo,
            registed: fresh_registry(),
        }),
{
    let label = if inside_repo {
        String::from_str(file_name)
    } else {
        String::from_str(full_path)
    };
    let r = TreeIncludeNode {
        id: String::from_str(full_path),
        label,
        full_path: String::from_str(full_path),
        children,
        exists,
        selected,
        inside_repo,
        registed: new_registry(),
    };
    assert(r@.children =~= folders_model(children@));
    r
}

} // verus!
