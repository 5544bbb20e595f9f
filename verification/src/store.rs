//! The document store: the loaded documents, each with its source path, its
//! model, its latest text and its identifier map, and the commands on them.
//!
//! An identifier stands for a position, not for a node. A command looks an
//! identifier up in the map of every loaded document and follows the bound
//! path in the document as it is then. After an edit that moves nodes, an
//! identifier minted before the edit addresses whatever stands at its
//! position now: a deletion makes the identifiers of the later siblings
//! address their successors, and the identifier of the last one fail with
//! `NotFound`. Materializing the tree anew gives identifiers that fit.
//!
//! A command works through all its identifiers. A failure ends the work for
//! its identifier only; the command reports the first failure when the rest
//! is done, and the text of every document is written anew in any case.

use vstd::prelude::*;
use vstd::string::*;
use crate::edit::{edit_document, Edit, EditModel};
use crate::error::{kind_of, DocError, ErrorKind};
use crate::model::{writable, DocElement, ElementModel};
use crate::nodemap::{bindings_map, distinct_ids, NodeMap};
use crate::outside::parsed_document;
use crate::path::{is_file_position, is_group_position, parse, parse_path, PathExpr, SegmentModel};
use crate::text::same_text;
use crate::tree::{bindings_of, erase_keys, materialize, project_shape, root_path, TreeNode};
use crate::xml::{
    extract_project_name_from_text, parse_document, project_name_of, serialize_element,
    serialized_text,
};

verus! {

/// One cached document.
#[derive(Debug, PartialEq, Eq)]
pub struct CachedDoc {
    path: String,
    dom: DocElement,
    text: String,
    node_map: NodeMap,
}

/// The mathematical value of a cached document.
pub struct DocModel {
    pub path: Seq<char>,
    pub dom: ElementModel,
    pub text: Seq<char>,
    pub node_map: Map<Seq<char>, Seq<char>>,
}

impl View for CachedDoc {
    type V = DocModel;

    closed spec fn view(&self) -> DocModel {
        DocModel { path: self.path@, dom: self.dom@, text: self.text@, node_map: self.node_map@ }
    }
}

/// What `load` reports of a document.
#[derive(Clone, Debug, PartialEq, Eq)]
pub struct FileSummary {
    pub path: String,
    pub project_name: Option<String>,
}

/// What `save_file` asks to have written: the text, to the source path.
#[derive(Clone, Debug, PartialEq, Eq)]
pub struct SaveRequest {
    pub path: String,
    pub text: String,
}

/// What a command asks for, of every identifier it is given.
#[derive(Clone, Debug, PartialEq, Eq)]
pub enum Request {
    /// Sort the files of the addressed group.
    Sort(bool),
    /// Add a file with this name to the addressed group.
    Add(String),
    /// Delete the addressed file.
    Delete,
}

/// The mathematical value of a request.
pub enum RequestModel {
    Sort(bool),
    Add(Seq<char>),
    Delete,
}

impl View for Request {
    type V = RequestModel;

    open spec fn view(&self) -> RequestModel {
        match self {
            Request::Sort(a) => RequestModel::Sort(*a),
            Request::Add(n) => RequestModel::Add(n@),
            Request::Delete => RequestModel::Delete,
        }
    }
}

/// A document after some work, and the first failure met on the way.
pub struct Outcome {
    pub dom: ElementModel,
    pub failure: Option<ErrorKind>,
}

/// The earlier of two failures.
pub open spec fn first_failure(a: Option<ErrorKind>, b: Option<ErrorKind>) -> Option<ErrorKind> {
    if a is Some {
        a
    } else {
        b
    }
}

/// The edit that a request means for an identifier bound to `expr`, and the
/// path of the element to edit. Nothing where the path addresses no node of
/// the kind that the request is for: such an identifier is passed over.
/// Sorting and adding work on the group that the path addresses; deleting
/// works on the container above the addressed file and removes the child
/// that the last segment selects.
pub open spec fn planned_edit(expr: Seq<SegmentModel>, request: RequestModel) -> Option<
    (Seq<SegmentModel>, EditModel),
> {
    match request {
        RequestModel::Sort(ascending) => if is_group_position(expr) {
            Some((expr, EditModel::SortFiles(ascending)))
        } else {
            None
        },
        RequestModel::Add(name) => if is_group_position(expr) {
            Some((expr, EditModel::AddFile(name)))
        } else {
            None
        },
        RequestModel::Delete => if is_file_position(expr) {
            Some((expr.drop_last(), EditModel::RemoveChild(expr.last().tag, expr.last().index)))
        } else {
            None
        },
    }
}

/// The document after the request was carried out for one identifier, bound
/// to `path_text`. A text that denotes no path fails with `MalformedPath`; a
/// path that leads nowhere, with `NotFound`. On failure the document stays as
/// it was.
pub open spec fn step(dom: ElementModel, path_text: Seq<char>, request: RequestModel) -> Outcome {
    match parse_path(path_text) {
        None => Outcome { dom, failure: Some(ErrorKind::MalformedPath) },
        Some(expr) => match planned_edit(expr, request) {
            None => Outcome { dom, failure: None },
            Some((target, edit)) => match edit_document(dom, target, edit) {
                Some(after) => Outcome { dom: after, failure: None },
                None => Outcome { dom, failure: Some(ErrorKind::NotFound) },
            },
        },
    }
}

/// The document after the request was carried out for each identifier in
/// turn. Identifiers that the map does not bind are passed over. A failure
/// stops the work for its identifier only.
pub open spec fn batch(
    dom: ElementModel,
    map: Map<Seq<char>, Seq<char>>,
    ids: Seq<Seq<char>>,
    request: RequestModel,
) -> Outcome
    decreases ids.len(),
{
    if ids.len() == 0 {
        Outcome { dom, failure: None }
    } else {
        let before = batch(dom, map, ids.drop_last(), request);
        if map.contains_key(ids.last()) {
            let s = step(before.dom, map[ids.last()], request);
            Outcome { dom: s.dom, failure: first_failure(before.failure, s.failure) }
        } else {
            before
        }
    }
}

/// A cached document after a command: the model after the batch, and its
/// text written anew. Where the model has no text, the old text stays.
pub open spec fn doc_after(doc: DocModel, ids: Seq<Seq<char>>, request: RequestModel) -> DocModel {
    let out = batch(doc.dom, doc.node_map, ids, request);
    match serialized_text(out.dom) {
        Some(t) => DocModel { dom: out.dom, text: t, ..doc },
        None => DocModel { dom: out.dom, ..doc },
    }
}

/// The first failure of a command on a cached document: that of the batch,
/// else `EncodingFailure` where the model has no text.
pub open spec fn doc_failure(doc: DocModel, ids: Seq<Seq<char>>, request: RequestModel) -> Option<
    ErrorKind,
> {
    let out = batch(doc.dom, doc.node_map, ids, request);
    first_failure(
        out.failure,
        if serialized_text(out.dom) is None {
            Some(ErrorKind::EncodingFailure)
        } else {
            None
        },
    )
}

/// The first failure of a command among the first `upto` documents.
pub open spec fn store_failure(
    docs: Seq<DocModel>,
    ids: Seq<Seq<char>>,
    request: RequestModel,
    upto: int,
) -> Option<ErrorKind>
    decreases upto,
{
    if upto <= 0 || upto > docs.len() {
        None
    } else {
        first_failure(
            store_failure(docs, ids, request, upto - 1),
            doc_failure(docs[upto - 1], ids, request),
        )
    }
}

/// The position of the document with the given source path.
pub open spec fn position_of(docs: Seq<DocModel>, path: Seq<char>) -> Option<int> {
    if exists|i: int| 0 <= i < docs.len() && docs[i].path == path {
        Some(choose|i: int| 0 <= i < docs.len() && docs[i].path == path)
    } else {
        None
    }
}

/// No two documents have the same source path.
pub open spec fn distinct_paths(docs: Seq<DocModel>) -> bool {
    forall|i: int, j: int|
        0 <= i < j < docs.len() ==> (#[trigger] docs[i]).path != (#[trigger] docs[j]).path
}

/// The documents after one was loaded: it takes the place of the document
/// with its source path, or comes last where there was none.
pub open spec fn with_loaded(docs: Seq<DocModel>, doc: DocModel) -> Seq<DocModel> {
    match position_of(docs, doc.path) {
        Some(i) => docs.update(i, doc),
        None => docs.push(doc),
    }
}

/// Where the source paths are distinct, a document is found at its
/// position.
pub proof fn lemma_position_of(docs: Seq<DocModel>, path: Seq<char>, i: int)
    requires
        distinct_paths(docs),
        0 <= i < docs.len(),
        docs[i].path == path,
    ensures
        position_of(docs, path) == Some(i),
{
    let j = choose|j: int| 0 <= j < docs.len() && docs[j].path == path;
    if j < i {
        assert(docs[j].path != docs[i].path);
    } else if i < j {
        assert(docs[i].path != docs[j].path);
    }
}

/// The edit that a request means for a path, and how many of the path's
/// segments lead to the element to edit.
fn to_edit(expr: &PathExpr, request: &Request) -> (r: Option<(usize, Edit)>)
    ensures
        match r {
            Some((upto, edit)) => upto <= expr@.len() && planned_edit(expr@, request@) == Some(
                (expr@.take(upto as int), edit@),
            ),
            None => planned_edit(expr@, request@) is None,
        },
{
    let n = expr.segments.len();
    match request {
        Request::Sort(ascending) => {
            if expr.is_group_position() {
                assert(expr@.take(n as int) =~= expr@);
                Some((n, Edit::SortFiles(*ascending)))
            } else {
                None
            }
        },
        Request::Add(name) => {
            if expr.is_group_position() {
                assert(expr@.take(n as int) =~= expr@);
                Some((n, Edit::AddFile(name.clone())))
            } else {
                None
            }
        },
        Request::Delete => {
            if expr.is_file_position() {
                let last = &expr.segments[n - 1];
                assert(expr@.take(n - 1) =~= expr@.drop_last());
                assert(expr@.last() == last@);
                Some((n - 1, Edit::RemoveChild(last.tag.clone(), last.index)))
            } else {
                None
            }
        },
    }
}

/// Carries out a request for one identifier, bound to `path_text`.
pub fn run_step(dom: &mut DocElement, path_text: &str, request: &Request) -> (r: Result<
    (),
    DocError,
>)
    ensures
        final(dom)@ == step(old(dom)@, path_text@, request@).dom,
        match step(old(dom)@, path_text@, request@).failure {
            Some(k) => r is Err && kind_of(r->Err_0) == k,
            None => r is Ok,
        },
{
    match parse(path_text) {
        Err(e) => Err(e),
        Ok(expr) => match to_edit(&expr, request) {
            None => Ok(()),
            Some((upto, edit)) => dom.edit_document(&expr, upto, &edit),
        },
    }
}

impl CachedDoc {
    /// Whether the record is in order: its identifier map is.
    pub closed spec fn wf(&self) -> bool {
        self.node_map.wf()
    }

    /// The generation of the identifier map: how often the tree was
    /// materialized.
    pub closed spec fn generation(&self) -> nat {
        self.node_map.generation_number()
    }

    /// A document as it is after loading: no identifier is bound yet.
    pub fn new(path: &str, dom: DocElement, text: &str) -> (r: CachedDoc)
        ensures
            r.wf(),
            r.generation() == 0,
            r@ == (DocModel { path: path@, dom: dom@, text: text@, node_map: Map::empty() }),
    {
        CachedDoc {
            path: String::from_str(path),
            dom,
            text: String::from_str(text),
            node_map: NodeMap::new(),
        }
    }

    /// The source path.
    pub fn path(&self) -> (r: &String)
        ensures
            r@ == self@.path,
    {
        &self.path
    }

    /// The document model.
    pub fn dom(&self) -> (r: &DocElement)
        ensures
            r@ == self@.dom,
    {
        &self.dom
    }

    /// The latest text.
    pub fn text(&self) -> (r: &String)
        ensures
            r@ == self@.text,
    {
        &self.text
    }

    /// The identifier map.
    pub fn node_map(&self) -> (r: &NodeMap)
        ensures
            r@ == self@.node_map,
            r.wf() == self.wf(),
            r.generation_number() == self.generation(),
    {
        &self.node_map
    }

    /// Materializes the display tree. The identifiers bound before are
    /// forgotten: the map enters its next generation and then holds the
    /// bindings of the new tree and no others, none of them under an
    /// identifier that was bound before, and no two nodes of the tree have
    /// the same identifier. Model and text stay as they are.
    pub fn get_tree(&mut self) -> (r: TreeNode)
        requires
            old(self).wf(),
        ensures
            final(self).wf(),
            final(self).generation() == old(self).generation() + 1,
            erase_keys(r@) == project_shape(old(self)@.dom),
            distinct_ids(bindings_of(r@, root_path())),
            final(self)@ == (DocModel {
                node_map: bindings_map(bindings_of(r@, root_path())),
                ..old(self)@
            }),
            forall|k: Seq<char>|
                old(self)@.node_map.contains_key(k) ==> !final(self)@.node_map.contains_key(k),
    {
        let ghost before = self.node_map;
        self.node_map.renew();
        let tree = materialize(&self.dom, &mut self.node_map);
        proof {
            self.node_map.lemma_view();
            before.lemma_view();
            assert(self.node_map.bindings() =~= bindings_of(tree@, root_path()));
            before.lemma_generations_apart(&self.node_map);
        }
        tree
    }

    /// Carries out a request for each of the identifiers that this document
    /// binds, in their order, then writes the text anew. Returns the first
    /// failure; the other identifiers are worked on all the same.
    pub fn run(&mut self, ids: &Vec<String>, request: &Request) -> (r: Result<(), DocError>)
        ensures
            final(self).wf() == old(self).wf(),
            final(self).generation() == old(self).generation(),
            final(self)@ == doc_after(old(self)@, ids@.map_values(|s: String| s@), request@),
            match doc_failure(old(self)@, ids@.map_values(|s: String| s@), request@) {
                Some(k) => r is Err && kind_of(r->Err_0) == k,
                None => r is Ok,
            },
    {
        let ghost texts = ids@.map_values(|s: String| s@);
        let ghost start = self@;
        let mut failure: Option<DocError> = None;
        let mut i: usize = 0;
        assert(texts.take(0) =~= Seq::<Seq<char>>::empty());
        while i < ids.len()
            invariant
                i <= ids@.len(),
                texts == ids@.map_values(|s: String| s@),
                start == old(self)@,
                self.node_map == old(self).node_map,
                self@ == (DocModel {
                    dom: batch(start.dom, start.node_map, texts.take(i as int), request@).dom,
                    ..start
                }),
                match batch(start.dom, start.node_map, texts.take(i as int), request@).failure {
                    Some(k) => failure is Some && kind_of(failure->0) == k,
                    None => failure is None,
                },
            decreases ids@.len() - i,
        {
            proof {
                assert(texts.take(i + 1).drop_last() =~= texts.take(i as int));
                assert(texts.take(i + 1).last() == ids@[i as int]@);
            }
            match self.node_map.get(ids[i].as_str()) {
                Some(path_text) => {
                    let step_result = run_step(&mut self.dom, path_text.as_str(), request);
                    match step_result {
                        Err(e) => {
                            if failure.is_none() {
                                failure = Some(e);
                            }
                        },
                        Ok(()) => {},
                    }
                },
                None => {},
            }
            i += 1;
        }
        assert(texts.take(i as int) =~= texts);
        match serialize_element(&self.dom) {
            Ok(t) => {
                self.text = t;
            },
            Err(e) => {
                if failure.is_none() {
                    failure = Some(e);
                }
            },
        }
        match failure {
            Some(e) => Err(e),
            None => Ok(()),
        }
    }
}

/// The loaded documents, in the order in which their source paths were first
/// loaded.
#[derive(Debug, PartialEq, Eq)]
pub struct DocumentStore {
    docs: Vec<CachedDoc>,
}

impl View for DocumentStore {
    type V = Seq<DocModel>;

    closed spec fn view(&self) -> Seq<DocModel> {
        Seq::new(self.docs@.len(), |i: int| self.docs@[i]@)
    }
}

impl DocumentStore {
    /// Whether the store is in order: no two documents have the same source
    /// path, and every record is in order.
    pub closed spec fn wf(&self) -> bool {
        &&& distinct_paths(self@)
        &&& forall|i: int| 0 <= i < self.docs@.len() ==> (#[trigger] self.docs@[i]).wf()
    }

    /// In a store in order no two documents have the same source path.
    pub proof fn lemma_distinct_paths(&self)
        requires
            self.wf(),
        ensures
            distinct_paths(self@),
    {
    }

    /// A store without documents.
    pub fn new() -> (r: DocumentStore)
        ensures
            r@ == Seq::<DocModel>::empty(),
            r.wf(),
    {
        let r = DocumentStore { docs: Vec::new() };
        assert(r@ =~= Seq::<DocModel>::empty());
        r
    }

    /// The number of loaded documents.
    pub fn len(&self) -> (n: usize)
        ensures
            n == self@.len(),
    {
        self.docs.len()
    }

    /// The position of the document loaded under `path`.
    fn find(&self, path: &str) -> (r: Option<usize>)
        requires
            self.wf(),
        ensures
            match r {
                Some(i) => i < self@.len() && position_of(self@, path@) == Some(i as int),
                None => position_of(self@, path@) is None,
            },
    {
        let mut i: usize = 0;
        while i < self.docs.len()
            invariant
                i <= self.docs@.len(),
                self.wf(),
                forall|k: int| 0 <= k < i ==> (#[trigger] self@[k]).path != path@,
            decreases self.docs@.len() - i,
        {
            if same_text(self.docs[i].path.as_str(), path) {
                proof {
                    assert(self@[i as int].path == path@);
                    lemma_position_of(self@, path@, i as int);
                }
                return Some(i);
            }
            i += 1;
        }
        None
    }

    /// Loads a document from its text. The text is parsed into a model,
    /// which takes the place of the record for `path`, if there is one, with
    /// no identifier bound; the text is kept as it came, and the model can be
    /// written as it stands. Fails with `ParseFailure`, changing nothing,
    /// exactly when the text is rejected.
    /// The summary holds the name that the separate query finds in the text.
    pub fn load(&mut self, path: &str, text: &str) -> (r: Result<FileSummary, DocError>)
        requires
            old(self).wf(),
        ensures
            final(self).wf(),
            match parsed_document(text@) {
                Some(dom) => {
                    &&& r is Ok
                    &&& r->Ok_0.path@ == path@
                    &&& match r->Ok_0.project_name {
                        Some(name) => project_name_of(text@) == Some(name@),
                        None => project_name_of(text@) is None,
                    }
                    &&& final(self)@ == with_loaded(
                        old(self)@,
                        DocModel { path: path@, dom, text: text@, node_map: Map::empty() },
                    )
                    &&& writable(dom)
                },
                None => {
                    &&& r is Err
                    &&& kind_of(r->Err_0) == ErrorKind::ParseFailure
                    &&& final(self)@ == old(self)@
                },
            },
    {
        let dom = match parse_document(text) {
            Ok(dom) => dom,
            Err(e) => {
                return Err(e);
            },
        };
        let doc = CachedDoc::new(path, dom, text);
        let ghost added = doc@;
        match self.find(path) {
            Some(i) => {
                self.docs[i] = doc;
                proof {
                    assert(self@ =~= old(self)@.update(i as int, added));
                    assert forall|a: int, b: int| 0 <= a < b < self@.len() implies (
                    #[trigger] self@[a]).path != (#[trigger] self@[b]).path by {
                        assert(old(self)@[a].path != old(self)@[b].path);
                    }
                }
            },
            None => {
                self.docs.push(doc);
                proof {
                    assert(self@ =~= old(self)@.push(added));
                    assert forall|a: int, b: int| 0 <= a < b < self@.len() implies (
                    #[trigger] self@[a]).path != (#[trigger] self@[b]).path by {
                        if b < old(self)@.len() {
                            assert(old(self)@[a].path != old(self)@[b].path);
                        } else {
                            assert(old(self)@[a].path != path@);
                        }
                    }
                }
            },
        }
        let project_name = extract_project_name_from_text(text);
        Ok(FileSummary { path: String::from_str(path), project_name })
    }

    /// The record of the document loaded under `path`. Fails with
    /// `NotLoaded` exactly when there is none.
    pub fn get(&self, path: &str) -> (r: Result<&CachedDoc, DocError>)
        requires
            self.wf(),
        ensures
            match position_of(self@, path@) {
                Some(i) => r is Ok && r->Ok_0@ == self@[i],
                None => r == Err::<&CachedDoc, DocError>(DocError::NotLoaded),
            },
    {
        match self.find(path) {
            Some(i) => Ok(&self.docs[i]),
            None => Err(DocError::NotLoaded),
        }
    }

    /// Materializes the display tree of the document loaded under `path`: a
    /// single project node with its targets, groups and files, no two of
    /// them with the same identifier. The document's identifier map is
    /// replaced by the bindings of the new tree; nothing else changes. Fails with `NotLoaded`, changing nothing,
    /// exactly when no document is loaded under `path`.
    pub fn get_tree(&mut self, path: &str) -> (r: Result<Vec<TreeNode>, DocError>)
        requires
            old(self).wf(),
        ensures
            final(self).wf(),
            match position_of(old(self)@, path@) {
                Some(i) => {
                    &&& r is Ok
                    &&& r->Ok_0@.len() == 1
                    &&& erase_keys(r->Ok_0@[0]@) == project_shape(old(self)@[i].dom)
                    &&& distinct_ids(bindings_of(r->Ok_0@[0]@, root_path()))
                    &&& forall|k: Seq<char>|
                        old(self)@[i].node_map.contains_key(k) ==> !final(self)@[i].node_map.contains_key(
                            k,
                        )
                    &&& final(self)@ == old(self)@.update(
                        i,
                        DocModel {
                            node_map: bindings_map(bindings_of(r->Ok_0@[0]@, root_path())),
                            ..old(self)@[i]
                        },
                    )
                },
                None => {
                    &&& r == Err::<Vec<TreeNode>, DocError>(DocError::NotLoaded)
                    &&& final(self)@ == old(self)@
                },
            },
    {
        match self.find(path) {
            Some(i) => {
                let tree = self.docs[i].get_tree();
                proof {
                    assert(self@ =~= old(self)@.update(i as int, self.docs@[i as int]@));
                    assert forall|a: int, b: int| 0 <= a < b < self@.len() implies (
                    #[trigger] self@[a]).path != (#[trigger] self@[b]).path by {
                        assert(old(self)@[a].path != old(self)@[b].path);
                    }
                }
                let mut out: Vec<TreeNode> = Vec::new();
                out.push(tree);
                Ok(out)
            },
            None => Err(DocError::NotLoaded),
        }
    }

    /// Carries out a request on every loaded document, in the order of the
    /// store: in each, for every identifier that the document binds, then
    /// the document's text is written anew. Returns the first failure; the
    /// work goes on after a failure.
    pub fn run(&mut self, ids: &Vec<String>, request: &Request) -> (r: Result<(), DocError>)
        requires
            old(self).wf(),
        ensures
            final(self).wf(),
            final(self)@ == old(self)@.map_values(
                |d: DocModel| doc_after(d, ids@.map_values(|s: String| s@), request@),
            ),
            match store_failure(
                old(self)@,
                ids@.map_values(|s: String| s@),
                request@,
                old(self)@.len() as int,
            ) {
                Some(k) => r is Err && kind_of(r->Err_0) == k,
                None => r is Ok,
            },
    {
        let ghost texts = ids@.map_values(|s: String| s@);
        let ghost start = self@;
        let mut failure: Option<DocError> = None;
        let mut i: usize = 0;
        while i < self.docs.len()
            invariant
                i <= self.docs@.len(),
                texts == ids@.map_values(|s: String| s@),
                start == old(self)@,
                self@.len() == start.len(),
                forall|k: int| 0 <= k < self.docs@.len() ==> (#[trigger] self.docs@[k]).wf(),
                forall|k: int|
                    0 <= k < i ==> #[trigger] self@[k] == doc_after(start[k], texts, request@),
                forall|k: int| i <= k < start.len() ==> #[trigger] self@[k] == start[k],
                match store_failure(start, texts, request@, i as int) {
                    Some(k) => failure is Some && kind_of(failure->0) == k,
                    None => failure is None,
                },
            decreases self.docs@.len() - i,
        {
            let ghost before = self@;
            let ghost before_docs = self.docs@;
            assert(forall|k: int| i <= k < start.len() ==> before[k] == start[k]);
            assert(forall|k: int|
                0 <= k < i ==> before[k] == doc_after(start[k], texts, request@));
            let result = self.docs[i].run(ids, request);
            proof {
                assert(self.docs@.len() == before_docs.len());
                assert(forall|k: int|
                    0 <= k < before_docs.len() && k != i ==> self.docs@[k] == before_docs[k]);
                assert(self@[i as int] == doc_after(before[i as int], texts, request@));
                assert forall|k: int| 0 <= k < self.docs@.len() implies (
                #[trigger] self.docs@[k]).wf() by {
                    if k != i {
                        assert(self.docs@[k] == before_docs[k]);
                    } else {
                        assert(before_docs[k].wf());
                    }
                }
                assert forall|k: int| 0 <= k < self@.len() && k != i implies self@[k]
                    == before[k] by {
                    assert(self.docs@[k] == before_docs[k]);
                }
                assert forall|k: int| 0 <= k < i + 1 implies #[trigger] self@[k] == doc_after(
                    start[k],
                    texts,
                    request@,
                ) by {
                    if k < i {
                        assert(self@[k] == before[k]);
                    } else {
                        assert(before[k] == start[k]);
                    }
                }
            }
            match result {
                Err(e) => {
                    if failure.is_none() {
                        failure = Some(e);
                    }
                },
                Ok(()) => {},
            }
            i += 1;
        }
        proof {
            let after = start.map_values(|d: DocModel| doc_after(d, texts, request@));
            assert(self@ =~= after);
            assert forall|a: int, b: int| 0 <= a < b < self@.len() implies (#[trigger] self@[a]).path
                != (#[trigger] self@[b]).path by {
                assert(start[a].path != start[b].path);
            }
        }
        match failure {
            Some(e) => Err(e),
            None => Ok(()),
        }
    }

    /// Sorts the files of every group that one of the identifiers addresses,
    /// by name, ascending or descending. Identifiers that address no group
    /// are passed over.
    pub fn sort_groups(&mut self, node_ids: &Vec<String>, ascending: bool) -> (r: Result<
        (),
        DocError,
    >)
        requires
            old(self).wf(),
        ensures
            final(self).wf(),
            final(self)@ == old(self)@.map_values(
                |d: DocModel|
                    doc_after(
                        d,
                        node_ids@.map_values(|s: String| s@),
                        RequestModel::Sort(ascending),
                    ),
            ),
            match store_failure(
                old(self)@,
                node_ids@.map_values(|s: String| s@),
                RequestModel::Sort(ascending),
                old(self)@.len() as int,
            ) {
                Some(k) => r is Err && kind_of(r->Err_0) == k,
                None => r is Ok,
            },
    {
        self.run(node_ids, &Request::Sort(ascending))
    }

    /// Adds a file with the given name to every group that one of the
    /// identifiers addresses. Identifiers that address no group are passed
    /// over.
    pub fn add_file_to_groups(&mut self, node_ids: &Vec<String>, file_name: &str) -> (r: Result<
        (),
        DocError,
    >)
        requires
            old(self).wf(),
        ensures
            final(self).wf(),
            final(self)@ == old(self)@.map_values(
                |d: DocModel|
                    doc_after(
                        d,
                        node_ids@.map_values(|s: String| s@),
                        RequestModel::Add(file_name@),
                    ),
            ),
            match store_failure(
                old(self)@,
                node_ids@.map_values(|s: String| s@),
                RequestModel::Add(file_name@),
                old(self)@.len() as int,
            ) {
                Some(k) => r is Err && kind_of(r->Err_0) == k,
                None => r is Ok,
            },
    {
        self.run(node_ids, &Request::Add(String::from_str(file_name)))
    }

    /// Deletes every file that one of the identifiers addresses. Identifiers
    /// that address no file are passed over.
    pub fn delete_file_nodes(&mut self, node_ids: &Vec<String>) -> (r: Result<(), DocError>)
        requires
            old(self).wf(),
        ensures
            final(self).wf(),
            final(self)@ == old(self)@.map_values(
                |d: DocModel|
                    doc_after(d, node_ids@.map_values(|s: String| s@), RequestModel::Delete),
            ),
            match store_failure(
                old(self)@,
                node_ids@.map_values(|s: String| s@),
                RequestModel::Delete,
                old(self)@.len() as int,
            ) {
                Some(k) => r is Err && kind_of(r->Err_0) == k,
                None => r is Ok,
            },
    {
        self.run(node_ids, &Request::Delete)
    }

    /// What is to be written to save the document loaded under `path`: its
    /// latest text, to its source path. Fails with `NotLoaded` exactly when
    /// no document is loaded under `path`.
    pub fn save_file(&self, path: &str) -> (r: Result<SaveRequest, DocError>)
        requires
            self.wf(),
        ensures
            match position_of(self@, path@) {
                Some(i) => r is Ok && r->Ok_0.path@ == self@[i].path && r->Ok_0.text@
                    == self@[i].text,
                None => r == Err::<SaveRequest, DocError>(DocError::NotLoaded),
            },
    {
        match self.find(path) {
            Some(i) => Ok(
                SaveRequest { path: self.docs[i].path.clone(), text: self.docs[i].text.clone() },
            ),
            None => Err(DocError::NotLoaded),
        }
    }
}

} // verus!
