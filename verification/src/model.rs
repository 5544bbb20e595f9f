//! The document model: a tree of named elements with ordered children.

use vstd::prelude::*;
use vstd::string::*;
use crate::text::{less_than, lex_less, same_text};

verus! {

/// One child of an element.
#[derive(Debug, PartialEq, Eq)]
pub enum XmlNode {
    Element(DocElement),
    Comment(String),
    CData(String),
    Text(String),
    ProcessingInstruction(String, Option<String>),
}

/// A named element with its attributes and its ordered children.
#[derive(Debug, PartialEq, Eq)]
pub struct DocElement {
    pub prefix: Option<String>,
    pub namespace: Option<String>,
    pub namespaces: Option<Vec<(String, String)>>,
    pub name: String,
    pub attributes: Vec<(String, String)>,
    pub children: Vec<XmlNode>,
}

/// The mathematical value of a child node.
pub enum NodeModel {
    Element(ElementModel),
    Comment(Seq<char>),
    CData(Seq<char>),
    Text(Seq<char>),
    ProcessingInstruction(Seq<char>, Option<Seq<char>>),
}

/// The mathematical value of an element.
pub struct ElementModel {
    pub prefix: Option<Seq<char>>,
    pub namespace: Option<Seq<char>>,
    pub namespaces: Option<Seq<(Seq<char>, Seq<char>)>>,
    pub name: Seq<char>,
    pub attributes: Seq<(Seq<char>, Seq<char>)>,
    pub children: Seq<NodeModel>,
}

/// The value of an optional text.
pub open spec fn text_model(s: Option<String>) -> Option<Seq<char>> {
    match s {
        Some(t) => Some(t@),
        None => None,
    }
}

/// The values of a run of pairs of texts.
pub open spec fn pairs_model(s: Seq<(String, String)>) -> Seq<(Seq<char>, Seq<char>)> {
    Seq::new(s.len(), |i: int| (s[i].0@, s[i].1@))
}

/// The value of a node.
pub open spec fn node_model(n: XmlNode) -> NodeModel
    decreases n,
{
    match n {
        XmlNode::Element(e) => NodeModel::Element(element_model(e)),
        XmlNode::Comment(s) => NodeModel::Comment(s@),
        XmlNode::CData(s) => NodeModel::CData(s@),
        XmlNode::Text(s) => NodeModel::Text(s@),
        XmlNode::ProcessingInstruction(t, d) => NodeModel::ProcessingInstruction(t@, text_model(d)),
    }
}

/// The value of an element: its fields, the children by their values.
pub open spec fn element_model(e: DocElement) -> ElementModel
    decreases e,
{
    ElementModel {
        prefix: text_model(e.prefix),
        namespace: text_model(e.namespace),
        namespaces: match e.namespaces {
            Some(ns) => Some(pairs_model(ns@)),
            None => None,
        },
        name: e.name@,
        attributes: pairs_model(e.attributes@),
        children: Seq::new(
            e.children@.len(),
            |i: int|
                if 0 <= i < e.children@.len() {
                    node_model(e.children@[i])
                } else {
                    arbitrary()
                },
        ),
    }
}

/// The values of a run of nodes.
pub open spec fn nodes_model(v: Seq<XmlNode>) -> Seq<NodeModel> {
    Seq::new(v.len(), |i: int| node_model(v[i]))
}

/// The children of an element's value are the values of its children.
pub proof fn lemma_children_model(e: DocElement)
    ensures
        element_model(e).children == nodes_model(e.children@),
{
    assert(element_model(e).children =~= nodes_model(e.children@));
}

impl View for XmlNode {
    type V = NodeModel;

    open spec fn view(&self) -> NodeModel {
        node_model(*self)
    }
}

impl View for DocElement {
    type V = ElementModel;

    open spec fn view(&self) -> ElementModel {
        element_model(*self)
    }
}

impl NodeModel {
    /// Whether this node is an element with the given tag.
    pub open spec fn is_element_named(self, name: Seq<char>) -> bool {
        match self {
            NodeModel::Element(e) => e.name == name,
            _ => false,
        }
    }

    /// The element that this node is; meaningless for other nodes.
    pub open spec fn as_element(self) -> ElementModel {
        match self {
            NodeModel::Element(e) => e,
            _ => arbitrary(),
        }
    }
}

/// The position, at or after `from`, of the `n`-th (1-based) child element
/// with tag `name`, counting from `from`.
pub open spec fn nth_named_from(children: Seq<NodeModel>, name: Seq<char>, n: nat, from: int)
    -> Option<int>
    decreases children.len() - from,
{
    if from < 0 || from >= children.len() || n == 0 {
        None
    } else if children[from].is_element_named(name) {
        if n == 1 {
            Some(from)
        } else {
            nth_named_from(children, name, (n - 1) as nat, from + 1)
        }
    } else {
        nth_named_from(children, name, n, from + 1)
    }
}

/// The number of child elements with tag `name` among the first `upto`
/// children.
pub open spec fn count_named(children: Seq<NodeModel>, name: Seq<char>, upto: int) -> nat
    decreases upto,
{
    if upto <= 0 || upto > children.len() {
        0
    } else if children[upto - 1].is_element_named(name) {
        count_named(children, name, upto - 1) + 1
    } else {
        count_named(children, name, upto - 1)
    }
}

/// The concatenated contents of the text nodes among `children`.
pub open spec fn text_of(children: Seq<NodeModel>) -> Seq<char>
    decreases children.len(),
{
    if children.len() == 0 {
        Seq::empty()
    } else {
        match children.last() {
            NodeModel::Text(t) => text_of(children.drop_last()) + t,
            _ => text_of(children.drop_last()),
        }
    }
}

impl ElementModel {
    /// The position of the `n`-th (1-based) child element with tag `name`.
    pub open spec fn child_position(self, name: Seq<char>, n: nat) -> Option<int> {
        nth_named_from(self.children, name, n, 0)
    }

    /// The first child element with tag `name`.
    pub open spec fn find_child(self, name: Seq<char>) -> Option<ElementModel> {
        match self.child_position(name, 1) {
            Some(p) => Some(self.children[p].as_element()),
            None => None,
        }
    }

    /// The child elements with tag `name`, in document order.
    pub open spec fn children_named(self, name: Seq<char>) -> Seq<ElementModel> {
        self.children.filter(|n: NodeModel| n.is_element_named(name)).map_values(
            |n: NodeModel| n.as_element(),
        )
    }

    /// The text of the first child element with tag `name`: the contents of
    /// its text nodes, concatenated. `None` when there is no such child or
    /// its text is empty.
    pub open spec fn child_text(self, name: Seq<char>) -> Option<Seq<char>> {
        match self.find_child(name) {
            Some(c) => if text_of(c.children).len() == 0 {
                None
            } else {
                Some(text_of(c.children))
            },
            None => None,
        }
    }
}

/// The position found for the `n`-th child named `name` holds such an
/// element, and exactly `n - 1` such elements stand before it.
pub proof fn lemma_nth_named_from(children: Seq<NodeModel>, name: Seq<char>, n: nat, from: int)
    requires
        0 <= from <= children.len(),
    ensures
        match nth_named_from(children, name, n, from) {
            Some(p) => {
                &&& from <= p < children.len()
                &&& children[p].is_element_named(name)
                &&& count_named(children, name, p) + 1 == count_named(children, name, from) + n
            },
            None => n == 0 || count_named(children, name, children.len() as int) < count_named(
                children,
                name,
                from,
            ) + n,
        },
    decreases children.len() - from,
{
    if from < children.len() && n > 0 {
        if children[from].is_element_named(name) {
            if n > 1 {
                lemma_nth_named_from(children, name, (n - 1) as nat, from + 1);
            }
        } else {
            lemma_nth_named_from(children, name, n, from + 1);
        }
    }
}

/// Whether `node` is an element with tag `name`.
pub fn is_element_named(node: &XmlNode, name: &str) -> (r: bool)
    ensures
        r == node@.is_element_named(name@),
{
    match node {
        XmlNode::Element(e) => same_text(e.name.as_str(), name),
        _ => false,
    }
}

impl DocElement {
    /// An element with the given tag and nothing else.
    pub fn new(name: &str) -> (r: DocElement)
        ensures
            r@ == (ElementModel {
                prefix: None,
                namespace: None,
                namespaces: None,
                name: name@,
                attributes: Seq::empty(),
                children: Seq::empty(),
            }),
    {
        let r = DocElement {
            prefix: None,
            namespace: None,
            namespaces: None,
            name: String::from_str(name),
            attributes: Vec::new(),
            children: Vec::new(),
        };
        assert(r@.attributes =~= Seq::empty());
        assert(r@.children =~= Seq::empty());
        r
    }

    /// The position among the children of the `n`-th (1-based) child element
    /// with tag `name`, if there are that many.
    pub fn child_position(&self, name: &str, n: usize) -> (r: Option<usize>)
        ensures
            match r {
                Some(p) => self@.child_position(name@, n as nat) == Some(p as int) && p
                    < self.children@.len(),
                None => self@.child_position(name@, n as nat) is None,
            },
    {
        let mut left = n;
        let mut i: usize = 0;
        while i < self.children.len()
            invariant
                i <= self.children@.len(),
                self@.child_position(name@, n as nat) == nth_named_from(
                    self@.children,
                    name@,
                    left as nat,
                    i as int,
                ),
            decreases self.children@.len() - i,
        {
            if left == 0 {
                return None;
            }
            if is_element_named(&self.children[i], name) {
                if left == 1 {
                    return Some(i);
                }
                left -= 1;
            }
            i += 1;
        }
        None
    }

    /// The child at position `p`, which must be an element.
    pub fn element_at(&self, p: usize) -> (r: &DocElement)
        requires
            p < self@.children.len(),
            self@.children[p as int] is Element,
        ensures
            r@ == self@.children[p as int].as_element(),
    {
        match &self.children[p] {
            XmlNode::Element(e) => e,
            _ => {
                proof {
                    assert(false);
                }
                self
            },
        }
    }

    /// The first child element with tag `name`.
    pub fn find_child_element(&self, name: &str) -> (r: Option<&DocElement>)
        ensures
            match r {
                Some(c) => self@.find_child(name@) == Some(c@),
                None => self@.find_child(name@) is None,
            },
    {
        match self.child_position(name, 1) {
            Some(p) => {
                proof {
                    lemma_nth_named_from(self@.children, name@, 1, 0);
                }
                Some(self.element_at(p))
            },
            None => None,
        }
    }

    /// The contents of this element's text nodes, concatenated.
    pub fn text(&self) -> (r: String)
        ensures
            r@ == text_of(self@.children),
    {
        let mut out = String::new();
        let mut i: usize = 0;
        assert(self@.children.take(0) =~= Seq::<NodeModel>::empty());
        while i < self.children.len()
            invariant
                i <= self.children@.len(),
                out@ == text_of(self@.children.take(i as int)),
            decreases self.children@.len() - i,
        {
            assert(self@.children.take(i + 1).drop_last() =~= self@.children.take(i as int));
            assert(self@.children.take(i + 1).last() == self.children@[i as int]@);
            match &self.children[i] {
                XmlNode::Text(t) => {
                    out.append(t.as_str());
                },
                _ => {},
            }
            i += 1;
        }
        assert(self@.children.take(i as int) =~= self@.children);
        out
    }

    /// The text of the first child element with tag `name`, unless it is
    /// empty.
    pub fn get_child_text(&self, name: &str) -> (r: Option<String>)
        ensures
            match r {
                Some(t) => self@.child_text(name@) == Some(t@),
                None => self@.child_text(name@) is None,
            },
    {
        match self.find_child_element(name) {
            Some(c) => {
                let t = c.text();
                if t.as_str().is_empty() {
                    None
                } else {
                    Some(t)
                }
            },
            None => None,
        }
    }

    /// The child elements with tag `name`, in document order.
    pub fn get_children_by_name(&self, name: &str) -> (r: Vec<&DocElement>)
        ensures
            r@.map_values(|e: &DocElement| e@) == self@.children_named(name@),
    {
        let ghost wanted = |n: NodeModel| n.is_element_named(name@);
        let mut out: Vec<&DocElement> = Vec::new();
        let mut i: usize = 0;
        assert(self@.children.take(0) =~= Seq::<NodeModel>::empty());
        proof {
            reveal(Seq::filter);
        }
        while i < self.children.len()
            invariant
                i <= self.children@.len(),
                wanted == |n: NodeModel| n.is_element_named(name@),
                out@.len() == self@.children.take(i as int).filter(wanted).len(),
                forall|j: int|
                    0 <= j < out@.len() ==> (#[trigger] out@[j])@ == self@.children.take(
                        i as int,
                    ).filter(wanted)[j].as_element(),
            decreases self.children@.len() - i,
        {
            proof {
                reveal(Seq::filter);
                assert(self@.children.take(i + 1).drop_last() =~= self@.children.take(i as int));
                assert(self@.children.take(i + 1).last() == self.children@[i as int]@);
            }
            match &self.children[i] {
                XmlNode::Element(e) => {
                    if same_text(e.name.as_str(), name) {
                        out.push(e);
                    }
                },
                _ => {},
            }
            i += 1;
        }
        assert(self@.children.take(i as int) =~= self@.children);
        assert(out@.map_values(|e: &DocElement| e@) =~= self@.children_named(name@));
        out
    }
}

/// No two pairs have the same name.
pub open spec fn distinct_names(pairs: Seq<(Seq<char>, Seq<char>)>) -> bool {
    forall|i: int, j: int| 0 <= i < j < pairs.len() ==> (#[trigger] pairs[i]).0 != (#[trigger] pairs[j]).0
}

/// Each pair's name comes strictly before the next one's.
pub open spec fn increasing_names(pairs: Seq<(Seq<char>, Seq<char>)>) -> bool {
    forall|i: int|
        0 <= i < pairs.len() - 1 ==> lex_less((#[trigger] pairs[i]).0, pairs[i + 1].0)
}

/// Whether an element can be written out as it stands: in it and in every
/// element below it, no attribute name occurs twice and the namespace
/// bindings are in the order of their prefixes.
pub open spec fn writable(e: ElementModel) -> bool
    decreases e,
{
    &&& distinct_names(e.attributes)
    &&& match e.namespaces {
        Some(ns) => increasing_names(ns),
        None => true,
    }
    &&& forall|i: int|
        0 <= i < e.children.len() ==> match #[trigger] e.children[i] {
            NodeModel::Element(c) => writable(c),
            _ => true,
        }
}

/// Whether no two pairs have the same name.
fn has_distinct_names(pairs: &Vec<(String, String)>) -> (r: bool)
    ensures
        r == distinct_names(pairs_model(pairs@)),
{
    let ghost m = pairs_model(pairs@);
    let mut j: usize = 0;
    while j < pairs.len()
        invariant
            j <= pairs@.len(),
            m == pairs_model(pairs@),
            forall|a: int, b: int| 0 <= a < b < j ==> (#[trigger] m[a]).0 != (#[trigger] m[b]).0,
        decreases pairs@.len() - j,
    {
        let mut i: usize = 0;
        while i < j
            invariant
                i <= j < pairs@.len(),
                m == pairs_model(pairs@),
                forall|a: int| 0 <= a < i ==> (#[trigger] m[a]).0 != m[j as int].0,
            decreases j - i,
        {
            if same_text(pairs[i].0.as_str(), pairs[j].0.as_str()) {
                assert(m[i as int].0 == m[j as int].0);
                return false;
            }
            i += 1;
        }
        j += 1;
    }
    true
}

/// Whether each pair's name comes strictly before the next one's.
fn has_increasing_names(pairs: &Vec<(String, String)>) -> (r: bool)
    ensures
        r == increasing_names(pairs_model(pairs@)),
{
    let ghost m = pairs_model(pairs@);
    let mut i: usize = 1;
    while i < pairs.len()
        invariant
            1 <= i,
            m == pairs_model(pairs@),
            forall|a: int|
                0 <= a < i - 1 && a < m.len() - 1 ==> lex_less((#[trigger] m[a]).0, m[a + 1].0),
        decreases pairs@.len() - i,
    {
        if !less_than(pairs[i - 1].0.as_str(), pairs[i].0.as_str()) {
            assert(!lex_less(m[i - 1].0, m[i as int].0));
            return false;
        }
        i += 1;
    }
    true
}

impl DocElement {
    /// Whether this element can be written out as it stands.
    pub fn is_writable(&self) -> (r: bool)
        ensures
            r == writable(self@),
        decreases self,
    {
        if !has_distinct_names(&self.attributes) {
            return false;
        }
        match &self.namespaces {
            Some(ns) => {
                if !has_increasing_names(ns) {
                    return false;
                }
            },
            None => {},
        }
        let mut i: usize = 0;
        while i < self.children.len()
            invariant
                i <= self.children@.len(),
                distinct_names(self@.attributes),
                match self@.namespaces {
                    Some(ns) => increasing_names(ns),
                    None => true,
                },
                forall|k: int|
                    0 <= k < i ==> match #[trigger] self@.children[k] {
                        NodeModel::Element(c) => writable(c),
                        _ => true,
                    },
            decreases self.children@.len() - i,
        {
            match &self.children[i] {
                XmlNode::Element(c) => {
                    if !c.is_writable() {
                        assert(self@.children[i as int] == NodeModel::Element(c@));
                        return false;
                    }
                },
                _ => {},
            }
            i += 1;
        }
        true
    }

    /// A copy of this element and of everything below it.
    pub fn deep_copy(&self) -> (r: DocElement)
        ensures
            r@ == self@,
        decreases self,
    {
        let mut children: Vec<XmlNode> = Vec::new();
        let mut i: usize = 0;
        while i < self.children.len()
            invariant
                i <= self.children@.len(),
                children@.len() == i,
                forall|k: int| 0 <= k < i ==> (#[trigger] children@[k])@ == self.children@[k]@,
            decreases self.children@.len() - i,
        {
            let copy = match &self.children[i] {
                XmlNode::Element(c) => XmlNode::Element(c.deep_copy()),
                XmlNode::Comment(s) => XmlNode::Comment(s.clone()),
                XmlNode::CData(s) => XmlNode::CData(s.clone()),
                XmlNode::Text(s) => XmlNode::Text(s.clone()),
                XmlNode::ProcessingInstruction(t, d) => XmlNode::ProcessingInstruction(
                    t.clone(),
                    copy_text(d),
                ),
            };
            children.push(copy);
            i += 1;
        }
        let r = DocElement {
            prefix: copy_text(&self.prefix),
            namespace: copy_text(&self.namespace),
            namespaces: match &self.namespaces {
                Some(ns) => Some(copy_pairs(ns)),
                None => None,
            },
            name: self.name.clone(),
            attributes: copy_pairs(&self.attributes),
            children,
        };
        assert(r@.children =~= self@.children);
        r
    }
}

/// A copy of an optional text.
fn copy_text(t: &Option<String>) -> (r: Option<String>)
    ensures
        text_model(r) == text_model(*t),
{
    match t {
        Some(s) => Some(s.clone()),
        None => None,
    }
}

/// A copy of a run of pairs of texts.
fn copy_pairs(pairs: &Vec<(String, String)>) -> (r: Vec<(String, String)>)
    ensures
        pairs_model(r@) == pairs_model(pairs@),
{
    let mut out: Vec<(String, String)> = Vec::new();
    let mut i: usize = 0;
    while i < pairs.len()
        invariant
            i <= pairs@.len(),
            out@.len() == i,
            forall|k: int|
                0 <= k < i ==> (#[trigger] out@[k]).0@ == pairs@[k].0@ && out@[k].1@ == pairs@[k].1@,
        decreases pairs@.len() - i,
    {
        out.push((pairs[i].0.clone(), pairs[i].1.clone()));
        i += 1;
    }
    assert(pairs_model(out@) =~= pairs_model(pairs@));
    out
}

} // verus!
