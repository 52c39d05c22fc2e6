//! The document as the extraction reads it: a table of nodes in document order.
//!
//! The XML parser does the reading. What it found is copied, node by node,
//! into values of this crate, so that everything after the parse works on data
//! whose contents a contract can speak of.
use vstd::prelude::*;

verus! {

/// One attribute of an element.
#[derive(Debug, Clone, PartialEq, Eq)]
pub struct Attribute {
    /// The name, without a namespace prefix.
    pub name: String,
    pub value: String,
}

/// One node of a document: the root, an element, a text, a comment or a
/// processing instruction.
#[derive(Debug, Clone, PartialEq, Eq)]
pub struct Node {
    /// Where the parent stands in the table; the root has none.
    pub parent: Option<usize>,
    /// Whether the node is an element.
    pub element: bool,
    /// The tag name of an element, without a namespace prefix; empty for any
    /// other node.
    pub name: String,
    /// The attributes of an element, in the order in which they are written.
    pub attributes: Vec<Attribute>,
    /// For an element, the text that its content begins with, if it begins with
    /// text; for a text or a comment, its own text.
    pub text: Option<String>,
}

/// A parsed document: all its nodes in document order, the root first.
#[derive(Debug, Clone, PartialEq, Eq)]
pub struct Tree {
    pub nodes: Vec<Node>,
}

/// Why a text could not be read as a document.
#[derive(Debug, Clone, PartialEq, Eq)]
pub struct ParseError {
    /// What the parser says is wrong with the text, and where.
    pub message: String,
}

pub ghost struct AttributeView {
    pub name: Seq<char>,
    pub value: Seq<char>,
}

pub ghost struct NodeView {
    pub parent: Option<int>,
    pub element: bool,
    pub name: Seq<char>,
    pub attributes: Seq<AttributeView>,
    pub text: Option<Seq<char>>,
}

impl View for Attribute {
    type V = AttributeView;

    open spec fn view(&self) -> AttributeView {
        AttributeView { name: self.name@, value: self.value@ }
    }
}

impl View for Node {
    type V = NodeView;

    open spec fn view(&self) -> NodeView {
        NodeView {
            parent: match self.parent {
                Some(p) => Some(p as int),
                None => None,
            },
            element: self.element,
            name: self.name@,
            attributes: Seq::new(self.attributes@.len(), |i: int| self.attributes@[i]@),
            text: match self.text {
                Some(t) => Some(t@),
                None => None,
            },
        }
    }
}

/// The views of a run of nodes.
pub open spec fn nodes_view(nodes: Seq<Node>) -> Seq<NodeView> {
    Seq::new(nodes.len(), |i: int| nodes[i]@)
}

impl View for Tree {
    type V = Seq<NodeView>;

    open spec fn view(&self) -> Seq<NodeView> {
        nodes_view(self.nodes@)
    }
}

/// Whether `node` is an element with the tag name `tag`.
pub open spec fn has_tag(node: NodeView, tag: Seq<char>) -> bool {
    node.element && node.name == tag
}

/// The value of the first of `attributes` that is named `name`.
pub open spec fn attribute_value(attributes: Seq<AttributeView>, name: Seq<char>) -> Option<
    Seq<char>,
>
    decreases attributes.len(),
{
    if attributes.len() == 0 {
        None
    } else if attributes[0].name == name {
        Some(attributes[0].value)
    } else {
        attribute_value(attributes.subrange(1, attributes.len() as int), name)
    }
}

/// Whether node `j` of `tree` is an element named `tag` directly under node
/// `parent`.
pub open spec fn is_child_named(tree: Seq<NodeView>, parent: int, tag: Seq<char>, j: int) -> bool {
    0 <= j < tree.len() && tree[j].parent == Some(parent) && has_tag(tree[j], tag)
}

/// Whether node `r` is the root of the document: the node that is no element
/// and stands under nothing.
pub open spec fn is_document_root(tree: Seq<NodeView>, r: int) -> bool {
    0 <= r < tree.len() && !tree[r].element && tree[r].parent is None
}

/// Whether node `p` is the root element: an element directly under the root
/// of the document.
pub open spec fn is_root_element(tree: Seq<NodeView>, p: int) -> bool {
    0 <= p < tree.len() && tree[p].element && match tree[p].parent {
        Some(r) => is_document_root(tree, r),
        None => false,
    }
}

/// Whether node `i` stands at the top level of the document: directly under
/// the root element.
pub open spec fn is_top_level(tree: Seq<NodeView>, i: int) -> bool {
    0 <= i < tree.len() && match tree[i].parent {
        Some(p) => is_root_element(tree, p),
        None => false,
    }
}

/// The first of the nodes before `n` that is an element named `tag` directly
/// under node `parent`.
pub open spec fn first_child_upto(tree: Seq<NodeView>, parent: int, tag: Seq<char>, n: nat) -> Option<
    int,
>
    decreases n,
{
    if n == 0 {
        None
    } else {
        match first_child_upto(tree, parent, tag, (n - 1) as nat) {
            Some(j) => Some(j),
            None => if is_child_named(tree, parent, tag, n - 1) {
                Some(n - 1)
            } else {
                None
            },
        }
    }
}

/// The first element named `tag` directly under node `parent`.
pub open spec fn first_child_named(tree: Seq<NodeView>, parent: int, tag: Seq<char>) -> Option<
    int,
> {
    first_child_upto(tree, parent, tag, tree.len())
}

/// What [`first_child_upto`] picks: the least index that qualifies.
pub proof fn lemma_first_child_upto(tree: Seq<NodeView>, parent: int, tag: Seq<char>, n: nat)
    requires
        n <= tree.len(),
    ensures
        match first_child_upto(tree, parent, tag, n) {
            Some(j) => 0 <= j < n && is_child_named(tree, parent, tag, j) && forall|i: int|
                0 <= i < j ==> !#[trigger] is_child_named(tree, parent, tag, i),
            None => forall|i: int| 0 <= i < n ==> !#[trigger] is_child_named(tree, parent, tag, i),
        },
    decreases n,
{
    if n > 0 {
        lemma_first_child_upto(tree, parent, tag, (n - 1) as nat);
    }
}

/// Once a child is found, looking further changes nothing.
pub proof fn lemma_first_child_stays(
    tree: Seq<NodeView>,
    parent: int,
    tag: Seq<char>,
    m: nat,
    n: nat,
)
    requires
        m <= n,
        first_child_upto(tree, parent, tag, m) is Some,
    ensures
        first_child_upto(tree, parent, tag, n) == first_child_upto(tree, parent, tag, m),
    decreases n,
{
    if m < n {
        lemma_first_child_stays(tree, parent, tag, m, (n - 1) as nat);
    }
}

/// The elements named `tag` among the first `n` nodes, in document order.
pub open spec fn named_upto(tree: Seq<NodeView>, tag: Seq<char>, n: nat) -> Seq<int>
    decreases n,
{
    if n == 0 {
        Seq::empty()
    } else {
        let before = named_upto(tree, tag, (n - 1) as nat);
        if has_tag(tree[n - 1], tag) {
            before.push(n - 1)
        } else {
            before
        }
    }
}

/// The elements named `tag` directly under node `parent` among the first `n`
/// nodes, in document order.
pub open spec fn children_upto(tree: Seq<NodeView>, parent: int, tag: Seq<char>, n: nat) -> Seq<
    int,
>
    decreases n,
{
    if n == 0 {
        Seq::empty()
    } else {
        let before = children_upto(tree, parent, tag, (n - 1) as nat);
        if is_child_named(tree, parent, tag, n - 1) {
            before.push(n - 1)
        } else {
            before
        }
    }
}

/// What [`named_upto`] lists: every element named `tag` before `n` and
/// nothing else, each once, in rising order.
pub proof fn lemma_named_upto(tree: Seq<NodeView>, tag: Seq<char>, n: nat)
    requires
        n <= tree.len(),
    ensures
        forall|a: int|
            0 <= a < named_upto(tree, tag, n).len() ==> {
                let j = #[trigger] named_upto(tree, tag, n)[a];
                0 <= j < n && has_tag(tree[j], tag)
            },
        forall|a: int, b: int|
            0 <= a < b < named_upto(tree, tag, n).len() ==> named_upto(tree, tag, n)[a]
                < named_upto(tree, tag, n)[b],
        forall|j: int|
            0 <= j < n && has_tag(#[trigger] tree[j], tag) ==> named_upto(tree, tag, n).contains(j),
    decreases n,
{
    if n > 0 {
        let before = named_upto(tree, tag, (n - 1) as nat);
        let all = named_upto(tree, tag, n);
        lemma_named_upto(tree, tag, (n - 1) as nat);
        assert forall|j: int| 0 <= j < n && has_tag(#[trigger] tree[j], tag) implies all.contains(
            j,
        ) by {
            if j < n - 1 {
                let a = choose|a: int| 0 <= a < before.len() && before[a] == j;
                assert(all[a] == j);
            } else {
                assert(all[before.len() as int] == j);
            }
        }
    }
}

/// What [`children_upto`] lists: every element named `tag` directly under
/// `parent` before `n` and nothing else, each once, in rising order.
pub proof fn lemma_children_upto(tree: Seq<NodeView>, parent: int, tag: Seq<char>, n: nat)
    requires
        n <= tree.len(),
    ensures
        forall|a: int|
            0 <= a < children_upto(tree, parent, tag, n).len() ==> {
                let j = #[trigger] children_upto(tree, parent, tag, n)[a];
                j < n && is_child_named(tree, parent, tag, j)
            },
        forall|a: int, b: int|
            0 <= a < b < children_upto(tree, parent, tag, n).len() ==> children_upto(
                tree,
                parent,
                tag,
                n,
            )[a] < children_upto(tree, parent, tag, n)[b],
        forall|j: int|
            j < n && #[trigger] is_child_named(tree, parent, tag, j) ==> children_upto(
                tree,
                parent,
                tag,
                n,
            ).contains(j),
    decreases n,
{
    if n > 0 {
        let before = children_upto(tree, parent, tag, (n - 1) as nat);
        let all = children_upto(tree, parent, tag, n);
        lemma_children_upto(tree, parent, tag, (n - 1) as nat);
        assert forall|j: int| j < n && #[trigger] is_child_named(
            tree,
            parent,
            tag,
            j,
        ) implies all.contains(j) by {
            if j < n - 1 {
                let a = choose|a: int| 0 <= a < before.len() && before[a] == j;
                assert(all[a] == j);
            } else {
                assert(all[before.len() as int] == j);
            }
        }
    }
}

/// A run of places as a contract reads it.
pub open spec fn places(indices: Seq<usize>) -> Seq<int> {
    Seq::new(indices.len(), |a: int| indices[a] as int)
}

/// What the parser makes of `text`: the nodes of the document in document
/// order, or its complaint where it refuses `text`. It refuses what is not
/// well-formed XML, and also a document with a document type declaration.
pub uninterp spec fn xml_nodes(text: Seq<char>) -> Result<Seq<NodeView>, Seq<char>>;

/// Parses `text` with `roxmltree::Document::parse` and copies each node that
/// `Document::descendants` yields, in that order: from `Node::parent` the
/// place of its parent, from `Node::is_element`, `Node::tag_name`,
/// `Node::attributes` and `Node::text` the rest. An error is handed on as the
/// text that its `Display` writes.
///
/// Taken on trust: that the outcome depends on `text` alone, and that the
/// parser, which refuses to make more than `u32::MAX` nodes, returns no more.
#[verifier::external_body]
fn parse_nodes(text: &str) -> (r: Result<Vec<Node>, String>)
    ensures
        match r {
            Ok(nodes) => xml_nodes(text@) == Ok::<Seq<NodeView>, Seq<char>>(nodes_view(nodes@))
                && nodes@.len() <= u32::MAX,
            Err(message) => xml_nodes(text@) == Err::<Seq<NodeView>, Seq<char>>(message@),
        },
{
    let doc = roxmltree::Document::parse(text).map_err(|e| e.to_string())?;
    Ok(doc.descendants().map(|n| Node {
        parent: n.parent().map(|p| p.id().get_usize()),
        element: n.is_element(),
        name: n.tag_name().name().to_string(),
        attributes: n.attributes().map(|a| Attribute {
            name: a.name().to_string(),
            value: a.value().to_string(),
        }).collect(),
        text: n.text().map(|t| t.to_string()),
    }).collect())
}

/// Reads `text` as an XML document.
///
/// Fails exactly where the parser refuses `text`, with the parser's message;
/// else the tree holds what the parser found.
pub fn read_tree(text: &str) -> (r: Result<Tree, ParseError>)
    ensures
        match r {
            Ok(tree) => xml_nodes(text@) == Ok::<Seq<NodeView>, Seq<char>>(tree@) && tree@.len()
                <= u32::MAX,
            Err(e) => xml_nodes(text@) == Err::<Seq<NodeView>, Seq<char>>(e.message@),
        },
{
    match parse_nodes(text) {
        Ok(nodes) => Ok(Tree { nodes }),
        Err(message) => Err(ParseError { message }),
    }
}

impl Node {
    fn has_tag(&self, tag: &String) -> (r: bool)
        ensures
            r == has_tag(self@, tag@),
    {
        self.element && self.name == *tag
    }

    fn is_child_of(&self, parent: usize, tag: &String) -> (r: bool)
        ensures
            r == (self@.parent == Some(parent as int) && has_tag(self@, tag@)),
    {
        match self.parent {
            Some(p) => p == parent && self.has_tag(tag),
            None => false,
        }
    }
}

impl Tree {
    /// The number of nodes.
    pub fn len(&self) -> (n: usize)
        ensures
            n == self@.len(),
    {
        self.nodes.len()
    }

    /// The value of the first attribute of node `node` that is named `name`.
    pub fn attribute(&self, node: usize, name: &str) -> (r: Option<&String>)
        requires
            node < self@.len(),
        ensures
            match r {
                Some(value) => attribute_value(self@[node as int].attributes, name@) == Some(
                    value@,
                ),
                None => attribute_value(self@[node as int].attributes, name@) is None,
            },
    {
        let wanted = name.to_owned();
        let attributes = &self.nodes[node].attributes;
        let ghost all = self@[node as int].attributes;
        let mut i: usize = 0;
        assert(all.subrange(0, all.len() as int) =~= all);
        while i < attributes.len()
            invariant
                i <= attributes.len(),
                wanted@ == name@,
                node < self@.len(),
                all == self@[node as int].attributes,
                all.len() == attributes@.len(),
                forall|a: int| 0 <= a < all.len() ==> all[a] == (#[trigger] attributes@[a])@,
                attribute_value(all, name@) == attribute_value(
                    all.subrange(i as int, all.len() as int),
                    name@,
                ),
            decreases attributes.len() - i,
        {
            let ghost rest = all.subrange(i as int, all.len() as int);
            assert(rest[0] == attributes@[i as int]@);
            if attributes[i].name == wanted {
                return Some(&attributes[i].value);
            }
            assert(rest.subrange(1, rest.len() as int) =~= all.subrange(i + 1, all.len() as int));
            i += 1;
        }
        None
    }

    /// The text of node `node`.
    pub fn text(&self, node: usize) -> (r: Option<&String>)
        requires
            node < self@.len(),
        ensures
            match r {
                Some(text) => self@[node as int].text == Some(text@),
                None => self@[node as int].text is None,
            },
    {
        self.nodes[node].text.as_ref()
    }

    /// Whether node `node` stands at the top level of the document: directly
    /// under the root element.
    pub fn is_top_level(&self, node: usize) -> (r: bool)
        ensures
            r == is_top_level(self@, node as int),
    {
        if node >= self.nodes.len() {
            return false;
        }
        match self.nodes[node].parent {
            None => false,
            Some(p) => {
                if p >= self.nodes.len() || !self.nodes[p].element {
                    return false;
                }
                match self.nodes[p].parent {
                    None => false,
                    Some(r) => r < self.nodes.len() && !self.nodes[r].element
                        && self.nodes[r].parent.is_none(),
                }
            },
        }
    }

    /// The first element named `tag` directly under node `parent`.
    pub fn first_child_named(&self, parent: usize, tag: &str) -> (r: Option<usize>)
        ensures
            match r {
                Some(j) => first_child_named(self@, parent as int, tag@) == Some(j as int) && j
                    < self@.len(),
                None => first_child_named(self@, parent as int, tag@) is None,
            },
    {
        let name = tag.to_owned();
        let mut j: usize = 0;
        while j < self.nodes.len()
            invariant
                j <= self.nodes.len(),
                name@ == tag@,
                first_child_upto(self@, parent as int, tag@, j as nat) is None,
            decreases self.nodes.len() - j,
        {
            if self.nodes[j].is_child_of(parent, &name) {
                proof {
                    lemma_first_child_stays(
                        self@,
                        parent as int,
                        tag@,
                        (j + 1) as nat,
                        self@.len(),
                    );
                }
                return Some(j);
            }
            j += 1;
        }
        None
    }

    /// The elements named `tag`, wherever they stand, in document order.
    pub fn descendants_named(&self, tag: &str) -> (found: Vec<usize>)
        ensures
            places(found@) == named_upto(self@, tag@, self@.len()),
    {
        let name = tag.to_owned();
        let mut found: Vec<usize> = Vec::new();
        let mut j: usize = 0;
        while j < self.nodes.len()
            invariant
                j <= self.nodes.len(),
                name@ == tag@,
                places(found@) == named_upto(self@, tag@, j as nat),
            decreases self.nodes.len() - j,
        {
            if self.nodes[j].has_tag(&name) {
                let ghost before = places(found@);
                found.push(j);
                assert(places(found@) =~= before.push(j as int));
            }
            j += 1;
        }
        found
    }

    /// The elements named `tag` directly under node `parent`, in document
    /// order.
    pub fn children_named(&self, parent: usize, tag: &str) -> (found: Vec<usize>)
        ensures
            places(found@) == children_upto(self@, parent as int, tag@, self@.len()),
    {
        let name = tag.to_owned();
        let mut found: Vec<usize> = Vec::new();
        let mut j: usize = 0;
        while j < self.nodes.len()
            invariant
                j <= self.nodes.len(),
                name@ == tag@,
                places(found@) == children_upto(self@, parent as int, tag@, j as nat),
            decreases self.nodes.len() - j,
        {
            if self.nodes[j].is_child_of(parent, &name) {
                let ghost before = places(found@);
                found.push(j);
                assert(places(found@) =~= before.push(j as int));
            }
            j += 1;
        }
        found
    }
}

} // verus!
