//! The markup tree: an owned node type, its mathematical model, and
//! attribute lookup.

use vstd::prelude::*;

verus! {

/// Mathematical model of a markup node: an element with a tag, an ordered
/// attribute list and an ordered child sequence, or a raw text payload.
pub enum NodeModel {
    Element { tag: Seq<char>, attrs: Seq<(Seq<char>, Seq<char>)>, children: Seq<NodeModel> },
    Text { text: Seq<char> },
}

/// A markup node. Ownership is strictly hierarchical: each node exclusively
/// owns its children; there are no back-references and no sharing.
pub enum Node {
    Element { tag: String, attrs: Vec<(String, String)>, children: Vec<Node> },
    Text { text: String },
}

/// The model of a node: tags, attribute names, attribute values and text
/// payloads become character sequences, child vectors become sequences of
/// models.
pub open spec fn node_model(n: Node) -> NodeModel
    decreases n, 1int, 0int,
        via node_model_decreases
{
    match n {
        Node::Element { tag, attrs, children } => NodeModel::Element {
            tag: tag@,
            attrs: Seq::new(attrs@.len(), |i: int| (attrs@[i].0@, attrs@[i].1@)),
            children: nodes_model(children@, 0),
        },
        Node::Text { text } => NodeModel::Text { text: text@ },
    }
}

/// Models of the nodes of `ns` from index `i` on.
pub open spec fn nodes_model(ns: Seq<Node>, i: int) -> Seq<NodeModel>
    decreases ns, 0int, ns.len() - i,
{
    if i < 0 || i >= ns.len() {
        Seq::empty()
    } else {
        seq![node_model(ns[i])] + nodes_model(ns, i + 1)
    }
}

#[via_fn]
proof fn node_model_decreases(n: Node) {
    if n is Element {
        assert(decreases_to!(n => n->children));
        assert(decreases_to!(n->children => n->children@));
    }
}

/// `nodes_model(ns, i)` lists the model of every node of `ns` from `i` on.
pub proof fn lemma_nodes_model(ns: Seq<Node>, i: int)
    requires
        0 <= i <= ns.len(),
    ensures
        nodes_model(ns, i).len() == ns.len() - i,
        forall|q: int| 0 <= q < ns.len() - i ==> nodes_model(ns, i)[q] == node_model(
            ns[i + q],
        ),
    decreases ns.len() - i,
{
    if i < ns.len() {
        lemma_nodes_model(ns, i + 1);
    }
}

impl View for Node {
    type V = NodeModel;

    open spec fn view(&self) -> NodeModel {
        node_model(*self)
    }
}

impl DeepView for Node {
    type V = NodeModel;

    open spec fn deep_view(&self) -> NodeModel {
        self.view()
    }
}

impl NodeModel {
    /// The attribute list; text nodes have none.
    pub open spec fn attrs_of(self) -> Seq<(Seq<char>, Seq<char>)> {
        match self {
            NodeModel::Element { attrs, .. } => attrs,
            NodeModel::Text { .. } => Seq::empty(),
        }
    }

    /// The child sequence; text nodes have none.
    pub open spec fn children_of(self) -> Seq<NodeModel> {
        match self {
            NodeModel::Element { children, .. } => children,
            NodeModel::Text { .. } => Seq::empty(),
        }
    }
}

/// First value bound to `name` in an ordered attribute list.
pub open spec fn attr_lookup(
    attrs: Seq<(Seq<char>, Seq<char>)>,
    name: Seq<char>,
) -> Option<Seq<char>>
    decreases attrs.len(),
{
    if attrs.len() == 0 {
        None
    } else if attrs[0].0 == name {
        Some(attrs[0].1)
    } else {
        attr_lookup(attrs.skip(1), name)
    }
}

/// The value of the attribute called `name` on node `n`, if any.
pub open spec fn node_attr(n: NodeModel, name: Seq<char>) -> Option<Seq<char>> {
    attr_lookup(n.attrs_of(), name)
}

/// One extracted component: the component name and the detached subtree.
pub struct ExtractionRecord {
    pub name: String,
    pub node: Node,
}

impl View for ExtractionRecord {
    type V = (Seq<char>, NodeModel);

    open spec fn view(&self) -> (Seq<char>, NodeModel) {
        (self.name@, self.node@)
    }
}

impl DeepView for ExtractionRecord {
    type V = (Seq<char>, NodeModel);

    open spec fn deep_view(&self) -> (Seq<char>, NodeModel) {
        self.view()
    }
}

/// The value of the first attribute called `attribute` on `node`.
pub fn find_attribute(node: &Node, attribute: &str) -> (r: Option<String>)
    ensures
        match r {
            Some(v) => node_attr(node@, attribute@) == Some(v@),
            None => node_attr(node@, attribute@) is None,
        },
{
    match node {
        Node::Element { attrs, .. } => {
            let ghost model_attrs = node@.attrs_of();
            let mut k: usize = 0;
            proof {
                assert(model_attrs.skip(0) =~= model_attrs);
            }
            while k < attrs.len()
                invariant
                    k <= attrs.len(),
                    model_attrs == node@.attrs_of(),
                    model_attrs.len() == attrs@.len(),
                    forall|q: int| 0 <= q < model_attrs.len() ==> model_attrs[q] == (
                        attrs@[q].0@,
                        attrs@[q].1@,
                    ),
                    attr_lookup(model_attrs, attribute@) == attr_lookup(
                        model_attrs.skip(k as int),
                        attribute@,
                    ),
                decreases attrs.len() - k,
            {
                proof {
                    assert(model_attrs.skip(k as int)[0] == model_attrs[k as int]);
                }
                if crate::text::str_eq(attrs[k].0.as_str(), attribute) {
                    return Some(attrs[k].1.clone());
                }
                proof {
                    assert(model_attrs.skip(k as int).skip(1) =~= model_attrs.skip(k + 1));
                }
                k += 1;
            }
            None
        },
        Node::Text { .. } => None,
    }
}

/// A synthetic placeholder leaf element with the given tag, no attributes
/// and no children.
pub fn create_node(name: String) -> (r: Node)
    ensures
        r@ == (NodeModel::Element {
            tag: name@,
            attrs: Seq::<(Seq<char>, Seq<char>)>::empty(),
            children: Seq::<NodeModel>::empty(),
        }),
{
    let r = Node::Element { tag: name, attrs: Vec::new(), children: Vec::new() };
    proof {
        assert(r@ is Element);
        assert(r@->attrs =~= Seq::<(Seq<char>, Seq<char>)>::empty());
        assert(r@->children =~= Seq::<NodeModel>::empty());
    }
    r
}

} // verus!
