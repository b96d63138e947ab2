//! The tree walker: an in-place, depth-first, post-order traversal that
//! detaches every marked subtree. All descendants of a node are fully
//! processed before the node's own direct children are scanned for markers,
//! so nested extractions are resolved and replaced with placeholders before
//! an enclosing extraction is detached. Mutations of one child list are
//! applied highest index first, so no pending index is shifted.

use crate::node::{
    find_attribute, lemma_nodes_model, node_attr, node_model, nodes_model,
    create_node, ExtractionRecord, Node, NodeModel,
};
use vstd::prelude::*;

verus! {

/// The marker attribute whose value names a component, or reads `"not"` to
/// request deletion.
pub open spec fn extract_key() -> Seq<char> {
    "data-extract"@
}

/// The marker attribute that requests content-slot replacement.
pub open spec fn content_key() -> Seq<char> {
    "data-content"@
}

/// The reserved extraction name that requests deletion.
pub open spec fn not_name() -> Seq<char> {
    "not"@
}

/// The synthetic leaf standing where the children of a `data-content` node
/// were discarded; it carries no name.
pub open spec fn content_placeholder() -> NodeModel {
    NodeModel::Element {
        tag: "replace_content"@,
        attrs: Seq::<(Seq<char>, Seq<char>)>::empty(),
        children: Seq::<NodeModel>::empty(),
    }
}

/// The synthetic leaf standing where the component called `name` was
/// detached.
pub open spec fn embed_placeholder(name: Seq<char>) -> NodeModel {
    NodeModel::Element {
        tag: "replace_replacement-"@ + name,
        attrs: Seq::<(Seq<char>, Seq<char>)>::empty(),
        children: Seq::<NodeModel>::empty(),
    }
}

/// One record of the extraction side-table: component name and detached,
/// already-walked subtree.
pub open spec fn record_model(name: Seq<char>, node: NodeModel) -> (Seq<char>, NodeModel) {
    (name, node)
}

/// `n` after content-slot replacement: when `data-content` is present, the
/// whole child sequence is discarded and replaced by the single content
/// placeholder; otherwise `n` is unchanged.
pub open spec fn content_applied(n: NodeModel) -> NodeModel {
    if node_attr(n, content_key()) is Some {
        match n {
            NodeModel::Element { tag, attrs, children } => NodeModel::Element {
                tag,
                attrs,
                children: seq![content_placeholder()],
            },
            NodeModel::Text { .. } => n,
        }
    } else {
        n
    }
}

/// Marker application over already-walked children, from index `i` on:
/// `data-extract="not"` deletes the child, any other `data-extract` value
/// detaches it (after content-slot replacement) into a record and leaves an
/// embed placeholder, and `data-content` alone replaces its children with
/// the content placeholder. Records are listed highest child index first.
pub open spec fn apply_markers(ws: Seq<NodeModel>, i: int) -> (
    Seq<NodeModel>,
    Seq<(Seq<char>, NodeModel)>,
)
    decreases ws.len() - i,
{
    if i < 0 || i >= ws.len() {
        (Seq::<NodeModel>::empty(), Seq::<(Seq<char>, NodeModel)>::empty())
    } else {
        let rest = apply_markers(ws, i + 1);
        let w = ws[i];
        match node_attr(w, extract_key()) {
            Some(name) => if name == not_name() {
                rest
            } else {
                (
                    seq![embed_placeholder(name)] + rest.0,
                    rest.1 + seq![record_model(name, content_applied(w))],
                )
            },
            None => (seq![content_applied(w)] + rest.0, rest.1),
        }
    }
}

/// The recursive descent of the post-order walk: every child from index `i`
/// on, fully walked, together with the records extracted below them, in
/// child order.
pub open spec fn walk_children(cs: Seq<NodeModel>, i: int) -> (
    Seq<NodeModel>,
    Seq<(Seq<char>, NodeModel)>,
)
    decreases cs, 0int, cs.len() - i,
{
    if i < 0 || i >= cs.len() {
        (Seq::<NodeModel>::empty(), Seq::<(Seq<char>, NodeModel)>::empty())
    } else {
        let wr = walk_node(cs[i]);
        let rest = walk_children(cs, i + 1);
        (seq![wr.0] + rest.0, wr.1 + rest.1)
    }
}

/// The post-order walk of `n`: the tree after all mutations, and the
/// extraction records, deepest first and, within one child list, highest
/// index first. The markers of `n` itself are not scanned; only those of
/// its descendants.
pub open spec fn walk_node(n: NodeModel) -> (NodeModel, Seq<(Seq<char>, NodeModel)>)
    decreases n, 1int, 0int,
{
    match n {
        NodeModel::Text { .. } => (n, Seq::<(Seq<char>, NodeModel)>::empty()),
        NodeModel::Element { tag, attrs, children } => {
            let walked = walk_children(children, 0);
            let applied = apply_markers(walked.0, 0);
            (
                NodeModel::Element { tag, attrs, children: applied.0 },
                walked.1 + applied.1,
            )
        },
    }
}

/// `n` after content-slot replacement, executably.
fn apply_content(w: Node) -> (r: Node)
    ensures
        r@ == content_applied(w@),
{
    let has_content = find_attribute(&w, "data-content");
    match has_content {
        Some(_) => {
            match w {
                Node::Element { tag, attrs, children: _ } => {
                    let mut cs: Vec<Node> = Vec::new();
                    cs.push(create_node("replace_content".to_owned()));
                    let r = Node::Element { tag, attrs, children: cs };
                    proof {
                        lemma_nodes_model(cs@, 0);
                        assert(r@->children =~= seq![content_placeholder()]);
                    }
                    r
                },
                Node::Text { .. } => {
                    proof {
                        assert(w@.attrs_of() =~= Seq::<(Seq<char>, Seq<char>)>::empty());
                    }
                    w
                },
            }
        },
        None => w,
    }
}

/// Walks the tree rooted at `n` post-order, appends every extraction record
/// to `records` (deepest first; within one child list, highest index first)
/// and returns the mutated tree.
#[verifier::loop_isolation(false)]
pub fn walk(n: Node, records: &mut Vec<ExtractionRecord>) -> (r: Node)
    ensures
        r@ == walk_node(n@).0,
        final(records).deep_view() == old(records).deep_view() + walk_node(n@).1,
    decreases n,
{
    let ghost n0: Node = n;
    let ghost m: NodeModel = n@;
    let ghost recs0: Seq<(Seq<char>, NodeModel)> = records.deep_view();
    match n {
        Node::Text { text } => {
            let r = Node::Text { text };
            proof {
                assert(records.deep_view() =~= recs0 + walk_node(m).1);
            }
            r
        },
        Node::Element { tag, attrs, mut children } => {
            proof {
                assert(n0 is Element);
                assert(n0 == (Node::Element { tag, attrs, children }));
            }
            let ghost kids0: Seq<Node> = children@;
            let ghost cms: Seq<NodeModel> = nodes_model(kids0, 0);
            proof {
                lemma_nodes_model(kids0, 0);
                assert(m->children == cms);
                assert(children@ =~= kids0.skip(0));
            }
            let mut ws: Vec<Node> = Vec::new();
            let ghost mut idx: int = 0;
            proof {
                assert(ws.deep_view() + walk_children(cms, 0).0 =~= walk_children(cms, 0).0);
                assert(recs0 + walk_children(cms, 0).1 =~= records.deep_view() + walk_children(
                    cms,
                    0,
                ).1);
            }
            while children.len() > 0
                invariant
                    0 <= idx <= kids0.len(),
                    children@ == kids0.skip(idx),
                    cms == nodes_model(kids0, 0),
                    cms.len() == kids0.len(),
                    forall|q: int| 0 <= q < kids0.len() ==> cms[q] == node_model(kids0[q]),
                    walk_children(cms, 0).0 == ws.deep_view() + walk_children(cms, idx).0,
                    recs0 + walk_children(cms, 0).1 == records.deep_view() + walk_children(
                        cms,
                        idx,
                    ).1,
                decreases children@.len(),
            {
                let child = children.remove(0);
                proof {
                    assert(child == kids0[idx]);
                    assert(children@ =~= kids0.skip(idx + 1));
                    assert(decreases_to!(n0 => n0->children));
                    assert(decreases_to!(n0->children => n0->children@));
                    assert(n0->children@ == kids0);
                    assert(decreases_to!(kids0 => kids0[idx]));
                }
                let ghost ws_before: Seq<NodeModel> = ws.deep_view();
                let ghost recs_before: Seq<(Seq<char>, NodeModel)> = records.deep_view();
                let w = walk(child, records);
                ws.push(w);
                proof {
                    assert(ws.deep_view() =~= ws_before.push(w@));
                    assert(child@ == cms[idx]);
                    assert(walk_children(cms, idx).0 == seq![walk_node(cms[idx]).0]
                        + walk_children(cms, idx + 1).0);
                    assert(walk_children(cms, idx).1 == walk_node(cms[idx]).1 + walk_children(
                        cms,
                        idx + 1,
                    ).1);
                    assert(walk_children(cms, 0).0 =~= ws.deep_view() + walk_children(
                        cms,
                        idx + 1,
                    ).0);
                    assert(recs0 + walk_children(cms, 0).1 =~= records.deep_view()
                        + walk_children(cms, idx + 1).1);
                    idx = idx + 1;
                }
            }
            proof {
                assert(walk_children(cms, idx).0 =~= Seq::<NodeModel>::empty());
                assert(walk_children(cms, idx).1 =~= Seq::<(Seq<char>, NodeModel)>::empty());
                assert(ws.deep_view() =~= walk_children(cms, 0).0);
                assert(records.deep_view() =~= recs0 + walk_children(cms, 0).1);
            }
            let ghost wsm: Seq<NodeModel> = ws.deep_view();
            let ghost recs_mid: Seq<(Seq<char>, NodeModel)> = records.deep_view();
            let mut out_children: Vec<Node> = Vec::new();
            proof {
                assert(out_children.deep_view() =~= apply_markers(wsm, wsm.len() as int).0);
                assert(records.deep_view() =~= recs_mid + apply_markers(
                    wsm,
                    wsm.len() as int,
                ).1);
            }
            while ws.len() > 0
                invariant
                    ws@.len() <= wsm.len(),
                    ws.deep_view() == wsm.subrange(0, ws@.len() as int),
                    out_children.deep_view() == apply_markers(wsm, ws@.len() as int).0,
                    records.deep_view() == recs_mid + apply_markers(wsm, ws@.len() as int).1,
                decreases ws@.len(),
            {
                let ghost out_before: Seq<NodeModel> = out_children.deep_view();
                let ghost recs_before: Seq<(Seq<char>, NodeModel)> = records.deep_view();
                let ghost wsv: Seq<Node> = ws@;
                let ghost wsd: Seq<NodeModel> = ws.deep_view();
                let w = ws.pop().unwrap();
                let ghost i: int = ws@.len() as int;
                proof {
                    assert(w == wsv[i]);
                    assert(wsd[i] == wsv[i].deep_view());
                    assert(wsd[i] == wsm[i]);
                    assert(w@ == wsm[i]);
                    assert(ws.deep_view() =~= wsm.subrange(0, i));
                }
                let marker = find_attribute(&w, "data-extract");
                match marker {
                    Some(name) => {
                        if crate::text::str_eq(name.as_str(), "not") {
                            proof {
                                assert(node_attr(wsm[i], extract_key()) == Some(name@));
                                assert(name@ == not_name());
                            }
                        } else {
                            let mut tagname: String = "replace_replacement-".to_owned();
                            tagname.append(name.as_str());
                            let ph = create_node(tagname);
                            out_children.insert(0, ph);
                            let wc = apply_content(w);
                            records.push(ExtractionRecord { name, node: wc });
                            proof {
                                assert(node_attr(wsm[i], extract_key()) is Some);
                                assert(out_children.deep_view() =~= seq![
                                    embed_placeholder(node_attr(wsm[i], extract_key())->0),
                                ] + out_before);
                                assert(records.deep_view() =~= recs_before + seq![
                                    record_model(
                                        node_attr(wsm[i], extract_key())->0,
                                        content_applied(wsm[i]),
                                    ),
                                ]);
                                assert(records.deep_view() =~= recs_mid + apply_markers(
                                    wsm,
                                    i,
                                ).1);
                            }
                        }
                    },
                    None => {
                        let wc = apply_content(w);
                        out_children.insert(0, wc);
                        proof {
                            assert(out_children.deep_view() =~= seq![content_applied(wsm[i])]
                                + out_before);
                        }
                    },
                }
            }
            proof {
                assert(ws.deep_view() =~= wsm.subrange(0, 0));
            }
            let r = Node::Element { tag, attrs, children: out_children };
            proof {
                lemma_nodes_model(out_children@, 0);
                assert(r@->children =~= out_children.deep_view());
                assert(r@->children == walk_node(m).0->children);
                assert(r@ == walk_node(m).0);
                assert(records.deep_view() =~= recs0 + walk_node(m).1);
            }
            r
        },
    }
}

} // verus!
