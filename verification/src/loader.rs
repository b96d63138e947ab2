//! Entry normalization: a fixed, position-based descent from the document
//! root to the working subtree. The addressing is positional, not name- or
//! attribute-based: the two known non-content artifact nodes sit at child
//! indices 1 and 2 of the root, the working subtree is child 2 of the
//! element following them (child 3 of the root). Any structural change to
//! the input document at those positions breaks extraction; that is a
//! documented limitation of the design.

use crate::node::{lemma_nodes_model, Node, NodeModel};
use crate::ExtractError;
use vstd::prelude::*;

verus! {

/// Whether the document tree has the fixed structural positions the entry
/// normalization descends through.
pub open spec fn has_expected_structure(root: NodeModel) -> bool {
    root.children_of().len() >= 4 && root.children_of()[3].children_of().len() >= 3
}

/// The working subtree of a well-formed document: child 2 of root child 3,
/// the positions left after skipping the two artifact nodes.
pub open spec fn working_subtree(root: NodeModel) -> NodeModel {
    root.children_of()[3].children_of()[2]
}

/// Descends to the working subtree, failing with a structure error when the
/// expected fixed positions are absent.
pub fn normalize(root: Node) -> (r: Result<Node, ExtractError>)
    ensures
        match r {
            Ok(sub) => has_expected_structure(root@) && sub@ == working_subtree(root@),
            Err(e) => e == ExtractError::Structure && !has_expected_structure(root@),
        },
{
    let ghost m: NodeModel = root@;
    match root {
        Node::Element { tag: _, attrs: _, mut children } => {
            proof {
                lemma_nodes_model(children@, 0);
            }
            if children.len() < 4 {
                return Err(ExtractError::Structure);
            }
            let target = children.remove(3);
            proof {
                assert(target@ == m.children_of()[3]);
            }
            match target {
                Node::Element { tag: _, attrs: _, mut children } => {
                    proof {
                        lemma_nodes_model(children@, 0);
                    }
                    if children.len() < 3 {
                        return Err(ExtractError::Structure);
                    }
                    let sub = children.remove(2);
                    proof {
                        assert(sub@ == working_subtree(m));
                    }
                    Ok(sub)
                },
                Node::Text { .. } => {
                    proof {
                        assert(m.children_of()[3].children_of() =~= Seq::<NodeModel>::empty());
                    }
                    Err(ExtractError::Structure)
                },
            }
        },
        Node::Text { .. } => {
            proof {
                assert(m.children_of() =~= Seq::<NodeModel>::empty());
            }
            Err(ExtractError::Structure)
        },
    }
}

} // verus!
