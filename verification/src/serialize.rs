//! Serialization of a subtree back to markup text. An extracted node becomes
//! the top-level element of its own output file, so serialization here is
//! root-inclusive; a childless element is written self-closing, which is the
//! shape the placeholder leaves take in serialized text. Text payloads and
//! attribute values are entity-escaped, so the emitted markup stays well
//! formed whatever the document held.

use crate::node::{lemma_nodes_model, node_model, nodes_model, Node, NodeModel};
use vstd::prelude::*;

verus! {

/// The entity expansion of one character of a text payload: `&`, `<` and
/// `>` become entities, every other character stands as itself.
pub open spec fn text_escape(c: char) -> Seq<char> {
    if c == '&' {
        "&amp;"@
    } else if c == '<' {
        "&lt;"@
    } else if c == '>' {
        "&gt;"@
    } else {
        seq![c]
    }
}

/// A text payload with `&`, `<` and `>` written as entities.
pub open spec fn escaped_text(s: Seq<char>) -> Seq<char>
    decreases s.len(),
{
    if s.len() == 0 {
        Seq::<char>::empty()
    } else {
        text_escape(s[0]) + escaped_text(s.skip(1))
    }
}

/// The entity expansion of one character of an attribute value: `&` and the
/// double quote become entities, every other character stands as itself.
pub open spec fn attr_escape(c: char) -> Seq<char> {
    if c == '&' {
        "&amp;"@
    } else if c == '"' {
        "&quot;"@
    } else {
        seq![c]
    }
}

/// An attribute value with `&` and the double quote written as entities, so
/// the `name="value"` shape survives any value.
pub open spec fn escaped_attr(s: Seq<char>) -> Seq<char>
    decreases s.len(),
{
    if s.len() == 0 {
        Seq::<char>::empty()
    } else {
        attr_escape(s[0]) + escaped_attr(s.skip(1))
    }
}

/// Escapes a text payload for serialization.
fn escape_text(s: &str) -> (r: String)
    ensures
        r@ == escaped_text(s@),
{
    let slen: usize = s.unicode_len();
    let mut out = String::new();
    let mut i: usize = 0;
    let mut seg: usize = 0;
    proof {
        assert(s@.skip(0) =~= s@);
        assert(out@ + s@.subrange(0, 0) + escaped_text(s@) =~= escaped_text(s@));
    }
    while i < slen
        invariant
            seg <= i <= slen,
            slen == s@.len(),
            escaped_text(s@) == out@ + s@.subrange(seg as int, i as int) + escaped_text(
                s@.skip(i as int),
            ),
        decreases slen - i,
    {
        let c = s.get_char(i);
        proof {
            assert(s@.skip(i as int)[0] == s@[i as int]);
            assert(s@.skip(i as int).skip(1) =~= s@.skip(i + 1));
        }
        if c == '&' || c == '<' || c == '>' {
            out.append(s.substring_char(seg, i));
            if c == '&' {
                out.append("&amp;");
            } else if c == '<' {
                out.append("&lt;");
            } else {
                out.append("&gt;");
            }
            proof {
                assert(s@.subrange((i + 1) as int, (i + 1) as int) =~= Seq::<char>::empty());
            }
            i += 1;
            seg = i;
        } else {
            proof {
                assert(s@.subrange(seg as int, i + 1) =~= s@.subrange(seg as int, i as int)
                    + seq![s@[i as int]]);
            }
            i += 1;
        }
    }
    out.append(s.substring_char(seg, slen));
    proof {
        assert(s@.skip(slen as int) =~= Seq::<char>::empty());
        assert(out@ =~= escaped_text(s@));
    }
    out
}

/// Escapes an attribute value for serialization.
fn escape_attr(s: &str) -> (r: String)
    ensures
        r@ == escaped_attr(s@),
{
    let slen: usize = s.unicode_len();
    let mut out = String::new();
    let mut i: usize = 0;
    let mut seg: usize = 0;
    proof {
        assert(s@.skip(0) =~= s@);
        assert(out@ + s@.subrange(0, 0) + escaped_attr(s@) =~= escaped_attr(s@));
    }
    while i < slen
        invariant
            seg <= i <= slen,
            slen == s@.len(),
            escaped_attr(s@) == out@ + s@.subrange(seg as int, i as int) + escaped_attr(
                s@.skip(i as int),
            ),
        decreases slen - i,
    {
        let c = s.get_char(i);
        proof {
            assert(s@.skip(i as int)[0] == s@[i as int]);
            assert(s@.skip(i as int).skip(1) =~= s@.skip(i + 1));
        }
        if c == '&' || c == '"' {
            out.append(s.substring_char(seg, i));
            if c == '&' {
                out.append("&amp;");
            } else {
                out.append("&quot;");
            }
            proof {
                assert(s@.subrange((i + 1) as int, (i + 1) as int) =~= Seq::<char>::empty());
            }
            i += 1;
            seg = i;
        } else {
            proof {
                assert(s@.subrange(seg as int, i + 1) =~= s@.subrange(seg as int, i as int)
                    + seq![s@[i as int]]);
            }
            i += 1;
        }
    }
    out.append(s.substring_char(seg, slen));
    proof {
        assert(s@.skip(slen as int) =~= Seq::<char>::empty());
        assert(out@ =~= escaped_attr(s@));
    }
    out
}

/// The serialized attribute list from index `i` on: ` name="value"` for each
/// attribute, in order.
pub open spec fn serialized_attrs(attrs: Seq<(Seq<char>, Seq<char>)>, i: int) -> Seq<char>
    decreases attrs.len() - i,
{
    if i < 0 || i >= attrs.len() {
        Seq::<char>::empty()
    } else {
        " "@ + attrs[i].0 + "=\""@ + escaped_attr(attrs[i].1) + "\""@ + serialized_attrs(
            attrs,
            i + 1,
        )
    }
}

/// The serialized text of node `n`, root tag included: text nodes yield
/// their entity-escaped payload, childless elements `<tag attrs/>`, and
/// elements with children `<tag attrs>children</tag>`.
pub open spec fn serialized(n: NodeModel) -> Seq<char>
    decreases n, 1int, 0int,
{
    match n {
        NodeModel::Text { text } => escaped_text(text),
        NodeModel::Element { tag, attrs, children } => if children.len() == 0 {
            "<"@ + tag + serialized_attrs(attrs, 0) + "/>"@
        } else {
            "<"@ + tag + serialized_attrs(attrs, 0) + ">"@ + serialized_children(children, 0)
                + "</"@ + tag + ">"@
        },
    }
}

/// The concatenated serialized text of the nodes of `cs` from index `i` on.
pub open spec fn serialized_children(cs: Seq<NodeModel>, i: int) -> Seq<char>
    decreases cs, 0int, cs.len() - i,
{
    if i < 0 || i >= cs.len() {
        Seq::<char>::empty()
    } else {
        serialized(cs[i]) + serialized_children(cs, i + 1)
    }
}

/// Serializes `node` to markup text: the whole subtree including its own
/// root tag when `root` is set, only its children otherwise.
#[verifier::loop_isolation(false)]
pub fn serialize_html(node: &Node, root: bool) -> (r: String)
    ensures
        r@ == if root {
            serialized(node@)
        } else {
            serialized_children(node@.children_of(), 0)
        },
    decreases node,
{
    let mut out = String::new();
    match node {
        Node::Text { text } => {
            if root {
                let escaped = escape_text(text.as_str());
                out.append(escaped.as_str());
            }
            proof {
                if !root {
                    assert(node@.children_of() =~= Seq::<NodeModel>::empty());
                    assert(out@ =~= serialized_children(node@.children_of(), 0));
                }
            }
            out
        },
        Node::Element { tag, attrs, children } => {
            let ghost m: NodeModel = node@;
            let ghost am: Seq<(Seq<char>, Seq<char>)> = m->attrs;
            let ghost cm: Seq<NodeModel> = m->children;
            proof {
                lemma_nodes_model(children@, 0);
                assert(cm == nodes_model(children@, 0));
            }
            if root {
                out.append("<");
                out.append(tag.as_str());
                let mut k: usize = 0;
                proof {
                    assert(out@ + serialized_attrs(am, 0) =~= "<"@ + tag@ + serialized_attrs(
                        am,
                        0,
                    ));
                }
                while k < attrs.len()
                    invariant
                        k <= attrs.len(),
                        out@ + serialized_attrs(am, k as int) == "<"@ + tag@
                            + serialized_attrs(am, 0),
                    decreases attrs.len() - k,
                {
                    out.append(" ");
                    out.append(attrs[k].0.as_str());
                    out.append("=\"");
                    let escaped = escape_attr(attrs[k].1.as_str());
                    out.append(escaped.as_str());
                    out.append("\"");
                    proof {
                        assert(am[k as int] == (attrs@[k as int].0@, attrs@[k as int].1@));
                    }
                    k += 1;
                }
                proof {
                    assert(serialized_attrs(am, attrs@.len() as int) =~= Seq::<char>::empty());
                    assert(out@ =~= "<"@ + tag@ + serialized_attrs(am, 0));
                }
            }
            if children.len() == 0 {
                if root {
                    out.append("/>");
                }
                proof {
                    assert(cm.len() == 0);
                    if !root {
                        assert(out@ =~= serialized_children(cm, 0));
                    }
                }
            } else {
                if root {
                    out.append(">");
                }
                let ghost head: Seq<char> = out@;
                let mut k: usize = 0;
                proof {
                    assert(out@ + serialized_children(cm, 0) =~= head + serialized_children(
                        cm,
                        0,
                    ));
                }
                while k < children.len()
                    invariant
                        k <= children.len(),
                        out@ + serialized_children(cm, k as int) == head + serialized_children(
                            cm,
                            0,
                        ),
                    decreases children.len() - k,
                {
                    proof {
                        assert(decreases_to!(node => node->children));
                        assert(decreases_to!(node->children => node->children@));
                        assert(decreases_to!(node->children@ => node->children@[k as int]));
                        assert(cm[k as int] == node_model(children@[k as int]));
                    }
                    let piece = serialize_html(&children[k], true);
                    out.append(piece.as_str());
                    k += 1;
                }
                if root {
                    out.append("</");
                    out.append(tag.as_str());
                    out.append(">");
                }
                proof {
                    assert(serialized_children(cm, children@.len() as int) =~= Seq::<
                        char,
                    >::empty());
                    assert(head + serialized_children(cm, 0) =~= head + serialized_children(
                        cm,
                        0,
                    ) + Seq::<char>::empty());
                    if root {
                        assert(out@ =~= "<"@ + tag@ + serialized_attrs(am, 0) + ">"@
                            + serialized_children(cm, 0) + "</"@ + tag@ + ">"@);
                    } else {
                        assert(out@ =~= serialized_children(cm, 0));
                    }
                }
            }
            out
        },
    }
}

} // verus!
