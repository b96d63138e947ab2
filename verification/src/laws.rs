//! The library's laws: proof functions relating the walker, the serializer
//! and the substitution engine.

use crate::engine::{
    attr_close, attr_open, content_token, embed_close, embed_open, spec_substitute,
    Replacements,
};
use crate::node::{node_attr, NodeModel};
use crate::serialize::{serialized, serialized_attrs};
use crate::text::{
    contains_pat, first_occurrence, instantiate, lemma_occurs_shift, occurs_at, replace_all,
    rewrite_tokens, token_at_start,
};
use crate::walker::{
    apply_markers, content_applied, content_key, content_placeholder, embed_placeholder,
    extract_key, not_name, walk_children, walk_node,
};
use vstd::prelude::*;

verus! {

/// `first_occurrence` is pinned down by an occurrence with none before it.
pub proof fn lemma_first_occurrence_is(t: Seq<char>, p: Seq<char>, from: nat, j: int)
    requires
        p.len() > 0,
        from <= j,
        occurs_at(t, p, j),
        forall|k: int| from <= k < j ==> !occurs_at(t, p, k),
    ensures
        first_occurrence(t, p, from) == Some(j),
    decreases j - from,
{
    if from == j {
    } else {
        lemma_first_occurrence_is(t, p, from + 1, j);
    }
}

/// Text in which the pattern does not occur is left unchanged by global
/// literal replacement.
pub proof fn lemma_replace_all_absent(t: Seq<char>, pat: Seq<char>, rep: Seq<char>)
    requires
        pat.len() > 0,
        !contains_pat(t, pat),
    ensures
        replace_all(t, pat, rep) == t,
    decreases t.len(),
{
    if t.len() == 0 {
    } else {
        assert(!occurs_at(t, pat, 0));
        assert forall|i: int| !occurs_at(t.skip(1), pat, i) by {
            if 0 <= i {
                lemma_occurs_shift(t, pat, 1, i);
            }
        }
        lemma_replace_all_absent(t.skip(1), pat, rep);
        assert(seq![t[0]] + t.skip(1) =~= t);
    }
}

/// Text in which the opening delimiter does not occur is left unchanged by
/// token rewriting.
pub proof fn lemma_rewrite_tokens_absent(
    t: Seq<char>,
    open_d: Seq<char>,
    close_d: Seq<char>,
    tmpl: Seq<char>,
)
    requires
        open_d.len() > 0,
        !contains_pat(t, open_d),
    ensures
        rewrite_tokens(t, open_d, close_d, tmpl) == t,
    decreases t.len(),
{
    if t.len() == 0 {
    } else {
        assert(!occurs_at(t, open_d, 0));
        assert forall|i: int| !occurs_at(t.skip(1), open_d, i) by {
            if 0 <= i {
                lemma_occurs_shift(t, open_d, 1, i);
            }
        }
        lemma_rewrite_tokens_absent(t.skip(1), open_d, close_d, tmpl);
        assert(seq![t[0]] + t.skip(1) =~= t);
    }
}

/// A prefix free of the opening delimiter passes through token rewriting
/// unchanged.
pub proof fn lemma_rewrite_tokens_skip_prefix(
    t: Seq<char>,
    open_d: Seq<char>,
    close_d: Seq<char>,
    tmpl: Seq<char>,
    k: int,
)
    requires
        open_d.len() > 0,
        close_d.len() > 0,
        0 <= k <= t.len(),
        forall|p: int| 0 <= p < k ==> !occurs_at(t, open_d, p),
    ensures
        rewrite_tokens(t, open_d, close_d, tmpl) == t.subrange(0, k) + rewrite_tokens(
            t.skip(k),
            open_d,
            close_d,
            tmpl,
        ),
    decreases k,
{
    if k == 0 {
        assert(t.skip(0) =~= t);
        assert(t.subrange(0, 0) + rewrite_tokens(t, open_d, close_d, tmpl) =~= rewrite_tokens(
            t,
            open_d,
            close_d,
            tmpl,
        ));
    } else {
        assert(!occurs_at(t, open_d, 0));
        assert(t.len() > 0);
        assert(!token_at_start(t, open_d, close_d));
        assert forall|p: int| 0 <= p < k - 1 implies !occurs_at(t.skip(1), open_d, p) by {
            lemma_occurs_shift(t, open_d, 1, p);
        }
        lemma_rewrite_tokens_skip_prefix(t.skip(1), open_d, close_d, tmpl, k - 1);
        assert(t.skip(1).skip(k - 1) =~= t.skip(k));
        assert(seq![t[0]] + (t.skip(1).subrange(0, k - 1) + rewrite_tokens(
            t.skip(k),
            open_d,
            close_d,
            tmpl,
        )) =~= t.subrange(0, k) + rewrite_tokens(t.skip(k), open_d, close_d, tmpl));
    }
}

/// A prefix free of the pattern passes through literal replacement
/// unchanged.
pub proof fn lemma_replace_all_skip_prefix(
    t: Seq<char>,
    pat: Seq<char>,
    rep: Seq<char>,
    k: int,
)
    requires
        pat.len() > 0,
        0 <= k <= t.len(),
        forall|p: int| 0 <= p < k ==> !occurs_at(t, pat, p),
    ensures
        replace_all(t, pat, rep) == t.subrange(0, k) + replace_all(t.skip(k), pat, rep),
    decreases k,
{
    if k == 0 {
        assert(t.skip(0) =~= t);
        assert(t.subrange(0, 0) + replace_all(t, pat, rep) =~= replace_all(t, pat, rep));
    } else {
        assert(!occurs_at(t, pat, 0));
        assert forall|p: int| 0 <= p < k - 1 implies !occurs_at(t.skip(1), pat, p) by {
            lemma_occurs_shift(t, pat, 1, p);
        }
        lemma_replace_all_skip_prefix(t.skip(1), pat, rep, k - 1);
        assert(t.skip(1).skip(k - 1) =~= t.skip(k));
        assert(seq![t[0]] + (t.skip(1).subrange(0, k - 1) + replace_all(
            t.skip(k),
            pat,
            rep,
        )) =~= t.subrange(0, k) + replace_all(t.skip(k), pat, rep));
    }
}

/// A single occurrence of the pattern, and no other, is replaced exactly
/// once: `a + pat + b` becomes `a + rep + b`, the surrounding text
/// untouched.
pub proof fn lemma_replace_all_single(
    a: Seq<char>,
    pat: Seq<char>,
    rep: Seq<char>,
    b: Seq<char>,
)
    requires
        pat.len() > 0,
        forall|p: int| p != a.len() ==> !occurs_at(a + pat + b, pat, p),
    ensures
        replace_all(a + pat + b, pat, rep) == a + rep + b,
{
    let t = a + pat + b;
    lemma_replace_all_skip_prefix(t, pat, rep, a.len() as int);
    assert(t.subrange(0, a.len() as int) =~= a);
    let s = t.skip(a.len() as int);
    assert(s =~= pat + b);
    assert(s.subrange(0, pat.len() as int) =~= pat);
    assert(occurs_at(s, pat, 0));
    assert(s.len() > 0);
    assert(replace_all(s, pat, rep) == rep + replace_all(s.skip(pat.len() as int), pat, rep));
    assert(s.skip(pat.len() as int) =~= b);
    assert forall|i: int| !occurs_at(b, pat, i) by {
        if 0 <= i {
            lemma_occurs_shift(t, pat, (a.len() + pat.len()) as int, i);
            assert(t.skip((a.len() + pat.len()) as int) =~= b);
        }
    }
    lemma_replace_all_absent(b, pat, rep);
    assert(a + (rep + b) =~= a + rep + b);
}

/// A single placeholder token, and no other opening delimiter, is rewritten
/// exactly once: `a + open + name + close + b` becomes
/// `a + instantiate(tmpl, name) + b`, the surrounding text untouched.
pub proof fn lemma_rewrite_tokens_single(
    a: Seq<char>,
    name: Seq<char>,
    b: Seq<char>,
    open_d: Seq<char>,
    close_d: Seq<char>,
    tmpl: Seq<char>,
)
    requires
        open_d.len() > 0,
        close_d.len() > 0,
        name.len() >= 1,
        forall|p: int| p != a.len() ==> !occurs_at(
            a + open_d + name + close_d + b,
            open_d,
            p,
        ),
        forall|q: int|
            a.len() + open_d.len() + 1 <= q < a.len() + open_d.len() + name.len()
                ==> !occurs_at(a + open_d + name + close_d + b, close_d, q),
    ensures
        rewrite_tokens(a + open_d + name + close_d + b, open_d, close_d, tmpl) == a
            + instantiate(tmpl, name) + b,
{
    let t = a + open_d + name + close_d + b;
    lemma_rewrite_tokens_skip_prefix(t, open_d, close_d, tmpl, a.len() as int);
    assert(t.subrange(0, a.len() as int) =~= a);
    let s = t.skip(a.len() as int);
    assert(s =~= open_d + name + close_d + b);
    assert(s.subrange(0, open_d.len() as int) =~= open_d);
    assert(occurs_at(s, open_d, 0));
    let j: int = (open_d.len() + name.len()) as int;
    assert(s.subrange(j, j + close_d.len() as int) =~= close_d);
    assert(occurs_at(s, close_d, j));
    assert forall|k: int| open_d.len() + 1 <= k < j implies !occurs_at(s, close_d, k) by {
        lemma_occurs_shift(t, close_d, a.len() as int, k);
    }
    lemma_first_occurrence_is(s, close_d, (open_d.len() + 1) as nat, j);
    assert(token_at_start(s, open_d, close_d));
    assert(s.len() > 0);
    assert(s.subrange(open_d.len() as int, j) =~= name);
    assert(rewrite_tokens(s, open_d, close_d, tmpl) == instantiate(tmpl, name)
        + rewrite_tokens(s.skip(j + close_d.len() as int), open_d, close_d, tmpl));
    assert(s.skip(j + close_d.len() as int) =~= b);
    assert forall|i: int| !occurs_at(b, open_d, i) by {
        if 0 <= i {
            lemma_occurs_shift(t, open_d, a.len() + j + close_d.len() as int, i);
            assert(t.skip(a.len() + j + close_d.len() as int) =~= b);
        }
    }
    lemma_rewrite_tokens_absent(b, open_d, close_d, tmpl);
    assert(a + (instantiate(tmpl, name) + b) =~= a + instantiate(tmpl, name) + b);
}

/// A component or attribute name free of markup delimiter characters.
pub open spec fn plain_name(name: Seq<char>) -> bool {
    forall|k: int| 0 <= k < name.len() ==> name[k] != '<' && name[k] != '/' && name[k]
        != '>' && name[k] != '"'
}

/// The walker's content placeholder serializes to the self-closing element
/// `<replace_content/>`; the syntax converter reformats self-closing tags
/// with a space before the `/>`, which yields exactly the content-slot
/// token the substitution engine replaces. A `data-content` node's
/// discarded children leave nothing behind but that element.
pub proof fn lemma_content_placeholder_serialized()
    ensures
        serialized(content_placeholder()) == "<replace_content"@ + "/>"@,
        content_token() == "<replace_content"@ + " />"@,
{
    reveal_strlit("<");
    reveal_strlit("replace_content");
    reveal_strlit("/>");
    reveal_strlit("<replace_content");
    reveal_strlit(" />");
    reveal_strlit("<replace_content />");
    let m = content_placeholder();
    assert(serialized_attrs(m->attrs, 0) =~= Seq::<char>::empty());
    assert(serialized(m) =~= "<replace_content"@ + "/>"@);
    assert(content_token() =~= "<replace_content"@ + " />"@);
}

/// Character facts about the embed-reference delimiters: the opening
/// delimiter starts with its only `<`, the closing delimiter starts with
/// `/`.
pub proof fn lemma_embed_delimiter_chars()
    ensures
        embed_open().len() == 21,
        embed_open()[0] == '<',
        forall|k: int| 1 <= k < embed_open().len() ==> embed_open()[k] != '<',
        embed_close().len() == 2,
        embed_close()[0] == '/',
        embed_close()[1] == '>',
{
    reveal_strlit("<replace_replacement-");
    reveal_strlit("/>");
}

/// The embed placeholder left where component `name` was detached
/// serializes to exactly one embed-reference token.
pub proof fn lemma_embed_placeholder_serialized(name: Seq<char>)
    ensures
        serialized(embed_placeholder(name)) == embed_open() + name + embed_close(),
{
    reveal_strlit("<");
    reveal_strlit("replace_replacement-");
    reveal_strlit("/>");
    reveal_strlit("<replace_replacement-");
    let m = embed_placeholder(name);
    assert(serialized_attrs(m->attrs, 0) =~= Seq::<char>::empty());
    assert(serialized(m) =~= embed_open() + name + embed_close());
}

/// The engine's first pass rewrites the serialized embed placeholder for
/// `name` to `tmpl` instantiated with `name`: a nested extraction appears
/// in its enclosing component only as the instantiated `replacement`
/// fragment, never as raw markup.
pub proof fn lemma_embed_placeholder_round_trip(name: Seq<char>, tmpl: Seq<char>)
    requires
        name.len() >= 1,
        plain_name(name),
    ensures
        rewrite_tokens(serialized(embed_placeholder(name)), embed_open(), embed_close(), tmpl)
            == instantiate(tmpl, name),
{
    lemma_embed_placeholder_serialized(name);
    lemma_embed_delimiter_chars();
    let o = embed_open();
    let c = embed_close();
    let e = Seq::<char>::empty();
    let t = e + o + name + c + e;
    assert(t =~= o + name + c);
    assert forall|p: int| p != e.len() implies !occurs_at(t, o, p) by {
        if occurs_at(t, o, p) && p != 0 {
            assert(t.subrange(p, p + o.len())[0] == o[0]);
            assert(t[p] == '<');
            if p < o.len() {
                assert(t[p] == o[p]);
            } else if p < o.len() + name.len() {
                assert(t[p] == name[p - o.len()]);
            } else {
                assert(t[p] == c[p - o.len() - name.len()]);
            }
            assert(false);
        }
    }
    assert forall|q: int|
        e.len() + o.len() + 1 <= q < e.len() + o.len() + name.len() implies !occurs_at(
        t,
        c,
        q,
    ) by {
        if occurs_at(t, c, q) {
            assert(t.subrange(q, q + c.len())[0] == c[0]);
            assert(t[q] == '/');
            assert(t[q] == name[q - o.len()]);
            assert(false);
        }
    }
    lemma_rewrite_tokens_single(e, name, e, o, c, tmpl);
    assert(e + instantiate(tmpl, name) + e =~= instantiate(tmpl, name));
    assert(serialized(embed_placeholder(name)) == t);
}

/// An attribute-marker occurrence `data-attribute="x"` appearing exactly
/// once in converted text is rewritten to exactly one instance of `tmpl`
/// instantiated with `x`, and no other text is altered.
pub proof fn lemma_attribute_marker_single(
    a: Seq<char>,
    x: Seq<char>,
    b: Seq<char>,
    tmpl: Seq<char>,
)
    requires
        x.len() >= 1,
        forall|p: int| p != a.len() ==> !occurs_at(
            a + attr_open() + x + attr_close() + b,
            attr_open(),
            p,
        ),
        forall|q: int|
            a.len() + attr_open().len() + 1 <= q < a.len() + attr_open().len() + x.len()
                ==> !occurs_at(a + attr_open() + x + attr_close() + b, attr_close(), q),
    ensures
        rewrite_tokens(a + attr_open() + x + attr_close() + b, attr_open(), attr_close(), tmpl)
            == a + instantiate(tmpl, x) + b,
{
    reveal_strlit("data-attribute=\"");
    reveal_strlit("\"");
    lemma_rewrite_tokens_single(a, x, b, attr_open(), attr_close(), tmpl);
}

/// The substitution engine is the identity on text that holds no embed
/// token opening, no content-slot token and no attribute-marker opening:
/// content outside placeholder tokens is never altered.
pub proof fn lemma_substitute_token_free(r: Replacements, t: Seq<char>)
    requires
        !contains_pat(t, embed_open()),
        !contains_pat(t, content_token()),
        !contains_pat(t, attr_open()),
    ensures
        spec_substitute(r, t) == t,
{
    reveal_strlit("<replace_replacement-");
    reveal_strlit("<replace_content />");
    reveal_strlit("data-attribute=\"");
    lemma_rewrite_tokens_absent(t, embed_open(), embed_close(), r.replacement@);
    lemma_replace_all_absent(t, content_token(), r.content@);
    lemma_rewrite_tokens_absent(t, attr_open(), attr_close(), r.attributes@);
}

/// No marker attribute anywhere strictly below `n`.
pub open spec fn subtree_unmarked(n: NodeModel) -> bool
    decreases n, 1int, 0int,
{
    match n {
        NodeModel::Text { .. } => true,
        NodeModel::Element { children, .. } => children_unmarked(children, 0),
    }
}

/// No marker attribute on the nodes of `cs` from `i` on, nor anywhere
/// below them.
pub open spec fn children_unmarked(cs: Seq<NodeModel>, i: int) -> bool
    decreases cs, 0int, cs.len() - i,
{
    if i < 0 || i >= cs.len() {
        true
    } else {
        &&& node_attr(cs[i], extract_key()) is None
        &&& node_attr(cs[i], content_key()) is None
        &&& subtree_unmarked(cs[i])
        &&& children_unmarked(cs, i + 1)
    }
}

/// Marker application is the identity on unmarked children and extracts
/// nothing.
pub proof fn lemma_apply_markers_unmarked(ws: Seq<NodeModel>, i: int)
    requires
        0 <= i <= ws.len(),
        children_unmarked(ws, i),
    ensures
        apply_markers(ws, i).0 == ws.subrange(i, ws.len() as int),
        apply_markers(ws, i).1 == Seq::<(Seq<char>, NodeModel)>::empty(),
    decreases ws.len() - i,
{
    if i < ws.len() {
        lemma_apply_markers_unmarked(ws, i + 1);
        assert(content_applied(ws[i]) == ws[i]);
        assert(seq![ws[i]] + ws.subrange(i + 1, ws.len() as int) =~= ws.subrange(
            i,
            ws.len() as int,
        ));
    } else {
        assert(ws.subrange(i, ws.len() as int) =~= Seq::<NodeModel>::empty());
    }
}

/// The walk is the identity on a subtree with no markers: the tree is not
/// mutated and nothing is extracted.
pub proof fn lemma_walk_unmarked(n: NodeModel)
    requires
        subtree_unmarked(n),
    ensures
        (walk_node(n) == (n, Seq::<(Seq<char>, NodeModel)>::empty())),
    decreases n, 1int, 0int,
{
    if n is Element {
        lemma_descent_unmarked(n->children, 0);
        assert(n->children.subrange(0, n->children.len() as int) =~= n->children);
        lemma_apply_markers_unmarked(n->children, 0);
        assert(walk_node(n).0 == n);
        assert(walk_node(n).1 =~= Seq::<(Seq<char>, NodeModel)>::empty());
    }
}

/// The number of children of `cs` not yet handled at index `i`.
pub open spec fn remaining(cs: Seq<NodeModel>, i: int) -> int {
    cs.len() - i
}

/// The recursive descent is the identity on unmarked children and extracts
/// nothing.
pub open spec fn descent_identity(cs: Seq<NodeModel>, i: int) -> bool {
    &&& walk_children(cs, i).0 == cs.subrange(i, cs.len() as int)
    &&& walk_children(cs, i).1 == Seq::<(Seq<char>, NodeModel)>::empty()
}




pub proof fn lemma_descent_unmarked(ws: Seq<NodeModel>, i: int)
    requires
        0 <= i <= ws.len(),
        children_unmarked(ws, i),
    ensures
        descent_identity(ws, i),
    decreases ws, 0int, remaining(ws, i),
{
    if i < ws.len() {
        lemma_walk_unmarked(ws[i]);
        lemma_descent_unmarked(ws, i + 1);
        assert(seq![ws[i]] + ws.subrange(i + 1, ws.len() as int) =~= ws.subrange(
            i,
            ws.len() as int,
        ));
        assert(walk_children(ws, i).1 =~= Seq::<(Seq<char>, NodeModel)>::empty());
    } else {
        assert(ws.subrange(i, ws.len() as int) =~= Seq::<NodeModel>::empty());
    }
}


/// 1 when `n` itself bears an extraction marker naming a component, else 0.
pub open spec fn marked(n: NodeModel) -> nat {
    match node_attr(n, extract_key()) {
        Some(nm) => if nm == not_name() {
            0
        } else {
            1
        },
        None => 0,
    }
}

/// The number of extraction markers naming components strictly below `n`.
pub open spec fn extract_count(n: NodeModel) -> nat
    decreases n, 1int, 0int,
{
    match n {
        NodeModel::Text { .. } => 0,
        NodeModel::Element { children, .. } => subtree_count(children, 0),
    }
}

/// The number of extraction markers on or below the nodes of `cs` from `i`
/// on.
pub open spec fn subtree_count(cs: Seq<NodeModel>, i: int) -> nat
    decreases cs, 0int, remaining(cs, i),
{
    if i < 0 || i >= cs.len() {
        0
    } else {
        marked(cs[i]) + extract_count(cs[i]) + subtree_count(cs, i + 1)
    }
}

/// The number of extraction markers on the nodes of `cs` themselves, from
/// `i` on.
pub open spec fn marked_count(cs: Seq<NodeModel>, i: int) -> nat
    decreases cs.len() - i,
{
    if i < 0 || i >= cs.len() {
        0
    } else {
        marked(cs[i]) + marked_count(cs, i + 1)
    }
}

/// The number of extraction markers strictly below the nodes of `cs`, from
/// `i` on.
pub open spec fn below_count(cs: Seq<NodeModel>, i: int) -> nat
    decreases cs, 0int, remaining(cs, i),
{
    if i < 0 || i >= cs.len() {
        0
    } else {
        extract_count(cs[i]) + below_count(cs, i + 1)
    }
}

/// Markers on or below a child list split into markers on the children and
/// markers below them.
pub proof fn lemma_subtree_count_split(cs: Seq<NodeModel>, i: int)
    requires
        0 <= i <= cs.len(),
    ensures
        subtree_count(cs, i) == marked_count(cs, i) + below_count(cs, i),
    decreases cs.len() - i,
{
    if i < cs.len() {
        lemma_subtree_count_split(cs, i + 1);
    }
}

/// The walk never changes a node's own tag or attribute list.
pub proof fn lemma_walk_preserves_attrs(n: NodeModel)
    ensures
        walk_node(n).0.attrs_of() == n.attrs_of(),
{
}

/// Marker counts agree on child lists whose attribute lists agree.
pub proof fn lemma_marked_count_eq(xs: Seq<NodeModel>, ys: Seq<NodeModel>, i: int)
    requires
        xs.len() == ys.len(),
        0 <= i <= xs.len(),
        forall|q: int| i <= q < xs.len() ==> xs[q].attrs_of() == ys[q].attrs_of(),
    ensures
        marked_count(xs, i) == marked_count(ys, i),
    decreases xs.len() - i,
{
    if i < xs.len() {
        assert(marked(xs[i]) == marked(ys[i]));
        lemma_marked_count_eq(xs, ys, i + 1);
    }
}

/// Marker application extracts exactly one record per marked child.
pub proof fn lemma_apply_markers_count(ws: Seq<NodeModel>, i: int)
    requires
        0 <= i <= ws.len(),
    ensures
        apply_markers(ws, i).1.len() == marked_count(ws, i),
    decreases ws.len() - i,
{
    if i < ws.len() {
        lemma_apply_markers_count(ws, i + 1);
    }
}

/// The recursive descent extracts exactly one record per marker strictly
/// below the children, and walks every child in place.
pub proof fn lemma_walk_children_count(cs: Seq<NodeModel>, i: int)
    requires
        0 <= i <= cs.len(),
    ensures
        walk_children(cs, i).1.len() == below_count(cs, i),
        walk_children(cs, i).0.len() == cs.len() - i,
        forall|q: int| i <= q < cs.len() ==> walk_children(cs, i).0[q - i].attrs_of()
            == cs[q].attrs_of(),
    decreases cs, 0int, remaining(cs, i),
{
    if i < cs.len() {
        lemma_walk_record_count(cs[i]);
        lemma_walk_preserves_attrs(cs[i]);
        lemma_walk_children_count(cs, i + 1);
    }
}

/// The walk produces exactly one extraction record for each `data-extract`
/// marker naming a component (any value but `"not"`) strictly below the
/// root: one output file per marked subtree, and none for deletions.
pub proof fn lemma_walk_record_count(n: NodeModel)
    ensures
        walk_node(n).1.len() == extract_count(n),
    decreases n, 1int, 0int,
{
    if n is Element {
        let cs = n->children;
        lemma_walk_children_count(cs, 0);
        let ws = walk_children(cs, 0).0;
        lemma_apply_markers_count(ws, 0);
        lemma_marked_count_eq(ws, cs, 0);
        lemma_subtree_count_split(cs, 0);
    }
}


/// Neither `n` itself nor any node below it bears `data-extract="not"`.
pub open spec fn free_of_not(n: NodeModel) -> bool
    decreases n, 1int, 0int,
{
    match n {
        NodeModel::Text { .. } => true,
        NodeModel::Element { children, .. } => {
            &&& node_attr(n, extract_key()) != Some(not_name())
            &&& kids_free_of_not(children, 0)
        },
    }
}

/// No deletion-marked node among the nodes of `cs` from `i` on, nor below
/// them.
pub open spec fn kids_free_of_not(cs: Seq<NodeModel>, i: int) -> bool
    decreases cs, 0int, remaining(cs, i),
{
    if i < 0 || i >= cs.len() {
        true
    } else {
        free_of_not(cs[i]) && kids_free_of_not(cs, i + 1)
    }
}

/// Every record from `i` on names a component (never `"not"`) and carries a
/// subtree with no deletion-marked node.
pub open spec fn records_free_of_not(rs: Seq<(Seq<char>, NodeModel)>, i: int) -> bool
    decreases rs.len() - i,
{
    if i < 0 || i >= rs.len() {
        true
    } else {
        rs[i].0 != not_name() && free_of_not(rs[i].1) && records_free_of_not(rs, i + 1)
    }
}

proof fn lemma_kids_free_offset(a: Seq<NodeModel>, b: Seq<NodeModel>, i: int, j: int)
    requires
        0 <= i <= a.len(),
        0 <= j <= b.len(),
        a.len() - i == b.len() - j,
        forall|q: int| 0 <= q < a.len() - i ==> #[trigger] a[i + q] == b[j + q],
    ensures
        kids_free_of_not(a, i) == kids_free_of_not(b, j),
    decreases a.len() - i,
{
    if i < a.len() {
        assert(a[i + 0] == b[j + 0]);
        assert forall|q: int| 0 <= q < a.len() - (i + 1) implies #[trigger] a[i + 1 + q]
            == b[j + 1 + q] by {
            assert(a[i + (q + 1)] == b[j + (q + 1)]);
        }
        lemma_kids_free_offset(a, b, i + 1, j + 1);
    }
}

proof fn lemma_kids_free_concat(x: Seq<NodeModel>, y: Seq<NodeModel>, i: int)
    requires
        0 <= i <= x.len(),
    ensures
        kids_free_of_not(x + y, i) == (kids_free_of_not(x, i) && kids_free_of_not(y, 0)),
    decreases x.len() - i,
{
    if i < x.len() {
        assert((x + y)[i] == x[i]);
        lemma_kids_free_concat(x, y, i + 1);
    } else {
        lemma_kids_free_offset(x + y, y, i, 0);
    }
}

proof fn lemma_records_free_offset(
    a: Seq<(Seq<char>, NodeModel)>,
    b: Seq<(Seq<char>, NodeModel)>,
    i: int,
    j: int,
)
    requires
        0 <= i <= a.len(),
        0 <= j <= b.len(),
        a.len() - i == b.len() - j,
        forall|q: int| 0 <= q < a.len() - i ==> #[trigger] a[i + q] == b[j + q],
    ensures
        records_free_of_not(a, i) == records_free_of_not(b, j),
    decreases a.len() - i,
{
    if i < a.len() {
        assert(a[i + 0] == b[j + 0]);
        assert forall|q: int| 0 <= q < a.len() - (i + 1) implies #[trigger] a[i + 1 + q]
            == b[j + 1 + q] by {
            assert(a[i + (q + 1)] == b[j + (q + 1)]);
        }
        lemma_records_free_offset(a, b, i + 1, j + 1);
    }
}

proof fn lemma_records_free_concat(
    x: Seq<(Seq<char>, NodeModel)>,
    y: Seq<(Seq<char>, NodeModel)>,
    i: int,
)
    requires
        0 <= i <= x.len(),
    ensures
        records_free_of_not(x + y, i) == (records_free_of_not(x, i) && records_free_of_not(
            y,
            0,
        )),
    decreases x.len() - i,
{
    if i < x.len() {
        assert((x + y)[i] == x[i]);
        lemma_records_free_concat(x, y, i + 1);
    } else {
        lemma_records_free_offset(x + y, y, i, 0);
    }
}

/// Marker application drops every deletion-marked child and hands no
/// deletion-marked node to any output.
pub proof fn lemma_apply_markers_free(ws: Seq<NodeModel>, i: int)
    requires
        0 <= i <= ws.len(),
        forall|q: int| i <= q < ws.len() ==> kids_free_of_not(ws[q].children_of(), 0),
    ensures
        kids_free_of_not(apply_markers(ws, i).0, 0),
        records_free_of_not(apply_markers(ws, i).1, 0),
    decreases ws.len() - i,
{
    if i < ws.len() {
        lemma_apply_markers_free(ws, i + 1);
        let w = ws[i];
        let rest = apply_markers(ws, i + 1);
        assert(kids_free_of_not(w.children_of(), 0));
        match node_attr(w, extract_key()) {
            Some(name) => {
                if name != not_name() {
                    let ph = embed_placeholder(name);
                    assert(free_of_not(ph)) by {
                        assert(ph.attrs_of() =~= Seq::<(Seq<char>, Seq<char>)>::empty());
                    }
                    assert(kids_free_of_not(seq![ph], 1));
                    lemma_kids_free_concat(seq![ph], rest.0, 0);
                    let ca = content_applied(w);
                    assert(free_of_not(ca)) by {
                        assert(w is Element);
                        assert(ca.attrs_of() == w.attrs_of());
                        assert(free_of_not(content_placeholder())) by {
                            assert(content_placeholder().attrs_of() =~= Seq::<(
                                Seq<char>,
                                Seq<char>,
                            )>::empty());
                        }
                        if node_attr(w, content_key()) is Some {
                            assert(ca.children_of() == seq![content_placeholder()]);
                            assert(kids_free_of_not(seq![content_placeholder()], 1));
                        }
                        assert(kids_free_of_not(ca.children_of(), 0));
                    }
                    assert(records_free_of_not(seq![(name, ca)], 1));
                    lemma_records_free_concat(rest.1, seq![(name, ca)], 0);
                }
            },
            None => {
                let ca = content_applied(w);
                assert(free_of_not(ca)) by {
                    if w is Element {
                        assert(ca.attrs_of() == w.attrs_of());
                        assert(free_of_not(content_placeholder())) by {
                            assert(content_placeholder().attrs_of() =~= Seq::<(
                                Seq<char>,
                                Seq<char>,
                            )>::empty());
                        }
                        if node_attr(w, content_key()) is Some {
                            assert(ca.children_of() == seq![content_placeholder()]);
                            assert(kids_free_of_not(seq![content_placeholder()], 1));
                        }
                        assert(kids_free_of_not(ca.children_of(), 0));
                    }
                }
                assert(kids_free_of_not(seq![ca], 1));
                lemma_kids_free_concat(seq![ca], rest.0, 0);
            },
        }
    }
}

/// The recursive descent hands no deletion-marked node to any output, and
/// every walked child keeps its attribute list while its own children are
/// already cleansed.
pub proof fn lemma_walk_children_free(cs: Seq<NodeModel>, i: int)
    requires
        0 <= i <= cs.len(),
    ensures
        walk_children(cs, i).0.len() == cs.len() - i,
        forall|q: int| 0 <= q < cs.len() - i ==> walk_children(cs, i).0[q].attrs_of()
            == cs[i + q].attrs_of(),
        forall|q: int| 0 <= q < cs.len() - i ==> kids_free_of_not(
            walk_children(cs, i).0[q].children_of(),
            0,
        ),
        records_free_of_not(walk_children(cs, i).1, 0),
    decreases cs, 0int, remaining(cs, i),
{
    if i < cs.len() {
        lemma_walk_drops_not(cs[i]);
        lemma_walk_preserves_attrs(cs[i]);
        lemma_walk_children_free(cs, i + 1);
        lemma_records_free_concat(walk_node(cs[i]).1, walk_children(cs, i + 1).1, 0);
    }
}

/// A node marked `data-extract="not"` never appears in any output: after
/// the walk it stands nowhere below the root, nowhere inside any extraction
/// record, and no record carries the name `"not"`.
pub proof fn lemma_walk_drops_not(n: NodeModel)
    ensures
        kids_free_of_not(walk_node(n).0.children_of(), 0),
        records_free_of_not(walk_node(n).1, 0),
    decreases n, 1int, 0int,
{
    if n is Element {
        let cs = n->children;
        lemma_walk_children_free(cs, 0);
        let ws = walk_children(cs, 0).0;
        assert forall|q: int| 0 <= q < ws.len() implies kids_free_of_not(
            ws[q].children_of(),
            0,
        ) by {
            assert(kids_free_of_not(walk_children(cs, 0).0[q].children_of(), 0));
        }
        lemma_apply_markers_free(ws, 0);
        lemma_records_free_concat(walk_children(cs, 0).1, apply_markers(ws, 0).1, 0);
    } else {
        assert(walk_node(n).0.children_of() =~= Seq::<NodeModel>::empty());
    }
}


/// Every `data-content` node at or below `n` carries exactly the single
/// content placeholder as its children.
pub open spec fn content_resolved(n: NodeModel) -> bool
    decreases n, 1int, 0int,
{
    match n {
        NodeModel::Text { .. } => true,
        NodeModel::Element { children, .. } => {
            &&& (node_attr(n, content_key()) is Some ==> children == seq![
                content_placeholder(),
            ])
            &&& kids_content_resolved(children, 0)
        },
    }
}

/// Content markers resolved on the nodes of `cs` from `i` on, and below
/// them.
pub open spec fn kids_content_resolved(cs: Seq<NodeModel>, i: int) -> bool
    decreases cs, 0int, remaining(cs, i),
{
    if i < 0 || i >= cs.len() {
        true
    } else {
        content_resolved(cs[i]) && kids_content_resolved(cs, i + 1)
    }
}

/// Content markers resolved in the subtree of every record from `i` on.
pub open spec fn records_content_resolved(rs: Seq<(Seq<char>, NodeModel)>, i: int) -> bool
    decreases rs.len() - i,
{
    if i < 0 || i >= rs.len() {
        true
    } else {
        content_resolved(rs[i].1) && records_content_resolved(rs, i + 1)
    }
}

proof fn lemma_kids_content_offset(a: Seq<NodeModel>, b: Seq<NodeModel>, i: int, j: int)
    requires
        0 <= i <= a.len(),
        0 <= j <= b.len(),
        a.len() - i == b.len() - j,
        forall|q: int| 0 <= q < a.len() - i ==> #[trigger] a[i + q] == b[j + q],
    ensures
        kids_content_resolved(a, i) == kids_content_resolved(b, j),
    decreases a.len() - i,
{
    if i < a.len() {
        assert(a[i + 0] == b[j + 0]);
        assert forall|q: int| 0 <= q < a.len() - (i + 1) implies #[trigger] a[i + 1 + q]
            == b[j + 1 + q] by {
            assert(a[i + (q + 1)] == b[j + (q + 1)]);
        }
        lemma_kids_content_offset(a, b, i + 1, j + 1);
    }
}

proof fn lemma_kids_content_concat(x: Seq<NodeModel>, y: Seq<NodeModel>, i: int)
    requires
        0 <= i <= x.len(),
    ensures
        kids_content_resolved(x + y, i) == (kids_content_resolved(x, i)
            && kids_content_resolved(y, 0)),
    decreases x.len() - i,
{
    if i < x.len() {
        assert((x + y)[i] == x[i]);
        lemma_kids_content_concat(x, y, i + 1);
    } else {
        lemma_kids_content_offset(x + y, y, i, 0);
    }
}

proof fn lemma_records_content_offset(
    a: Seq<(Seq<char>, NodeModel)>,
    b: Seq<(Seq<char>, NodeModel)>,
    i: int,
    j: int,
)
    requires
        0 <= i <= a.len(),
        0 <= j <= b.len(),
        a.len() - i == b.len() - j,
        forall|q: int| 0 <= q < a.len() - i ==> #[trigger] a[i + q] == b[j + q],
    ensures
        records_content_resolved(a, i) == records_content_resolved(b, j),
    decreases a.len() - i,
{
    if i < a.len() {
        assert(a[i + 0] == b[j + 0]);
        assert forall|q: int| 0 <= q < a.len() - (i + 1) implies #[trigger] a[i + 1 + q]
            == b[j + 1 + q] by {
            assert(a[i + (q + 1)] == b[j + (q + 1)]);
        }
        lemma_records_content_offset(a, b, i + 1, j + 1);
    }
}

proof fn lemma_records_content_concat(
    x: Seq<(Seq<char>, NodeModel)>,
    y: Seq<(Seq<char>, NodeModel)>,
    i: int,
)
    requires
        0 <= i <= x.len(),
    ensures
        records_content_resolved(x + y, i) == (records_content_resolved(x, i)
            && records_content_resolved(y, 0)),
    decreases x.len() - i,
{
    if i < x.len() {
        assert((x + y)[i] == x[i]);
        lemma_records_content_concat(x, y, i + 1);
    } else {
        lemma_records_content_offset(x + y, y, i, 0);
    }
}

/// Marker application resolves every content marker it meets and hands only
/// resolved subtrees to any output.
pub proof fn lemma_apply_markers_content(ws: Seq<NodeModel>, i: int)
    requires
        0 <= i <= ws.len(),
        forall|q: int| i <= q < ws.len() ==> kids_content_resolved(ws[q].children_of(), 0),
    ensures
        kids_content_resolved(apply_markers(ws, i).0, 0),
        records_content_resolved(apply_markers(ws, i).1, 0),
    decreases ws.len() - i,
{
    if i < ws.len() {
        lemma_apply_markers_content(ws, i + 1);
        let w = ws[i];
        let rest = apply_markers(ws, i + 1);
        assert(kids_content_resolved(w.children_of(), 0));
        assert(content_resolved(content_placeholder())) by {
            assert(content_placeholder().attrs_of() =~= Seq::<(Seq<char>, Seq<char>)>::empty());
        }
        match node_attr(w, extract_key()) {
            Some(name) => {
                if name != not_name() {
                    let ph = embed_placeholder(name);
                    assert(content_resolved(ph)) by {
                        assert(ph.attrs_of() =~= Seq::<(Seq<char>, Seq<char>)>::empty());
                    }
                    assert(kids_content_resolved(seq![ph], 1));
                    lemma_kids_content_concat(seq![ph], rest.0, 0);
                    let ca = content_applied(w);
                    assert(content_resolved(ca)) by {
                        assert(w is Element);
                        assert(ca.attrs_of() == w.attrs_of());
                        if node_attr(w, content_key()) is Some {
                            assert(ca.children_of() == seq![content_placeholder()]);
                            assert(kids_content_resolved(seq![content_placeholder()], 1));
                        }
                        assert(kids_content_resolved(ca.children_of(), 0));
                    }
                    assert(records_content_resolved(seq![(name, ca)], 1));
                    lemma_records_content_concat(rest.1, seq![(name, ca)], 0);
                }
            },
            None => {
                let ca = content_applied(w);
                assert(content_resolved(ca)) by {
                    if w is Element {
                        assert(ca.attrs_of() == w.attrs_of());
                        if node_attr(w, content_key()) is Some {
                            assert(ca.children_of() == seq![content_placeholder()]);
                            assert(kids_content_resolved(seq![content_placeholder()], 1));
                        }
                        assert(kids_content_resolved(ca.children_of(), 0));
                    }
                }
                assert(kids_content_resolved(seq![ca], 1));
                lemma_kids_content_concat(seq![ca], rest.0, 0);
            },
        }
    }
}

/// The recursive descent resolves every content marker below the children
/// and keeps each child's attribute list.
pub proof fn lemma_walk_children_content(cs: Seq<NodeModel>, i: int)
    requires
        0 <= i <= cs.len(),
    ensures
        walk_children(cs, i).0.len() == cs.len() - i,
        forall|q: int| 0 <= q < cs.len() - i ==> walk_children(cs, i).0[q].attrs_of()
            == cs[i + q].attrs_of(),
        forall|q: int| 0 <= q < cs.len() - i ==> kids_content_resolved(
            walk_children(cs, i).0[q].children_of(),
            0,
        ),
        records_content_resolved(walk_children(cs, i).1, 0),
    decreases cs, 0int, remaining(cs, i),
{
    if i < cs.len() {
        lemma_walk_resolves_content(cs[i]);
        lemma_walk_preserves_attrs(cs[i]);
        lemma_walk_children_content(cs, i + 1);
        lemma_records_content_concat(walk_node(cs[i]).1, walk_children(cs, i + 1).1, 0);
    }
}

/// A node marked `data-content` keeps, in every output, exactly the single
/// content placeholder in place of its children: after the walk, every
/// content marker below the root and in every extraction record is
/// resolved, with none of the former children left behind.
pub proof fn lemma_walk_resolves_content(n: NodeModel)
    ensures
        kids_content_resolved(walk_node(n).0.children_of(), 0),
        records_content_resolved(walk_node(n).1, 0),
    decreases n, 1int, 0int,
{
    if n is Element {
        let cs = n->children;
        lemma_walk_children_content(cs, 0);
        let ws = walk_children(cs, 0).0;
        assert forall|q: int| 0 <= q < ws.len() implies kids_content_resolved(
            ws[q].children_of(),
            0,
        ) by {
            assert(kids_content_resolved(walk_children(cs, 0).0[q].children_of(), 0));
        }
        lemma_apply_markers_content(ws, 0);
        lemma_records_content_concat(walk_children(cs, 0).1, apply_markers(ws, 0).1, 0);
    } else {
        assert(walk_node(n).0.children_of() =~= Seq::<NodeModel>::empty());
    }
}


/// A serialized embed placeholder, run through the whole substitution
/// engine, becomes exactly the instantiated `replacement` fragment, as long
/// as that fragment reintroduces no placeholder token (the configured
/// fragments' responsibility).
pub proof fn lemma_embed_token_substituted(r: Replacements, name: Seq<char>)
    requires
        name.len() >= 1,
        plain_name(name),
        !contains_pat(instantiate(r.replacement@, name), content_token()),
        !contains_pat(instantiate(r.replacement@, name), attr_open()),
    ensures
        spec_substitute(r, serialized(embed_placeholder(name))) == instantiate(
            r.replacement@,
            name,
        ),
{
    reveal_strlit("<replace_content />");
    reveal_strlit("data-attribute=\"");
    lemma_embed_placeholder_round_trip(name, r.replacement@);
    let inst = instantiate(r.replacement@, name);
    lemma_replace_all_absent(inst, content_token(), r.content@);
    lemma_rewrite_tokens_absent(inst, attr_open(), attr_close(), r.attributes@);
}

/// A content-slot token, run through the whole substitution engine, becomes
/// exactly the configured `content` string, as long as that string
/// reintroduces no attribute-marker token.
pub proof fn lemma_content_token_substituted(r: Replacements)
    requires
        !contains_pat(r.content@, attr_open()),
    ensures
        spec_substitute(r, content_token()) == r.content@,
{
    reveal_strlit("<replace_content />");
    reveal_strlit("<replace_replacement-");
    reveal_strlit("data-attribute=\"");
    let t = content_token();
    assert forall|p: int| !occurs_at(t, embed_open(), p) by {
        assert(embed_open().len() > t.len());
    }
    lemma_rewrite_tokens_absent(t, embed_open(), embed_close(), r.replacement@);
    assert(occurs_at(t, t, 0)) by {
        assert(t.subrange(0, t.len() as int) =~= t);
    }
    assert(replace_all(t, t, r.content@) == r.content@ + replace_all(
        t.skip(t.len() as int),
        t,
        r.content@,
    ));
    assert(t.skip(t.len() as int) =~= Seq::<char>::empty());
    assert(r.content@ + Seq::<char>::empty() =~= r.content@);
    lemma_rewrite_tokens_absent(r.content@, attr_open(), attr_close(), r.attributes@);
}


/// The whole substitution engine, on converted text that carries exactly
/// one attribute-marker occurrence `data-attribute="x"` and no
/// embed-reference or content-slot token, rewrites that occurrence alone:
/// the result is the text with the occurrence replaced by the `attributes`
/// fragment instantiated with `x`, and no other character altered.
pub proof fn lemma_substitute_single_attribute(
    r: Replacements,
    a: Seq<char>,
    x: Seq<char>,
    b: Seq<char>,
)
    requires
        x.len() >= 1,
        !contains_pat(a + attr_open() + x + attr_close() + b, embed_open()),
        !contains_pat(a + attr_open() + x + attr_close() + b, content_token()),
        forall|p: int| p != a.len() ==> !occurs_at(
            a + attr_open() + x + attr_close() + b,
            attr_open(),
            p,
        ),
        forall|q: int|
            a.len() + attr_open().len() + 1 <= q < a.len() + attr_open().len() + x.len()
                ==> !occurs_at(a + attr_open() + x + attr_close() + b, attr_close(), q),
    ensures
        spec_substitute(r, a + attr_open() + x + attr_close() + b) == a + instantiate(
            r.attributes@,
            x,
        ) + b,
{
    reveal_strlit("<replace_replacement-");
    reveal_strlit("<replace_content />");
    let t = a + attr_open() + x + attr_close() + b;
    lemma_rewrite_tokens_absent(t, embed_open(), embed_close(), r.replacement@);
    lemma_replace_all_absent(t, content_token(), r.content@);
    lemma_attribute_marker_single(a, x, b, r.attributes@);
}


/// The recursive descent is the identity on children whose subtrees hold no
/// marker, whatever markers the children themselves bear (a node's own
/// markers are its parent's business).
pub proof fn lemma_descent_subtrees_unmarked(cs: Seq<NodeModel>, i: int)
    requires
        0 <= i <= cs.len(),
        forall|q: int| i <= q < cs.len() ==> subtree_unmarked(#[trigger] cs[q]),
    ensures
        walk_children(cs, i).0 == cs.subrange(i, cs.len() as int),
        walk_children(cs, i).1 == Seq::<(Seq<char>, NodeModel)>::empty(),
    decreases cs, 0int, remaining(cs, i),
{
    if i < cs.len() {
        lemma_walk_unmarked(cs[i]);
        lemma_descent_subtrees_unmarked(cs, i + 1);
        assert(seq![cs[i]] + cs.subrange(i + 1, cs.len() as int) =~= cs.subrange(
            i,
            cs.len() as int,
        ));
        assert(walk_children(cs, i).1 =~= Seq::<(Seq<char>, NodeModel)>::empty());
    } else {
        assert(cs.subrange(i, cs.len() as int) =~= Seq::<NodeModel>::empty());
    }
}

/// Marker application on a child list whose only marker is
/// `data-extract` == `nm` on child `k`: that child alone is detached into
/// the one record, and its slot alone receives the embed placeholder.
pub proof fn lemma_apply_single_marker(ws: Seq<NodeModel>, i: int, k: int, nm: Seq<char>)
    requires
        0 <= i <= ws.len(),
        0 <= k < ws.len(),
        node_attr(ws[k], extract_key()) == Some(nm),
        nm != not_name(),
        node_attr(ws[k], content_key()) is None,
        forall|q: int|
            0 <= q < ws.len() && q != k ==> node_attr(#[trigger] ws[q], extract_key()) is None
                && node_attr(ws[q], content_key()) is None,
    ensures
        i <= k ==> apply_markers(ws, i).0 == ws.subrange(i, k) + seq![embed_placeholder(nm)]
            + ws.subrange(k + 1, ws.len() as int),
        i <= k ==> apply_markers(ws, i).1 == seq![(nm, ws[k])],
        i > k ==> apply_markers(ws, i).0 == ws.subrange(i, ws.len() as int),
        i > k ==> apply_markers(ws, i).1 == Seq::<(Seq<char>, NodeModel)>::empty(),
    decreases ws.len() - i,
{
    if i >= ws.len() {
        assert(ws.subrange(i, ws.len() as int) =~= Seq::<NodeModel>::empty());
    } else {
        lemma_apply_single_marker(ws, i + 1, k, nm);
        let rest = apply_markers(ws, i + 1);
        let ph = embed_placeholder(nm);
        if i == k {
            assert(content_applied(ws[k]) == ws[k]);
            assert(ws.subrange(k + 1, ws.len() as int) =~= rest.0);
            assert(seq![ph] + rest.0 =~= ws.subrange(i, k) + seq![ph] + ws.subrange(
                k + 1,
                ws.len() as int,
            ));
            assert(rest.1 + seq![(nm, ws[k])] =~= seq![(nm, ws[k])]);
        } else if i < k {
            assert(content_applied(ws[i]) == ws[i]);
            assert(seq![ws[i]] + (ws.subrange(i + 1, k) + seq![ph] + ws.subrange(
                k + 1,
                ws.len() as int,
            )) =~= ws.subrange(i, k) + seq![ph] + ws.subrange(k + 1, ws.len() as int));
        } else {
            assert(content_applied(ws[i]) == ws[i]);
            assert(seq![ws[i]] + ws.subrange(i + 1, ws.len() as int) =~= ws.subrange(
                i,
                ws.len() as int,
            ));
        }
    }
}

/// A document whose root holds exactly one extraction marker — child `k`
/// bears `data-extract` == `nm`, not `"not"`, and no other marker stands
/// anywhere — walks to exactly one record, carrying `nm` and precisely that
/// child's subtree, while the child's former slot in the root's child
/// sequence holds the embed placeholder for `nm` and everything else is
/// untouched.
pub proof fn lemma_single_marker_extraction(n: NodeModel, k: int, nm: Seq<char>)
    requires
        n is Element,
        0 <= k < n->children.len(),
        node_attr(n->children[k], extract_key()) == Some(nm),
        nm != not_name(),
        node_attr(n->children[k], content_key()) is None,
        forall|q: int|
            0 <= q < n->children.len() && q != k ==> node_attr(
                #[trigger] n->children[q],
                extract_key(),
            ) is None && node_attr(n->children[q], content_key()) is None,
        forall|q: int| 0 <= q < n->children.len() ==> subtree_unmarked(#[trigger] n->children[q]),
    ensures
        walk_node(n).1 == seq![(nm, n->children[k])],
        walk_node(n).0 is Element,
        walk_node(n).0->tag == n->tag,
        walk_node(n).0->attrs == n->attrs,
        walk_node(n).0->children == n->children.update(k, embed_placeholder(nm)),
{
    let cs = n->children;
    lemma_descent_subtrees_unmarked(cs, 0);
    assert(cs.subrange(0, cs.len() as int) =~= cs);
    lemma_apply_single_marker(cs, 0, k, nm);
    assert(cs.subrange(0, k) + seq![embed_placeholder(nm)] + cs.subrange(k + 1, cs.len() as int)
        =~= cs.update(k, embed_placeholder(nm)));
    assert(Seq::<(Seq<char>, NodeModel)>::empty() + seq![(nm, cs[k])] =~= seq![(nm, cs[k])]);
}


/// The recursive descent on a child list whose subtrees are all unmarked
/// except child `k`: every other child passes through untouched, child `k`
/// is walked, and only its records come out.
pub proof fn lemma_descent_one_special(cs: Seq<NodeModel>, i: int, k: int)
    requires
        0 <= i <= cs.len(),
        0 <= k < cs.len(),
        forall|q: int|
            0 <= q < cs.len() && q != k ==> subtree_unmarked(#[trigger] cs[q]),
    ensures
        i <= k ==> walk_children(cs, i).0 == cs.subrange(i, k) + seq![walk_node(cs[k]).0]
            + cs.subrange(k + 1, cs.len() as int),
        i <= k ==> walk_children(cs, i).1 == walk_node(cs[k]).1,
        i > k ==> walk_children(cs, i).0 == cs.subrange(i, cs.len() as int),
        i > k ==> walk_children(cs, i).1 == Seq::<(Seq<char>, NodeModel)>::empty(),
    decreases cs, 0int, remaining(cs, i),
{
    if i >= cs.len() {
        assert(cs.subrange(i, cs.len() as int) =~= Seq::<NodeModel>::empty());
    } else {
        lemma_descent_one_special(cs, i + 1, k);
        let rest = walk_children(cs, i + 1);
        if i == k {
            assert(cs.subrange(k + 1, cs.len() as int) =~= rest.0);
            assert(seq![walk_node(cs[k]).0] + rest.0 =~= cs.subrange(i, k) + seq![
                walk_node(cs[k]).0,
            ] + cs.subrange(k + 1, cs.len() as int));
            assert(walk_node(cs[k]).1 + rest.1 =~= walk_node(cs[k]).1);
        } else if i < k {
            lemma_walk_unmarked(cs[i]);
            assert(seq![cs[i]] + (cs.subrange(i + 1, k) + seq![walk_node(cs[k]).0]
                + cs.subrange(k + 1, cs.len() as int)) =~= cs.subrange(i, k) + seq![
                walk_node(cs[k]).0,
            ] + cs.subrange(k + 1, cs.len() as int));
            assert(walk_children(cs, i).1 =~= walk_node(cs[k]).1);
        } else {
            lemma_walk_unmarked(cs[i]);
            assert(seq![cs[i]] + cs.subrange(i + 1, cs.len() as int) =~= cs.subrange(
                i,
                cs.len() as int,
            ));
            assert(walk_children(cs, i).1 =~= Seq::<(Seq<char>, NodeModel)>::empty());
        }
    }
}

/// A document with exactly two extraction markers, one nested in the other
/// — root child `k` bears `data-extract` == `outer_nm` and its own child
/// `j` bears `data-extract` == `inner_nm`, with no other marker anywhere —
/// walks to exactly two records, the inner one first. The outer record's
/// subtree holds the embed placeholder for `inner_nm` where the inner
/// subtree stood — never the inner subtree itself — and the inner record
/// carries that subtree untouched and independently.
pub proof fn lemma_nested_marker_extraction(
    n: NodeModel,
    k: int,
    outer_nm: Seq<char>,
    j: int,
    inner_nm: Seq<char>,
)
    requires
        n is Element,
        0 <= k < n->children.len(),
        n->children[k] is Element,
        node_attr(n->children[k], extract_key()) == Some(outer_nm),
        outer_nm != not_name(),
        node_attr(n->children[k], content_key()) is None,
        0 <= j < n->children[k]->children.len(),
        node_attr(n->children[k]->children[j], extract_key()) == Some(inner_nm),
        inner_nm != not_name(),
        node_attr(n->children[k]->children[j], content_key()) is None,
        forall|q: int|
            0 <= q < n->children[k]->children.len() && q != j ==> node_attr(
                #[trigger] n->children[k]->children[q],
                extract_key(),
            ) is None && node_attr(n->children[k]->children[q], content_key()) is None,
        forall|q: int|
            0 <= q < n->children[k]->children.len() ==> subtree_unmarked(
                #[trigger] n->children[k]->children[q],
            ),
        forall|q: int|
            0 <= q < n->children.len() && q != k ==> node_attr(
                #[trigger] n->children[q],
                extract_key(),
            ) is None && node_attr(n->children[q], content_key()) is None && subtree_unmarked(
                n->children[q],
            ),
    ensures
        walk_node(n).1 == seq![
            (inner_nm, n->children[k]->children[j]),
            (
                outer_nm,
                NodeModel::Element {
                    tag: n->children[k]->tag,
                    attrs: n->children[k]->attrs,
                    children: n->children[k]->children.update(
                        j,
                        embed_placeholder(inner_nm),
                    ),
                },
            ),
        ],
        walk_node(n).0 is Element,
        walk_node(n).0->tag == n->tag,
        walk_node(n).0->attrs == n->attrs,
        walk_node(n).0->children == n->children.update(k, embed_placeholder(outer_nm)),
{
    let cs = n->children;
    let a = cs[k];
    let b = a->children[j];
    lemma_single_marker_extraction(a, j, inner_nm);
    let a_walked = NodeModel::Element {
        tag: a->tag,
        attrs: a->attrs,
        children: a->children.update(j, embed_placeholder(inner_nm)),
    };
    assert(walk_node(a).0 == a_walked);
    lemma_descent_one_special(cs, 0, k);
    let ws = walk_children(cs, 0).0;
    assert(ws =~= cs.update(k, a_walked));
    assert(node_attr(ws[k], extract_key()) == Some(outer_nm)) by {
        assert(a_walked.attrs_of() == a.attrs_of());
    }
    assert(node_attr(ws[k], content_key()) is None) by {
        assert(a_walked.attrs_of() == a.attrs_of());
    }
    assert forall|q: int|
        0 <= q < ws.len() && q != k implies node_attr(#[trigger] ws[q], extract_key()) is None
        && node_attr(ws[q], content_key()) is None by {
        assert(ws[q] == cs[q]);
    }
    lemma_apply_single_marker(ws, 0, k, outer_nm);
    assert(content_applied(ws[k]) == ws[k]);
    assert(walk_node(n).1 =~= seq![(inner_nm, b), (outer_nm, a_walked)]);
    assert(ws.subrange(0, k) + seq![embed_placeholder(outer_nm)] + ws.subrange(
        k + 1,
        ws.len() as int,
    ) =~= cs.update(k, embed_placeholder(outer_nm)));
}

} // verus!
