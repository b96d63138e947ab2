//! The placeholder substitution engine and the template rendering around it:
//! serialized, converted markup is rewritten token by token into the
//! caller-supplied template fragments, then wrapped into the final file
//! body.

use crate::node::{ExtractionRecord, NodeModel};
use crate::text::{
    instantiate, instantiate_str, replace_all, replace_all_str, rewrite_tokens,
    rewrite_tokens_str, str_eq,
};
use vstd::prelude::*;

verus! {

/// Opening delimiter of an embed-reference placeholder token.
pub open spec fn embed_open() -> Seq<char> {
    "<replace_replacement-"@
}

/// Closing delimiter of an embed-reference placeholder token.
pub open spec fn embed_close() -> Seq<char> {
    "/>"@
}

/// The fixed content-slot placeholder token, as it stands in converted
/// text: the syntax converter writes self-closing tags with a space before
/// the `/>`, so this is the shape the engine must match.
pub open spec fn content_token() -> Seq<char> {
    "<replace_content />"@
}

/// Opening delimiter of an attribute-marker occurrence.
pub open spec fn attr_open() -> Seq<char> {
    "data-attribute=\""@
}

/// Closing delimiter of an attribute-marker occurrence.
pub open spec fn attr_close() -> Seq<char> {
    "\""@
}

/// The spurious empty default-value annotation the syntax converter is known
/// to emit; it is stripped from converted text.
pub open spec fn converter_artifact() -> Seq<char> {
    "defaultValue={\"\"}"@
}

/// The six caller-supplied template fragments, loaded once per run. `pre`,
/// `post`, `replacement` and `attributes` carry a `%` token that is replaced
/// by a component name.
pub struct Replacements {
    pub pre: String,
    pub post: String,
    pub replacement: String,
    pub content: String,
    pub attributes: String,
    pub file_extension: String,
}

/// The extraction run's configuration holder.
pub struct Extractor {
    pub replacements: Replacements,
}

/// The three textual rewrites of the substitution engine, in order: embed
/// references, then the content-slot token, then attribute markers. Each
/// pass is global.
pub open spec fn spec_substitute(r: Replacements, t: Seq<char>) -> Seq<char> {
    let s1 = rewrite_tokens(t, embed_open(), embed_close(), r.replacement@);
    let s2 = replace_all(s1, content_token(), r.content@);
    rewrite_tokens(s2, attr_open(), attr_close(), r.attributes@)
}

/// The final text of a component file: converted text with the converter
/// artifact stripped, placeholders substituted, wrapped as
/// `pre(name) + " " + body + " " + post(name)`.
pub open spec fn spec_render(r: Replacements, name: Seq<char>, converted: Seq<char>) -> Seq<
    char,
> {
    let stripped = replace_all(converted, converter_artifact(), Seq::<char>::empty());
    instantiate(r.pre@, name) + " "@ + spec_substitute(r, stripped) + " "@ + instantiate(
        r.post@,
        name,
    )
}

/// The output file name of a component: `name.file_extension`.
pub open spec fn spec_file_name(r: Replacements, name: Seq<char>) -> Seq<char> {
    name + "."@ + r.file_extension@
}

/// Record names are pairwise distinct: each component determines exactly one
/// output file, and no file is silently overwritten.
pub open spec fn names_unique(rs: Seq<(Seq<char>, NodeModel)>) -> bool {
    forall|a: int, b: int| 0 <= a < b < rs.len() ==> rs[a].0 != rs[b].0
}

impl Extractor {
    /// The embed-reference fragment for component `name`: `replacement`
    /// with `%` substituted.
    pub fn replacement(&self, name: &str) -> (r: String)
        ensures
            r@ == instantiate(self.replacements.replacement@, name@),
    {
        instantiate_str(self.replacements.replacement.as_str(), name)
    }

    /// The attribute fragment for attribute `name`: `attributes` with `%`
    /// substituted.
    pub fn attribute(&self, name: &str) -> (r: String)
        ensures
            r@ == instantiate(self.replacements.attributes@, name@),
    {
        instantiate_str(self.replacements.attributes.as_str(), name)
    }

    /// The substitution engine: rewrites every embed-reference token, every
    /// content-slot token and every attribute-marker occurrence of `text`
    /// into the configured fragments.
    pub fn text_replacements(&self, text: &str) -> (r: String)
        ensures
            r@ == spec_substitute(self.replacements, text@),
    {
        proof {
            reveal_strlit("<replace_replacement-");
            reveal_strlit("/>");
            reveal_strlit("<replace_content />");
            reveal_strlit("data-attribute=\"");
            reveal_strlit("\"");
        }
        let s1 = rewrite_tokens_str(
            text,
            "<replace_replacement-",
            "/>",
            self.replacements.replacement.as_str(),
        );
        let s2 = replace_all_str(
            s1.as_str(),
            "<replace_content />",
            self.replacements.content.as_str(),
        );
        rewrite_tokens_str(
            s2.as_str(),
            "data-attribute=\"",
            "\"",
            self.replacements.attributes.as_str(),
        )
    }

    /// The final text of the component file for `name`, given the converted
    /// serialization of its subtree: strips the converter artifact, applies
    /// the substitution engine and wraps the body in the instantiated `pre`
    /// and `post` fragments.
    pub fn render_template(&self, name: &str, converted: &str) -> (r: String)
        ensures
            r@ == spec_render(self.replacements, name@, converted@),
    {
        proof {
            reveal_strlit("defaultValue={\"\"}");
            reveal_strlit("");
        }
        let stripped = replace_all_str(converted, "defaultValue={\"\"}", "");
        let body = self.text_replacements(stripped.as_str());
        let mut out = instantiate_str(self.replacements.pre.as_str(), name);
        out.append(" ");
        out.append(body.as_str());
        out.append(" ");
        let post = instantiate_str(self.replacements.post.as_str(), name);
        out.append(post.as_str());
        proof {
            assert(""@ =~= Seq::<char>::empty());
        }
        out
    }

    /// The output file name for component `name`:
    /// `<name>.<file_extension>`.
    pub fn output_file_name(&self, name: &str) -> (r: String)
        ensures
            r@ == spec_file_name(self.replacements, name@),
    {
        let mut out = name.to_owned();
        out.append(".");
        out.append(self.replacements.file_extension.as_str());
        out
    }
}

/// Whether all extraction record names are pairwise distinct. The walker
/// leaves colliding names in place; callers reject them before writing, so
/// no output file is silently overwritten.
pub fn check_unique_names(records: &Vec<ExtractionRecord>) -> (r: bool)
    ensures
        r == names_unique(records.deep_view()),
{
    let ghost rs = records.deep_view();
    let mut a: usize = 0;
    while a < records.len()
        invariant
            a <= records.len(),
            rs == records.deep_view(),
            rs.len() == records@.len(),
            forall|x: int, y: int| 0 <= x < y < rs.len() && x < a ==> rs[x].0 != rs[y].0,
        decreases records.len() - a,
    {
        let mut b: usize = a + 1;
        while b < records.len()
            invariant
                a < records.len(),
                a + 1 <= b <= records.len(),
                rs == records.deep_view(),
                rs.len() == records@.len(),
                forall|y: int| a < y < b ==> rs[a as int].0 != rs[y].0,
            decreases records.len() - b,
        {
            proof {
                assert(rs[a as int] == records@[a as int].deep_view());
                assert(rs[b as int] == records@[b as int].deep_view());
            }
            if str_eq(records[a].name.as_str(), records[b].name.as_str()) {
                return false;
            }
            b += 1;
        }
        a += 1;
    }
    true
}

} // verus!
