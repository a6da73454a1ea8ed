//! Template rendering: macro bodies are prepended to the comment-stripped
//! model body, and the combined text is expanded by the template engine with
//! no context values.
use vstd::prelude::*;
use vstd::string::StringExecFns;

use crate::text::{
    join_strs, join_with, strip_block_comments, strip_block_comments_str, strip_line_comments,
    strip_line_comments_str, views_of,
};

verus! {

/// The template source a model is rendered from: every macro body joined by
/// newlines, a newline, then the model body with its line and block comments
/// stripped.
pub open spec fn template_source(macro_bodies: Seq<Seq<char>>, raw: Seq<char>) -> Seq<char> {
    join_with(macro_bodies, seq!['\n']) + seq!['\n'] + strip_block_comments(strip_line_comments(
        raw))
}

/// Assembles the template source for one model body.
pub fn build_template_source(macro_bodies: &Vec<String>, raw: &str) -> (r: String)
    ensures
        r@ == template_source(views_of(macro_bodies@), raw@),
{
    proof {
        reveal_strlit("\n");
        assert("\n"@ =~= seq!['\n']);
    }
    let mut out = join_strs(macro_bodies, "\n");
    out.append("\n");
    let no_line_comments = strip_line_comments_str(raw);
    let stripped = strip_block_comments_str(no_line_comments.as_str());
    out.append(stripped.as_str());
    out
}

/// What the template engine renders a template source to, with no context
/// values supplied; rendering is a function of the source text alone.
pub uninterp spec fn rendered_template(template: Seq<char>) -> Seq<char>;

/// Whether the template engine accepts and renders a template source;
/// acceptance is a function of the source text alone.
pub uninterp spec fn render_ok(template: Seq<char>) -> bool;

/// Relies on `minijinja::Environment::add_template`,
/// `Environment::get_template` and `Template::render`: with a fixed template
/// name and an empty context, both success and the rendered text are
/// functions of the template source alone; on failure the engine's message
/// is returned.
#[verifier::external_body]
pub fn render_template(template: &str) -> (r: Result<String, String>)
    ensures
        r is Ok <==> render_ok(template@),
        r matches Ok(s) ==> s@ == rendered_template(template@),
{
    let mut env = minijinja::Environment::new();
    if let Err(e) = env.add_template("model", template) {
        return Err(e.to_string());
    }
    let tmpl = match env.get_template("model") {
        Ok(t) => t,
        Err(e) => return Err(e.to_string()),
    };
    match tmpl.render(()) {
        Ok(s) => Ok(s),
        Err(e) => Err(e.to_string()),
    }
}

} // verus!
