//! The render collaborator: raw body text to final markup.
//!
//! Rendering is an opaque pure step supplied by the `comrak` crate; the
//! engine only decides whether it is applied.  The option set is built
//! by the surrounding program and carried through unread.

use vstd::prelude::*;

verus! {

#[verifier::external_type_specification]
#[verifier::external_body]
pub struct ExComrakOptions<'c>(comrak::Options<'c>);

/// What the renderer makes of a body text under a given option set: a
/// function of the two arguments alone.
pub uninterp spec fn rendered(text: Seq<char>, options: comrak::Options<'static>) -> Seq<char>;

/// Relies on `comrak::markdown_to_html`: renders the text to markup as
/// the options direct, reading nothing else.
#[verifier::external_body]
pub fn render_markdown(text: &str, options: &comrak::Options<'static>) -> (r: String)
    ensures
        r@ == rendered(text@, *options),
{
    comrak::markdown_to_html(text, options)
}

/// Relies on `comrak::Options::default`: an option set with every
/// extension switched off.
#[verifier::external_body]
pub fn plain_options() -> comrak::Options<'static> {
    comrak::Options::default()
}

} // verus!
