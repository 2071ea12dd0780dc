//! The renderer object: the `#grad` and `#font` extensions are expanded into
//! HTML spans, then the text goes through a CommonMark renderer with the GFM
//! extensions (tables, strikethrough, task lists) switched on.

use vstd::prelude::*;
use vstd::string::StringExecFns;

verus! {

/// What `regex::Regex::new(pattern)` and then `Regex::replace_all(haystack,
/// replacement)` give: the rewritten text, or `None` when the pattern does not
/// compile.
pub uninterp spec fn regex_replaced(
    pattern: Seq<char>,
    haystack: Seq<char>,
    replacement: Seq<char>,
) -> Option<Seq<char>>;

/// The HTML that `pulldown_cmark::html::push_html` writes for the events of
/// `pulldown_cmark::Parser::new_ext(markdown, Options::from_bits_truncate(options))`.
pub uninterp spec fn commonmark_html(markdown: Seq<char>, options: u32) -> Seq<char>;

/// Compiles `pattern` with `regex::Regex::new` and replaces every match in
/// `haystack` with `replacement` (`$n` names a capture group) through
/// `Regex::replace_all`. The contract names the result and states no more of it:
/// the regex engine is not modelled here.
#[verifier::external_body]
fn regex_replace_all(pattern: &str, haystack: &str, replacement: &str) -> (r: Option<String>)
    ensures
        match r {
            Some(s) => regex_replaced(pattern@, haystack@, replacement@) == Some(s@),
            None => regex_replaced(pattern@, haystack@, replacement@) is None,
        },
{
    match regex::Regex::new(pattern) {
        Ok(re) => Some(re.replace_all(haystack, replacement).into_owned()),
        Err(_) => None,
    }
}

/// Renders `markdown` with `pulldown_cmark` (`Parser::new_ext` with the option
/// bits `options`, then `html::push_html` into an empty string). The contract
/// names the result and states no more of it: the CommonMark renderer is not
/// modelled here.
#[verifier::external_body]
fn commonmark_to_html(markdown: &str, options: u32) -> (r: String)
    ensures
        r@ == commonmark_html(markdown@, options),
{
    let parser = pulldown_cmark::Parser::new_ext(
        markdown,
        pulldown_cmark::Options::from_bits_truncate(options),
    );
    let mut out = String::new();
    pulldown_cmark::html::push_html(&mut out, parser);
    out
}

/// `#grad[from, to](text)`: the colours and the text as capture groups; the
/// first colour and the text may hold one level of balanced parentheses
/// (`rgb(…)`, a nested `#font[…](…)`), and otherwise end at the first `,` and
/// the first `)`.
pub open spec fn grad_pattern() -> Seq<char> {
    "#grad\\[((?:[^,\\]()]|\\([^()]*\\))+|[^,\\]]+),\\s*([^\\]]+)\\]\\(((?:[^()]|\\([^()]*\\))+|[^)]+)\\)"@
}

/// The span that replaces a `#grad` construct.
pub open spec fn grad_template() -> Seq<char> {
    "<span style=\"background: linear-gradient(to right, $1, $2); -webkit-background-clip: text; -webkit-text-fill-color: transparent; background-clip: text;\">$3</span>"@
}

/// `#font[family](text)`: the family and the text as capture groups; the text
/// may hold one level of balanced parentheses (a nested `#grad[…](…)`), and
/// otherwise ends at the first `)`.
pub open spec fn font_pattern() -> Seq<char> {
    "#font\\[([^\\]]+)\\]\\(((?:[^()]|\\([^()]*\\))+|[^)]+)\\)"@
}

/// The span that replaces a `#font` construct.
pub open spec fn font_template() -> Seq<char> {
    "<span style=\"font-family: '$1'\">$2</span>"@
}

/// The CommonMark extensions switched on: tables, strikethrough and task lists.
pub open spec fn gfm_options() -> u32 {
    (1u32 << 1u32) | (1u32 << 3u32) | (1u32 << 4u32)
}

/// `text` with every match of `pattern` replaced, or unchanged when the
/// pattern does not compile.
pub open spec fn expand(pattern: Seq<char>, text: Seq<char>, template: Seq<char>) -> Seq<char> {
    match regex_replaced(pattern, text, template) {
        Some(t) => t,
        None => text,
    }
}

/// What [`WebMD::render`] produces for `markdown`.
pub open spec fn webmd_render(markdown: Seq<char>) -> Seq<char> {
    commonmark_html(
        expand(grad_pattern(), expand(font_pattern(), markdown, font_template()), grad_template()),
        gfm_options(),
    )
}

/// A reusable renderer.
pub struct WebMD;

impl WebMD {
    pub fn new() -> (r: WebMD) {
        WebMD
    }

    /// Renders Markdown (with the `#font` and `#grad` extensions, expanded in
    /// that order so that either may hold the other) to HTML.
    pub fn render(&self, markdown_input: &str) -> (r: String)
        ensures
            r@ == webmd_render(markdown_input@),
    {
        let font = "#font\\[([^\\]]+)\\]\\(((?:[^()]|\\([^()]*\\))+|[^)]+)\\)";
        let font_rep = "<span style=\"font-family: '$1'\">$2</span>";
        let with_fonts = match regex_replace_all(font, markdown_input, font_rep) {
            Some(s) => s,
            None => String::from_str(markdown_input),
        };
        let grad = "#grad\\[((?:[^,\\]()]|\\([^()]*\\))+|[^,\\]]+),\\s*([^\\]]+)\\]\\(((?:[^()]|\\([^()]*\\))+|[^)]+)\\)";
        let grad_rep = "<span style=\"background: linear-gradient(to right, $1, $2); -webkit-background-clip: text; -webkit-text-fill-color: transparent; background-clip: text;\">$3</span>";
        let processed = match regex_replace_all(grad, with_fonts.as_str(), grad_rep) {
            Some(s) => s,
            None => with_fonts,
        };
        let options: u32 = (1u32 << 1u32) | (1u32 << 3u32) | (1u32 << 4u32);
        commonmark_to_html(processed.as_str(), options)
    }
}

} // verus!
