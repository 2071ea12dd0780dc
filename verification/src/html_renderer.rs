//! HTML rendering of the document tree.

use vstd::prelude::*;
use vstd::string::StringExecFns;
use crate::ast::{
    Alignment, Block, BlockV, Inline, InlineV, ListItem, ListItemV, block_view, blocks_view,
    cells_view, inline_view, inlines_view, item_view, items_view, lemma_blocks_view_take,
    lemma_cells_view_take, lemma_inlines_view_take, lemma_items_view_take, lemma_rows_view_take,
    opt_str_view, rows_view,
};
use crate::text::{
    char_is_alphanumeric, is_alphanumeric, lemma_take_drop_last, str_chars, string_chars,
};

verus! {

// ── Specification ────────────────────────────────────────────────────────────

/// A character escaped for HTML text.
pub open spec fn esc_html_char(c: char) -> Seq<char> {
    if c == '&' {
        "&amp;"@
    } else if c == '<' {
        "&lt;"@
    } else if c == '>' {
        "&gt;"@
    } else if c == '"' {
        "&quot;"@
    } else {
        seq![c]
    }
}

/// A character escaped for an attribute value.
pub open spec fn esc_attr_char(c: char) -> Seq<char> {
    if c == '&' {
        "&amp;"@
    } else if c == '"' {
        "&quot;"@
    } else {
        seq![c]
    }
}

/// `s` with `&`, `<`, `>` and `"` escaped.
pub open spec fn escape_html_spec(s: Seq<char>) -> Seq<char>
    decreases s.len(),
{
    if s.len() == 0 {
        Seq::empty()
    } else {
        escape_html_spec(s.drop_last()) + esc_html_char(s.last())
    }
}

/// `s` with `&` and `"` escaped.
pub open spec fn escape_attr_spec(s: Seq<char>) -> Seq<char>
    decreases s.len(),
{
    if s.len() == 0 {
        Seq::empty()
    } else {
        escape_attr_spec(s.drop_last()) + esc_attr_char(s.last())
    }
}

/// The decimal digit for `d < 10`.
pub open spec fn digit(d: nat) -> char {
    if d == 0 {
        '0'
    } else if d == 1 {
        '1'
    } else if d == 2 {
        '2'
    } else if d == 3 {
        '3'
    } else if d == 4 {
        '4'
    } else if d == 5 {
        '5'
    } else if d == 6 {
        '6'
    } else if d == 7 {
        '7'
    } else if d == 8 {
        '8'
    } else {
        '9'
    }
}

/// The decimal representation of `n`.
pub open spec fn decimal(n: nat) -> Seq<char>
    decreases n,
{
    if n < 10 {
        seq![digit(n)]
    } else {
        decimal(n / 10).push(digit(n % 10))
    }
}

/// Lower-casing of a string (`str::to_lowercase`), which rests on the Unicode
/// case tables.
pub uninterp spec fn str_lowercase(s: Seq<char>) -> Seq<char>;

/// One character of a lower-cased heading text in its slug: letters, digits
/// and `-` stay, a space becomes `-`, anything else is dropped.
pub open spec fn slug_char(c: char) -> Seq<char> {
    if char_is_alphanumeric(c) || c == '-' {
        seq![c]
    } else if c == ' ' {
        seq!['-']
    } else {
        Seq::empty()
    }
}

pub open spec fn slug_chars(s: Seq<char>) -> Seq<char>
    decreases s.len(),
{
    if s.len() == 0 {
        Seq::empty()
    } else {
        slug_chars(s.drop_last()) + slug_char(s.last())
    }
}

/// GitHub-style heading slug.
pub open spec fn slugify_spec(s: Seq<char>) -> Seq<char> {
    slug_chars(str_lowercase(s))
}

/// The text of an inline node without markup (used for heading ids).
pub open spec fn plain_inline(i: InlineV) -> Seq<char>
    decreases i,
{
    match i {
        InlineV::Text(s) => s,
        InlineV::Code(s) => s,
        InlineV::Emphasis(c) => plain_inlines(c),
        InlineV::Strong(c) => plain_inlines(c),
        InlineV::StrongEmphasis(c) => plain_inlines(c),
        InlineV::Strikethrough(c) => plain_inlines(c),
        InlineV::Link { children, .. } => plain_inlines(children),
        InlineV::Gradient { children, .. } => plain_inlines(children),
        InlineV::Font { children, .. } => plain_inlines(children),
        InlineV::SoftBreak => seq![' '],
        InlineV::HardBreak => seq![' '],
        _ => Seq::empty(),
    }
}

pub open spec fn plain_inlines(s: Seq<InlineV>) -> Seq<char>
    decreases s,
{
    if s.len() == 0 {
        Seq::empty()
    } else {
        plain_inlines(s.drop_last()) + plain_inline(s.last())
    }
}

/// ` title="…"` for an optional title.
pub open spec fn title_attr(t: Option<Seq<char>>) -> Seq<char> {
    match t {
        Some(t) => " title=\""@ + escape_attr_spec(t) + "\""@,
        None => Seq::empty(),
    }
}

/// The HTML of an inline node.
pub open spec fn render_inline_spec(i: InlineV) -> Seq<char>
    decreases i,
{
    match i {
        InlineV::Text(s) => escape_html_spec(s),
        InlineV::SoftBreak => " "@,
        InlineV::HardBreak => "<br />\n"@,
        InlineV::Code(s) => "<code>"@ + escape_html_spec(s) + "</code>"@,
        InlineV::Emphasis(c) => "<em>"@ + render_inlines_spec(c) + "</em>"@,
        InlineV::Strong(c) => "<strong>"@ + render_inlines_spec(c) + "</strong>"@,
        InlineV::StrongEmphasis(c) => "<strong><em>"@ + render_inlines_spec(c) + "</em></strong>"@,
        InlineV::Strikethrough(c) => "<del>"@ + render_inlines_spec(c) + "</del>"@,
        InlineV::Link { children, url, title } => "<a href=\""@ + escape_attr_spec(url) + "\""@
            + title_attr(title) + ">"@ + render_inlines_spec(children) + "</a>"@,
        InlineV::Image { alt, src, title } => "<img src=\""@ + escape_attr_spec(src) + "\" alt=\""@
            + escape_attr_spec(alt) + "\""@ + title_attr(title) + " />"@,
        InlineV::RawHtml(h) => h,
        InlineV::Gradient { from, to, children } => "<span style=\"background: linear-gradient(to right, "@
            + escape_attr_spec(from) + ", "@ + escape_attr_spec(to)
            + "); -webkit-background-clip: text; -webkit-text-fill-color: transparent; background-clip: text;\">"@
            + render_inlines_spec(children) + "</span>"@,
        InlineV::Font { family, children } => "<span style=\"font-family: '"@ + escape_attr_spec(
            family,
        ) + "'\">"@ + render_inlines_spec(children) + "</span>"@,
    }
}

/// The HTML of a sequence of inline nodes.
pub open spec fn render_inlines_spec(s: Seq<InlineV>) -> Seq<char>
    decreases s,
{
    if s.len() == 0 {
        Seq::empty()
    } else {
        render_inlines_spec(s.drop_last()) + render_inline_spec(s.last())
    }
}

/// The `style` attribute of a table cell.
pub open spec fn align_style_spec(a: Alignment) -> Seq<char> {
    match a {
        Alignment::Left => " style=\"text-align:left\""@,
        Alignment::Center => " style=\"text-align:center\""@,
        Alignment::Right => " style=\"text-align:right\""@,
        Alignment::Unaligned => Seq::empty(),
    }
}

/// The alignment of column `i` (unaligned past the listed ones).
pub open spec fn align_at(aligns: Seq<Alignment>, i: int) -> Alignment {
    if 0 <= i < aligns.len() {
        aligns[i]
    } else {
        Alignment::Unaligned
    }
}

/// One header (`head`) or body cell.
pub open spec fn cell_spec(c: Seq<InlineV>, a: Alignment, head: bool) -> Seq<char> {
    if head {
        "<th"@ + align_style_spec(a) + ">"@ + render_inlines_spec(c) + "</th>\n"@
    } else {
        "<td"@ + align_style_spec(a) + ">"@ + render_inlines_spec(c) + "</td>\n"@
    }
}

/// A row of cells, column `i` aligned by `aligns[i]`.
pub open spec fn render_cells_spec(cells: Seq<Seq<InlineV>>, aligns: Seq<Alignment>, head: bool) -> Seq<
    char,
>
    decreases cells.len(),
{
    if cells.len() == 0 {
        Seq::empty()
    } else {
        render_cells_spec(cells.drop_last(), aligns, head) + cell_spec(
            cells.last(),
            align_at(aligns, cells.len() - 1),
            head,
        )
    }
}

/// The body rows of a table.
pub open spec fn render_rows_spec(rows: Seq<Seq<Seq<InlineV>>>, aligns: Seq<Alignment>) -> Seq<char>
    decreases rows.len(),
{
    if rows.len() == 0 {
        Seq::empty()
    } else {
        render_rows_spec(rows.drop_last(), aligns) + "<tr>\n"@ + render_cells_spec(
            rows.last(),
            aligns,
            false,
        ) + "</tr>\n"@
    }
}

/// The `id` attribute of a heading whose text is not empty.
pub open spec fn heading_id(children: Seq<InlineV>) -> Seq<char> {
    let t = plain_inlines(children);
    if t.len() > 0 {
        " id=\""@ + slugify_spec(t) + "\""@
    } else {
        Seq::empty()
    }
}

/// The opening tag of a list.
pub open spec fn list_open(ordered: bool, start: u32) -> Seq<char> {
    if ordered {
        if start != 1 {
            "<ol start=\""@ + decimal(start as nat) + "\">\n"@
        } else {
            "<ol>\n"@
        }
    } else {
        "<ul>\n"@
    }
}

/// The closing tag of a list.
pub open spec fn list_close(ordered: bool) -> Seq<char> {
    if ordered {
        "</ol>\n"@
    } else {
        "</ul>\n"@
    }
}

/// The checkbox of a task-list item.
pub open spec fn checkbox_spec(checked: Option<bool>) -> Seq<char> {
    match checked {
        Some(true) => "<input type=\"checkbox\" checked disabled /> "@,
        Some(false) => "<input type=\"checkbox\" disabled /> "@,
        None => Seq::empty(),
    }
}

/// The HTML of a block.
pub open spec fn render_block_spec(b: BlockV) -> Seq<char>
    decreases b,
{
    match b {
        BlockV::Heading { level, children } => "<h"@ + decimal(level as nat) + heading_id(children)
            + ">"@ + render_inlines_spec(children) + "</h"@ + decimal(level as nat) + ">\n"@,
        BlockV::Paragraph(c) => "<p>"@ + render_inlines_spec(c) + "</p>\n"@,
        BlockV::BlockQuote(bs) => "<blockquote>\n"@ + render_blocks_spec(bs) + "</blockquote>\n"@,
        BlockV::List { ordered, start, tight, items } => list_open(ordered, start)
            + render_items_spec(items, tight) + list_close(ordered),
        BlockV::CodeBlock { lang, code } => match lang {
            Some(l) => "<pre><code class=\"language-"@ + escape_attr_spec(l) + "\">"@
                + escape_html_spec(code) + "</code></pre>\n"@,
            None => "<pre><code>"@ + escape_html_spec(code) + "</code></pre>\n"@,
        },
        BlockV::ThematicBreak => "<hr />\n"@,
        BlockV::HtmlBlock(h) => h + "\n"@,
        BlockV::Table { headers, alignments, rows } => "<table>\n<thead>\n<tr>\n"@
            + render_cells_spec(headers, alignments, true) + "</tr>\n</thead>\n<tbody>\n"@
            + render_rows_spec(rows, alignments) + "</tbody>\n</table>\n"@,
    }
}

/// The HTML of a sequence of blocks.
pub open spec fn render_blocks_spec(s: Seq<BlockV>) -> Seq<char>
    decreases s,
{
    if s.len() == 0 {
        Seq::empty()
    } else {
        render_blocks_spec(s.drop_last()) + render_block_spec(s.last())
    }
}

/// The children of an item of a tight list: paragraphs lose their `<p>`.
pub open spec fn render_tight_spec(s: Seq<BlockV>) -> Seq<char>
    decreases s,
{
    if s.len() == 0 {
        Seq::empty()
    } else {
        render_tight_spec(s.drop_last()) + match s.last() {
            BlockV::Paragraph(c) => render_inlines_spec(c),
            other => render_block_spec(other),
        }
    }
}

/// The HTML of a list item.
pub open spec fn render_item_spec(it: ListItemV, tight: bool) -> Seq<char>
    decreases it,
{
    "<li>"@ + checkbox_spec(it.checked) + (if tight {
        render_tight_spec(it.children)
    } else {
        "\n"@ + render_blocks_spec(it.children)
    }) + "</li>\n"@
}

/// The HTML of the items of a list.
pub open spec fn render_items_spec(s: Seq<ListItemV>, tight: bool) -> Seq<char>
    decreases s,
{
    if s.len() == 0 {
        Seq::empty()
    } else {
        render_items_spec(s.drop_last(), tight) + render_item_spec(s.last(), tight)
    }
}

// ── Lemmas ───────────────────────────────────────────────────────────────────

pub proof fn lemma_escape_html_push(s: Seq<char>, c: char)
    ensures
        escape_html_spec(s.push(c)) == escape_html_spec(s) + esc_html_char(c),
{
    assert(s.push(c).drop_last() =~= s);
}

pub proof fn lemma_escape_attr_push(s: Seq<char>, c: char)
    ensures
        escape_attr_spec(s.push(c)) == escape_attr_spec(s) + esc_attr_char(c),
{
    assert(s.push(c).drop_last() =~= s);
}

pub proof fn lemma_slug_chars_push(s: Seq<char>, c: char)
    ensures
        slug_chars(s.push(c)) == slug_chars(s) + slug_char(c),
{
    assert(s.push(c).drop_last() =~= s);
}

pub proof fn lemma_render_inlines_push(s: Seq<InlineV>, x: InlineV)
    ensures
        render_inlines_spec(s.push(x)) == render_inlines_spec(s) + render_inline_spec(x),
        plain_inlines(s.push(x)) == plain_inlines(s) + plain_inline(x),
{
    assert(s.push(x).drop_last() =~= s);
}

pub proof fn lemma_render_blocks_push(s: Seq<BlockV>, x: BlockV)
    ensures
        render_blocks_spec(s.push(x)) == render_blocks_spec(s) + render_block_spec(x),
        render_tight_spec(s.push(x)) == render_tight_spec(s) + match x {
            BlockV::Paragraph(c) => render_inlines_spec(c),
            other => render_block_spec(other),
        },
{
    assert(s.push(x).drop_last() =~= s);
}

pub proof fn lemma_render_items_push(s: Seq<ListItemV>, x: ListItemV, tight: bool)
    ensures
        render_items_spec(s.push(x), tight) == render_items_spec(s, tight) + render_item_spec(
            x,
            tight,
        ),
{
    assert(s.push(x).drop_last() =~= s);
}

pub proof fn lemma_render_cells_push(
    s: Seq<Seq<InlineV>>,
    x: Seq<InlineV>,
    aligns: Seq<Alignment>,
    head: bool,
)
    ensures
        render_cells_spec(s.push(x), aligns, head) == render_cells_spec(s, aligns, head)
            + cell_spec(x, align_at(aligns, s.len() as int), head),
{
    assert(s.push(x).drop_last() =~= s);
}

pub proof fn lemma_render_rows_push(
    s: Seq<Seq<Seq<InlineV>>>,
    x: Seq<Seq<InlineV>>,
    aligns: Seq<Alignment>,
)
    ensures
        render_rows_spec(s.push(x), aligns) == render_rows_spec(s, aligns) + "<tr>\n"@
            + render_cells_spec(x, aligns, false) + "</tr>\n"@,
{
    assert(s.push(x).drop_last() =~= s);
}

// ── Rendering ────────────────────────────────────────────────────────────────

/// Renders a document as HTML.
pub fn render_html(blocks: &[Block]) -> (r: String)
    ensures
        r@ == render_blocks_spec(blocks_view(blocks@)),
{
    let mut out = String::new();
    let mut i: usize = 0;
    assert(blocks@.take(0) =~= Seq::<Block>::empty());
    while i < blocks.len()
        invariant
            i <= blocks@.len(),
            out@ == render_blocks_spec(blocks_view(blocks@.take(i as int))),
        decreases blocks.len() - i,
    {
        proof {
            lemma_blocks_view_take(blocks@, i as int);
            lemma_render_blocks_push(
                blocks_view(blocks@.take(i as int)),
                block_view(blocks@[i as int]),
            );
        }
        render_block(&blocks[i], &mut out);
        i += 1;
    }
    assert(blocks@.take(blocks@.len() as int) =~= blocks@);
    out
}

/// `s` with `&`, `<`, `>` and `"` escaped.
pub fn escape_html(s: &str) -> (r: String)
    ensures
        r@ == escape_html_spec(s@),
{
    let chars = str_chars(s);
    let mut out = String::new();
    let mut i: usize = 0;
    assert(chars@.take(0) =~= Seq::<char>::empty());
    while i < chars.len()
        invariant
            i <= chars@.len(),
            out@ == escape_html_spec(chars@.take(i as int)),
        decreases chars.len() - i,
    {
        let c = chars[i];
        proof {
            lemma_take_drop_last(chars@, i + 1);
            assert(chars@.take(i + 1) =~= chars@.take(i as int).push(c));
            lemma_escape_html_push(chars@.take(i as int), c);
        }
        if c == '&' {
            out.append("&amp;");
        } else if c == '<' {
            out.append("&lt;");
        } else if c == '>' {
            out.append("&gt;");
        } else if c == '"' {
            out.append("&quot;");
        } else {
            out.push(c);
            assert(out@ =~= escape_html_spec(chars@.take(i as int)) + seq![c]);
        }
        i += 1;
    }
    assert(chars@.take(chars@.len() as int) =~= chars@);
    out
}

/// `s` with `&` and `"` escaped.
pub fn escape_attr(s: &str) -> (r: String)
    ensures
        r@ == escape_attr_spec(s@),
{
    let chars = str_chars(s);
    let mut out = String::new();
    let mut i: usize = 0;
    assert(chars@.take(0) =~= Seq::<char>::empty());
    while i < chars.len()
        invariant
            i <= chars@.len(),
            out@ == escape_attr_spec(chars@.take(i as int)),
        decreases chars.len() - i,
    {
        let c = chars[i];
        proof {
            assert(chars@.take(i + 1) =~= chars@.take(i as int).push(c));
            lemma_escape_attr_push(chars@.take(i as int), c);
        }
        if c == '&' {
            out.append("&amp;");
        } else if c == '"' {
            out.append("&quot;");
        } else {
            out.push(c);
            assert(out@ =~= escape_attr_spec(chars@.take(i as int)) + seq![c]);
        }
        i += 1;
    }
    assert(chars@.take(chars@.len() as int) =~= chars@);
    out
}

fn digit_char(d: u32) -> (c: char)
    requires
        d < 10,
    ensures
        c == digit(d as nat),
{
    if d == 0 {
        '0'
    } else if d == 1 {
        '1'
    } else if d == 2 {
        '2'
    } else if d == 3 {
        '3'
    } else if d == 4 {
        '4'
    } else if d == 5 {
        '5'
    } else if d == 6 {
        '6'
    } else if d == 7 {
        '7'
    } else if d == 8 {
        '8'
    } else {
        '9'
    }
}

/// Appends the decimal representation of `n`.
fn push_decimal(out: &mut String, n: u32)
    ensures
        final(out)@ == old(out)@ + decimal(n as nat),
    decreases n,
{
    if n >= 10 {
        push_decimal(out, n / 10);
    }
    out.push(digit_char(n % 10));
    proof {
        if n < 10 {
            assert(out@ =~= old(out)@ + decimal(n as nat));
        } else {
            assert(out@ =~= old(out)@ + decimal(n as nat));
        }
    }
}

/// `str::to_lowercase`, whose result rests on the Unicode case tables; the
/// contract names that result and says nothing more of it.
#[verifier::external_body]
fn to_lowercase(s: &str) -> (r: String)
    ensures
        r@ == str_lowercase(s@),
{
    s.to_lowercase()
}

/// GitHub-style heading slug: lower-case, spaces become `-`, characters other
/// than letters, digits and `-` are dropped.
pub fn slugify(s: &str) -> (r: String)
    ensures
        r@ == slugify_spec(s@),
{
    let low = to_lowercase(s);
    slug_of_lowercase(&low)
}

/// The slug of text that is already lower-case: letters, digits and `-` stay,
/// a space becomes `-`, anything else is dropped.
pub fn slug_of_lowercase(low: &String) -> (r: String)
    ensures
        r@ == slug_chars(low@),
{
    let cs = string_chars(low);
    let mut out = String::new();
    let mut i: usize = 0;
    assert(cs@.take(0) =~= Seq::<char>::empty());
    while i < cs.len()
        invariant
            i <= cs@.len(),
            cs@ == low@,
            out@ == slug_chars(cs@.take(i as int)),
        decreases cs.len() - i,
    {
        let c = cs[i];
        proof {
            assert(cs@.take(i + 1) =~= cs@.take(i as int).push(c));
            lemma_slug_chars_push(cs@.take(i as int), c);
        }
        if is_alphanumeric(c) || c == '-' {
            out.push(c);
            assert(out@ =~= slug_chars(cs@.take(i as int)) + seq![c]);
        } else if c == ' ' {
            out.push('-');
            assert(out@ =~= slug_chars(cs@.take(i as int)) + seq!['-']);
        } else {
            assert(out@ =~= slug_chars(cs@.take(i as int)) + Seq::<char>::empty());
        }
        i += 1;
    }
    assert(cs@.take(cs@.len() as int) =~= cs@);
    out
}

/// The text of inline nodes without markup.
pub fn plain_text(inlines: &Vec<Inline>) -> (r: String)
    ensures
        r@ == plain_inlines(inlines_view(inlines@)),
    decreases inlines,
{
    let mut out = String::new();
    let mut i: usize = 0;
    assert(inlines@.take(0) =~= Seq::<Inline>::empty());
    while i < inlines.len()
        invariant
            i <= inlines@.len(),
            out@ == plain_inlines(inlines_view(inlines@.take(i as int))),
        decreases inlines.len() - i,
    {
        proof {
            lemma_inlines_view_take(inlines@, i as int);
            lemma_render_inlines_push(
                inlines_view(inlines@.take(i as int)),
                inline_view(inlines@[i as int]),
            );
        }
        let ghost before = out@;
        match &inlines[i] {
            Inline::Text(s) => out.append(s.as_str()),
            Inline::Code(s) => out.append(s.as_str()),
            Inline::Emphasis(c) => {
                let t = plain_text(c);
                out.append(t.as_str());
            },
            Inline::Strong(c) => {
                let t = plain_text(c);
                out.append(t.as_str());
            },
            Inline::StrongEmphasis(c) => {
                let t = plain_text(c);
                out.append(t.as_str());
            },
            Inline::Strikethrough(c) => {
                let t = plain_text(c);
                out.append(t.as_str());
            },
            Inline::Link { children, .. } => {
                let t = plain_text(children);
                out.append(t.as_str());
            },
            Inline::Gradient { children, .. } => {
                let t = plain_text(children);
                out.append(t.as_str());
            },
            Inline::Font { children, .. } => {
                let t = plain_text(children);
                out.append(t.as_str());
            },
            Inline::SoftBreak => out.push(' '),
            Inline::HardBreak => out.push(' '),
            _ => {},
        }
        assert(out@ =~= before + plain_inline(inline_view(inlines@[i as int])));
        i += 1;
    }
    assert(inlines@.take(inlines@.len() as int) =~= inlines@);
    out
}

/// The `style` attribute of a table cell with alignment `a`.
fn align_style(a: &Alignment) -> (r: &'static str)
    ensures
        r@ == align_style_spec(*a),
{
    match a {
        Alignment::Left => " style=\"text-align:left\"",
        Alignment::Center => " style=\"text-align:center\"",
        Alignment::Right => " style=\"text-align:right\"",
        Alignment::Unaligned => {
            proof {
                reveal_strlit("");
            }
            assert(""@ =~= Seq::<char>::empty());
            ""
        },
    }
}

/// Appends the HTML of each block.
fn render_blocks(blocks: &Vec<Block>, out: &mut String)
    ensures
        final(out)@ == old(out)@ + render_blocks_spec(blocks_view(blocks@)),
    decreases blocks,
{
    let mut i: usize = 0;
    assert(blocks@.take(0) =~= Seq::<Block>::empty());
    assert(old(out)@ + Seq::<char>::empty() =~= old(out)@);
    while i < blocks.len()
        invariant
            i <= blocks@.len(),
            out@ == old(out)@ + render_blocks_spec(blocks_view(blocks@.take(i as int))),
        decreases blocks.len() - i,
    {
        proof {
            lemma_blocks_view_take(blocks@, i as int);
            lemma_render_blocks_push(
                blocks_view(blocks@.take(i as int)),
                block_view(blocks@[i as int]),
            );
        }
        let ghost before = out@;
        render_block(&blocks[i], out);
        assert(out@ =~= old(out)@ + render_blocks_spec(blocks_view(blocks@.take(i + 1))));
        i += 1;
    }
    assert(blocks@.take(blocks@.len() as int) =~= blocks@);
}

/// Appends the HTML of one block.
pub fn render_block(block: &Block, out: &mut String)
    ensures
        final(out)@ == old(out)@ + render_block_spec(block_view(*block)),
    decreases block,
{
    match block {
        Block::Heading { level, children } => {
            out.append("<h");
            push_decimal(out, *level as u32);
            let text = plain_text(children);
            let tc = string_chars(&text);
            let ghost mid = out@;
            if tc.len() > 0 {
                let slug = slugify(text.as_str());
                out.append(" id=\"");
                out.append(slug.as_str());
                out.append("\"");
            }
            assert(out@ =~= mid + heading_id(inlines_view(children@)));
            out.append(">");
            render_inlines(children, out);
            out.append("</h");
            push_decimal(out, *level as u32);
            out.append(">\n");
        },
        Block::Paragraph(children) => {
            out.append("<p>");
            render_inlines(children, out);
            out.append("</p>\n");
        },
        Block::BlockQuote(children) => {
            out.append("<blockquote>\n");
            render_blocks(children, out);
            out.append("</blockquote>\n");
        },
        Block::List { ordered, start, tight, items } => {
            if *ordered {
                if *start != 1 {
                    out.append("<ol start=\"");
                    push_decimal(out, *start);
                    out.append("\">\n");
                } else {
                    out.append("<ol>\n");
                }
            } else {
                out.append("<ul>\n");
            }
            let ghost mid = out@;
            let mut i: usize = 0;
            assert(items@.take(0) =~= Seq::<ListItem>::empty());
            assert(mid + Seq::<char>::empty() =~= mid);
            assert(decreases_to!(*block => *items));
            while i < items.len()
                invariant
                    decreases_to!(*block => *items),
                    i <= items@.len(),
                    out@ == mid + render_items_spec(items_view(items@.take(i as int)), *tight),
                decreases items.len() - i,
            {
                proof {
                    lemma_items_view_take(items@, i as int);
                    lemma_render_items_push(
                        items_view(items@.take(i as int)),
                        item_view(items@[i as int]),
                        *tight,
                    );
                }
                proof {
                    broadcast use vstd::std_specs::vec::group_vec_axioms;

                    assert(decreases_to!(*items => items[i as int]));
                }
                render_list_item(&items[i], *tight, out);
                assert(out@ =~= mid + render_items_spec(items_view(items@.take(i + 1)), *tight));
                i += 1;
            }
            assert(items@.take(items@.len() as int) =~= items@);
            if *ordered {
                out.append("</ol>\n");
            } else {
                out.append("</ul>\n");
            }
        },
        Block::CodeBlock { lang, code } => {
            match lang {
                Some(lang_str) => {
                    out.append("<pre><code class=\"language-");
                    let a = escape_attr(lang_str.as_str());
                    out.append(a.as_str());
                    out.append("\">");
                    let e = escape_html(code.as_str());
                    out.append(e.as_str());
                    out.append("</code></pre>\n");
                },
                None => {
                    out.append("<pre><code>");
                    let e = escape_html(code.as_str());
                    out.append(e.as_str());
                    out.append("</code></pre>\n");
                },
            }
        },
        Block::ThematicBreak => {
            out.append("<hr />\n");
        },
        Block::HtmlBlock(html) => {
            out.append(html.as_str());
            out.append("\n");
        },
        Block::Table { headers, alignments, rows } => {
            out.append("<table>\n<thead>\n<tr>\n");
            render_cells(headers, alignments, true, out);
            out.append("</tr>\n</thead>\n<tbody>\n");
            let ghost mid = out@;
            let mut r: usize = 0;
            assert(rows@.take(0) =~= Seq::<Vec<Vec<Inline>>>::empty());
            assert(mid + Seq::<char>::empty() =~= mid);
            while r < rows.len()
                invariant
                    r <= rows@.len(),
                    out@ == mid + render_rows_spec(rows_view(rows@.take(r as int)), alignments@),
                decreases rows.len() - r,
            {
                proof {
                    lemma_rows_view_take(rows@, r as int);
                    lemma_render_rows_push(
                        rows_view(rows@.take(r as int)),
                        cells_view(rows@[r as int]@),
                        alignments@,
                    );
                }
                out.append("<tr>\n");
                render_cells(&rows[r], alignments, false, out);
                out.append("</tr>\n");
                assert(out@ =~= mid + render_rows_spec(
                    rows_view(rows@.take(r + 1)),
                    alignments@,
                ));
                r += 1;
            }
            assert(rows@.take(rows@.len() as int) =~= rows@);
            out.append("</tbody>\n</table>\n");
        },
    }
}

/// Appends a row of header (`head`) or body cells.
fn render_cells(cells: &Vec<Vec<Inline>>, alignments: &Vec<Alignment>, head: bool, out: &mut String)
    ensures
        final(out)@ == old(out)@ + render_cells_spec(cells_view(cells@), alignments@, head),
    decreases cells,
{
    let mut i: usize = 0;
    assert(cells@.take(0) =~= Seq::<Vec<Inline>>::empty());
    assert(old(out)@ + Seq::<char>::empty() =~= old(out)@);
    while i < cells.len()
        invariant
            i <= cells@.len(),
            out@ == old(out)@ + render_cells_spec(
                cells_view(cells@.take(i as int)),
                alignments@,
                head,
            ),
        decreases cells.len() - i,
    {
        proof {
            lemma_cells_view_take(cells@, i as int);
            crate::ast::lemma_cells_view_len(cells@.take(i as int));
            lemma_render_cells_push(
                cells_view(cells@.take(i as int)),
                inlines_view(cells@[i as int]@),
                alignments@,
                head,
            );
        }
        let align = if i < alignments.len() {
            alignments[i]
        } else {
            Alignment::Unaligned
        };
        let style = align_style(&align);
        if head {
            out.append("<th");
        } else {
            out.append("<td");
        }
        out.append(style);
        out.append(">");
        render_inlines(&cells[i], out);
        if head {
            out.append("</th>\n");
        } else {
            out.append("</td>\n");
        }
        assert(out@ =~= old(out)@ + render_cells_spec(
            cells_view(cells@.take(i + 1)),
            alignments@,
            head,
        ));
        i += 1;
    }
    assert(cells@.take(cells@.len() as int) =~= cells@);
}

/// Appends the HTML of a list item.
fn render_list_item(item: &ListItem, tight: bool, out: &mut String)
    ensures
        final(out)@ == old(out)@ + render_item_spec(item_view(*item), tight),
    decreases item,
{
    out.append("<li>");
    match item.checked {
        Some(true) => out.append("<input type=\"checkbox\" checked disabled /> "),
        Some(false) => out.append("<input type=\"checkbox\" disabled /> "),
        None => {},
    }
    let ghost mid = out@;
    assert(out@ =~= old(out)@ + "<li>"@ + checkbox_spec(item.checked));
    if tight {
        let mut j: usize = 0;
        assert(item.children@.take(0) =~= Seq::<Block>::empty());
        assert(mid + Seq::<char>::empty() =~= mid);
        while j < item.children.len()
            invariant
                j <= item.children@.len(),
                out@ == mid + render_tight_spec(blocks_view(item.children@.take(j as int))),
            decreases item.children.len() - j,
        {
            proof {
                lemma_blocks_view_take(item.children@, j as int);
                lemma_render_blocks_push(
                    blocks_view(item.children@.take(j as int)),
                    block_view(item.children@[j as int]),
                );
            }
            match &item.children[j] {
                Block::Paragraph(inlines) => render_inlines(inlines, out),
                other => render_block(other, out),
            }
            assert(out@ =~= mid + render_tight_spec(blocks_view(item.children@.take(j + 1))));
            j += 1;
        }
        assert(item.children@.take(item.children@.len() as int) =~= item.children@);
    } else {
        out.append("\n");
        render_blocks(&item.children, out);
    }
    out.append("</li>\n");
}

/// Appends the HTML of each inline node.
fn render_inlines(inlines: &Vec<Inline>, out: &mut String)
    ensures
        final(out)@ == old(out)@ + render_inlines_spec(inlines_view(inlines@)),
    decreases inlines,
{
    let mut i: usize = 0;
    assert(inlines@.take(0) =~= Seq::<Inline>::empty());
    assert(old(out)@ + Seq::<char>::empty() =~= old(out)@);
    while i < inlines.len()
        invariant
            i <= inlines@.len(),
            out@ == old(out)@ + render_inlines_spec(inlines_view(inlines@.take(i as int))),
        decreases inlines.len() - i,
    {
        proof {
            lemma_inlines_view_take(inlines@, i as int);
            lemma_render_inlines_push(
                inlines_view(inlines@.take(i as int)),
                inline_view(inlines@[i as int]),
            );
        }
        render_inline(&inlines[i], out);
        assert(out@ =~= old(out)@ + render_inlines_spec(inlines_view(inlines@.take(i + 1))));
        i += 1;
    }
    assert(inlines@.take(inlines@.len() as int) =~= inlines@);
}

/// Appends ` title="…"` for an optional title.
fn push_title(title: &Option<String>, out: &mut String)
    ensures
        final(out)@ == old(out)@ + title_attr(opt_str_view(*title)),
{
    match title {
        Some(t) => {
            out.append(" title=\"");
            let a = escape_attr(t.as_str());
            out.append(a.as_str());
            out.append("\"");
        },
        None => {
            assert(out@ =~= old(out)@ + Seq::<char>::empty());
        },
    }
}

/// Appends the HTML of one inline node.
fn render_inline(inline: &Inline, out: &mut String)
    ensures
        final(out)@ == old(out)@ + render_inline_spec(inline_view(*inline)),
    decreases inline,
{
    match inline {
        Inline::Text(s) => {
            let e = escape_html(s.as_str());
            out.append(e.as_str());
        },
        Inline::SoftBreak => out.append(" "),
        Inline::HardBreak => out.append("<br />\n"),
        Inline::Code(s) => {
            out.append("<code>");
            let e = escape_html(s.as_str());
            out.append(e.as_str());
            out.append("</code>");
        },
        Inline::Emphasis(children) => {
            out.append("<em>");
            render_inlines(children, out);
            out.append("</em>");
        },
        Inline::Strong(children) => {
            out.append("<strong>");
            render_inlines(children, out);
            out.append("</strong>");
        },
        Inline::StrongEmphasis(children) => {
            out.append("<strong><em>");
            render_inlines(children, out);
            out.append("</em></strong>");
        },
        Inline::Strikethrough(children) => {
            out.append("<del>");
            render_inlines(children, out);
            out.append("</del>");
        },
        Inline::Link { children, url, title } => {
            out.append("<a href=\"");
            let u = escape_attr(url.as_str());
            out.append(u.as_str());
            out.append("\"");
            push_title(title, out);
            out.append(">");
            render_inlines(children, out);
            out.append("</a>");
        },
        Inline::Image { alt, src, title } => {
            out.append("<img src=\"");
            let s = escape_attr(src.as_str());
            out.append(s.as_str());
            out.append("\" alt=\"");
            let a = escape_attr(alt.as_str());
            out.append(a.as_str());
            out.append("\"");
            push_title(title, out);
            out.append(" />");
        },
        Inline::RawHtml(html) => out.append(html.as_str()),
        Inline::Gradient { from, to, children } => {
            out.append("<span style=\"background: linear-gradient(to right, ");
            let f = escape_attr(from.as_str());
            out.append(f.as_str());
            out.append(", ");
            let t = escape_attr(to.as_str());
            out.append(t.as_str());
            out.append(
                "); -webkit-background-clip: text; -webkit-text-fill-color: transparent; background-clip: text;\">",
            );
            render_inlines(children, out);
            out.append("</span>");
        },
        Inline::Font { family, children } => {
            out.append("<span style=\"font-family: '");
            let f = escape_attr(family.as_str());
            out.append(f.as_str());
            out.append("'\">");
            render_inlines(children, out);
            out.append("</span>");
        },
    }
    assert(out@ =~= old(out)@ + render_inline_spec(inline_view(*inline)));
}

} // verus!
