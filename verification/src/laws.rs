//! Properties of the parser and the renderer as a whole.

use vstd::prelude::*;
use crate::ast::{BlockV, InlineV, ListItemV};
use crate::block_parser::{
    all_char, atx_heading, blocks_of, bq_collect, count_char, fence, fence_end, fenced_spec,
    indented_spec,
    item_content, lemma_bq_size, lemma_item_size, lemma_msize_mono, lemma_skip_blank,
    lemma_text_lines_size, list_loop, list_spec, msize, ordered, para_collect, para_spec,
    parse_one, parse_seq, row_collect, cells_inl, table_cells, skip_blank, table_spec, text_lines,
    thematic, unordered,
};
use crate::html_renderer::{
    esc_attr_char, esc_html_char, escape_attr_spec, escape_html_spec, heading_id, plain_inlines,
    render_blocks_spec,
    render_inlines_spec, slug_char, slug_chars,
};
use crate::inline_parser::{
    angle_spec, attempt, code_content, delim_close, delim_step, emph_node, flush_spec, font_spec,
    grad_spec, inl_loop, inl_step, is_ascii_punct, lemma_delim_close, lemma_match_close,
    link_spec, match_close, parse_inl, stop_at, url_title, color_split, text_close, lemma_text_close,
};
use crate::text::{
    char_is_alphanumeric, ends_with, find_seq, first_index_from, is_blank, is_ws, join,
    last_index, leading_spaces, lemma_find_seq, lemma_first_index_from, repeat, replace_cr,
    replace_crlf, run_len, split, split_from, starts_with, trim, trim_end, trim_end_char,
    trim_start, trim_start_char,
};

verus! {

// ── Escaping ─────────────────────────────────────────────────────────────────

proof fn lemma_esc_html_char(c: char)
    ensures
        forall|i: int|
            0 <= i < esc_html_char(c).len() ==> {
                let d = #[trigger] esc_html_char(c)[i];
                d != '<' && d != '>' && d != '"'
            },
{
    reveal_strlit("&amp;");
    reveal_strlit("&lt;");
    reveal_strlit("&gt;");
    reveal_strlit("&quot;");
}

/// Escaped text holds no `<`, `>` or `"`: the text of text nodes, code spans
/// and code blocks can neither open a tag nor end an attribute in the output.
pub proof fn law_escape_html_no_markup(s: Seq<char>)
    ensures
        forall|i: int|
            0 <= i < escape_html_spec(s).len() ==> {
                let d = #[trigger] escape_html_spec(s)[i];
                d != '<' && d != '>' && d != '"'
            },
    decreases s.len(),
{
    if s.len() > 0 {
        law_escape_html_no_markup(s.drop_last());
        lemma_esc_html_char(s.last());
        let a = escape_html_spec(s.drop_last());
        let b = esc_html_char(s.last());
        assert forall|i: int| 0 <= i < escape_html_spec(s).len() implies {
            let d = #[trigger] escape_html_spec(s)[i];
            d != '<' && d != '>' && d != '"'
        } by {
            if i < a.len() {
                assert(escape_html_spec(s)[i] == a[i]);
            } else {
                assert(escape_html_spec(s)[i] == b[i - a.len()]);
            }
        }
    }
}

/// The text that HTML escapes stand for: `&amp;`, `&lt;`, `&gt;` and `&quot;`
/// read as `&`, `<`, `>` and `"`; any other character stands for itself.
pub open spec fn unescape_html(s: Seq<char>) -> Seq<char>
    decreases s.len(),
{
    if s.len() == 0 {
        Seq::empty()
    } else if starts_with(s, seq!['&', 'a', 'm', 'p', ';']) {
        seq!['&'] + unescape_html(s.skip(5))
    } else if starts_with(s, seq!['&', 'l', 't', ';']) {
        seq!['<'] + unescape_html(s.skip(4))
    } else if starts_with(s, seq!['&', 'g', 't', ';']) {
        seq!['>'] + unescape_html(s.skip(4))
    } else if starts_with(s, seq!['&', 'q', 'u', 'o', 't', ';']) {
        seq!['"'] + unescape_html(s.skip(6))
    } else {
        seq![s[0]] + unescape_html(s.skip(1))
    }
}

proof fn lemma_escape_concat(a: Seq<char>, b: Seq<char>)
    ensures
        escape_html_spec(a + b) == escape_html_spec(a) + escape_html_spec(b),
    decreases b.len(),
{
    if b.len() == 0 {
        assert(a + b =~= a);
    } else {
        lemma_escape_concat(a, b.drop_last());
        assert((a + b).drop_last() =~= a + b.drop_last());
        assert((a + b).last() == b.last());
    }
}

proof fn lemma_unescape_one(c: char, rest: Seq<char>)
    ensures
        unescape_html(esc_html_char(c) + rest) == seq![c] + unescape_html(rest),
{
    reveal_strlit("&amp;");
    reveal_strlit("&lt;");
    reveal_strlit("&gt;");
    reveal_strlit("&quot;");
    let e = esc_html_char(c);
    let t = e + rest;
    if c == '&' {
        assert(e =~= seq!['&', 'a', 'm', 'p', ';']);
        assert(t.take(5) =~= e);
        assert(t.skip(5) =~= rest);
    } else if c == '<' {
        assert(e =~= seq!['&', 'l', 't', ';']);
        assert(t[1] == 'l');
        assert(t.take(4) =~= e);
        assert(t.skip(4) =~= rest);
    } else if c == '>' {
        assert(e =~= seq!['&', 'g', 't', ';']);
        assert(t[1] == 'g');
        assert(t.take(4) =~= e);
        assert(t.skip(4) =~= rest);
    } else if c == '"' {
        assert(e =~= seq!['&', 'q', 'u', 'o', 't', ';']);
        assert(t[1] == 'q');
        assert(t.take(6) =~= e);
        assert(t.skip(6) =~= rest);
    } else {
        assert(t[0] == c);
        assert(t.skip(1) =~= rest);
    }
}

/// Reading the escapes back gives the original text: `escape_html` loses
/// nothing.
pub proof fn law_escape_html_round_trip(s: Seq<char>)
    ensures
        unescape_html(escape_html_spec(s)) == s,
    decreases s.len(),
{
    if s.len() > 0 {
        let rest = s.skip(1);
        assert(seq![s[0]] + rest =~= s);
        lemma_escape_concat(seq![s[0]], rest);
        assert(seq![s[0]].drop_last() =~= Seq::<char>::empty());
        assert(escape_html_spec(seq![s[0]]) == escape_html_spec(Seq::<char>::empty())
            + esc_html_char(s[0]));
        assert(Seq::<char>::empty() + esc_html_char(s[0]) =~= esc_html_char(s[0]));
        lemma_unescape_one(s[0], escape_html_spec(rest));
        law_escape_html_round_trip(rest);
    }
}

proof fn lemma_esc_attr_char(c: char)
    ensures
        forall|i: int| 0 <= i < esc_attr_char(c).len() ==> #[trigger] esc_attr_char(c)[i] != '"',
{
    reveal_strlit("&amp;");
    reveal_strlit("&quot;");
}

/// An escaped attribute value holds no `"`: URLs, titles, alt texts, colours,
/// font families and code languages stay inside their attribute.
pub proof fn law_escape_attr_no_quote(s: Seq<char>)
    ensures
        forall|i: int| 0 <= i < escape_attr_spec(s).len() ==> #[trigger] escape_attr_spec(s)[i] != '"',
    decreases s.len(),
{
    if s.len() > 0 {
        law_escape_attr_no_quote(s.drop_last());
        lemma_esc_attr_char(s.last());
        let a = escape_attr_spec(s.drop_last());
        let b = esc_attr_char(s.last());
        assert forall|i: int| 0 <= i < escape_attr_spec(s).len() implies #[trigger] escape_attr_spec(
            s,
        )[i] != '"' by {
            if i < a.len() {
                assert(escape_attr_spec(s)[i] == a[i]);
            } else {
                assert(escape_attr_spec(s)[i] == b[i - a.len()]);
            }
        }
    }
}

/// A heading slug holds only letters, digits and `-`.
pub proof fn law_slug_chars(t: Seq<char>)
    ensures
        forall|i: int|
            0 <= i < slug_chars(t).len() ==> char_is_alphanumeric(#[trigger] slug_chars(t)[i])
                || slug_chars(t)[i] == '-',
    decreases t.len(),
{
    if t.len() > 0 {
        law_slug_chars(t.drop_last());
        let a = slug_chars(t.drop_last());
        let b = slug_char(t.last());
        assert forall|i: int| 0 <= i < slug_chars(t).len() implies char_is_alphanumeric(
            #[trigger] slug_chars(t)[i],
        ) || slug_chars(t)[i] == '-' by {
            if i < a.len() {
                assert(slug_chars(t)[i] == a[i]);
            } else {
                assert(slug_chars(t)[i] == b[i - a.len()]);
            }
        }
    }
}

// ── Rendering ────────────────────────────────────────────────────────────────

/// Rendering a document is rendering its blocks one after the other: the HTML
/// of `a` followed by `b` is the HTML of `a` followed by the HTML of `b`.
pub proof fn law_render_concat(a: Seq<BlockV>, b: Seq<BlockV>)
    ensures
        render_blocks_spec(a + b) == render_blocks_spec(a) + render_blocks_spec(b),
    decreases b.len(),
{
    if b.len() == 0 {
        assert(a + b =~= a);
        assert(render_blocks_spec(a) + Seq::<char>::empty() =~= render_blocks_spec(a));
    } else {
        assert((a + b).drop_last() =~= a + b.drop_last());
        law_render_concat(a, b.drop_last());
        assert(render_blocks_spec(a + b) =~= render_blocks_spec(a) + render_blocks_spec(b));
    }
}

// ── Inline parsing ───────────────────────────────────────────────────────────

/// A character with no inline meaning of its own.
pub open spec fn plain_char(c: char) -> bool {
    !(c == '\\' || c == '`' || c == '*' || c == '_' || c == '~' || c == '!' || c == '[' || c
        == '<' || c == '#' || c == '\n')
}

proof fn lemma_plain_loop(s: Seq<char>, pos: int)
    requires
        s.len() > 0,
        0 <= pos <= s.len(),
        forall|i: int| 0 <= i < s.len() ==> plain_char(#[trigger] s[i]),
    ensures
        inl_loop(s, None, pos, s.take(pos), Seq::empty()) == seq![InlineV::Text(s)],
    decreases s.len() - pos,
{
    if pos < s.len() {
        assert(plain_char(s[pos]));
        assert(s.take(pos).push(s[pos]) =~= s.take(pos + 1));
        assert(inl_step(s, pos, s.take(pos), Seq::empty()) == (
            pos + 1,
            s.take(pos + 1),
            Seq::<InlineV>::empty(),
        ));
        lemma_plain_loop(s, pos + 1);
    } else {
        assert(s.take(pos) =~= s);
    }
}

/// Text without inline markup characters is one text node, and it renders
/// as its HTML escape.
pub proof fn law_plain_text(s: Seq<char>)
    requires
        s.len() > 0,
        forall|i: int| 0 <= i < s.len() ==> plain_char(#[trigger] s[i]),
    ensures
        parse_inl(s) == seq![InlineV::Text(s)],
        render_inlines_spec(parse_inl(s)) == escape_html_spec(s),
{
    assert(s.take(0) =~= Seq::<char>::empty());
    lemma_plain_loop(s, 0);
    let one = seq![InlineV::Text(s)];
    assert(one.drop_last() =~= Seq::<InlineV>::empty());
    assert(render_inlines_spec(Seq::<InlineV>::empty()) == Seq::<char>::empty());
    assert(crate::html_renderer::render_inline_spec(InlineV::Text(s)) == escape_html_spec(s));
    assert(render_inlines_spec(one) =~= escape_html_spec(s));
}

/// The ASCII punctuation characters: `!` to `/`, `:` to `@`, `[` to `` ` `` and
/// `{` to `~` (U+0021–U+002F, U+003A–U+0040, U+005B–U+0060, U+007B–U+007E).
pub open spec fn ascii_punctuation(c: char) -> bool {
    ('!' <= c && c <= '/') || (':' <= c && c <= '@') || ('[' <= c && c <= '`') || ('{' <= c && c
        <= '~')
}

/// A backslash before ASCII punctuation (`.` included) makes it literal text:
/// the backslash goes and the character stays.
pub proof fn law_backslash_escape(c: char)
    requires
        ascii_punctuation(c),
    ensures
        parse_inl(seq!['\\', c]) == seq![InlineV::Text(seq![c])],
{
    let s = seq!['\\', c];
    assert(is_ascii_punct(c));
    assert(inl_step(s, 0, Seq::empty(), Seq::empty()) == (
        2int,
        seq![c],
        Seq::<InlineV>::empty(),
    )) by {
        assert(Seq::<char>::empty().push(c) =~= seq![c]);
    }
    assert(inl_loop(s, None, 2, seq![c], Seq::empty()) == flush_spec(seq![c], Seq::empty()));
}

/// A backslash before anything but ASCII punctuation or a line feed is kept,
/// together with the character after it.
pub proof fn law_backslash_kept(c: char)
    requires
        !ascii_punctuation(c),
        c != '\n',
    ensures
        parse_inl(seq!['\\', c]) == seq![InlineV::Text(seq!['\\', c])],
{
    let s = seq!['\\', c];
    assert(!is_ascii_punct(c));
    assert(inl_step(s, 0, Seq::empty(), Seq::empty()) == (
        1int,
        seq!['\\'],
        Seq::<InlineV>::empty(),
    )) by {
        assert(Seq::<char>::empty().push('\\') =~= seq!['\\']);
    }
    assert(inl_step(s, 1, seq!['\\'], Seq::empty()) == (
        2int,
        seq!['\\', c],
        Seq::<InlineV>::empty(),
    )) by {
        assert(seq!['\\'].push(c) =~= seq!['\\', c]);
    }
    assert(inl_loop(s, None, 1, seq!['\\'], Seq::empty()) == inl_loop(
        s,
        None,
        2,
        seq!['\\', c],
        Seq::empty(),
    ));
    assert(inl_loop(s, None, 2, seq!['\\', c], Seq::empty()) == flush_spec(
        seq!['\\', c],
        Seq::empty(),
    ));
}

/// A backslash at the end of a line is a hard line break.
pub proof fn law_backslash_hard_break()
    ensures
        parse_inl(seq!['\\', '\n']) == seq![InlineV::HardBreak],
{
    let s = seq!['\\', '\n'];
    assert(flush_spec(Seq::empty(), Seq::empty()).push(InlineV::HardBreak) =~= seq![
        InlineV::HardBreak,
    ]);
    assert(inl_step(s, 0, Seq::empty(), Seq::empty()) == (
        2int,
        Seq::<char>::empty(),
        seq![InlineV::HardBreak],
    ));
    assert(inl_loop(s, None, 2, Seq::empty(), seq![InlineV::HardBreak]) == seq![
        InlineV::HardBreak,
    ]);
}

// ── Line endings ─────────────────────────────────────────────────────────────

proof fn lemma_no_cr_fixed(u: Seq<char>)
    requires
        !u.contains('\r'),
    ensures
        replace_crlf(u) == u,
        replace_cr(u) == u,
    decreases u.len(),
{
    assert(replace_cr(u) =~= u);
    if u.len() > 0 {
        assert(u[0] != '\r');
        assert(!u.drop_first().contains('\r')) by {
            if u.drop_first().contains('\r') {
                let k = choose|k: int| 0 <= k < u.drop_first().len() && u.drop_first()[k] == '\r';
                assert(u[k + 1] == '\r');
            }
        }
        lemma_no_cr_fixed(u.drop_first());
        assert(seq![u[0]] + u.drop_first() =~= u);
    }
}

/// Windows (`\r\n`), old Mac (`\r`) and Unix (`\n`) line endings parse alike:
/// a text parses as the same text with its line endings normalised to `\n`.
pub proof fn law_line_endings(t: Seq<char>)
    ensures
        blocks_of(replace_cr(replace_crlf(t))) == blocks_of(t),
{
    let n = replace_cr(replace_crlf(t));
    assert(!n.contains('\r')) by {
        if n.contains('\r') {
            let k = choose|k: int| 0 <= k < n.len() && n[k] == '\r';
            assert(n[k] == (if replace_crlf(t)[k] == '\r' {
                '\n'
            } else {
                replace_crlf(t)[k]
            }));
        }
    }
    lemma_no_cr_fixed(n);
    assert(text_lines(n) == text_lines(t));
}

// ── Heading levels ───────────────────────────────────────────────────────────

/// Every heading in `b`, nested ones included, has a level from 1 to 6.
pub open spec fn heading_levels_ok(b: BlockV) -> bool
    decreases b,
{
    match b {
        BlockV::Heading { level, .. } => 1 <= level <= 6,
        BlockV::BlockQuote(bs) => blocks_levels_ok(bs),
        BlockV::List { items, .. } => items_levels_ok(items),
        _ => true,
    }
}

pub open spec fn blocks_levels_ok(s: Seq<BlockV>) -> bool
    decreases s,
{
    if s.len() == 0 {
        true
    } else {
        blocks_levels_ok(s.drop_last()) && heading_levels_ok(s.last())
    }
}

pub open spec fn items_levels_ok(s: Seq<ListItemV>) -> bool
    decreases s,
{
    if s.len() == 0 {
        true
    } else {
        items_levels_ok(s.drop_last()) && blocks_levels_ok(s.last().children)
    }
}

proof fn lemma_blocks_levels_cons(b: BlockV, s: Seq<BlockV>)
    requires
        heading_levels_ok(b),
        blocks_levels_ok(s),
    ensures
        blocks_levels_ok(seq![b] + s),
    decreases s.len(),
{
    if s.len() == 0 {
        assert(seq![b] + s =~= seq![b]);
        assert(seq![b].drop_last() =~= Seq::<BlockV>::empty());
        assert(blocks_levels_ok(Seq::<BlockV>::empty()));
        assert(seq![b].last() == b);
    } else {
        lemma_blocks_levels_cons(b, s.drop_last());
        assert((seq![b] + s).drop_last() =~= seq![b] + s.drop_last());
        assert((seq![b] + s).last() == s.last());
    }
}

proof fn lemma_para_levels(ls: Seq<Seq<char>>, pos: int, acc: Seq<Seq<char>>)
    ensures
        para_collect(ls, pos, acc).0 matches Some(l) ==> l == 1 || l == 2,
    decreases ls.len() - pos,
{
    if !(pos < 0 || pos >= ls.len()) {
        let raw = ls[pos];
        let t = crate::text::trim_start(raw);
        if !(t.len() == 0 || atx_heading(raw) is Some || crate::block_parser::fence(t) is Some) {
            if !(crate::block_parser::indent_width(raw) < 4 && acc.len() > 0
                && crate::block_parser::all_char(t, '=')) && !(crate::block_parser::indent_width(raw)
                < 4 && crate::block_parser::thematic(t)) {
                lemma_para_levels(ls, pos + 1, acc.push(raw));
            }
        }
    }
}

/// Every heading of a parsed document, nested ones included, has a level from
/// 1 (`#`, or text underlined with `===`) to 6 (`######`).
pub proof fn law_heading_levels(t: Seq<char>)
    ensures
        blocks_levels_ok(blocks_of(t)),
    decreases t.len() + 1, 4int,
{
    lemma_text_lines_size(t);
    lemma_parse_seq_levels(text_lines(t), 0);
}

proof fn lemma_parse_seq_levels(ls: Seq<Seq<char>>, pos: int)
    ensures
        blocks_levels_ok(parse_seq(ls, pos)),
    decreases msize(ls, pos), 3int,
{
    let q = skip_blank(ls, pos);
    lemma_skip_blank(ls, pos);
    lemma_msize_mono(ls, pos, q);
    if !(q < 0 || q >= ls.len()) {
        let (b, e) = parse_one(ls, q);
        lemma_parse_one_levels(ls, q);
        if q < e <= ls.len() {
            lemma_msize_mono(ls, q, e);
            lemma_parse_seq_levels(ls, e);
            lemma_blocks_levels_cons(b, parse_seq(ls, e));
        } else {
            lemma_blocks_levels_cons(b, Seq::empty());
            assert(seq![b] + Seq::<BlockV>::empty() =~= seq![b]);
        }
    }
}

proof fn lemma_parse_one_levels(ls: Seq<Seq<char>>, pos: int)
    ensures
        heading_levels_ok(parse_one(ls, pos).0),
    decreases msize(ls, pos), 2int,
{
    if 0 <= pos < ls.len() {
        let raw = ls[pos];
        let t = crate::text::trim_start(raw);
        if atx_heading(raw) is None && !crate::block_parser::thematic(t)
            && crate::block_parser::fence(raw) is None && crate::block_parser::indent_width(raw)
            < 4 {
            if t.len() > 0 && t[0] == '>' {
                let (cl, e) = bq_collect(ls, pos, Seq::empty());
                lemma_bq_size(ls, pos);
                law_heading_levels(join(cl, '\n'));
            } else {
                match unordered(raw) {
                    Some(w) => lemma_list_spec_levels(ls, pos, false, 1, w),
                    None => match ordered(raw) {
                        Some((n, w)) => lemma_list_spec_levels(ls, pos, true, n as u32, w),
                        None => {
                            lemma_para_levels(ls, pos, Seq::empty());
                        },
                    },
                }
            }
        }
    }
}

proof fn lemma_list_spec_levels(ls: Seq<Seq<char>>, pos: int, is_ordered: bool, start: u32, w: nat)
    ensures
        heading_levels_ok(list_spec(ls, pos, is_ordered, start, w).0),
    decreases msize(ls, pos), 1int,
{
    lemma_list_loop_levels(ls, pos, is_ordered, w, Seq::empty(), false, false);
}

proof fn lemma_list_loop_levels(
    ls: Seq<Seq<char>>,
    pos: int,
    is_ordered: bool,
    w: nat,
    items: Seq<ListItemV>,
    blank_between: bool,
    prev_blank: bool,
)
    requires
        items_levels_ok(items),
    ensures
        items_levels_ok(list_loop(ls, pos, is_ordered, w, items, blank_between, prev_blank).0),
    decreases msize(ls, pos), 0int,
{
    let q = skip_blank(ls, pos);
    lemma_skip_blank(ls, pos);
    lemma_msize_mono(ls, pos, q);
    if !(w == 0 || q < 0 || q >= ls.len()) && (if is_ordered {
        ordered(ls[q]) is Some
    } else {
        unordered(ls[q]) is Some
    }) {
        let bb = blank_between || (prev_blank && items.len() > 0);
        let (chk, content, e) = item_content(ls, q, w);
        lemma_item_size(ls, q, w, is_ordered);
        lemma_msize_mono(ls, q, e);
        law_heading_levels(content);
        let it = ListItemV { checked: chk, children: blocks_of(content) };
        assert(items.push(it).drop_last() =~= items);
        let pb = crate::block_parser::ended_blank(ls, e);
        lemma_list_loop_levels(ls, e, is_ordered, w, items.push(it), bb, pb);
    }
}

// ── No empty text ────────────────────────────────────────────────────────────

/// No text node of `n`, nested ones included, is empty.
pub open spec fn inline_text_nonempty(n: InlineV) -> bool
    decreases n,
{
    match n {
        InlineV::Text(t) => t.len() > 0,
        InlineV::Emphasis(c) => inlines_text_nonempty(c),
        InlineV::Strong(c) => inlines_text_nonempty(c),
        InlineV::StrongEmphasis(c) => inlines_text_nonempty(c),
        InlineV::Strikethrough(c) => inlines_text_nonempty(c),
        InlineV::Link { children, .. } => inlines_text_nonempty(children),
        InlineV::Gradient { children, .. } => inlines_text_nonempty(children),
        InlineV::Font { children, .. } => inlines_text_nonempty(children),
        _ => true,
    }
}

/// No text node of `s`, nested ones included, is empty.
pub open spec fn inlines_text_nonempty(s: Seq<InlineV>) -> bool
    decreases s,
{
    if s.len() == 0 {
        true
    } else {
        inlines_text_nonempty(s.drop_last()) && inline_text_nonempty(s.last())
    }
}

proof fn lemma_nonempty_all(s: Seq<InlineV>)
    ensures
        inlines_text_nonempty(s) <==> forall|i: int|
            0 <= i < s.len() ==> #[trigger] inline_text_nonempty(s[i]),
    decreases s.len(),
{
    if s.len() > 0 {
        lemma_nonempty_all(s.drop_last());
        if forall|i: int| 0 <= i < s.len() ==> #[trigger] inline_text_nonempty(s[i]) {
            assert forall|i: int| 0 <= i < s.drop_last().len() implies #[trigger] inline_text_nonempty(
                s.drop_last()[i],
            ) by {
                assert(s.drop_last()[i] == s[i]);
                assert(inline_text_nonempty(s[i]));
            }
            assert(inline_text_nonempty(s[s.len() - 1]));
        }
        if inlines_text_nonempty(s) {
            assert forall|i: int| 0 <= i < s.len() implies #[trigger] inline_text_nonempty(s[i]) by {
                if i < s.len() - 1 {
                    assert(s.drop_last()[i] == s[i]);
                    assert(inline_text_nonempty(s.drop_last()[i]));
                }
            }
        }
    }
}

proof fn lemma_nonempty_push(s: Seq<InlineV>, x: InlineV)
    requires
        inlines_text_nonempty(s),
        inline_text_nonempty(x),
    ensures
        inlines_text_nonempty(s.push(x)),
{
    assert(s.push(x).drop_last() =~= s);
}

proof fn lemma_nonempty_node(n: InlineV, c: Seq<InlineV>)
    requires
        inlines_text_nonempty(c),
        match n {
            InlineV::Emphasis(d) => d == c,
            InlineV::Strong(d) => d == c,
            InlineV::StrongEmphasis(d) => d == c,
            InlineV::Strikethrough(d) => d == c,
            InlineV::Link { children, .. } => children == c,
            InlineV::Gradient { children, .. } => children == c,
            InlineV::Font { children, .. } => children == c,
            _ => false,
        },
    ensures
        inline_text_nonempty(n),
{
}

proof fn lemma_nonempty_flush(buf: Seq<char>, out: Seq<InlineV>)
    requires
        inlines_text_nonempty(out),
    ensures
        inlines_text_nonempty(flush_spec(buf, out)),
{
    if buf.len() > 0 {
        lemma_nonempty_push(out, InlineV::Text(buf));
    }
}

proof fn lemma_nonempty_parse(s: Seq<char>)
    ensures
        inlines_text_nonempty(parse_inl(s)),
    decreases s.len(), s.len() + 3,
{
    lemma_nonempty_loop(s, None, 0, Seq::empty(), Seq::empty());
}

proof fn lemma_nonempty_loop(
    s: Seq<char>,
    stop: Option<Seq<char>>,
    pos: int,
    buf: Seq<char>,
    out: Seq<InlineV>,
)
    requires
        inlines_text_nonempty(out),
    ensures
        inlines_text_nonempty(inl_loop(s, stop, pos, buf, out)),
    decreases s.len(), s.len() - pos + 2,
{
    if pos < 0 || pos >= s.len() || stop_at(s, stop, pos) {
        lemma_nonempty_flush(buf, out);
    } else {
        lemma_nonempty_step(s, pos, buf, out);
        let (p2, b2, o2) = inl_step(s, pos, buf, out);
        if pos < p2 <= s.len() {
            lemma_nonempty_loop(s, stop, p2, b2, o2);
        } else {
            lemma_nonempty_flush(b2, o2);
        }
    }
}

proof fn lemma_nonempty_sub(s: Seq<char>, a: int, b: int)
    requires
        1 <= a <= b <= s.len(),
    ensures
        inlines_text_nonempty(parse_inl(s.subrange(a, b))),
    decreases s.len(), 0int,
{
    lemma_nonempty_parse(s.subrange(a, b));
}

proof fn lemma_nonempty_attempt(
    r: Option<(int, InlineV)>,
    pos: int,
    c: char,
    buf: Seq<char>,
    out: Seq<InlineV>,
)
    requires
        inlines_text_nonempty(out),
        r matches Some((p, n)) ==> inline_text_nonempty(n),
    ensures
        inlines_text_nonempty(attempt(r, pos, c, buf, out).2),
{
    if let Some((p, n)) = r {
        lemma_nonempty_flush(buf, out);
        lemma_nonempty_push(flush_spec(buf, out), n);
    }
}

proof fn lemma_nonempty_link(s: Seq<char>, start: int, is_image: bool)
    requires
        1 <= start,
    ensures
        link_spec(s, start, is_image) matches Some((p, n)) ==> inline_text_nonempty(n),
    decreases s.len(), 1int,
{
    lemma_match_close(s, start, 1, '[', ']');
    if let Some(be) = match_close(s, start, 1, '[', ']') {
        if be + 1 < s.len() && s[be + 1] == '(' {
            lemma_match_close(s, be + 2, 1, '(', ')');
            if let Some(pe) = match_close(s, be + 2, 1, '(', ')') {
                let text = s.subrange(start, be);
                let (url, title) = url_title(s.subrange(be + 2, pe));
                if !is_image {
                    lemma_nonempty_sub(s, start, be);
                    let c = parse_inl(text);
                    assert(link_spec(s, start, is_image) == Some(
                        (pe + 1, InlineV::Link { children: c, url, title }),
                    ));
                    lemma_nonempty_node(InlineV::Link { children: c, url, title }, c);
                }
            }
        }
    }
}

proof fn lemma_nonempty_grad(s: Seq<char>, pos: int)
    requires
        0 <= pos,
    ensures
        grad_spec(s, pos) matches Some((p, n)) ==> inline_text_nonempty(n),
    decreases s.len(), 1int,
{
    let p = pos + 6;
    lemma_first_index_from(s, p, ']');
    if let Some(be) = first_index_from(s, p, ']') {
        let colors = s.subrange(p, be);
        if let Some(cm) = color_split(colors) {
            let p2 = be + 1;
            if p2 < s.len() && s[p2] == '(' {
                lemma_text_close(s, p2 + 1);
                if let Some(pe) = text_close(s, p2 + 1) {
                    lemma_nonempty_sub(s, p2 + 1, pe);
                    let c = parse_inl(s.subrange(p2 + 1, pe));
                    let n = InlineV::Gradient {
                        from: trim(colors.take(cm)),
                        to: trim(colors.skip(cm + 1)),
                        children: c,
                    };
                    assert(grad_spec(s, pos) == Some((pe + 1, n)));
                    lemma_nonempty_node(n, c);
                }
            }
        }
    }
}

proof fn lemma_nonempty_font(s: Seq<char>, pos: int)
    requires
        0 <= pos,
    ensures
        font_spec(s, pos) matches Some((p, n)) ==> inline_text_nonempty(n),
    decreases s.len(), 1int,
{
    let p = pos + 6;
    lemma_first_index_from(s, p, ']');
    if let Some(be) = first_index_from(s, p, ']') {
        let p2 = be + 1;
        if p2 < s.len() && s[p2] == '(' {
            lemma_text_close(s, p2 + 1);
            if let Some(pe) = text_close(s, p2 + 1) {
                lemma_nonempty_sub(s, p2 + 1, pe);
                let c = parse_inl(s.subrange(p2 + 1, pe));
                let n = InlineV::Font { family: trim(s.subrange(p, be)), children: c };
                assert(font_spec(s, pos) == Some((pe + 1, n)));
                lemma_nonempty_node(n, c);
            }
        }
    }
}

proof fn lemma_nonempty_delim(s: Seq<char>, pos: int, d: char, buf: Seq<char>, out: Seq<InlineV>)
    requires
        0 <= pos < s.len(),
        inlines_text_nonempty(out),
    ensures
        ({
            let (p, b, o, n) = delim_step(s, pos, d, buf, out);
            inlines_text_nonempty(o) && (n matches Some(x) ==> inline_text_nonempty(x))
        }),
    decreases s.len(), 1int,
{
    let run = run_len(s.skip(pos), d);
    let count: nat = if run < 3 {
        run
    } else {
        3
    };
    let start = pos + count;
    lemma_delim_close(s, start, d, count);
    if let Some((k, close)) = delim_close(s, start, d, count) {
        lemma_nonempty_sub(s, start, close);
        let children = parse_inl(s.subrange(start, close));
        let extra = Seq::new((count - k) as nat, |_i: int| InlineV::Text(seq![d]));
        lemma_nonempty_flush(buf, out);
        let f = flush_spec(buf, out);
        lemma_nonempty_all(f);
        lemma_nonempty_all(f + extra);
        assert forall|i: int| 0 <= i < (f + extra).len() implies #[trigger] inline_text_nonempty(
            (f + extra)[i],
        ) by {
            if i < f.len() {
                assert((f + extra)[i] == f[i]);
                assert(inline_text_nonempty(f[i]));
            } else {
                assert((f + extra)[i] == extra[i - f.len()]);
                assert(extra[i - f.len()] == InlineV::Text(seq![d]));
            }
        }
        let node = emph_node(k, children);
        lemma_nonempty_node(node, children);
        assert(delim_step(s, pos, d, buf, out) == (close + k, Seq::<char>::empty(), f + extra, Some(node)));
    }
}

proof fn lemma_nonempty_step(s: Seq<char>, pos: int, buf: Seq<char>, out: Seq<InlineV>)
    requires
        0 <= pos < s.len(),
        inlines_text_nonempty(out),
    ensures
        inlines_text_nonempty(inl_step(s, pos, buf, out).2),
    decreases s.len(), 2int,
{
    let ch = s[pos];
    let has_next = pos + 1 < s.len();
    if ch == '\\' && has_next && s[pos + 1] == '\n' {
        lemma_nonempty_flush(buf, out);
        lemma_nonempty_push(flush_spec(buf, out), InlineV::HardBreak);
    } else if ch == '\\' && has_next && is_ascii_punct(s[pos + 1]) {
    } else if ch == '`' {
        lemma_nonempty_flush(buf, out);
        let ticks = run_len(s.skip(pos), '`');
        if let Some(close) = find_seq(s, pos + ticks, repeat('`', ticks)) {
            lemma_nonempty_push(
                flush_spec(buf, out),
                InlineV::Code(code_content(s.subrange(pos + ticks, close))),
            );
        }
    } else if ch == '*' {
        lemma_nonempty_delim(s, pos, '*', buf, out);
        let (p, b, o, n) = delim_step(s, pos, '*', buf, out);
        if let Some(x) = n {
            lemma_nonempty_push(o, x);
        }
    } else if ch == '_' {
        if pos == 0 || !char_is_alphanumeric(s[pos - 1]) {
            lemma_nonempty_delim(s, pos, '_', buf, out);
            let (p, b, o, n) = delim_step(s, pos, '_', buf, out);
            if let Some(x) = n {
                lemma_nonempty_push(o, x);
            }
        }
    } else if ch == '~' && has_next && s[pos + 1] == '~' {
        lemma_find_seq(s, pos + 2, repeat('~', 2));
        if let Some(close) = find_seq(s, pos + 2, repeat('~', 2)) {
            lemma_nonempty_sub(s, pos + 2, close);
            lemma_nonempty_flush(buf, out);
            let c = parse_inl(s.subrange(pos + 2, close));
            lemma_nonempty_node(InlineV::Strikethrough(c), c);
            lemma_nonempty_push(flush_spec(buf, out), InlineV::Strikethrough(c));
        }
    } else if ch == '!' && has_next && s[pos + 1] == '[' {
        lemma_nonempty_link(s, pos + 2, true);
        lemma_nonempty_attempt(link_spec(s, pos + 2, true), pos, '!', buf, out);
    } else if ch == '[' {
        lemma_nonempty_link(s, pos + 1, false);
        lemma_nonempty_attempt(link_spec(s, pos + 1, false), pos, '[', buf, out);
    } else if ch == '<' {
        lemma_nonempty_attempt(angle_spec(s, pos), pos, '<', buf, out);
    } else if ch == '#' && starts_with(s.skip(pos), seq!['#', 'g', 'r', 'a', 'd', '[']) {
        lemma_nonempty_grad(s, pos);
        lemma_nonempty_attempt(grad_spec(s, pos), pos, '#', buf, out);
    } else if ch == '#' && starts_with(s.skip(pos), seq!['#', 'f', 'o', 'n', 't', '[']) {
        lemma_nonempty_font(s, pos);
        lemma_nonempty_attempt(font_spec(s, pos), pos, '#', buf, out);
    } else if ch == '\n' {
        let brk = if ends_with(buf, seq![' ', ' ']) {
            InlineV::HardBreak
        } else {
            InlineV::SoftBreak
        };
        lemma_nonempty_flush(trim_end_char(buf, ' '), out);
        lemma_nonempty_push(flush_spec(trim_end_char(buf, ' '), out), brk);
    }
}

/// Inline parsing never makes an empty text node, at any depth: pending text
/// becomes a node only when it holds a character.
pub proof fn law_no_empty_text(s: Seq<char>)
    ensures
        inlines_text_nonempty(parse_inl(s)),
{
    lemma_nonempty_parse(s);
}

// ── Setext headings ──────────────────────────────────────────────────────────

proof fn lemma_count_all(u: Seq<char>, c: char)
    requires
        all_char(u, c),
    ensures
        count_char(u, c) == u.len(),
    decreases u.len(),
{
    if u.len() > 0 {
        lemma_count_all(u.drop_last(), c);
    }
}

/// Facts on an underline: a non-empty run of `=` or of `-`.
proof fn lemma_underline(u: Seq<char>, c: char)
    requires
        c == '=' || c == '-',
        u.len() > 0,
        all_char(u, c),
    ensures
        trim_start(u) == u,
        trim(u) == u,
        leading_spaces(u) == 0,
        !is_blank(u),
        atx_heading(u) is None,
        fence(u) is None,
        c == '-' && u.len() >= 3 ==> thematic(u),
        c == '=' ==> !thematic(u),
{
    assert(u[0] == c);
    assert(u.last() == c);
    assert(!is_ws(c));
    assert(trim_start(u) == u);
    assert(trim_end(u) == u);
    assert(run_len(u, ' ') == 0);
    assert(run_len(u, '#') == 0);
    assert(trim_start_char(u, ' ') =~= u);
    if c == '-' {
        lemma_count_all(u, c);
    }
}

/// A line of text underlined with `=` (a level 1 heading) or with three or
/// more `-` (level 2) is a setext heading whose text is the trimmed line.
pub proof fn law_setext_heading(t: Seq<char>, u: Seq<char>)
    requires
        trim_start(t).len() > 0,
        atx_heading(t) is None,
        fence(trim_start(t)) is None,
        !thematic(trim_start(t)),
        (u.len() >= 1 && all_char(u, '=')) || (u.len() >= 3 && all_char(u, '-')),
    ensures
        para_spec(seq![t, u], 0) == (
            BlockV::Heading {
                level: if u[0] == '=' {
                    1u8
                } else {
                    2u8
                },
                children: parse_inl(trim(t)),
            },
            2int,
        ),
{
    let ls = seq![t, u];
    let c = if all_char(u, '=') && u.len() >= 1 {
        '='
    } else {
        '-'
    };
    lemma_underline(u, c);
    assert(u[0] == c);
    if c == '-' {
        assert(!all_char(u, '='));
    }
    assert(seq![t].push(u)[1] == u);
    assert(ls[0] == t && ls[1] == u);
    assert(Seq::<Seq<char>>::empty().push(t) =~= seq![t]);
    assert(para_collect(ls, 1, seq![t]) == (
        Some(if c == '=' {
            1nat
        } else {
            2nat
        }),
        seq![t],
        2int,
    ));
    assert(para_collect(ls, 0, Seq::empty()) == para_collect(ls, 1, seq![t]));
    assert(join(seq![t], '\n') == t);
}

// ── Link destinations ────────────────────────────────────────────────────────

proof fn lemma_last_index_none(s: Seq<char>, c: char)
    requires
        !s.contains(c),
    ensures
        last_index(s, c) is None,
    decreases s.len(),
{
    if s.len() > 0 {
        assert(s.last() == s[s.len() - 1]);
        assert(!s.drop_last().contains(c)) by {
            if s.drop_last().contains(c) {
                let k = choose|k: int| 0 <= k < s.drop_last().len() && s.drop_last()[k] == c;
                assert(s[k] == c);
            }
        }
        lemma_last_index_none(s.drop_last(), c);
    }
}

proof fn lemma_last_index_tail(x: Seq<char>, y: Seq<char>, c: char)
    requires
        !y.contains(c),
    ensures
        last_index(x + y, c) == last_index(x, c),
    decreases y.len(),
{
    if y.len() == 0 {
        assert(x + y =~= x);
    } else {
        assert(y.last() == y[y.len() - 1]);
        assert((x + y).last() == y.last());
        assert((x + y).drop_last() =~= x + y.drop_last());
        assert(!y.drop_last().contains(c)) by {
            if y.drop_last().contains(c) {
                let k = choose|k: int| 0 <= k < y.drop_last().len() && y.drop_last()[k] == c;
                assert(y[k] == c);
            }
        }
        lemma_last_index_tail(x, y.drop_last(), c);
    }
}

proof fn lemma_trim_start_concat(u: Seq<char>, w: Seq<char>)
    ensures
        trim_start(u + w) == if trim_start(u).len() == 0 {
            trim_start(w)
        } else {
            trim_start(u) + w
        },
    decreases u.len(),
{
    if u.len() == 0 {
        assert(u + w =~= w);
    } else {
        assert((u + w)[0] == u[0]);
        assert((u + w).drop_first() =~= u.drop_first() + w);
        lemma_trim_start_concat(u.drop_first(), w);
    }
}

proof fn lemma_trim_space_after(u: Seq<char>)
    ensures
        trim(u + seq![' ']) == trim(u),
{
    lemma_trim_start_concat(u, seq![' ']);
    assert(is_ws(' '));
    assert(seq![' '].drop_first() =~= Seq::<char>::empty());
    assert(trim_start(seq![' ']) == trim_start(Seq::<char>::empty()));
    let v = trim_start(u);
    if v.len() > 0 {
        assert((v + seq![' ']).drop_last() =~= v);
        assert((v + seq![' ']).last() == ' ');
    }
}

/// A destination without quotes is all URL (trimmed), with no title.
pub proof fn law_url_without_title(content: Seq<char>)
    requires
        !trim(content).contains('"'),
        !trim(content).contains('\''),
    ensures
        url_title(content) == (trim(content), None::<Seq<char>>),
{
    lemma_last_index_none(trim(content), '"');
    lemma_last_index_none(trim(content), '\'');
}

/// A destination `url "title"` (or `url 'title'`) splits into the trimmed URL
/// and the title between the quotes.
pub proof fn law_url_with_title(content: Seq<char>, u: Seq<char>, q: char, title: Seq<char>)
    requires
        q == '"' || q == '\'',
        trim(content) == u + seq![' ', q] + title + seq![q],
        !u.contains('"'),
        !u.contains('\''),
        !title.contains('"'),
        !title.contains('\''),
    ensures
        url_title(content) == (trim(u), Some(title)),
{
    let s = trim(content);
    let head = u + seq![' ', q];
    let ti = s.len() - 1;
    assert(s.last() == q);
    assert(s.take(ti) =~= head + title);
    lemma_last_index_tail(head, title, q);
    assert(head.last() == q);
    assert(last_index(head, q) == Some(u.len() + 1int));
    assert(s.take(u.len() + 1int) =~= u + seq![' ']);
    assert(s.take(ti).take(u.len() + 1int) =~= u + seq![' ']);
    assert(s.subrange(u.len() + 2int, ti) =~= title);
    lemma_trim_space_after(u);
    if q == '\'' {
        assert(!s.contains('"')) by {
            if s.contains('"') {
                let k = choose|k: int| 0 <= k < s.len() && s[k] == '"';
                if k < u.len() {
                    assert(u[k] == '"');
                } else if k >= u.len() + 2 && k < u.len() + 2 + title.len() {
                    assert(title[k - u.len() - 2] == '"');
                }
            }
        }
        lemma_last_index_none(s, '"');
    }
}

// ── Heading text ─────────────────────────────────────────────────────────────

/// The plain text of inline nodes (what a heading's id is made from) takes
/// in the code of a code span, just as it takes in a text node: each adds
/// its characters at the end.
pub proof fn law_plain_text_takes_code(a: Seq<InlineV>, x: Seq<char>)
    ensures
        plain_inlines(a.push(InlineV::Code(x))) == plain_inlines(a) + x,
        plain_inlines(a.push(InlineV::Text(x))) == plain_inlines(a) + x,
        heading_id(a.push(InlineV::Code(x))) == heading_id(a.push(InlineV::Text(x))),
{
    assert(a.push(InlineV::Code(x)).drop_last() =~= a);
    assert(a.push(InlineV::Text(x)).drop_last() =~= a);
    assert(crate::html_renderer::plain_inline(InlineV::Code(x)) == x);
    assert(crate::html_renderer::plain_inline(InlineV::Text(x)) == x);
    assert(plain_inlines(a.push(InlineV::Code(x))) == plain_inlines(a)
        + crate::html_renderer::plain_inline(InlineV::Code(x)));
    assert(plain_inlines(a.push(InlineV::Text(x))) == plain_inlines(a)
        + crate::html_renderer::plain_inline(InlineV::Text(x)));
}

// ── Table rows ───────────────────────────────────────────────────────────────

proof fn lemma_rows_in_order(ls: Seq<Seq<char>>, p: int, acc: Seq<Seq<Seq<InlineV>>>)
    requires
        0 <= p,
    ensures
        ({
            let (rows, e) = row_collect(ls, p, acc);
            &&& p <= e
            &&& e <= ls.len() || e == p
            &&& rows.len() == acc.len() + (e - p)
            &&& forall|i: int| 0 <= i < acc.len() ==> rows[i] == acc[i]
            &&& forall|i: int|
                0 <= i < e - p ==> #[trigger] rows[acc.len() + i] == cells_inl(
                    table_cells(ls[p + i]),
                )
        }),
    decreases ls.len() - p,
{
    if !(p >= ls.len() || is_blank(ls[p]) || !trim(ls[p]).contains('|')) {
        let row = cells_inl(table_cells(ls[p]));
        lemma_rows_in_order(ls, p + 1, acc.push(row));
        let (rows, e) = row_collect(ls, p + 1, acc.push(row));
        assert forall|i: int| 0 <= i < e - p implies #[trigger] rows[acc.len() + i] == cells_inl(
            table_cells(ls[p + i]),
        ) by {
            if i == 0 {
                assert(rows[acc.len() + 0int] == acc.push(row)[acc.len() as int]);
            } else {
                assert(rows[acc.push(row).len() + (i - 1)] == cells_inl(
                    table_cells(ls[p + 1 + (i - 1)]),
                ));
            }
        }
        assert forall|i: int| 0 <= i < acc.len() implies rows[i] == acc[i] by {
            assert(rows[i] == acc.push(row)[i]);
        }
    }
}

/// The body rows of a table are its lines after the separator row, in the
/// order they are written: row `i` holds the cells of line `pos + 2 + i`, and
/// the table ends right after its last row.
pub proof fn law_table_rows_in_order(ls: Seq<Seq<char>>, pos: int)
    requires
        0 <= pos,
    ensures
        ({
            let (b, e) = table_spec(ls, pos);
            &&& b matches BlockV::Table { rows, .. }
            &&& e >= pos + 2
            &&& rows.len() == e - (pos + 2)
            &&& forall|i: int|
                0 <= i < rows.len() ==> #[trigger] rows[i] == cells_inl(table_cells(ls[pos + 2 + i]))
        }),
{
    lemma_rows_in_order(ls, pos + 2, Seq::empty());
    let (rows, e) = row_collect(ls, pos + 2, Seq::empty());
    assert forall|i: int| 0 <= i < rows.len() implies #[trigger] rows[i] == cells_inl(
        table_cells(ls[pos + 2 + i]),
    ) by {
        assert(rows[0int + i] == cells_inl(table_cells(ls[pos + 2 + i])));
    }
}

// ── Fenced code ──────────────────────────────────────────────────────────────

proof fn lemma_split_plain(s: Seq<char>, t: Seq<char>, c: char, cur: Seq<char>)
    requires
        !s.contains(c),
    ensures
        split_from(s + t, c, cur) == split_from(t, c, cur + s),
    decreases s.len(),
{
    if s.len() == 0 {
        assert(s + t =~= t);
        assert(cur + s =~= cur);
    } else {
        assert((s + t)[0] == s[0]);
        assert((s + t).drop_first() =~= s.drop_first() + t);
        assert(!s.drop_first().contains(c)) by {
            if s.drop_first().contains(c) {
                let k = choose|k: int| 0 <= k < s.drop_first().len() && s.drop_first()[k] == c;
                assert(s[k + 1] == c);
            }
        }
        lemma_split_plain(s.drop_first(), t, c, cur.push(s[0]));
        assert(cur.push(s[0]) + s.drop_first() =~= cur + s);
    }
}

proof fn lemma_join_front(ls: Seq<Seq<char>>, c: char)
    requires
        ls.len() >= 2,
    ensures
        join(ls, c) == ls[0] + seq![c] + join(ls.drop_first(), c),
    decreases ls.len(),
{
    if ls.len() == 2 {
        assert(ls.drop_last() =~= seq![ls[0]]);
        assert(ls.drop_first() =~= seq![ls[1]]);
        assert(join(ls, c) == join(ls.drop_last(), c).push(c) + ls.last());
        assert(ls[0].push(c) =~= ls[0] + seq![c]);
    } else {
        lemma_join_front(ls.drop_last(), c);
        assert(ls.drop_last().drop_first() =~= ls.drop_first().drop_last());
        assert(ls.drop_first().last() == ls.last());
        assert(join(ls.drop_first(), c) == join(ls.drop_first().drop_last(), c).push(c)
            + ls.drop_first().last());
        let a = ls[0] + seq![c];
        let j = join(ls.drop_first().drop_last(), c);
        assert((a + j).push(c) + ls.last() =~= a + (j.push(c) + ls.last()));
    }
}

/// Joining lines that hold no `c` with `c` and splitting the result at `c`
/// gives the lines back.
proof fn lemma_split_join(ls: Seq<Seq<char>>, c: char)
    requires
        ls.len() >= 1,
        forall|i: int| 0 <= i < ls.len() ==> !(#[trigger] ls[i]).contains(c),
    ensures
        split(join(ls, c), c) == ls,
    decreases ls.len(),
{
    if ls.len() == 1 {
        lemma_split_plain(ls[0], Seq::empty(), c, Seq::empty());
        assert(ls[0] + Seq::<char>::empty() =~= ls[0]);
        assert(Seq::<char>::empty() + ls[0] =~= ls[0]);
        assert(split_from(Seq::<char>::empty(), c, ls[0]) == seq![ls[0]]);
        assert(ls =~= seq![ls[0]]);
    } else {
        lemma_join_front(ls, c);
        let rest = join(ls.drop_first(), c);
        assert(!ls[0].contains(c));
        assert(ls[0] + seq![c] + rest =~= ls[0] + (seq![c] + rest));
        lemma_split_plain(ls[0], seq![c] + rest, c, Seq::empty());
        assert(Seq::<char>::empty() + ls[0] =~= ls[0]);
        assert((seq![c] + rest)[0] == c);
        assert((seq![c] + rest).drop_first() =~= rest);
        assert forall|i: int| 0 <= i < ls.drop_first().len() implies !(
        #[trigger] ls.drop_first()[i]).contains(c) by {
            assert(ls.drop_first()[i] == ls[i + 1]);
        }
        lemma_split_join(ls.drop_first(), c);
        assert(seq![ls[0]] + ls.drop_first() =~= ls);
    }
}

/// The code of a fenced block is its inner lines as written, one per line:
/// split at line feeds, it gives back exactly the lines between the fences
/// (for lines that hold no line feed, as lines of a text never do).
pub proof fn law_fenced_code_lines(
    ls: Seq<Seq<char>>,
    pos: int,
    ch: char,
    n: nat,
    lang: Seq<char>,
)
    requires
        0 <= pos < ls.len(),
        forall|i: int| 0 <= i < ls.len() ==> !(#[trigger] ls[i]).contains('\n'),
    ensures
        ({
            let e = fence_end(ls, pos + 1, ch, n);
            let (b, _) = fenced_spec(ls, pos, ch, n, lang);
            &&& b matches BlockV::CodeBlock { code, .. }
            &&& pos + 1 < e <= ls.len() ==> split(code, '\n') == ls.subrange(pos + 1, e)
        }),
{
    let e = fence_end(ls, pos + 1, ch, n);
    lemma_fence_end_bound(ls, pos + 1, ch, n);
    if pos + 1 < e <= ls.len() {
        let inner = ls.subrange(pos + 1, e);
        assert forall|i: int| 0 <= i < inner.len() implies !(#[trigger] inner[i]).contains('\n') by {
            assert(inner[i] == ls[pos + 1 + i]);
        }
        lemma_split_join(inner, '\n');
    }
}

proof fn lemma_fence_end_bound(ls: Seq<Seq<char>>, i: int, ch: char, n: nat)
    requires
        0 <= i,
    ensures
        i <= fence_end(ls, i, ch, n),
        i <= ls.len() ==> fence_end(ls, i, ch, n) <= ls.len(),
    decreases ls.len() - i,
{
    if i < ls.len() && !crate::block_parser::fence_close(ls[i], ch, n) {
        lemma_fence_end_bound(ls, i + 1, ch, n);
    }
}

// ── List tightness ───────────────────────────────────────────────────────────

/// A line that opens a list item (a bullet or a numbered marker).
pub open spec fn marker_line(l: Seq<char>) -> bool {
    unordered(l) is Some || ordered(l) is Some
}

/// Whether among lines `lo..hi` a blank line comes before a line that opens a
/// list item.
pub open spec fn blank_before_marker(ls: Seq<Seq<char>>, lo: int, hi: int) -> bool {
    exists|j: int, k: int|
        #![trigger is_blank(ls[j]), marker_line(ls[k])]
        lo <= j < k < hi && is_blank(ls[j]) && marker_line(ls[k])
}

proof fn lemma_loose_witness(
    ls: Seq<Seq<char>>,
    pos: int,
    is_ordered: bool,
    w: nat,
    items: Seq<ListItemV>,
    bb: bool,
    pb: bool,
    lo: int,
)
    requires
        0 <= lo <= pos,
        bb ==> blank_before_marker(ls, lo, pos),
        pb ==> (lo < pos <= ls.len() && is_blank(ls[pos - 1])) || (pos < ls.len() && is_blank(
            ls[pos],
        )),
    ensures
        ({
            let (it, b, e) = list_loop(ls, pos, is_ordered, w, items, bb, pb);
            &&& pos <= e
            &&& b ==> blank_before_marker(ls, lo, e)
        }),
    decreases msize(ls, pos),
{
    let q = skip_blank(ls, pos);
    lemma_skip_blank(ls, pos);
    lemma_msize_mono(ls, pos, q);
    if w == 0 || q < 0 || q >= ls.len() {
        if bb {
            let (j, k) = choose|j: int, k: int|
                #![trigger is_blank(ls[j]), marker_line(ls[k])]
                lo <= j < k < pos && is_blank(ls[j]) && marker_line(ls[k]);
            assert(lo <= j < k < q && is_blank(ls[j]) && marker_line(ls[k]));
        }
    } else if !(if is_ordered {
        ordered(ls[q]) is Some
    } else {
        unordered(ls[q]) is Some
    }) {
        if bb {
            let (j, k) = choose|j: int, k: int|
                #![trigger is_blank(ls[j]), marker_line(ls[k])]
                lo <= j < k < pos && is_blank(ls[j]) && marker_line(ls[k]);
            assert(lo <= j < k < q && is_blank(ls[j]) && marker_line(ls[k]));
        }
    } else {
        let bb2 = bb || (pb && items.len() > 0);
        let (chk, content, e) = item_content(ls, q, w);
        lemma_item_size(ls, q, w, is_ordered);
        lemma_msize_mono(ls, q, e);
        assert(marker_line(ls[q]));
        if bb {
            let (j, k) = choose|j: int, k: int|
                #![trigger is_blank(ls[j]), marker_line(ls[k])]
                lo <= j < k < pos && is_blank(ls[j]) && marker_line(ls[k]);
            assert(lo <= j < k < e && is_blank(ls[j]) && marker_line(ls[k]));
        } else if pb {
            if lo < pos <= ls.len() && is_blank(ls[pos - 1]) {
                assert(lo <= pos - 1 < q < e && is_blank(ls[pos - 1]) && marker_line(ls[q]));
            } else {
                assert(pos < q);
                assert(lo <= pos < q < e && is_blank(ls[pos]) && marker_line(ls[q]));
            }
        }
        let it = ListItemV { checked: chk, children: blocks_of(content) };
        let pb2 = crate::block_parser::ended_blank(ls, e);
        lemma_loose_witness(ls, e, is_ordered, w, items.push(it), bb2, pb2, lo);
        let (it3, b3, e3) = list_loop(ls, e, is_ordered, w, items.push(it), bb2, pb2);
        assert(list_loop(ls, pos, is_ordered, w, items, bb, pb) == (it3, b3, e3));
    }
}

/// A list is loose only when a blank line comes between two of its items: if
/// the list that starts at `pos` is not tight, some blank line inside it is
/// followed, still inside it, by a line that opens an item. A blank line after
/// the last item never makes a list loose.
pub proof fn law_loose_list_has_blank_between(
    ls: Seq<Seq<char>>,
    pos: int,
    is_ordered: bool,
    start: u32,
    w: nat,
)
    requires
        0 <= pos,
    ensures
        ({
            let (b, e) = list_spec(ls, pos, is_ordered, start, w);
            &&& b matches BlockV::List { tight, .. }
            &&& (b matches BlockV::List { tight, .. } && !tight) ==> blank_before_marker(ls, pos, e)
        }),
{
    lemma_loose_witness(ls, pos, is_ordered, w, Seq::empty(), false, false, pos);
}

} // verus!
