//! Block parsing: headings, thematic breaks, fenced and indented code, HTML blocks,
//! block quotes, lists (with task items), pipe tables and paragraphs.

use vstd::prelude::*;
use crate::ast::{
    Alignment, Block, BlockV, Inline, InlineV, ListItem, ListItemV, blocks_view, block_view,
    cells_view, inlines_view, items_view, item_view, rows_view, lemma_blocks_view_push,
    lemma_items_view_push, lemma_rows_view_push, lemma_cells_view_len,
};
use crate::inline_parser::{parse_inl, parse_inline_chars};
use crate::text::{
    blank, contains_char, count_run, eq_at, join_vec, lines_vec, lines_view, pop_trailing,
    replace_cr_vec, replace_crlf_vec, slice, split_vec, str_chars, string_of, trim_end_vec,
    trim_start_vec, trim_vec, lemma_skip_drop_first, lemma_take_drop_last,
};
use crate::text::{
    is_ws, is_ws_char,
    lemma_csize_concat, lemma_join_len, lemma_lines_size, lemma_replace_crlf_len,
    lemma_trim_start_shorter, csize, is_blank, join, leading_spaces, lines, replace_cr, replace_crlf, run_len, split,
    starts_with, trim, trim_char, trim_end, trim_end_char, trim_start, trim_start_char,
};

verus! {

// ── Line classification ──────────────────────────────────────────────────────

/// Indentation in columns: a space counts 1, a tab 4.
pub open spec fn indent_width(s: Seq<char>) -> nat
    decreases s.len(),
{
    if s.len() > 0 && s[0] == ' ' {
        1 + indent_width(s.drop_first())
    } else if s.len() > 0 && s[0] == '\t' {
        4 + indent_width(s.drop_first())
    } else {
        0
    }
}

/// `s` without up to `n` columns of indentation (a tab counts 4).
pub open spec fn strip_indent_spec(s: Seq<char>, n: int) -> Seq<char>
    decreases s.len(),
{
    if n <= 0 || s.len() == 0 {
        s
    } else if s[0] == ' ' {
        strip_indent_spec(s.drop_first(), n - 1)
    } else if s[0] == '\t' {
        strip_indent_spec(s.drop_first(), n - 4)
    } else {
        s
    }
}

/// Number of occurrences of `c` in `s`.
pub open spec fn count_char(s: Seq<char>, c: char) -> nat
    decreases s.len(),
{
    if s.len() == 0 {
        0
    } else {
        count_char(s.drop_last(), c) + if s.last() == c {
            1nat
        } else {
            0nat
        }
    }
}

/// Every character of `s` is `c`.
pub open spec fn all_char(s: Seq<char>, c: char) -> bool {
    forall|i: int| 0 <= i < s.len() ==> #[trigger] s[i] == c
}

/// The text of an ATX heading without its closing sequence: a final run of `#`
/// goes when White_Space comes before it, or when nothing else is left.
pub open spec fn strip_closing(text: Seq<char>) -> Seq<char> {
    let before = trim_end_char(text, '#');
    if before.len() == 0 {
        before
    } else if is_ws(before.last()) {
        trim_end(before)
    } else {
        text
    }
}

/// ATX heading `# Title`: its level and text, with a closing run of `#` removed.
pub open spec fn atx_heading(line: Seq<char>) -> Option<(nat, Seq<char>)> {
    if leading_spaces(line) > 3 {
        None
    } else {
        let s = trim_start_char(line, ' ');
        let h = run_len(s, '#');
        if h == 0 || h > 6 {
            None
        } else {
            let rest = s.skip(h as int);
            if rest.len() > 0 && rest[0] != ' ' {
                None
            } else {
                Some((h, strip_closing(trim(rest))))
            }
        }
    }
}

/// Thematic break: three or more `-`, `*` or `_` (the same one), with spaces.
pub open spec fn thematic(line: Seq<char>) -> bool {
    if leading_spaces(line) > 3 {
        false
    } else {
        let s = trim(line);
        &&& s.len() >= 3
        &&& (s[0] == '-' || s[0] == '*' || s[0] == '_')
        &&& count_char(s, s[0]) >= 3
        &&& forall|i: int| 0 <= i < s.len() ==> #[trigger] s[i] == s[0] || s[i] == ' '
    }
}

/// Opening fence of a code block: its character, length and info string.
pub open spec fn fence(line: Seq<char>) -> Option<(char, nat, Seq<char>)> {
    if leading_spaces(line) > 3 {
        None
    } else {
        let s = trim_start(line);
        if s.len() == 0 || (s[0] != '`' && s[0] != '~') {
            None
        } else {
            let ch = s[0];
            let n = run_len(s, ch);
            if n < 3 {
                None
            } else {
                let lang = trim(s.skip(n as int));
                if ch == '`' && lang.contains('`') {
                    None
                } else {
                    Some((ch, n, lang))
                }
            }
        }
    }
}

/// Bullet list marker (`-`, `*`, `+`): the width of the marker with its space.
pub open spec fn unordered(line: Seq<char>) -> Option<nat> {
    if leading_spaces(line) > 3 {
        None
    } else {
        let s = trim_start(line);
        if s.len() == 0 || !(s[0] == '-' || s[0] == '*' || s[0] == '+') {
            None
        } else {
            let rest = s.skip(1);
            if rest.len() == 0 || rest[0] == ' ' {
                Some(leading_spaces(line) + 2)
            } else {
                None
            }
        }
    }
}

pub open spec fn is_ascii_digit(c: char) -> bool {
    '0' <= c && c <= '9'
}

/// Number of leading ASCII digits.
pub open spec fn digit_run(s: Seq<char>) -> nat
    decreases s.len(),
{
    if s.len() > 0 && is_ascii_digit(s[0]) {
        1 + digit_run(s.drop_first())
    } else {
        0
    }
}

/// The value of a string of decimal digits.
pub open spec fn digits_value(s: Seq<char>) -> nat
    decreases s.len(),
{
    if s.len() == 0 {
        0
    } else {
        digits_value(s.drop_last()) * 10 + ((s.last() as u32) - ('0' as u32)) as nat
    }
}

/// Ordered list marker (`1.` or `1)`): its number and the marker's width.
pub open spec fn ordered(line: Seq<char>) -> Option<(nat, nat)> {
    if leading_spaces(line) > 3 {
        None
    } else {
        let s = trim_start(line);
        let k = digit_run(s);
        if k == 0 || k > 9 {
            None
        } else {
            let rest = s.skip(k as int);
            if rest.len() == 0 || !(rest[0] == '.' || rest[0] == ')') {
                None
            } else {
                let after = rest.skip(1);
                if after.len() > 0 && after[0] != ' ' {
                    None
                } else {
                    Some((digits_value(s.take(k as int)), leading_spaces(line) + k + 2))
                }
            }
        }
    }
}

/// An ASCII letter or digit.
pub open spec fn is_ascii_alnum(c: char) -> bool {
    ('a' <= c && c <= 'z') || ('A' <= c && c <= 'Z') || ('0' <= c && c <= '9')
}

/// Number of leading ASCII letters and digits.
pub open spec fn alnum_run(s: Seq<char>) -> nat
    decreases s.len(),
{
    if s.len() > 0 && is_ascii_alnum(s[0]) {
        1 + alnum_run(s.drop_first())
    } else {
        0
    }
}

/// `c` with an ASCII capital letter made small.
pub open spec fn ascii_lower(c: char) -> char {
    if 'A' <= c && c <= 'Z' {
        ((c as u32) + 32) as char
    } else {
        c
    }
}

/// The block-level HTML tag names (in small letters) that open an HTML block.
pub open spec fn block_tag(name: Seq<char>) -> bool {
    name == "address"@
        || name == "article"@
        || name == "aside"@
        || name == "base"@
        || name == "basefont"@
        || name == "blockquote"@
        || name == "body"@
        || name == "caption"@
        || name == "center"@
        || name == "col"@
        || name == "colgroup"@
        || name == "dd"@
        || name == "details"@
        || name == "dialog"@
        || name == "dir"@
        || name == "div"@
        || name == "dl"@
        || name == "dt"@
        || name == "fieldset"@
        || name == "figcaption"@
        || name == "figure"@
        || name == "footer"@
        || name == "form"@
        || name == "frame"@
        || name == "frameset"@
        || name == "h1"@
        || name == "h2"@
        || name == "h3"@
        || name == "h4"@
        || name == "h5"@
        || name == "h6"@
        || name == "head"@
        || name == "header"@
        || name == "hr"@
        || name == "html"@
        || name == "iframe"@
        || name == "legend"@
        || name == "li"@
        || name == "link"@
        || name == "main"@
        || name == "menu"@
        || name == "menuitem"@
        || name == "nav"@
        || name == "noframes"@
        || name == "ol"@
        || name == "optgroup"@
        || name == "option"@
        || name == "p"@
        || name == "param"@
        || name == "search"@
        || name == "section"@
        || name == "summary"@
        || name == "table"@
        || name == "tbody"@
        || name == "td"@
        || name == "tfoot"@
        || name == "th"@
        || name == "thead"@
        || name == "title"@
        || name == "tr"@
        || name == "track"@
        || name == "ul"@
}

/// Whether `line` opens an HTML block: less than four columns of indentation,
/// `<` or `</`, a block-level tag name in any case, then a space, a tab, `>`,
/// `/>` or the end of the line.
pub open spec fn html_block_start(line: Seq<char>) -> bool {
    let t = trim_start(line);
    let i: int = if t.len() > 1 && t[1] == '/' { 2 } else { 1 };
    let rest = t.skip(i);
    let k = alnum_run(rest);
    let after = rest.skip(k as int);
    &&& indent_width(line) < 4
    &&& t.len() > 0 && t[0] == '<'
    &&& k > 0
    &&& block_tag(rest.take(k as int).map_values(|c: char| ascii_lower(c)))
    &&& (after.len() == 0 || after[0] == ' ' || after[0] == '\t' || after[0] == '>' || (after[0]
        == '/' && after.len() > 1 && after[1] == '>'))
}

/// The line that ends an HTML block running from `i`: the first blank line, or the end.
pub open spec fn html_end(ls: Seq<Seq<char>>, i: int) -> int
    decreases ls.len() - i,
{
    if i < 0 || i >= ls.len() || is_blank(ls[i]) {
        i
    } else {
        html_end(ls, i + 1)
    }
}

/// An HTML block starting at `pos`: its lines as they stand, up to a blank line.
pub open spec fn html_spec(ls: Seq<Seq<char>>, pos: int) -> (BlockV, int) {
    let e = html_end(ls, pos);
    (BlockV::HtmlBlock(join(ls.subrange(pos, e), '\n')), e)
}

/// A cell of a table's separator row: colons at the ends, dashes inside.
pub open spec fn sep_cell_ok(c: Seq<char>) -> bool {
    let inner = trim_char(trim_char(c, ':'), '-');
    inner.len() == 0 || all_char(inner, '-')
}

/// GFM table separator row: `| --- | :---: |`.
pub open spec fn separator(line: Seq<char>) -> bool {
    let s = trim(line);
    if !s.contains('|') && !(s.len() > 0 && s[0] == '-') && !(s.len() > 0 && s[0] == ':') {
        false
    } else {
        forall|i: int| 0 <= i < split(s, '|').len() ==> sep_piece_ok(#[trigger] split(s, '|')[i])
    }
}

/// A piece of a separator row: empty once trimmed, or a valid separator cell.
pub open spec fn sep_piece_ok(p: Seq<char>) -> bool {
    trim(p).len() == 0 || sep_cell_ok(trim(p))
}

/// Column alignment from a separator cell.
pub open spec fn alignment_of(cell: Seq<char>) -> Alignment {
    let s = trim(cell);
    let left = s.len() > 0 && s[0] == ':';
    let right = s.len() > 0 && s.last() == ':';
    if left && right {
        Alignment::Center
    } else if left {
        Alignment::Left
    } else if right {
        Alignment::Right
    } else {
        Alignment::Unaligned
    }
}

/// The cells of a table row, without the optional outer pipes.
pub open spec fn table_cells(line: Seq<char>) -> Seq<Seq<char>> {
    let s = trim(line);
    let s1 = if s.len() > 0 && s[0] == '|' {
        s.skip(1)
    } else {
        s
    };
    let s2 = if s1.len() > 0 && s1.last() == '|' {
        s1.drop_last()
    } else {
        s1
    };
    split(s2, '|').map_values(|c: Seq<char>| trim(c))
}

/// Task-list checkbox at the start of an item: checked or not, and the rest.
pub open spec fn checkbox(s: Seq<char>) -> Option<(bool, Seq<char>)> {
    if starts_with(s, seq!['[', ' ', ']', ' ']) {
        Some((false, s.skip(4)))
    } else if starts_with(s, seq!['[', 'x', ']', ' ']) || starts_with(s, seq!['[', 'X', ']', ' ']) {
        Some((true, s.skip(4)))
    } else {
        None
    }
}

// ── Block structure ──────────────────────────────────────────────────────────

/// The size of the lines from `pos` on.
pub open spec fn msize(ls: Seq<Seq<char>>, pos: int) -> nat {
    csize(ls.skip(pos))
}

/// The first non-blank line at or after `pos` (or the end).
pub open spec fn skip_blank(ls: Seq<Seq<char>>, pos: int) -> int
    decreases ls.len() - pos,
{
    if pos < 0 || pos >= ls.len() {
        pos
    } else if is_blank(ls[pos]) {
        skip_blank(ls, pos + 1)
    } else {
        pos
    }
}

/// A closing fence for a fence of `n` copies of `ch`.
pub open spec fn fence_close(line: Seq<char>, ch: char, n: nat) -> bool {
    let s = trim_start(line);
    let c = run_len(s, ch);
    c >= n && is_blank(s.skip(c as int))
}

/// The first closing fence at or after `i` (or the end).
pub open spec fn fence_end(ls: Seq<Seq<char>>, i: int, ch: char, n: nat) -> int
    decreases ls.len() - i,
{
    if i < 0 || i >= ls.len() {
        i
    } else if fence_close(ls[i], ch, n) {
        i
    } else {
        fence_end(ls, i + 1, ch, n)
    }
}

/// A fenced code block opened at `pos`; it ends at the closing fence or at the end.
pub open spec fn fenced_spec(ls: Seq<Seq<char>>, pos: int, ch: char, n: nat, lang: Seq<char>) -> (
    BlockV,
    int,
) {
    let e = fence_end(ls, pos + 1, ch, n);
    (
        BlockV::CodeBlock {
            lang: if lang.len() == 0 {
                None
            } else {
                Some(lang)
            },
            code: join(ls.subrange(pos + 1, e), '\n'),
        },
        if e < ls.len() {
            e + 1
        } else {
            e
        },
    )
}

/// The lines of an indented code block from `pos` on (blank lines are kept
/// while an indented line follows).
pub open spec fn indent_collect(ls: Seq<Seq<char>>, pos: int, acc: Seq<Seq<char>>) -> (
    Seq<Seq<char>>,
    int,
)
    decreases ls.len() - pos,
{
    if pos < 0 || pos >= ls.len() {
        (acc, pos)
    } else if is_blank(ls[pos]) {
        let la = skip_blank(ls, pos + 1);
        if la >= ls.len() || indent_width(ls[la]) < 4 {
            (acc.push(Seq::empty()), pos + 1)
        } else {
            indent_collect(ls, pos + 1, acc.push(Seq::empty()))
        }
    } else if indent_width(ls[pos]) >= 4 {
        indent_collect(ls, pos + 1, acc.push(strip_indent_spec(ls[pos], 4)))
    } else {
        (acc, pos)
    }
}

/// `cl` without its trailing blank lines.
pub open spec fn drop_blank_tail(cl: Seq<Seq<char>>) -> Seq<Seq<char>>
    decreases cl.len(),
{
    if cl.len() > 0 && is_blank(cl.last()) {
        drop_blank_tail(cl.drop_last())
    } else {
        cl
    }
}

/// An indented code block starting at `pos`.
pub open spec fn indented_spec(ls: Seq<Seq<char>>, pos: int) -> (BlockV, int) {
    let (cl, e) = indent_collect(ls, pos, Seq::empty());
    (BlockV::CodeBlock { lang: None, code: join(drop_blank_tail(cl), '\n') }, e)
}

/// A block-quote line without its `>` and one following space.
pub open spec fn bq_line(line: Seq<char>) -> Seq<char> {
    let after = trim_start(line).skip(1);
    if after.len() > 0 && after[0] == ' ' {
        after.skip(1)
    } else {
        after
    }
}

/// The inner lines of a block quote from `pos` on: `>` lines and lazy
/// continuation lines, up to a blank line.
pub open spec fn bq_collect(ls: Seq<Seq<char>>, pos: int, acc: Seq<Seq<char>>) -> (
    Seq<Seq<char>>,
    int,
)
    decreases ls.len() - pos,
{
    if pos < 0 || pos >= ls.len() {
        (acc, pos)
    } else {
        let t = trim_start(ls[pos]);
        if t.len() > 0 && t[0] == '>' {
            bq_collect(ls, pos + 1, acc.push(bq_line(ls[pos])))
        } else if t.len() == 0 {
            (acc, pos)
        } else {
            bq_collect(ls, pos + 1, acc.push(ls[pos]))
        }
    }
}

/// The first line of a list item without its marker.
pub open spec fn item_first(line: Seq<char>, w: nat) -> Seq<char> {
    if line.len() >= w {
        line.skip(w as int)
    } else {
        Seq::empty()
    }
}

/// The continuation lines of a list item from `pos` on: lines indented by at
/// least the marker width, and blank lines followed by such a line.
pub open spec fn item_collect(ls: Seq<Seq<char>>, pos: int, w: nat, acc: Seq<Seq<char>>) -> (
    Seq<Seq<char>>,
    int,
)
    decreases ls.len() - pos,
{
    if pos < 0 || pos >= ls.len() {
        (acc, pos)
    } else {
        let line = ls[pos];
        if trim_start(line).len() == 0 {
            let la = skip_blank(ls, pos + 1);
            if la >= ls.len() || leading_spaces(ls[la]) < w {
                (acc.push(Seq::empty()), pos + 1)
            } else {
                item_collect(ls, pos + 1, w, acc.push(Seq::empty()))
            }
        } else if leading_spaces(line) >= w {
            item_collect(ls, pos + 1, w, acc.push(strip_indent_spec(line, w as int)))
        } else {
            (acc, pos)
        }
    }
}

/// The checkbox, content text and end of the list item starting at `q`.
pub open spec fn item_content(ls: Seq<Seq<char>>, q: int, w: nat) -> (Option<bool>, Seq<char>, int) {
    let (cl, e) = item_collect(ls, q + 1, w, seq![item_first(ls[q], w)]);
    let raw = trim_end(join(cl, '\n'));
    match checkbox(trim_start(raw)) {
        Some((c, rest)) => (Some(c), rest, e),
        None => (None, raw, e),
    }
}

/// The rows of a table from `pos` on: non-blank lines holding a `|`.
pub open spec fn row_collect(ls: Seq<Seq<char>>, pos: int, acc: Seq<Seq<Seq<InlineV>>>) -> (
    Seq<Seq<Seq<InlineV>>>,
    int,
)
    decreases ls.len() - pos,
{
    if pos < 0 || pos >= ls.len() || is_blank(ls[pos]) || !trim(ls[pos]).contains('|') {
        (acc, pos)
    } else {
        row_collect(ls, pos + 1, acc.push(cells_inl(table_cells(ls[pos]))))
    }
}

/// The inline content of each cell.
pub open spec fn cells_inl(cells: Seq<Seq<char>>) -> Seq<Seq<InlineV>> {
    cells.map_values(|c: Seq<char>| parse_inl(c))
}

/// A table whose header row is at `pos` and separator row at `pos + 1`.
pub open spec fn table_spec(ls: Seq<Seq<char>>, pos: int) -> (BlockV, int) {
    let (rows, e) = row_collect(ls, pos + 2, Seq::empty());
    (
        BlockV::Table {
            headers: cells_inl(table_cells(ls[pos])),
            alignments: table_cells(ls[pos + 1]).map_values(|c: Seq<char>| alignment_of(c)),
            rows,
        },
        e,
    )
}

/// Whether a line ends the paragraph above it and opens a block of its own: a
/// bullet item, or a numbered item that starts at 1, with text after its
/// marker; or an HTML block.
pub open spec fn interrupts_para(raw: Seq<char>) -> bool {
    let s = trim_start(raw);
    ||| (unordered(raw) is Some && !is_blank(s.skip(1)))
    ||| (ordered(raw) matches Some((n, _)) && n == 1 && !is_blank(
        s.skip(digit_run(s) as int + 1),
    ))
    ||| html_block_start(raw)
}

/// The lines of a paragraph from `pos` on, and the setext heading level when an
/// underline (`===` for 1, `---` for 2) ends it.
pub open spec fn para_collect(ls: Seq<Seq<char>>, pos: int, acc: Seq<Seq<char>>) -> (
    Option<nat>,
    Seq<Seq<char>>,
    int,
)
    decreases ls.len() - pos,
{
    if pos < 0 || pos >= ls.len() {
        (None, acc, pos)
    } else {
        let raw = ls[pos];
        let t = trim_start(raw);
        if t.len() == 0 || atx_heading(raw) is Some || fence(t) is Some {
            (None, acc, pos)
        } else if indent_width(raw) < 4 && acc.len() > 0 && all_char(t, '=') {
            (Some(1), acc, pos + 1)
        } else if indent_width(raw) < 4 && thematic(t) {
            if acc.len() > 0 && all_char(t, '-') {
                (Some(2), acc, pos + 1)
            } else {
                (None, acc, pos)
            }
        } else if acc.len() > 0 && interrupts_para(raw) {
            (None, acc, pos)
        } else {
            para_collect(ls, pos + 1, acc.push(raw))
        }
    }
}

/// A paragraph (or setext heading) starting at `pos`.
pub open spec fn para_spec(ls: Seq<Seq<char>>, pos: int) -> (BlockV, int) {
    let (lvl, cl, e) = para_collect(ls, pos, Seq::empty());
    let inl = parse_inl(trim(join(cl, '\n')));
    match lvl {
        Some(l) => (BlockV::Heading { level: l as u8, children: inl }, e),
        None => (BlockV::Paragraph(inl), e),
    }
}

/// The lines of text `t` once line endings are normalised.
pub open spec fn text_lines(t: Seq<char>) -> Seq<Seq<char>> {
    lines(replace_cr(replace_crlf(t)))
}

/// The blocks of a Markdown text.
pub open spec fn blocks_of(t: Seq<char>) -> Seq<BlockV>
    decreases t.len() + 1, 4int,
{
    proof {
        lemma_text_lines_size(t);
    }
    parse_seq(text_lines(t), 0)
}

/// The blocks of the lines from `pos` on.
pub open spec fn parse_seq(ls: Seq<Seq<char>>, pos: int) -> Seq<BlockV>
    decreases msize(ls, pos), 3int,
{
    let q = skip_blank(ls, pos);
    proof {
        lemma_skip_blank(ls, pos);
        lemma_msize_mono(ls, pos, q);
    }
    if q < 0 || q >= ls.len() {
        Seq::empty()
    } else {
        let (b, e) = parse_one(ls, q);
        if q < e <= ls.len() {
            proof {
                lemma_msize_mono(ls, q, e);
            }
            seq![b] + parse_seq(ls, e)
        } else {
            seq![b]
        }
    }
}

/// The block that starts with the (non-blank) line at `pos`, and the line after it.
pub open spec fn parse_one(ls: Seq<Seq<char>>, pos: int) -> (BlockV, int)
    decreases msize(ls, pos), 2int,
{
    let raw = ls[pos];
    let t = trim_start(raw);
    if pos < 0 || pos >= ls.len() {
        (BlockV::Paragraph(Seq::empty()), pos)
    } else {
    match atx_heading(raw) {
        Some((lvl, text)) => (BlockV::Heading { level: lvl as u8, children: parse_inl(text) }, pos + 1),
        None => if indent_width(raw) < 4 && thematic(t) {
            (BlockV::ThematicBreak, pos + 1)
        } else {
            match fence(raw) {
                Some((ch, n, lang)) => fenced_spec(ls, pos, ch, n, lang),
                None => if indent_width(raw) >= 4 {
                    indented_spec(ls, pos)
                } else if t.len() > 0 && t[0] == '>' {
                    let (cl, e) = bq_collect(ls, pos, Seq::empty());
                    proof {
                        lemma_bq_size(ls, pos);
                    }
                    (BlockV::BlockQuote(blocks_of(join(cl, '\n'))), e)
                } else if html_block_start(raw) {
                    html_spec(ls, pos)
                } else {
                    match unordered(raw) {
                        Some(w) => list_spec(ls, pos, false, 1, w),
                        None => match ordered(raw) {
                            Some((n, w)) => list_spec(ls, pos, true, n as u32, w),
                            None => if pos + 1 < ls.len() && separator(trim(ls[pos + 1]))
                                && t.contains('|') {
                                table_spec(ls, pos)
                            } else {
                                para_spec(ls, pos)
                            },
                        },
                    }
                },
            }
        },
    }
    }
}

/// Whether a blank line ends at `e`: the line before `e` (the last line of an
/// item) or the line at `e` is blank.
pub open spec fn ended_blank(ls: Seq<Seq<char>>, e: int) -> bool {
    (0 < e <= ls.len() && is_blank(ls[e - 1])) || (0 <= e < ls.len() && is_blank(ls[e]))
}

/// A list whose first item is at `pos`, with markers `w` wide.
pub open spec fn list_spec(ls: Seq<Seq<char>>, pos: int, is_ordered: bool, start: u32, w: nat) -> (
    BlockV,
    int,
)
    decreases msize(ls, pos), 1int,
{
    let (items, blank_between, e) = list_loop(
        ls,
        pos,
        is_ordered,
        w,
        Seq::empty(),
        false,
        false,
    );
    (BlockV::List { ordered: is_ordered, start, tight: !blank_between, items }, e)
}

/// The items of a list from `pos` on (after skipping blank lines), whether a
/// blank line separated two items, and the end.
pub open spec fn list_loop(
    ls: Seq<Seq<char>>,
    pos: int,
    is_ordered: bool,
    w: nat,
    items: Seq<ListItemV>,
    blank_between: bool,
    prev_blank: bool,
) -> (Seq<ListItemV>, bool, int)
    decreases msize(ls, pos), 0int,
{
    let q = skip_blank(ls, pos);
    proof {
        lemma_skip_blank(ls, pos);
        lemma_msize_mono(ls, pos, q);
    }
    if w == 0 || q < 0 || q >= ls.len() {
        (items, blank_between, q)
    } else if !(if is_ordered {
        ordered(ls[q]) is Some
    } else {
        unordered(ls[q]) is Some
    }) {
        (items, blank_between, q)
    } else {
        let bb = blank_between || (prev_blank && items.len() > 0);
        let (chk, content, e) = item_content(ls, q, w);
        proof {
            lemma_item_size(ls, q, w, is_ordered);
            lemma_msize_mono(ls, q, e);
        }
        let it = ListItemV { checked: chk, children: blocks_of(content) };
        let pb = ended_blank(ls, e);
        list_loop(ls, e, is_ordered, w, items.push(it), bb, pb)
    }
}

// ── Size lemmas (termination of the nested parses) ───────────────────────────

pub proof fn lemma_msize_step(ls: Seq<Seq<char>>, i: int)
    requires
        0 <= i < ls.len(),
    ensures
        msize(ls, i) == ls[i].len() + 1 + msize(ls, i + 1),
{
    assert(ls.skip(i) =~= seq![ls[i]] + ls.skip(i + 1));
    lemma_csize_concat(seq![ls[i]], ls.skip(i + 1));
    assert(seq![ls[i]].drop_last() =~= Seq::<Seq<char>>::empty());
    assert(csize(Seq::<Seq<char>>::empty()) == 0);
}

pub proof fn lemma_msize_mono(ls: Seq<Seq<char>>, i: int, j: int)
    ensures
        0 <= i <= j <= ls.len() ==> msize(ls, j) <= msize(ls, i),
        0 <= i < j <= ls.len() ==> msize(ls, j) < msize(ls, i),
    decreases j - i,
{
    if 0 <= i < j <= ls.len() {
        lemma_msize_step(ls, i);
        lemma_msize_mono(ls, i + 1, j);
    }
}

pub proof fn lemma_skip_blank(ls: Seq<Seq<char>>, pos: int)
    ensures
        0 <= pos <= ls.len() ==> pos <= skip_blank(ls, pos) <= ls.len(),
        0 <= pos ==> skip_blank(ls, pos) >= pos,
        skip_blank(ls, pos) < pos ==> skip_blank(ls, pos) == pos,
        0 <= skip_blank(ls, pos) < ls.len() ==> !is_blank(ls[skip_blank(ls, pos)]),
        forall|k: int| pos <= k < skip_blank(ls, pos) ==> is_blank(#[trigger] ls[k]),
    decreases ls.len() - pos,
{
    if !(pos < 0 || pos >= ls.len()) && is_blank(ls[pos]) {
        lemma_skip_blank(ls, pos + 1);
    }
}

pub proof fn lemma_text_lines_size(t: Seq<char>)
    ensures
        msize(text_lines(t), 0) <= t.len() + 1,
{
    let u = replace_cr(replace_crlf(t));
    lemma_replace_crlf_len(t);
    lemma_lines_size(u);
    assert(text_lines(t).skip(0) =~= text_lines(t));
}

pub proof fn lemma_trim_end_shorter(s: Seq<char>)
    ensures
        trim_end(s).len() <= s.len(),
    decreases s.len(),
{
    if s.len() > 0 && crate::text::is_ws(s.last()) {
        lemma_trim_end_shorter(s.drop_last());
    }
}

pub proof fn lemma_strip_indent_shorter(s: Seq<char>, n: int)
    ensures
        strip_indent_spec(s, n).len() <= s.len(),
    decreases s.len(),
{
    if !(n <= 0 || s.len() == 0) {
        if s[0] == ' ' {
            lemma_strip_indent_shorter(s.drop_first(), n - 1);
        } else if s[0] == '\t' {
            lemma_strip_indent_shorter(s.drop_first(), n - 4);
        }
    }
}

pub proof fn lemma_bq_collect(ls: Seq<Seq<char>>, pos: int, acc: Seq<Seq<char>>)
    requires
        0 <= pos <= ls.len(),
    ensures
        pos <= bq_collect(ls, pos, acc).1 <= ls.len(),
        csize(bq_collect(ls, pos, acc).0) + msize(ls, bq_collect(ls, pos, acc).1) <= csize(acc)
            + msize(ls, pos),
        bq_collect(ls, pos, acc).0.len() >= acc.len(),
    decreases ls.len() - pos,
{
    if pos < ls.len() {
        let t = trim_start(ls[pos]);
        if t.len() > 0 {
            lemma_msize_step(ls, pos);
            let x = if t[0] == '>' {
                bq_line(ls[pos])
            } else {
                ls[pos]
            };
            lemma_trim_start_shorter(ls[pos]);
            assert(acc.push(x).drop_last() =~= acc);
            lemma_bq_collect(ls, pos + 1, acc.push(x));
        }
    }
}

pub proof fn lemma_bq_size(ls: Seq<Seq<char>>, pos: int)
    ensures
        0 <= pos < ls.len() && trim_start(ls[pos]).len() > 0 && trim_start(ls[pos])[0] == '>'
            ==> join(bq_collect(ls, pos, Seq::empty()).0, '\n').len() + 1 < msize(ls, pos),
{
    if 0 <= pos < ls.len() && trim_start(ls[pos]).len() > 0 && trim_start(ls[pos])[0] == '>' {
        let x = bq_line(ls[pos]);
        lemma_trim_start_shorter(ls[pos]);
        assert(x.len() < ls[pos].len());
        let acc = Seq::<Seq<char>>::empty().push(x);
        assert(acc.drop_last() =~= Seq::<Seq<char>>::empty());
        assert(csize(Seq::<Seq<char>>::empty()) == 0);
        lemma_bq_collect(ls, pos + 1, acc);
        lemma_msize_step(ls, pos);
        let cl = bq_collect(ls, pos, Seq::empty()).0;
        lemma_join_len(cl, '\n');
    }
}

pub proof fn lemma_item_collect(ls: Seq<Seq<char>>, pos: int, w: nat, acc: Seq<Seq<char>>)
    requires
        0 <= pos <= ls.len(),
    ensures
        pos <= item_collect(ls, pos, w, acc).1 <= ls.len(),
        csize(item_collect(ls, pos, w, acc).0) + msize(ls, item_collect(ls, pos, w, acc).1)
            <= csize(acc) + msize(ls, pos),
        item_collect(ls, pos, w, acc).0.len() >= acc.len(),
    decreases ls.len() - pos,
{
    if pos < ls.len() {
        let line = ls[pos];
        lemma_msize_step(ls, pos);
        if trim_start(line).len() == 0 {
            let x = Seq::<char>::empty();
            assert(acc.push(x).drop_last() =~= acc);
            let la = skip_blank(ls, pos + 1);
            if !(la >= ls.len() || leading_spaces(ls[la]) < w) {
                lemma_item_collect(ls, pos + 1, w, acc.push(x));
            } else {
                lemma_msize_mono(ls, pos + 1, pos + 1);
            }
        } else if leading_spaces(line) >= w {
            let x = strip_indent_spec(line, w as int);
            lemma_strip_indent_shorter(line, w as int);
            assert(acc.push(x).drop_last() =~= acc);
            lemma_item_collect(ls, pos + 1, w, acc.push(x));
        }
    }
}

pub proof fn lemma_item_size(ls: Seq<Seq<char>>, q: int, w: nat, is_ordered: bool)
    ensures
        (0 <= q < ls.len() && w >= 1 && (if is_ordered {
            ordered(ls[q]) is Some
        } else {
            unordered(ls[q]) is Some
        })) ==> {
            &&& item_content(ls, q, w).1.len() + 1 < msize(ls, q)
            &&& q < item_content(ls, q, w).2 <= ls.len()
        },
{
    if 0 <= q < ls.len() && w >= 1 && (if is_ordered {
        ordered(ls[q]) is Some
    } else {
        unordered(ls[q]) is Some
    }) {
        lemma_trim_start_shorter(ls[q]);
        assert(ls[q].len() >= 1);
        let x = item_first(ls[q], w);
        assert(x.len() < ls[q].len());
        let acc = Seq::<Seq<char>>::empty().push(x);
        assert(acc.drop_last() =~= Seq::<Seq<char>>::empty());
        assert(csize(Seq::<Seq<char>>::empty()) == 0);
        lemma_item_collect(ls, q + 1, w, acc);
        lemma_msize_step(ls, q);
        let (cl, e) = item_collect(ls, q + 1, w, acc);
        lemma_join_len(cl, '\n');
        let raw = trim_end(join(cl, '\n'));
        lemma_trim_end_shorter(join(cl, '\n'));
        lemma_trim_start_shorter(raw);
    }
}

// ── Line classification (executable) ─────────────────────────────────────────

/// Number of leading spaces.
fn leading_spaces_of(s: &Vec<char>) -> (n: usize)
    ensures
        n == leading_spaces(s@),
        n <= s@.len(),
{
    let n = count_run(s, 0, ' ');
    assert(s@.skip(0) =~= s@);
    n
}

/// `s` without up to `n` columns of indentation; a tab counts as 4 columns.
fn strip_indent(s: &Vec<char>, n: usize) -> (r: Vec<char>)
    requires
        n <= usize::MAX - 4,
    ensures
        r@ == strip_indent_spec(s@, n as int),
{
    let mut count: usize = 0;
    let mut idx: usize = 0;
    assert(s@.skip(0) =~= s@);
    while idx < s.len() && count < n && (s[idx] == ' ' || s[idx] == '\t')
        invariant
            idx <= s@.len(),
            n <= usize::MAX - 4,
            count <= n + 3,
            strip_indent_spec(s@, n as int) == strip_indent_spec(s@.skip(idx as int), n - count),
        decreases s.len() - idx,
    {
        proof {
            lemma_skip_drop_first(s@, idx as int);
        }
        if s[idx] == ' ' {
            count += 1;
        } else {
            count += 4;
        }
        idx += 1;
    }
    proof {
        if idx == s.len() {
            assert(s@.skip(idx as int) =~= Seq::<char>::empty());
        }
    }
    slice(s, idx, s.len())
}

/// Whether the indentation of `s` is at least 4 columns (a tab counts 4).
fn ascii_lower_char(c: char) -> (r: char)
    ensures
        r == ascii_lower(c),
{
    if 'A' <= c && c <= 'Z' {
        ((c as u8) + 32) as char
    } else {
        c
    }
}

/// Whether `v` holds exactly the characters of `w`.
fn is_word(v: &Vec<char>, w: &str) -> (r: bool)
    ensures
        r == (v@ == w@),
{
    let wc = str_chars(w);
    let r = v.len() == wc.len() && eq_at(v, 0, &wc);
    proof {
        if v@.len() == wc@.len() {
            assert(v@.subrange(0, wc@.len() as int) =~= v@);
        }
    }
    r
}

fn is_block_tag(name: &Vec<char>) -> (r: bool)
    ensures
        r == block_tag(name@),
{
    is_word(name, "address")
        || is_word(name, "article")
        || is_word(name, "aside")
        || is_word(name, "base")
        || is_word(name, "basefont")
        || is_word(name, "blockquote")
        || is_word(name, "body")
        || is_word(name, "caption")
        || is_word(name, "center")
        || is_word(name, "col")
        || is_word(name, "colgroup")
        || is_word(name, "dd")
        || is_word(name, "details")
        || is_word(name, "dialog")
        || is_word(name, "dir")
        || is_word(name, "div")
        || is_word(name, "dl")
        || is_word(name, "dt")
        || is_word(name, "fieldset")
        || is_word(name, "figcaption")
        || is_word(name, "figure")
        || is_word(name, "footer")
        || is_word(name, "form")
        || is_word(name, "frame")
        || is_word(name, "frameset")
        || is_word(name, "h1")
        || is_word(name, "h2")
        || is_word(name, "h3")
        || is_word(name, "h4")
        || is_word(name, "h5")
        || is_word(name, "h6")
        || is_word(name, "head")
        || is_word(name, "header")
        || is_word(name, "hr")
        || is_word(name, "html")
        || is_word(name, "iframe")
        || is_word(name, "legend")
        || is_word(name, "li")
        || is_word(name, "link")
        || is_word(name, "main")
        || is_word(name, "menu")
        || is_word(name, "menuitem")
        || is_word(name, "nav")
        || is_word(name, "noframes")
        || is_word(name, "ol")
        || is_word(name, "optgroup")
        || is_word(name, "option")
        || is_word(name, "p")
        || is_word(name, "param")
        || is_word(name, "search")
        || is_word(name, "section")
        || is_word(name, "summary")
        || is_word(name, "table")
        || is_word(name, "tbody")
        || is_word(name, "td")
        || is_word(name, "tfoot")
        || is_word(name, "th")
        || is_word(name, "thead")
        || is_word(name, "title")
        || is_word(name, "tr")
        || is_word(name, "track")
        || is_word(name, "ul")
}

fn detect_html_block_start(line: &Vec<char>) -> (r: bool)
    ensures
        r == html_block_start(line@),
{
    if indented4(line) {
        return false;
    }
    let t = trim_start_vec(line);
    if t.len() == 0 || t[0] != '<' {
        return false;
    }
    let i: usize = if t.len() > 1 && t[1] == '/' {
        2
    } else {
        1
    };
    let mut j: usize = i;
    let mut name: Vec<char> = Vec::new();
    assert(t@.skip(i as int).skip(0) =~= t@.skip(i as int));
    while j < t.len() && is_ascii_alnum_char(t[j])
        invariant
            i <= j <= t@.len(),
            i <= t@.len(),
            alnum_run(t@.skip(i as int)) == (j - i) + alnum_run(t@.skip(j as int)),
            name@ == t@.subrange(i as int, j as int).map_values(|c: char| ascii_lower(c)),
        decreases t.len() - j,
    {
        assert(t@.skip(j as int).drop_first() =~= t@.skip(j + 1));
        let ghost before = name@;
        name.push(ascii_lower_char(t[j]));
        j += 1;
        assert(name@ =~= t@.subrange(i as int, j as int).map_values(|c: char| ascii_lower(c)));
    }
    let ghost rest = t@.skip(i as int);
    proof {
        assert(alnum_run(t@.skip(j as int)) == 0);
        assert(rest.take((j - i) as int) =~= t@.subrange(i as int, j as int));
        assert(rest.skip((j - i) as int) =~= t@.skip(j as int));
    }
    if j == i || !is_block_tag(&name) {
        return false;
    }
    if j == t.len() {
        return true;
    }
    let c = t[j];
    c == ' ' || c == '\t' || c == '>' || (c == '/' && j + 1 < t.len() && t[j + 1] == '>')
}

fn is_ascii_alnum_char(c: char) -> (r: bool)
    ensures
        r == is_ascii_alnum(c),
{
    ('a' <= c && c <= 'z') || ('A' <= c && c <= 'Z') || ('0' <= c && c <= '9')
}

/// Number of leading ASCII digits of `v`.
fn digit_count(v: &Vec<char>) -> (k: usize)
    ensures
        k == digit_run(v@),
        k <= v@.len(),
{
    let mut i: usize = 0;
    assert(v@.skip(0) =~= v@);
    while i < v.len() && '0' <= v[i] && v[i] <= '9'
        invariant
            i <= v@.len(),
            digit_run(v@) == i + digit_run(v@.skip(i as int)),
        decreases v.len() - i,
    {
        proof {
            lemma_skip_drop_first(v@, i as int);
        }
        i += 1;
    }
    proof {
        if i < v@.len() {
            lemma_skip_drop_first(v@, i as int);
        }
    }
    i
}

fn indented4(s: &Vec<char>) -> (r: bool)
    ensures
        r == (indent_width(s@) >= 4),
{
    let mut w: usize = 0;
    let mut i: usize = 0;
    assert(s@.skip(0) =~= s@);
    while i < s.len() && w < 4
        invariant
            i <= s@.len(),
            w <= 7,
            indent_width(s@) == w + indent_width(s@.skip(i as int)),
        decreases s.len() - i,
    {
        proof {
            lemma_skip_drop_first(s@, i as int);
        }
        if s[i] == ' ' {
            w += 1;
        } else if s[i] == '\t' {
            w += 4;
        } else {
            return false;
        }
        i += 1;
    }
    w >= 4
}

/// ATX heading: `# Title` gives its level and text.
fn detect_atx_heading(line: &Vec<char>) -> (r: Option<(u8, Vec<char>)>)
    ensures
        match r {
            Some((l, t)) => atx_heading(line@) == Some((l as nat, t@)),
            None => atx_heading(line@) is None,
        },
{
    let lead = leading_spaces_of(line);
    if lead > 3 {
        return None;
    }
    let s = slice(line, lead, line.len());
    assert(s@ =~= trim_start_char(line@, ' '));
    let hashes = count_run(&s, 0, '#');
    assert(s@.skip(0) =~= s@);
    if hashes == 0 || hashes > 6 {
        return None;
    }
    let rest = slice(&s, hashes, s.len());
    assert(rest@ =~= s@.skip(hashes as int));
    if rest.len() > 0 && rest[0] != ' ' {
        return None;
    }
    let t = trim_vec(&rest);
    let mut before = slice(&t, 0, t.len());
    assert(before@ =~= t@);
    pop_trailing(&mut before, '#');
    if before.len() == 0 {
        Some((hashes as u8, before))
    } else if is_ws_char(before[before.len() - 1]) {
        Some((hashes as u8, trim_end_vec(&before)))
    } else {
        Some((hashes as u8, t))
    }
}

/// Thematic break: `---`, `***`, `___` (with optional spaces).
pub fn is_thematic_break(line: &Vec<char>) -> (r: bool)
    ensures
        r == thematic(line@),
{
    if leading_spaces_of(line) > 3 {
        return false;
    }
    let s = trim_vec(line);
    if s.len() < 3 {
        return false;
    }
    let ch = s[0];
    if !(ch == '-' || ch == '*' || ch == '_') {
        return false;
    }
    let mut count: usize = 0;
    let mut all_ok = true;
    let mut i: usize = 0;
    assert(s@.take(0) =~= Seq::<char>::empty());
    while i < s.len()
        invariant
            i <= s@.len(),
            ch == s@[0],
            count == count_char(s@.take(i as int), ch),
            count <= i,
            all_ok == (forall|k: int| 0 <= k < i ==> #[trigger] s@[k] == ch || s@[k] == ' '),
        decreases s.len() - i,
    {
        proof {
            lemma_take_drop_last(s@, i + 1);
        }
        if s[i] == ch {
            count += 1;
        } else if s[i] != ' ' {
            all_ok = false;
        }
        i += 1;
    }
    assert(s@.take(s@.len() as int) =~= s@);
    count >= 3 && all_ok
}

/// Fenced code block opening: the fence character, its length and the info string.
fn detect_fence(line: &Vec<char>) -> (r: Option<(char, usize, Vec<char>)>)
    ensures
        match r {
            Some((c, n, lang)) => fence(line@) == Some((c, n as nat, lang@)),
            None => fence(line@) is None,
        },
{
    if leading_spaces_of(line) > 3 {
        return None;
    }
    let s = trim_start_vec(line);
    if s.len() == 0 {
        return None;
    }
    let ch = s[0];
    if ch != '`' && ch != '~' {
        return None;
    }
    let n = count_run(&s, 0, ch);
    assert(s@.skip(0) =~= s@);
    if n < 3 {
        return None;
    }
    let rest = slice(&s, n, s.len());
    let lang = trim_vec(&rest);
    if ch == '`' && contains_char(&lang, '`') {
        return None;
    }
    Some((ch, n, lang))
}

/// Bullet list marker: the width of the marker with the space after it.
fn detect_unordered(line: &Vec<char>) -> (r: Option<usize>)
    ensures
        match r {
            Some(w) => unordered(line@) == Some(w as nat) && 2 <= w <= 14,
            None => unordered(line@) is None,
        },
{
    let lead = leading_spaces_of(line);
    if lead > 3 {
        return None;
    }
    let s = trim_start_vec(line);
    if s.len() == 0 {
        return None;
    }
    let ch = s[0];
    if !(ch == '-' || ch == '*' || ch == '+') {
        return None;
    }
    assert(s@.skip(1).len() == s@.len() - 1);
    if s.len() == 1 || s[1] == ' ' {
        Some(lead + 2)
    } else {
        None
    }
}

pub open spec fn pow10(n: nat) -> nat
    decreases n,
{
    if n == 0 {
        1
    } else {
        10 * pow10((n - 1) as nat)
    }
}

/// Ordered list marker: the start number and the marker's width.
fn detect_ordered(line: &Vec<char>) -> (r: Option<(u32, usize)>)
    ensures
        match r {
            Some((n, w)) => ordered(line@) == Some((n as nat, w as nat)) && 2 <= w <= 14,
            None => ordered(line@) is None,
        },
{
    let lead = leading_spaces_of(line);
    if lead > 3 {
        return None;
    }
    let s = trim_start_vec(line);
    let mut k: usize = 0;
    assert(s@.skip(0) =~= s@);
    while k < s.len() && '0' <= s[k] && s[k] <= '9'
        invariant
            k <= s@.len(),
            digit_run(s@) == k + digit_run(s@.skip(k as int)),
        decreases s.len() - k,
    {
        proof {
            lemma_skip_drop_first(s@, k as int);
        }
        k += 1;
    }
    if k == 0 || k > 9 {
        return None;
    }
    proof {
        lemma_digit_run(s@);
    }
    if !(k < s.len() && (s[k] == '.' || s[k] == ')')) {
        return None;
    }
    if k + 1 < s.len() && s[k + 1] != ' ' {
        return None;
    }
    let mut v: u32 = 0;
    let mut i: usize = 0;
    assert(s@.take(0) =~= Seq::<char>::empty());
    proof {
        reveal_with_fuel(pow10, 10);
    }
    while i < k
        invariant
            k <= 9,
            k <= s@.len(),
            forall|m: int| 0 <= m < k ==> is_ascii_digit(#[trigger] s@[m]),
            i <= k,
            v == digits_value(s@.take(i as int)),
            v < pow10(i as nat),
            pow10(i as nat) <= 1000000000,
        decreases k - i,
    {
        proof {
            lemma_take_drop_last(s@, i + 1);
            reveal_with_fuel(pow10, 10);
        }
        let d = (s[i] as u32) - ('0' as u32);
        v = v * 10 + d;
        i += 1;
    }
    Some((v, lead + k + 2))
}

pub proof fn lemma_digit_run(s: Seq<char>)
    ensures
        digit_run(s) <= s.len(),
        forall|m: int| 0 <= m < digit_run(s) ==> is_ascii_digit(#[trigger] s[m]),
    decreases s.len(),
{
    if s.len() > 0 && is_ascii_digit(s[0]) {
        lemma_digit_run(s.drop_first());
        assert forall|m: int| 0 <= m < digit_run(s) implies is_ascii_digit(#[trigger] s[m]) by {
            if m > 0 {
                assert(s[m] == s.drop_first()[m - 1]);
            }
        }
    }
}

/// `v.trim_matches(c)`.
fn trim_char_vec(v: &Vec<char>, c: char) -> (r: Vec<char>)
    ensures
        r@ == trim_char(v@, c),
{
    let k = count_run(v, 0, c);
    assert(v@.skip(0) =~= v@);
    let mut r = slice(v, k, v.len());
    pop_trailing(&mut r, c);
    r
}

fn all_dashes(v: &Vec<char>) -> (r: bool)
    ensures
        r == all_char(v@, '-'),
{
    let mut i: usize = 0;
    while i < v.len()
        invariant
            i <= v@.len(),
            forall|k: int| 0 <= k < i ==> #[trigger] v@[k] == '-',
        decreases v.len() - i,
    {
        if v[i] != '-' {
            return false;
        }
        i += 1;
    }
    true
}

/// GFM table separator line: `| --- | :---: |` etc.
fn is_separator_line(line: &Vec<char>) -> (r: bool)
    ensures
        r == separator(line@),
{
    let s = trim_vec(line);
    if !contains_char(&s, '|') && !(s.len() > 0 && s[0] == '-') && !(s.len() > 0 && s[0] == ':') {
        return false;
    }
    let cells = split_vec(&s, '|');
    let mut i: usize = 0;
    while i < cells.len()
        invariant
            i <= cells@.len(),
            lines_view(cells@) == split(s@, '|'),
            s@ == trim(line@),
            !(!s@.contains('|') && !(s@.len() > 0 && s@[0] == '-') && !(s@.len() > 0 && s@[0]
                == ':')),
            forall|k: int| 0 <= k < i ==> sep_piece_ok(#[trigger] split(s@, '|')[k]),
        decreases cells.len() - i,
    {
        let c = trim_vec(&cells[i]);
        assert(split(s@, '|')[i as int] == cells@[i as int]@);
        if c.len() > 0 {
            let a = trim_char_vec(&c, ':');
            let inner = trim_char_vec(&a, '-');
            if !(inner.len() == 0 || all_dashes(&inner)) {
                assert(!sep_piece_ok(split(s@, '|')[i as int]));
                return false;
            }
        }
        i += 1;
    }
    true
}

/// Column alignment from a separator cell.
fn parse_alignment(cell: &Vec<char>) -> (r: Alignment)
    ensures
        r == alignment_of(cell@),
{
    let s = trim_vec(cell);
    let left = s.len() > 0 && s[0] == ':';
    let right = s.len() > 0 && s[s.len() - 1] == ':';
    if left && right {
        Alignment::Center
    } else if left {
        Alignment::Left
    } else if right {
        Alignment::Right
    } else {
        Alignment::Unaligned
    }
}

/// The trimmed cells of a table row, without the optional outer pipes.
fn split_table_row(line: &Vec<char>) -> (r: Vec<Vec<char>>)
    ensures
        lines_view(r@) == table_cells(line@),
{
    let s = trim_vec(line);
    let s1 = if s.len() > 0 && s[0] == '|' {
        slice(&s, 1, s.len())
    } else {
        slice(&s, 0, s.len())
    };
    assert(s@.subrange(0, s@.len() as int) =~= s@);
    let mut s2 = s1;
    if s2.len() > 0 && s2[s2.len() - 1] == '|' {
        s2.pop();
    }
    let pieces = split_vec(&s2, '|');
    let ghost expected = table_cells(line@);
    let mut out: Vec<Vec<char>> = Vec::new();
    let mut i: usize = 0;
    while i < pieces.len()
        invariant
            i <= pieces@.len(),
            lines_view(pieces@) == split(s2@, '|'),
            expected == split(s2@, '|').map_values(|c: Seq<char>| trim(c)),
            out@.len() == i,
            forall|k: int| 0 <= k < i ==> (#[trigger] out@[k])@ == expected[k],
        decreases pieces.len() - i,
    {
        let c = trim_vec(&pieces[i]);
        assert(split(s2@, '|')[i as int] == pieces@[i as int]@);
        out.push(c);
        i += 1;
    }
    assert(lines_view(out@) =~= expected);
    out
}

/// Task-list checkbox at the start of list-item content.
fn detect_checkbox(s: &Vec<char>) -> (r: Option<(bool, Vec<char>)>)
    ensures
        match r {
            Some((c, rest)) => checkbox(s@) == Some((c, rest@)),
            None => checkbox(s@) is None,
        },
{
    if s.len() >= 4 && s[0] == '[' && s[2] == ']' && s[3] == ' ' {
        assert(s@.take(4) =~= seq!['[', s@[1], ']', ' ']);
        if s[1] == ' ' {
            return Some((false, slice(s, 4, s.len())));
        }
        if s[1] == 'x' || s[1] == 'X' {
            return Some((true, slice(s, 4, s.len())));
        }
    }
    proof {
        if s@.len() >= 4 {
            if s@.take(4) == seq!['[', ' ', ']', ' '] || s@.take(4) == seq!['[', 'x', ']', ' ']
                || s@.take(4) == seq!['[', 'X', ']', ' '] {
                assert(s@.take(4)[0] == s@[0]);
                assert(s@.take(4)[1] == s@[1]);
                assert(s@.take(4)[2] == s@[2]);
                assert(s@.take(4)[3] == s@[3]);
            }
        }
    }
    None
}

pub proof fn lemma_blank_trim_start(s: Seq<char>)
    ensures
        is_blank(s) <==> trim_start(s).len() == 0,
    decreases s.len(),
{
    if s.len() > 0 {
        if crate::text::is_ws(s[0]) {
            lemma_blank_trim_start(s.drop_first());
            if is_blank(s.drop_first()) {
                assert forall|i: int| 0 <= i < s.len() implies crate::text::is_ws(#[trigger] s[i]) by {
                    if i > 0 {
                        assert(s[i] == s.drop_first()[i - 1]);
                    }
                }
            } else {
                let k = choose|k: int|
                    0 <= k < s.drop_first().len() && !crate::text::is_ws(#[trigger] s.drop_first()[k]);
                assert(s[k + 1] == s.drop_first()[k]);
            }
        } else {
            assert(!crate::text::is_ws(s[0]));
        }
    }
}

pub proof fn lemma_leading_le_indent(s: Seq<char>)
    ensures
        leading_spaces(s) <= indent_width(s),
    decreases s.len(),
{
    if s.len() > 0 && s[0] == ' ' {
        lemma_leading_le_indent(s.drop_first());
    }
}

pub proof fn lemma_trim_start_idem(s: Seq<char>)
    ensures
        trim_start(trim_start(s)) == trim_start(s),
        run_len(trim_start(s), ' ') == 0,
{
    lemma_trim_start_shorter(s);
    let t = trim_start(s);
    if t.len() > 0 {
        assert(!crate::text::is_ws(t[0]));
        assert(t[0] != ' ');
    }
}

/// The fence test on a line with at most three columns of indentation gives
/// the same answer once the line is trimmed.
pub proof fn lemma_fence_trimmed(raw: Seq<char>)
    requires
        indent_width(raw) < 4,
    ensures
        fence(trim_start(raw)) == fence(raw),
{
    lemma_leading_le_indent(raw);
    lemma_trim_start_idem(raw);
}

// ── Block parser ─────────────────────────────────────────────────────────────

/// Parses a Markdown document into blocks.
pub fn parse_blocks(input: &str) -> (r: Vec<Block>)
    ensures
        blocks_view(r@) == blocks_of(input@),
{
    parse_text(str_chars(input))
}

/// The blocks of the text `text` (the entry of the nested parses of block
/// quotes and list items).
fn parse_text(text: Vec<char>) -> (r: Vec<Block>)
    ensures
        blocks_view(r@) == blocks_of(text@),
    decreases text@.len() + 1, 4int,
{
    let a = replace_crlf_vec(&text);
    let b = replace_cr_vec(&a);
    let lines = lines_vec(&b);
    proof {
        lemma_text_lines_size(text@);
    }
    let mut parser = BlockParser { lines, pos: 0 };
    parser.parse()
}

/// Parser state: the lines of the document and the current line.
struct BlockParser {
    lines: Vec<Vec<char>>,
    pos: usize,
}

impl BlockParser {
    /// The lines, as sequences of characters.
    spec fn lv(&self) -> Seq<Seq<char>> {
        lines_view(self.lines@)
    }

    fn at_end(&self) -> (r: bool)
        ensures
            r == (self.pos >= self.lines@.len()),
    {
        self.pos >= self.lines.len()
    }

    /// The current line, if any.
    fn line(&self) -> (r: Option<&Vec<char>>)
        ensures
            match r {
                Some(l) => self.pos < self.lines@.len() && l@ == self.lv()[self.pos as int],
                None => self.pos >= self.lines@.len(),
            },
    {
        if self.pos < self.lines.len() {
            Some(&self.lines[self.pos])
        } else {
            None
        }
    }

    /// Whether line `i` is blank (or past the end).
    fn is_blank(&self, i: usize) -> (r: bool)
        ensures
            r == (i >= self.lines@.len() || is_blank(self.lv()[i as int])),
    {
        if i < self.lines.len() {
            blank(&self.lines[i])
        } else {
            true
        }
    }

    /// The first non-blank line at or after `from`.
    fn next_nonblank(&self, from: usize) -> (r: usize)
        requires
            from <= self.lines@.len(),
        ensures
            r == skip_blank(self.lv(), from as int),
            from <= r <= self.lines@.len(),
    {
        let mut la = from;
        while la < self.lines.len() && blank(&self.lines[la])
            invariant
                from <= la <= self.lines@.len(),
                skip_blank(self.lv(), from as int) == skip_blank(self.lv(), la as int),
            decreases self.lines.len() - la,
        {
            la += 1;
        }
        la
    }

    fn skip_blank_lines(&mut self)
        requires
            old(self).pos <= old(self).lines@.len(),
        ensures
            final(self).lines == old(self).lines,
            final(self).pos == skip_blank(old(self).lv(), old(self).pos as int),
            old(self).pos <= final(self).pos <= final(self).lines@.len(),
    {
        self.pos = self.next_nonblank(self.pos);
    }

    /// The blocks from the current line on.
    fn parse(&mut self) -> (r: Vec<Block>)
        requires
            old(self).pos <= old(self).lines@.len(),
        ensures
            final(self).lines == old(self).lines,
            blocks_view(r@) == parse_seq(old(self).lv(), old(self).pos as int),
        decreases msize(old(self).lv(), old(self).pos as int), 3int,
    {
        assert(self.lines.len() == self.lines@.len());
        let ghost ls = self.lv();
        let ghost p0 = self.pos as int;
        let mut blocks: Vec<Block> = Vec::new();
        assert(blocks_view(blocks@) + parse_seq(ls, p0) =~= parse_seq(ls, p0));
        loop
            invariant
                self.lines == old(self).lines,
                ls == self.lv(),
                ls == old(self).lv(),
                p0 == old(self).pos,
                self.pos <= ls.len(),
                msize(ls, self.pos as int) <= msize(ls, p0),
                parse_seq(ls, p0) == blocks_view(blocks@) + parse_seq(ls, self.pos as int),
            ensures
                self.lines == old(self).lines,
                parse_seq(ls, p0) == blocks_view(blocks@),
            decreases msize(ls, self.pos as int),
        {
            let ghost before = self.pos as int;
            self.skip_blank_lines();
            proof {
                lemma_skip_blank(ls, before);
                lemma_msize_mono(ls, before, self.pos as int);
            }
            if self.at_end() {
                assert(blocks_view(blocks@) + Seq::<BlockV>::empty() =~= blocks_view(blocks@));
                break;
            }
            let ghost q = self.pos as int;
            let b = self.parse_one();
            proof {
                lemma_msize_mono(ls, q, self.pos as int);
                lemma_blocks_view_push(blocks@, b);
                assert(blocks_view(blocks@.push(b)) + parse_seq(ls, self.pos as int) =~= blocks_view(
                    blocks@,
                ) + (seq![block_view(b)] + parse_seq(ls, self.pos as int)));
            }
            blocks.push(b);
        }
        blocks
    }

    /// The block starting at the current (non-blank) line.
    fn parse_one(&mut self) -> (r: Block)
        requires
            old(self).pos < old(self).lines@.len(),
            !is_blank(old(self).lv()[old(self).pos as int]),
        ensures
            final(self).lines == old(self).lines,
            old(self).pos < final(self).pos <= final(self).lines@.len(),
            (block_view(r), final(self).pos as int) == parse_one(
                old(self).lv(),
                old(self).pos as int,
            ),
        decreases msize(old(self).lv(), old(self).pos as int), 2int,
    {
        assert(self.lines.len() == self.lines@.len());
        let ghost ls = self.lv();
        let ghost pos = self.pos as int;
        let raw = slice(&self.lines[self.pos], 0, self.lines[self.pos].len());
        assert(raw@ =~= ls[pos]);
        let trimmed = trim_start_vec(&raw);
        proof {
            lemma_blank_trim_start(raw@);
        }
        match detect_atx_heading(&raw) {
            Some((level, text)) => {
                self.pos += 1;
                return Block::Heading { level, children: parse_inline_chars(text) };
            },
            None => {},
        }
        if !indented4(&raw) && is_thematic_break(&trimmed) {
            self.pos += 1;
            return Block::ThematicBreak;
        }
        match detect_fence(&raw) {
            Some((ch, n, lang)) => {
                return self.parse_fenced(ch, n, lang);
            },
            None => {},
        }
        if indented4(&raw) {
            return self.parse_indented_code();
        }
        proof {
            lemma_fence_trimmed(raw@);
        }
        if trimmed.len() > 0 && trimmed[0] == '>' {
            return self.parse_blockquote();
        }
        if detect_html_block_start(&raw) {
            return self.parse_html_block();
        }
        match detect_unordered(&raw) {
            Some(w) => {
                return self.parse_list(false, 1, w);
            },
            None => {},
        }
        match detect_ordered(&raw) {
            Some((start, w)) => {
                return self.parse_list(true, start, w);
            },
            None => {},
        }
        if self.pos + 1 < self.lines.len() {
            let next = trim_vec(&self.lines[self.pos + 1]);
            if is_separator_line(&next) && contains_char(&trimmed, '|') {
                return self.parse_table();
            }
        }
        self.parse_paragraph()
    }

    /// An HTML block starting at the current line: the lines up to a blank one.
    fn parse_html_block(&mut self) -> (r: Block)
        requires
            old(self).pos < old(self).lines@.len(),
            !is_blank(old(self).lv()[old(self).pos as int]),
        ensures
            final(self).lines == old(self).lines,
            old(self).pos < final(self).pos <= final(self).lines@.len(),
            (block_view(r), final(self).pos as int) == html_spec(
                old(self).lv(),
                old(self).pos as int,
            ),
    {
        assert(self.lines.len() == self.lines@.len());
        let ghost ls = self.lv();
        let ghost p0 = self.pos as int;
        let mut html_lines: Vec<Vec<char>> = Vec::new();
        assert(lines_view(html_lines@) =~= ls.subrange(p0, p0));
        while self.pos < self.lines.len() && !blank(&self.lines[self.pos])
            invariant
                self.lines == old(self).lines,
                ls == self.lv(),
                0 <= p0 < ls.len(),
                !is_blank(ls[p0]),
                p0 <= self.pos <= ls.len(),
                html_end(ls, p0) == html_end(ls, self.pos as int),
                lines_view(html_lines@) == ls.subrange(p0, self.pos as int),
            decreases self.lines.len() - self.pos,
        {
            let line = slice(&self.lines[self.pos], 0, self.lines[self.pos].len());
            assert(line@ =~= ls[self.pos as int]);
            let ghost before = lines_view(html_lines@);
            html_lines.push(line);
            self.pos += 1;
            assert(lines_view(html_lines@) =~= before.push(line@));
            assert(lines_view(html_lines@) =~= ls.subrange(p0, self.pos as int));
        }
        let html = join_vec(&html_lines, '\n');
        Block::HtmlBlock(string_of(&html))
    }

    /// A fenced code block whose opening fence is the current line.
    fn parse_fenced(&mut self, fence_ch: char, fence_len: usize, lang: Vec<char>) -> (r: Block)
        requires
            old(self).pos < old(self).lines@.len(),
        ensures
            final(self).lines == old(self).lines,
            old(self).pos < final(self).pos <= final(self).lines@.len(),
            (block_view(r), final(self).pos as int) == fenced_spec(
                old(self).lv(),
                old(self).pos as int,
                fence_ch,
                fence_len as nat,
                lang@,
            ),
    {
        assert(self.lines.len() == self.lines@.len());
        let ghost ls = self.lv();
        let ghost p0 = self.pos as int;
        self.pos += 1;
        let mut code_lines: Vec<Vec<char>> = Vec::new();
        assert(lines_view(code_lines@) =~= ls.subrange(p0 + 1, p0 + 1));
        while self.pos < self.lines.len() && !fence_closes(&self.lines[self.pos], fence_ch, fence_len)
            invariant
                self.lines == old(self).lines,
                ls == self.lv(),
                0 <= p0,
                p0 + 1 <= self.pos <= ls.len(),
                fence_end(ls, p0 + 1, fence_ch, fence_len as nat) == fence_end(
                    ls,
                    self.pos as int,
                    fence_ch,
                    fence_len as nat,
                ),
                lines_view(code_lines@) == ls.subrange(p0 + 1, self.pos as int),
            decreases self.lines.len() - self.pos,
        {
            let line = slice(&self.lines[self.pos], 0, self.lines[self.pos].len());
            assert(line@ =~= ls[self.pos as int]);
            let ghost before = lines_view(code_lines@);
            code_lines.push(line);
            self.pos += 1;
            assert(lines_view(code_lines@) =~= before.push(line@));
            assert(lines_view(code_lines@) =~= ls.subrange(p0 + 1, self.pos as int));
        }
        let code = join_vec(&code_lines, '\n');
        if self.pos < self.lines.len() {
            self.pos += 1;
        }
        let lang_opt = if lang.len() == 0 {
            None
        } else {
            Some(string_of(&lang))
        };
        Block::CodeBlock { lang: lang_opt, code: string_of(&code) }
    }

    /// An indented code block starting at the current line.
    fn parse_indented_code(&mut self) -> (r: Block)
        requires
            old(self).pos < old(self).lines@.len(),
            !is_blank(old(self).lv()[old(self).pos as int]),
            indent_width(old(self).lv()[old(self).pos as int]) >= 4,
        ensures
            final(self).lines == old(self).lines,
            old(self).pos < final(self).pos <= final(self).lines@.len(),
            (block_view(r), final(self).pos as int) == indented_spec(
                old(self).lv(),
                old(self).pos as int,
            ),
    {
        assert(self.lines.len() == self.lines@.len());
        let ghost ls = self.lv();
        let ghost p0 = self.pos as int;
        let mut lines: Vec<Vec<char>> = Vec::new();
        assert(lines_view(lines@) =~= Seq::<Seq<char>>::empty());
        loop
            invariant_except_break
                self.lines == old(self).lines,
                ls == self.lv(),
                p0 <= self.pos <= ls.len(),
                p0 < ls.len(),
                forall|k: int| 0 <= k < ls.len() ==> (#[trigger] self.lines@[k])@ == ls[k],
                !is_blank(ls[p0]),
                indent_width(ls[p0]) >= 4,
                indent_collect(ls, p0, Seq::empty()) == indent_collect(
                    ls,
                    self.pos as int,
                    lines_view(lines@),
                ),
                self.pos == p0 ==> lines@.len() == 0,
            ensures
                self.lines == old(self).lines,
                p0 < self.pos <= ls.len(),
                indent_collect(ls, p0, Seq::empty()) == (lines_view(lines@), self.pos as int),
            decreases self.lines.len() - self.pos,
        {
            if self.at_end() {
                break;
            }
            let ghost before = lines_view(lines@);
            assert(self.lines@[self.pos as int]@ == ls[self.pos as int]);
            if blank(&self.lines[self.pos]) {
                lines.push(Vec::new());
                self.pos += 1;
                assert(lines_view(lines@) =~= before.push(Seq::empty()));
                let la = self.next_nonblank(self.pos);
                proof {
                    if la < self.lines.len() {
                        assert(self.lines@[la as int]@ == ls[la as int]);
                    }
                }
                if la >= self.lines.len() || !indented4(&self.lines[la]) {
                    break;
                }
            } else if indented4(&self.lines[self.pos]) {
                let l = strip_indent(&self.lines[self.pos], 4);
                lines.push(l);
                self.pos += 1;
                assert(lines_view(lines@) =~= before.push(l@));
            } else {
                break;
            }
        }
        let ghost cl = lines_view(lines@);
        while lines.len() > 0 && blank(&lines[lines.len() - 1])
            invariant
                drop_blank_tail(cl) == drop_blank_tail(lines_view(lines@)),
            decreases lines.len(),
        {
            let ghost before = lines_view(lines@);
            lines.pop();
            assert(lines_view(lines@) =~= before.drop_last());
        }
        let code = join_vec(&lines, '\n');
        Block::CodeBlock { lang: None, code: string_of(&code) }
    }

    /// A block quote starting at the current line.
    fn parse_blockquote(&mut self) -> (r: Block)
        requires
            old(self).pos < old(self).lines@.len(),
            trim_start(old(self).lv()[old(self).pos as int]).len() > 0,
            trim_start(old(self).lv()[old(self).pos as int])[0] == '>',
        ensures
            final(self).lines == old(self).lines,
            old(self).pos < final(self).pos <= final(self).lines@.len(),
            ({
                let (cl, e) = bq_collect(old(self).lv(), old(self).pos as int, Seq::empty());
                block_view(r) == BlockV::BlockQuote(blocks_of(join(cl, '\n'))) && final(self).pos
                    == e
            }),
        decreases msize(old(self).lv(), old(self).pos as int), 1int,
    {
        assert(self.lines.len() == self.lines@.len());
        let ghost ls = self.lv();
        let ghost p0 = self.pos as int;
        let mut inner_lines: Vec<Vec<char>> = Vec::new();
        assert(lines_view(inner_lines@) =~= Seq::<Seq<char>>::empty());
        while self.pos < self.lines.len() && trim_start_vec(&self.lines[self.pos]).len() > 0
            invariant
                forall|k: int| 0 <= k < ls.len() ==> (#[trigger] self.lines@[k])@ == ls[k],
                self.lines == old(self).lines,
                ls == self.lv(),
                p0 <= self.pos <= ls.len(),
                p0 < ls.len(),
                trim_start(ls[p0]).len() > 0,
                bq_collect(ls, p0, Seq::empty()) == bq_collect(
                    ls,
                    self.pos as int,
                    lines_view(inner_lines@),
                ),
            decreases self.lines.len() - self.pos,
        {
            let line = slice(&self.lines[self.pos], 0, self.lines[self.pos].len());
            assert(line@ =~= ls[self.pos as int]);
            let trimmed = trim_start_vec(&line);
            let ghost before = lines_view(inner_lines@);
            if trimmed[0] == '>' {
                let after = slice(&trimmed, 1, trimmed.len());
                let content = if after.len() > 0 && after[0] == ' ' {
                    slice(&after, 1, after.len())
                } else {
                    after
                };
                assert(content@ =~= bq_line(line@));
                inner_lines.push(content);
                assert(lines_view(inner_lines@) =~= before.push(bq_line(line@)));
            } else {
                inner_lines.push(line);
                assert(lines_view(inner_lines@) =~= before.push(ls[self.pos as int]));
            }
            self.pos += 1;
        }
        proof {
            lemma_bq_size(ls, p0);
        }
        let inner_text = join_vec(&inner_lines, '\n');
        let children = parse_text(inner_text);
        Block::BlockQuote(children)
    }

    /// A list whose first item is at the current line.
    fn parse_list(&mut self, is_ordered: bool, start: u32, marker_width: usize) -> (r: Block)
        requires
            old(self).pos < old(self).lines@.len(),
            2 <= marker_width <= 14,
            if is_ordered {
                ordered(old(self).lv()[old(self).pos as int]) is Some
            } else {
                unordered(old(self).lv()[old(self).pos as int]) is Some
            },
        ensures
            final(self).lines == old(self).lines,
            old(self).pos < final(self).pos <= final(self).lines@.len(),
            (block_view(r), final(self).pos as int) == list_spec(
                old(self).lv(),
                old(self).pos as int,
                is_ordered,
                start,
                marker_width as nat,
            ),
        decreases msize(old(self).lv(), old(self).pos as int), 1int,
    {
        assert(self.lines.len() == self.lines@.len());
        let ghost ls = self.lv();
        let ghost p0 = self.pos as int;
        let ghost w = marker_width as nat;
        proof {
            lemma_trim_start_shorter(ls[p0]);
            lemma_blank_trim_start(ls[p0]);
        }
        let mut items: Vec<ListItem> = Vec::new();
        assert(items_view(items@) =~= Seq::<ListItemV>::empty());
        let mut has_blank_between = false;
        let mut prev_was_blank = false;
        loop
            invariant_except_break
                self.lines == old(self).lines,
                ls == self.lv(),
                ls == old(self).lv(),
                p0 == old(self).pos,
                p0 <= self.pos <= ls.len(),
                forall|k: int| 0 <= k < ls.len() ==> (#[trigger] self.lines@[k])@ == ls[k],
                2 <= marker_width <= 14,
                w == marker_width as nat,
                p0 < ls.len(),
                !is_blank(ls[p0]),
                if is_ordered {
                    ordered(ls[p0]) is Some
                } else {
                    unordered(ls[p0]) is Some
                },
                msize(ls, self.pos as int) <= msize(ls, p0),
                items@.len() == 0 ==> self.pos == p0,
                list_loop(ls, p0, is_ordered, w, Seq::empty(), false, false) == list_loop(
                    ls,
                    self.pos as int,
                    is_ordered,
                    w,
                    items_view(items@),
                    has_blank_between,
                    prev_was_blank,
                ),
            ensures
                self.lines == old(self).lines,
                p0 < self.pos <= ls.len(),
                list_loop(ls, p0, is_ordered, w, Seq::empty(), false, false) == (
                    items_view(items@),
                    has_blank_between,
                    self.pos as int,
                ),
            decreases msize(ls, self.pos as int),
        {
            let ghost before = self.pos as int;
            self.skip_blank_lines();
            proof {
                lemma_skip_blank(ls, before);
                lemma_msize_mono(ls, before, self.pos as int);
            }
            if self.at_end() {
                break;
            }
            let is_same_list = if is_ordered {
                detect_ordered(&self.lines[self.pos]).is_some()
            } else {
                detect_unordered(&self.lines[self.pos]).is_some()
            };
            if !is_same_list {
                break;
            }
            if prev_was_blank && items.len() > 0 {
                has_blank_between = true;
            }
            let ghost q = self.pos as int;
            let item = self.parse_list_item(marker_width);
            proof {
                lemma_msize_mono(ls, q, self.pos as int);
                lemma_items_view_push(items@, item);
                crate::ast::lemma_items_view_len(items@);
            }
            items.push(item);
            prev_was_blank = blank(&self.lines[self.pos - 1]) || (self.pos < self.lines.len()
                && blank(&self.lines[self.pos]));
        }
        Block::List { ordered: is_ordered, start, tight: !has_blank_between, items }
    }

    /// A list item whose marker (`marker_width` wide) starts the current line.
    fn parse_list_item(&mut self, marker_width: usize) -> (r: ListItem)
        requires
            old(self).pos < old(self).lines@.len(),
            2 <= marker_width <= 14,
            ordered(old(self).lv()[old(self).pos as int]) is Some || unordered(
                old(self).lv()[old(self).pos as int],
            ) is Some,
        ensures
            final(self).lines == old(self).lines,
            old(self).pos < final(self).pos <= final(self).lines@.len(),
            ({
                let (chk, content, e) = item_content(
                    old(self).lv(),
                    old(self).pos as int,
                    marker_width as nat,
                );
                item_view(r) == ListItemV { checked: chk, children: blocks_of(content) }
                    && final(self).pos == e
            }),
        decreases msize(old(self).lv(), old(self).pos as int), 0int,
    {
        assert(self.lines.len() == self.lines@.len());
        let ghost ls = self.lv();
        let ghost q = self.pos as int;
        let ghost w = marker_width as nat;
        let first_line = slice(&self.lines[self.pos], 0, self.lines[self.pos].len());
        assert(first_line@ =~= ls[q]);
        self.pos += 1;
        let first_content = if first_line.len() >= marker_width {
            slice(&first_line, marker_width, first_line.len())
        } else {
            Vec::new()
        };
        assert(first_content@ =~= item_first(ls[q], w));
        let mut content_lines: Vec<Vec<char>> = Vec::new();
        content_lines.push(first_content);
        assert(lines_view(content_lines@) =~= seq![item_first(ls[q], w)]);
        loop
            invariant_except_break
                self.lines == old(self).lines,
                ls == self.lv(),
                q + 1 <= self.pos <= ls.len(),
                forall|k: int| 0 <= k < ls.len() ==> (#[trigger] self.lines@[k])@ == ls[k],
                2 <= marker_width <= 14,
                w == marker_width as nat,
                item_collect(ls, q + 1, w, seq![item_first(ls[q], w)]) == item_collect(
                    ls,
                    self.pos as int,
                    w,
                    lines_view(content_lines@),
                ),
            ensures
                self.lines == old(self).lines,
                q + 1 <= self.pos <= ls.len(),
                item_collect(ls, q + 1, w, seq![item_first(ls[q], w)]) == (
                    lines_view(content_lines@),
                    self.pos as int,
                ),
            decreases self.lines.len() - self.pos,
        {
            if self.at_end() {
                break;
            }
            let ghost before = lines_view(content_lines@);
            assert(self.lines@[self.pos as int]@ == ls[self.pos as int]);
            let trimmed = trim_start_vec(&self.lines[self.pos]);
            if trimmed.len() == 0 {
                content_lines.push(Vec::new());
                self.pos += 1;
                assert(lines_view(content_lines@) =~= before.push(Seq::empty()));
                let la = self.next_nonblank(self.pos);
                if la >= self.lines.len() {
                    break;
                }
                assert(self.lines@[la as int]@ == ls[la as int]);
                if leading_spaces_of(&self.lines[la]) < marker_width {
                    break;
                }
            } else if leading_spaces_of(&self.lines[self.pos]) >= marker_width {
                let l = strip_indent(&self.lines[self.pos], marker_width);
                content_lines.push(l);
                self.pos += 1;
                assert(lines_view(content_lines@) =~= before.push(l@));
            } else {
                break;
            }
        }
        let joined = join_vec(&content_lines, '\n');
        let raw = trim_end_vec(&joined);
        let raw_start = trim_start_vec(&raw);
        let (checked, actual_content) = match detect_checkbox(&raw_start) {
            Some((chk, rest)) => (Some(chk), rest),
            None => (None, raw),
        };
        proof {
            if ordered(ls[q]) is Some {
                lemma_item_size(ls, q, w, true);
            } else {
                lemma_item_size(ls, q, w, false);
            }
        }
        let children = parse_text(actual_content);
        ListItem { checked, children }
    }

    /// A table whose header row is the current line.
    fn parse_table(&mut self) -> (r: Block)
        requires
            old(self).pos + 1 < old(self).lines@.len(),
        ensures
            final(self).lines == old(self).lines,
            old(self).pos < final(self).pos <= final(self).lines@.len(),
            (block_view(r), final(self).pos as int) == table_spec(
                old(self).lv(),
                old(self).pos as int,
            ),
    {
        assert(self.lines.len() == self.lines@.len());
        let ghost ls = self.lv();
        let ghost p0 = self.pos as int;
        let header_cells = split_table_row(&self.lines[self.pos]);
        let sep_cells = split_table_row(&self.lines[self.pos + 1]);
        self.pos += 2;
        let mut alignments: Vec<Alignment> = Vec::new();
        let mut i: usize = 0;
        while i < sep_cells.len()
            invariant
                i <= sep_cells@.len(),
                alignments@.len() == i,
                forall|k: int|
                    0 <= k < i ==> #[trigger] alignments@[k] == alignment_of(sep_cells@[k]@),
            decreases sep_cells.len() - i,
        {
            alignments.push(parse_alignment(&sep_cells[i]));
            i += 1;
        }
        assert(alignments@ =~= table_cells(ls[p0 + 1]).map_values(|c: Seq<char>| alignment_of(c)))
            by {
            assert(lines_view(sep_cells@) == table_cells(ls[p0 + 1]));
        }
        let headers = cells_inlines(&header_cells);
        let mut rows: Vec<Vec<Vec<Inline>>> = Vec::new();
        assert(rows_view(rows@) =~= Seq::<Seq<Seq<InlineV>>>::empty());
        while self.pos < self.lines.len() && !blank(&self.lines[self.pos]) && contains_char(
            &trim_vec(&self.lines[self.pos]),
            '|',
        )
            invariant
                self.lines == old(self).lines,
                ls == self.lv(),
                forall|k: int| 0 <= k < ls.len() ==> (#[trigger] self.lines@[k])@ == ls[k],
                p0 + 2 <= self.pos <= ls.len(),
                row_collect(ls, p0 + 2, Seq::empty()) == row_collect(
                    ls,
                    self.pos as int,
                    rows_view(rows@),
                ),
            decreases self.lines.len() - self.pos,
        {
            let cells = split_table_row(&self.lines[self.pos]);
            let row = cells_inlines(&cells);
            proof {
                lemma_rows_view_push(rows@, row);
            }
            rows.push(row);
            self.pos += 1;
        }
        Block::Table { headers, alignments, rows }
    }

    /// A paragraph, or a setext heading, starting at the current line.
    fn parse_paragraph(&mut self) -> (r: Block)
        requires
            old(self).pos < old(self).lines@.len(),
            trim_start(old(self).lv()[old(self).pos as int]).len() > 0,
            atx_heading(old(self).lv()[old(self).pos as int]) is None,
            fence(trim_start(old(self).lv()[old(self).pos as int])) is None,
            !thematic(trim_start(old(self).lv()[old(self).pos as int])),
        ensures
            final(self).lines == old(self).lines,
            old(self).pos < final(self).pos <= final(self).lines@.len(),
            (block_view(r), final(self).pos as int) == para_spec(
                old(self).lv(),
                old(self).pos as int,
            ),
    {
        let ghost ls = self.lv();
        let ghost p0 = self.pos as int;
        let mut lines: Vec<Vec<char>> = Vec::new();
        let mut level: u8 = 0;
        assert(lines_view(lines@) =~= Seq::<Seq<char>>::empty());
        loop
            invariant_except_break
                self.lines == old(self).lines,
                ls == self.lv(),
                p0 <= self.pos <= ls.len(),
                p0 < ls.len(),
                forall|k: int| 0 <= k < ls.len() ==> (#[trigger] self.lines@[k])@ == ls[k],
                trim_start(ls[p0]).len() > 0,
                atx_heading(ls[p0]) is None,
                fence(trim_start(ls[p0])) is None,
                !thematic(trim_start(ls[p0])),
                level == 0,
                lines@.len() == self.pos - p0,
                para_collect(ls, p0, Seq::empty()) == para_collect(
                    ls,
                    self.pos as int,
                    lines_view(lines@),
                ),
            ensures
                self.lines == old(self).lines,
                p0 < self.pos <= ls.len(),
                para_collect(ls, p0, Seq::empty()) == (
                    if level == 0 {
                        None
                    } else {
                        Some(level as nat)
                    },
                    lines_view(lines@),
                    self.pos as int,
                ),
            decreases self.lines.len() - self.pos,
        {
            if self.at_end() {
                break;
            }
            let raw = slice(&self.lines[self.pos], 0, self.lines[self.pos].len());
            assert(raw@ =~= ls[self.pos as int]);
            let trimmed = trim_start_vec(&raw);
            if trimmed.len() == 0 {
                break;
            }
            if detect_atx_heading(&raw).is_some() {
                break;
            }
            if detect_fence(&trimmed).is_some() {
                break;
            }
            let shallow = !indented4(&raw);
            if shallow && lines.len() > 0 && all_equals(&trimmed) {
                level = 1;
                self.pos += 1;
                break;
            }
            if shallow && is_thematic_break(&trimmed) {
                if lines.len() > 0 && all_dashes(&trimmed) {
                    level = 2;
                    self.pos += 1;
                }
                break;
            }
            if lines.len() > 0 {
                if detect_html_block_start(&raw) {
                    break;
                }
                if detect_unordered(&raw).is_some() {
                    let after = slice(&trimmed, 1, trimmed.len());
                    assert(after@ =~= trimmed@.skip(1));
                    if !blank(&after) {
                        break;
                    }
                }
                if let Some((n, _w)) = detect_ordered(&raw) {
                    let k = digit_count(&trimmed);
                    let after = slice(&trimmed, k + 1, trimmed.len());
                    assert(after@ =~= trimmed@.skip(k + 1));
                    if n == 1 && !blank(&after) {
                        break;
                    }
                }
            }
            let ghost before = lines_view(lines@);
            lines.push(raw);
            self.pos += 1;
            assert(lines_view(lines@) =~= before.push(ls[self.pos - 1]));
        }
        let joined = join_vec(&lines, '\n');
        let text = trim_vec(&joined);
        let inlines = parse_inline_chars(text);
        if level == 0 {
            Block::Paragraph(inlines)
        } else {
            Block::Heading { level, children: inlines }
        }
    }
}

fn all_equals(v: &Vec<char>) -> (r: bool)
    ensures
        r == all_char(v@, '='),
{
    let mut i: usize = 0;
    while i < v.len()
        invariant
            i <= v@.len(),
            forall|k: int| 0 <= k < i ==> #[trigger] v@[k] == '=',
        decreases v.len() - i,
    {
        if v[i] != '=' {
            return false;
        }
        i += 1;
    }
    true
}

/// Whether `line` closes a fence of `n` copies of `ch`.
fn fence_closes(line: &Vec<char>, ch: char, n: usize) -> (r: bool)
    ensures
        r == fence_close(line@, ch, n as nat),
{
    let s = trim_start_vec(line);
    let c = count_run(&s, 0, ch);
    assert(s@.skip(0) =~= s@);
    let after = slice(&s, c, s.len());
    c >= n && blank(&after)
}

/// The inline content of each cell.
fn cells_inlines(cells: &Vec<Vec<char>>) -> (r: Vec<Vec<Inline>>)
    ensures
        cells_view(r@) == cells_inl(lines_view(cells@)),
{
    let mut out: Vec<Vec<Inline>> = Vec::new();
    let mut i: usize = 0;
    while i < cells.len()
        invariant
            i <= cells@.len(),
            out@.len() == i,
            forall|k: int| 0 <= k < i ==> inlines_view((#[trigger] out@[k])@) == parse_inl(cells@[k]@),
        decreases cells.len() - i,
    {
        let c = slice(&cells[i], 0, cells[i].len());
        assert(c@ =~= cells@[i as int]@);
        out.push(parse_inline_chars(c));
        i += 1;
    }
    proof {
        lemma_cells_view_len(out@);
    }
    assert(cells_view(out@) =~= cells_inl(lines_view(cells@)));
    out
}

} // verus!
