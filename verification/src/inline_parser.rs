//! Inline parsing: escapes, code spans, emphasis, strikethrough, links,
//! images, autolinks, raw HTML, line breaks and the `#grad` / `#font`
//! extensions.

use vstd::prelude::*;
use crate::ast::{Inline, InlineV, inline_view, inlines_view, opt_inline_view, lemma_inlines_view_push};
use crate::ast::opt_str_view;
use crate::text::{
    blank, char_is_alphanumeric, contains_char, contains_seq, count_run, ends_with, eq_at,
    find_char_from, find_seq, find_vec, first_index_from, is_alphanumeric, last_index,
    lemma_find_seq, lemma_first_index_from, lemma_last_index, pop_trailing, repeat, repeat_vec, rfind_char, run_len,
    slice, starts_with, str_chars, string_of, trim, trim_end_char, trim_vec,
};

verus! {

// ── Specification ────────────────────────────────────────────────────────────

/// ASCII punctuation: the characters a backslash escapes.
pub open spec fn is_ascii_punct(c: char) -> bool {
    let u = c as u32;
    (0x21 <= u && u <= 0x2F) || (0x3A <= u && u <= 0x40) || (0x5B <= u && u <= 0x60) || (0x7B
        <= u && u <= 0x7E)
}

/// ASCII letter.
pub open spec fn is_ascii_alpha(c: char) -> bool {
    let u = c as u32;
    (0x41 <= u && u <= 0x5A) || (0x61 <= u && u <= 0x7A)
}

/// The index of the `close` that matches an already opened `open`, scanning
/// from `i` at nesting `depth`; a backslash hides the character after it.
pub open spec fn match_close(s: Seq<char>, i: int, depth: int, open: char, close: char) -> Option<
    int,
>
    decreases s.len() - i,
{
    if i < 0 || i >= s.len() || depth <= 0 {
        None
    } else if s[i] == '\\' {
        if i + 1 >= s.len() {
            None
        } else {
            match_close(s, i + 2, depth, open, close)
        }
    } else if s[i] == open {
        match_close(s, i + 1, depth + 1, open, close)
    } else if s[i] == close {
        if depth == 1 {
            Some(i)
        } else {
            match_close(s, i + 1, depth - 1, open, close)
        }
    } else {
        match_close(s, i + 1, depth, open, close)
    }
}

pub proof fn lemma_match_close(s: Seq<char>, i: int, depth: int, open: char, close: char)
    ensures
        match_close(s, i, depth, open, close) matches Some(j) ==> 0 <= i <= j < s.len() && s[j]
            == close,
    decreases s.len() - i,
{
    if !(i < 0 || i >= s.len() || depth <= 0) {
        if s[i] == '\\' {
            if i + 1 < s.len() {
                lemma_match_close(s, i + 2, depth, open, close);
            }
        } else if s[i] == open {
            lemma_match_close(s, i + 1, depth + 1, open, close);
        } else if s[i] == close {
            if depth != 1 {
                lemma_match_close(s, i + 1, depth - 1, open, close);
            }
        } else {
            lemma_match_close(s, i + 1, depth, open, close);
        }
    }
}

/// The first comma at or after `i` outside parentheses (`depth` counts the
/// parentheses open before `i`).
pub open spec fn top_comma(s: Seq<char>, i: int, depth: int) -> Option<int>
    decreases s.len() - i,
{
    if i < 0 || i >= s.len() {
        None
    } else if s[i] == ',' && depth <= 0 {
        Some(i)
    } else if s[i] == '(' {
        top_comma(s, i + 1, depth + 1)
    } else if s[i] == ')' {
        top_comma(s, i + 1, depth - 1)
    } else {
        top_comma(s, i + 1, depth)
    }
}

pub proof fn lemma_top_comma(s: Seq<char>, i: int, depth: int)
    ensures
        top_comma(s, i, depth) matches Some(j) ==> 0 <= i <= j < s.len(),
    decreases s.len() - i,
{
    if !(i < 0 || i >= s.len()) && !(s[i] == ',' && depth <= 0) {
        if s[i] == '(' {
            lemma_top_comma(s, i + 1, depth + 1);
        } else if s[i] == ')' {
            lemma_top_comma(s, i + 1, depth - 1);
        } else {
            lemma_top_comma(s, i + 1, depth);
        }
    }
}

/// Pending text `buf` turned into a text node at the end of `out`.
pub open spec fn flush_spec(buf: Seq<char>, out: Seq<InlineV>) -> Seq<InlineV> {
    if buf.len() > 0 {
        out.push(InlineV::Text(buf))
    } else {
        out
    }
}

/// A code span's content: one space is removed from each side when both ends
/// are spaces and the content is not all spaces.
pub open spec fn code_content(raw: Seq<char>) -> Seq<char> {
    if raw.len() > 0 && raw[0] == ' ' && raw.last() == ' ' && !(forall|k: int|
        0 <= k < raw.len() ==> raw[k] == ' ') {
        raw.subrange(1, raw.len() - 1)
    } else {
        raw
    }
}

/// The title between the last two occurrences of `delim`, and the URL before it.
pub open spec fn quoted_title(s: Seq<char>, delim: char) -> Option<(Seq<char>, Seq<char>)> {
    match last_index(s, delim) {
        Some(ti) => if ti > 0 {
            match last_index(s.take(ti), delim) {
                Some(open) => Some((trim(s.take(open)), s.subrange(open + 1, ti))),
                None => None,
            }
        } else {
            None
        },
        None => None,
    }
}

/// The URL and optional title written inside `( … )` of a link or image: a
/// title is quoted with `"` (tried first) or `'`.
pub open spec fn url_title(content: Seq<char>) -> (Seq<char>, Option<Seq<char>>) {
    let s = trim(content);
    match quoted_title(s, '"') {
        Some((u, t)) => (u, Some(t)),
        None => match quoted_title(s, '\'') {
            Some((u, t)) => (u, Some(t)),
            None => (s, None),
        },
    }
}

/// An autolink (a URL with `://`, or an e-mail address) or a raw HTML tag
/// starting at the `<` at `pos`: the position after its `>` and its node. Both
/// pass through as raw HTML, brackets included.
pub open spec fn angle_spec(s: Seq<char>, pos: int) -> Option<(int, InlineV)> {
    match first_index_from(s, pos + 1, '>') {
        None => None,
        Some(gt) => {
            let inner = s.subrange(pos + 1, gt);
            if contains_seq(inner, seq![':', '/', '/']) || (inner.contains('@') && !inner.contains(
                ' ',
            ) && inner.len() > 0) || (inner.len() > 0 && (is_ascii_alpha(inner[0]) || inner[0]
                == '/')) {
                Some((gt + 1, InlineV::RawHtml(seq!['<'] + inner + seq!['>'])))
            } else {
                None
            }
        },
    }
}

/// The node made by a delimiter run of length `n` (1, 2 or 3).
pub open spec fn emph_node(n: nat, children: Seq<InlineV>) -> InlineV {
    if n >= 3 {
        InlineV::StrongEmphasis(children)
    } else if n == 2 {
        InlineV::Strong(children)
    } else {
        InlineV::Emphasis(children)
    }
}

/// The longest `k <= n` for which a run of `k` copies of `d` follows `start`,
/// with the start of that run.
pub open spec fn delim_close(s: Seq<char>, start: int, d: char, k: nat) -> Option<(nat, int)>
    decreases k,
{
    if k == 0 {
        None
    } else {
        match find_seq(s, start, repeat(d, k)) {
            Some(c) => Some((k, c)),
            None => delim_close(s, start, d, (k - 1) as nat),
        }
    }
}

pub proof fn lemma_delim_close(s: Seq<char>, start: int, d: char, k: nat)
    ensures
        delim_close(s, start, d, k) matches Some((m, c)) ==> 1 <= m <= k && 0 <= start <= c && c
            + m <= s.len(),
    decreases k,
{
    if k > 0 {
        lemma_find_seq(s, start, repeat(d, k));
        lemma_delim_close(s, start, d, (k - 1) as nat);
    }
}

/// The smaller of `a` and `b`.
pub open spec fn min_int(a: int, b: int) -> int {
    if a < b {
        a
    } else {
        b
    }
}

/// Whether the stop sequence, if any, starts at `pos`.
pub open spec fn stop_at(s: Seq<char>, stop: Option<Seq<char>>, pos: int) -> bool {
    match stop {
        Some(st) => st.len() > 0 && pos + st.len() <= s.len() && s.subrange(pos, pos + st.len())
            == st,
        None => false,
    }
}

/// The inline nodes of `s`.
pub open spec fn parse_inl(s: Seq<char>) -> Seq<InlineV>
    decreases s.len() as int, s.len() + 3,
{
    inl_loop(s, None, 0, Seq::empty(), Seq::empty())
}

/// The nodes produced from position `pos` on, given pending text `buf` and
/// the nodes `out` produced so far.
pub open spec fn inl_loop(
    s: Seq<char>,
    stop: Option<Seq<char>>,
    pos: int,
    buf: Seq<char>,
    out: Seq<InlineV>,
) -> Seq<InlineV>
    decreases s.len() as int, s.len() - pos + 2,
{
    if pos < 0 || pos >= s.len() || stop_at(s, stop, pos) {
        flush_spec(buf, out)
    } else {
        let (p2, b2, o2) = inl_step(s, pos, buf, out);
        if pos < p2 <= s.len() {
            inl_loop(s, stop, p2, b2, o2)
        } else {
            flush_spec(b2, o2)
        }
    }
}

/// Where the scan of `inl_loop` stops: at the end of `s`, or where the stop
/// sequence starts (it is not consumed).
pub open spec fn inl_end(
    s: Seq<char>,
    stop: Option<Seq<char>>,
    pos: int,
    buf: Seq<char>,
    out: Seq<InlineV>,
) -> int
    decreases s.len() - pos,
{
    if pos < 0 || pos >= s.len() || stop_at(s, stop, pos) {
        pos
    } else {
        let (p2, b2, o2) = inl_step(s, pos, buf, out);
        if pos < p2 <= s.len() {
            inl_end(s, stop, p2, b2, o2)
        } else {
            p2
        }
    }
}

/// A construct attempted at `pos`: on success its node follows the pending
/// text; on failure the character `c` at `pos` is plain text.
pub open spec fn attempt(
    r: Option<(int, InlineV)>,
    pos: int,
    c: char,
    buf: Seq<char>,
    out: Seq<InlineV>,
) -> (int, Seq<char>, Seq<InlineV>) {
    match r {
        Some((p, n)) => (p, Seq::empty(), flush_spec(buf, out).push(n)),
        None => (pos + 1, buf.push(c), out),
    }
}

/// A code span (or a literal run of backticks) at `pos`.
pub open spec fn code_step(s: Seq<char>, pos: int, buf: Seq<char>, out: Seq<InlineV>) -> (
    int,
    Seq<char>,
    Seq<InlineV>,
) {
    let ticks = run_len(s.skip(pos), '`');
    match find_seq(s, pos + ticks, repeat('`', ticks)) {
        Some(close) => (
            close + ticks,
            Seq::empty(),
            flush_spec(buf, out).push(InlineV::Code(code_content(s.subrange(pos + ticks, close)))),
        ),
        None => (pos + ticks, buf + repeat('`', ticks), out),
    }
}

/// A line feed at `pos`: trailing spaces of the pending text are dropped, and
/// two or more of them make a hard break, fewer a soft break.
pub open spec fn break_step(pos: int, buf: Seq<char>, out: Seq<InlineV>) -> (
    int,
    Seq<char>,
    Seq<InlineV>,
) {
    let brk = if ends_with(buf, seq![' ', ' ']) {
        InlineV::HardBreak
    } else {
        InlineV::SoftBreak
    };
    (pos + 1, Seq::empty(), flush_spec(trim_end_char(buf, ' '), out).push(brk))
}

/// One step of the inline scanner at `pos`: the next position, the pending
/// text and the nodes produced so far.
pub open spec fn inl_step(s: Seq<char>, pos: int, buf: Seq<char>, out: Seq<InlineV>) -> (
    int,
    Seq<char>,
    Seq<InlineV>,
)
    decreases s.len() as int, 1int,
{
    let ch = s[pos];
    let has_next = pos + 1 < s.len();
    if ch == '\\' && has_next && s[pos + 1] == '\n' {
        (pos + 2, Seq::empty(), flush_spec(buf, out).push(InlineV::HardBreak))
    } else if ch == '\\' && has_next && is_ascii_punct(s[pos + 1]) {
        (pos + 2, buf.push(s[pos + 1]), out)
    } else if ch == '`' {
        code_step(s, pos, buf, out)
    } else if ch == '*' {
        let (p, b, o, n) = delim_step(s, pos, '*', buf, out);
        match n {
            Some(x) => (p, b, o.push(x)),
            None => (pos + 1, buf.push('*'), out),
        }
    } else if ch == '_' {
        if pos == 0 || !char_is_alphanumeric(s[pos - 1]) {
            let (p, b, o, n) = delim_step(s, pos, '_', buf, out);
            match n {
                Some(x) => (p, b, o.push(x)),
                None => (pos + 1, buf.push('_'), out),
            }
        } else {
            (pos + 1, buf.push('_'), out)
        }
    } else if ch == '~' && has_next && s[pos + 1] == '~' {
        strike_step(s, pos, buf, out)
    } else if ch == '!' && has_next && s[pos + 1] == '[' {
        attempt(link_spec(s, pos + 2, true), pos, '!', buf, out)
    } else if ch == '[' {
        attempt(link_spec(s, pos + 1, false), pos, '[', buf, out)
    } else if ch == '<' {
        attempt(angle_spec(s, pos), pos, '<', buf, out)
    } else if ch == '#' && starts_with(s.skip(pos), seq!['#', 'g', 'r', 'a', 'd', '[']) {
        attempt(grad_spec(s, pos), pos, '#', buf, out)
    } else if ch == '#' && starts_with(s.skip(pos), seq!['#', 'f', 'o', 'n', 't', '[']) {
        attempt(font_spec(s, pos), pos, '#', buf, out)
    } else if ch == '\n' {
        break_step(pos, buf, out)
    } else {
        (pos + 1, buf.push(ch), out)
    }
}

/// A run of `d` (`*` or `_`) at `pos`: emphasis (1), strong (2) or both (3)
/// when a closing run follows; the unmatched part of the opening run becomes
/// single-character text nodes. Without a closing run nothing is consumed.
pub open spec fn delim_step(s: Seq<char>, pos: int, d: char, buf: Seq<char>, out: Seq<InlineV>) -> (
    int,
    Seq<char>,
    Seq<InlineV>,
    Option<InlineV>,
)
    decreases s.len() as int, 0int,
{
    let run = run_len(s.skip(pos), d);
    let count: nat = if run < 3 {
        run
    } else {
        3
    };
    let start = pos + count;
    proof {
        lemma_delim_close(s, start, d, count);
    }
    match delim_close(s, start, d, count) {
        Some((k, close)) => {
            let children = parse_inl(s.subrange(start, close));
            let extra = Seq::new((count - k) as nat, |_i: int| InlineV::Text(seq![d]));
            (close + k, Seq::empty(), flush_spec(buf, out) + extra, Some(emph_node(k, children)))
        },
        None => (pos, buf, out, None),
    }
}

/// `~~text~~` at `pos`.
pub open spec fn strike_step(s: Seq<char>, pos: int, buf: Seq<char>, out: Seq<InlineV>) -> (
    int,
    Seq<char>,
    Seq<InlineV>,
)
    decreases s.len() as int, 0int,
{
    proof {
        lemma_find_seq(s, pos + 2, repeat('~', 2));
    }
    match find_seq(s, pos + 2, repeat('~', 2)) {
        Some(close) => (
            close + 2,
            Seq::empty(),
            flush_spec(buf, out).push(
                InlineV::Strikethrough(parse_inl(s.subrange(pos + 2, close))),
            ),
        ),
        None => (pos + 2, buf + seq!['~', '~'], out),
    }
}

/// A link `text](url "title")` (or image, when `is_image`) whose text starts
/// at `start`: the position after its `)` and its node.
pub open spec fn link_spec(s: Seq<char>, start: int, is_image: bool) -> Option<(int, InlineV)>
    decreases s.len() as int, 0int,
{
    proof {
        lemma_match_close(s, start, 1, '[', ']');
    }
    match match_close(s, start, 1, '[', ']') {
        None => None,
        Some(be) => if !(be + 1 < s.len() && s[be + 1] == '(') {
            None
        } else {
            proof {
                lemma_match_close(s, be + 2, 1, '(', ')');
            }
            match match_close(s, be + 2, 1, '(', ')') {
                None => None,
                Some(pe) => {
                    let text = s.subrange(start, be);
                    let (url, title) = url_title(s.subrange(be + 2, pe));
                    if is_image {
                        Some((pe + 1, InlineV::Image { alt: text, src: url, title }))
                    } else {
                        Some(
                            (pe + 1, InlineV::Link { children: parse_inl(text), url, title }),
                        )
                    }
                },
            }
        },
    }
}

/// Where the text of `#grad` or `#font` that starts at `i` ends: at the
/// matching `)`, or at the first `)` when the parentheses do not balance.
pub open spec fn text_close(s: Seq<char>, i: int) -> Option<int> {
    match match_close(s, i, 1, '(', ')') {
        Some(j) => Some(j),
        None => first_index_from(s, i, ')'),
    }
}

pub proof fn lemma_text_close(s: Seq<char>, i: int)
    ensures
        text_close(s, i) matches Some(j) ==> 0 <= i <= j < s.len(),
{
    lemma_match_close(s, i, 1, '(', ')');
    if 0 <= i {
        lemma_first_index_from(s, i, ')');
    }
}

/// Where the colours of `#grad` split: at the first comma outside
/// parentheses, or at the first comma when there is none outside them.
pub open spec fn color_split(colors: Seq<char>) -> Option<int> {
    match top_comma(colors, 0, 0) {
        Some(c) => Some(c),
        None => first_index_from(colors, 0, ','),
    }
}

pub proof fn lemma_color_split(colors: Seq<char>)
    ensures
        color_split(colors) matches Some(c) ==> 0 <= c < colors.len(),
{
    lemma_top_comma(colors, 0, 0);
    lemma_first_index_from(colors, 0, ',');
}

/// `#grad[from, to](text)` at `pos`: the colours split as `color_split` says,
/// and the text ends as `text_close` says.
pub open spec fn grad_spec(s: Seq<char>, pos: int) -> Option<(int, InlineV)>
    decreases s.len() as int, 0int,
{
    let p = pos + 6;
    match first_index_from(s, p, ']') {
        None => None,
        Some(be) => {
            let colors = s.subrange(p, be);
            match color_split(colors) {
                None => None,
                Some(cm) => {
                    let p2 = be + 1;
                    if !(p2 < s.len() && s[p2] == '(') {
                        None
                    } else {
                        proof {
                            lemma_text_close(s, p2 + 1);
                        }
                        match text_close(s, p2 + 1) {
                            None => None,
                            Some(pe) => Some(
                                (
                                    pe + 1,
                                    InlineV::Gradient {
                                        from: trim(colors.take(cm)),
                                        to: trim(colors.skip(cm + 1)),
                                        children: parse_inl(s.subrange(p2 + 1, pe)),
                                    },
                                ),
                            ),
                        }
                    }
                },
            }
        },
    }
}

/// `#font[family](text)` at `pos`; the text ends as `text_close` says.
pub open spec fn font_spec(s: Seq<char>, pos: int) -> Option<(int, InlineV)>
    decreases s.len() as int, 0int,
{
    let p = pos + 6;
    match first_index_from(s, p, ']') {
        None => None,
        Some(be) => {
            let p2 = be + 1;
            if !(p2 < s.len() && s[p2] == '(') {
                None
            } else {
                proof {
                    lemma_text_close(s, p2 + 1);
                }
                match text_close(s, p2 + 1) {
                    None => None,
                    Some(pe) => Some(
                        (
                            pe + 1,
                            InlineV::Font {
                                family: trim(s.subrange(p, be)),
                                children: parse_inl(s.subrange(p2 + 1, pe)),
                            },
                        ),
                    ),
                }
            }
        },
    }
}

// ── Executable parser ────────────────────────────────────────────────────────

/// Parses `input` into inline nodes.
pub fn parse_inlines(input: &str) -> (r: Vec<Inline>)
    ensures
        inlines_view(r@) == parse_inl(input@),
{
    InlineParser::new(str_chars(input)).parse()
}

/// Parses the characters `chars` into inline nodes.
pub fn parse_inline_chars(chars: Vec<char>) -> (r: Vec<Inline>)
    ensures
        inlines_view(r@) == parse_inl(chars@),
{
    InlineParser::new(chars).parse()
}

/// Moves pending text into a text node.
fn flush(buf: &mut Vec<char>, out: &mut Vec<Inline>)
    ensures
        final(buf)@ == Seq::<char>::empty(),
        inlines_view(final(out)@) == flush_spec(old(buf)@, inlines_view(old(out)@)),
{
    if buf.len() > 0 {
        let s = string_of(buf);
        proof {
            lemma_inlines_view_push(out@, Inline::Text(s));
        }
        out.push(Inline::Text(s));
        buf.clear();
    }
}

/// Pushes a node at the end of `out`.
fn push_node(out: &mut Vec<Inline>, n: Inline)
    ensures
        inlines_view(final(out)@) == inlines_view(old(out)@).push(inline_view(n)),
{
    proof {
        lemma_inlines_view_push(out@, n);
    }
    out.push(n);
}

fn is_ascii_punct_char(c: char) -> (r: bool)
    ensures
        r == is_ascii_punct(c),
{
    let u = c as u32;
    (0x21 <= u && u <= 0x2F) || (0x3A <= u && u <= 0x40) || (0x5B <= u && u <= 0x60) || (0x7B
        <= u && u <= 0x7E)
}

fn is_ascii_alpha_char(c: char) -> (r: bool)
    ensures
        r == is_ascii_alpha(c),
{
    let u = c as u32;
    (0x41 <= u && u <= 0x5A) || (0x61 <= u && u <= 0x7A)
}

/// The title between the last two `delim`s of `s`, and the URL before it.
fn quoted(s: &Vec<char>, delim: char) -> (r: Option<(Vec<char>, Vec<char>)>)
    ensures
        match r {
            Some((u, t)) => quoted_title(s@, delim) == Some((u@, t@)),
            None => quoted_title(s@, delim) is None,
        },
{
    assert(s@.subrange(0, s@.len() as int) =~= s@);
    proof {
        lemma_last_index(s@, delim);
    }
    match rfind_char(s, 0, s.len(), delim) {
        Some(ti) => {
            if ti > 0 {
                proof {
                    lemma_last_index(s@.subrange(0, ti as int), delim);
                }
                match rfind_char(s, 0, ti, delim) {
                    Some(open) => {
                        let before = slice(s, 0, open);
                        let u = trim_vec(&before);
                        let t = slice(s, open + 1, ti);
                        Some((u, t))
                    },
                    None => None,
                }
            } else {
                None
            }
        },
        None => None,
    }
}

/// Splits the inside of `( … )` into a URL and an optional quoted title.
pub fn split_url_title(content: &Vec<char>) -> (r: (String, Option<String>))
    ensures
        (r.0@, opt_str_view(r.1)) == url_title(content@),
{
    let s = trim_vec(content);
    match quoted(&s, '"') {
        Some((u, t)) => {
            return (string_of(&u), Some(string_of(&t)));
        },
        None => {},
    }
    match quoted(&s, '\'') {
        Some((u, t)) => {
            return (string_of(&u), Some(string_of(&t)));
        },
        None => {},
    }
    (string_of(&s), None)
}

/// The matching `close` for an `open` already seen before `start`.
fn find_matching(v: &Vec<char>, start: usize, open: char, close: char) -> (r: Option<usize>)
    requires
        start <= v@.len(),
    ensures
        match r {
            Some(j) => match_close(v@, start as int, 1, open, close) == Some(j as int),
            None => match_close(v@, start as int, 1, open, close) is None,
        },
{
    let mut depth: usize = 1;
    let mut i = start;
    while i < v.len()
        invariant
            start <= i,
            1 <= depth <= i - start + 1,
            v@.len() == v.len(),
            match_close(v@, start as int, 1, open, close) == match_close(
                v@,
                i as int,
                depth as int,
                open,
                close,
            ),
        decreases v.len() - i,
    {
        let c = v[i];
        if c == '\\' {
            if i + 1 >= v.len() {
                return None;
            }
            i += 2;
        } else if c == open {
            if i + 1 == v.len() {
                assert(match_close(v@, i + 1, depth + 1, open, close) is None);
                return None;
            }
            depth += 1;
            i += 1;
        } else if c == close {
            if depth == 1 {
                return Some(i);
            }
            depth -= 1;
            i += 1;
        } else {
            i += 1;
        }
    }
    None
}

/// Where the text of `#grad` or `#font` starting at `start` ends.
fn find_text_close(v: &Vec<char>, start: usize) -> (r: Option<usize>)
    requires
        start <= v@.len(),
    ensures
        match r {
            Some(j) => text_close(v@, start as int) == Some(j as int),
            None => text_close(v@, start as int) is None,
        },
{
    match find_matching(v, start, '(', ')') {
        Some(j) => Some(j),
        None => find_char_from(v, start, ')'),
    }
}

/// The first comma of `v` outside parentheses.
fn find_top_comma(v: &Vec<char>) -> (r: Option<usize>)
    ensures
        match r {
            Some(j) => top_comma(v@, 0, 0) == Some(j as int),
            None => top_comma(v@, 0, 0) is None,
        },
{
    let mut opens: usize = 0;
    let mut closes: usize = 0;
    let mut i: usize = 0;
    while i < v.len()
        invariant
            opens + closes <= i,
            top_comma(v@, 0, 0) == top_comma(v@, i as int, opens - closes),
        decreases v.len() - i,
    {
        let c = v[i];
        if c == ',' && opens <= closes {
            return Some(i);
        } else if c == '(' {
            opens += 1;
        } else if c == ')' {
            closes += 1;
        }
        i += 1;
    }
    None
}

/// `code_content` of `raw`.
fn code_content_vec(raw: Vec<char>) -> (r: Vec<char>)
    ensures
        r@ == code_content(raw@),
{
    let n = raw.len();
    if n > 0 && raw[0] == ' ' && raw[n - 1] == ' ' {
        let mut i: usize = 0;
        let mut all_space = true;
        while i < n
            invariant
                n == raw@.len(),
                i <= n,
                all_space == (forall|k: int| 0 <= k < i ==> raw@[k] == ' '),
            decreases n - i,
        {
            if raw[i] != ' ' {
                all_space = false;
            }
            i += 1;
        }
        if !all_space {
            return slice(&raw, 1, n - 1);
        }
    }
    raw
}

/// Scanner state: the characters of the text and the current position.
struct InlineParser {
    chars: Vec<char>,
    pos: usize,
}

impl InlineParser {
    fn new(chars: Vec<char>) -> (p: InlineParser)
        ensures
            p.chars@ == chars@,
            p.pos == 0,
    {
        InlineParser { chars, pos: 0 }
    }

    fn at_end(&self) -> (r: bool)
        ensures
            r == (self.pos >= self.chars@.len()),
    {
        self.pos >= self.chars.len()
    }

    fn current(&self) -> (r: Option<char>)
        ensures
            r == (if self.pos < self.chars@.len() {
                Some(self.chars@[self.pos as int])
            } else {
                None
            }),
    {
        if self.pos < self.chars.len() {
            Some(self.chars[self.pos])
        } else {
            None
        }
    }

    fn peek(&self, offset: usize) -> (r: Option<char>)
        requires
            self.pos <= self.chars@.len(),
        ensures
            r == (if self.pos + offset < self.chars@.len() {
                Some(self.chars@[self.pos + offset])
            } else {
                None
            }),
    {
        if offset < self.chars.len() - self.pos {
            Some(self.chars[self.pos + offset])
        } else {
            None
        }
    }

    fn advance(&mut self) -> (r: Option<char>)
        ensures
            final(self).chars == old(self).chars,
            r == (if old(self).pos < old(self).chars@.len() {
                Some(old(self).chars@[old(self).pos as int])
            } else {
                None
            }),
            final(self).pos == (if old(self).pos < old(self).chars@.len() {
                old(self).pos + 1
            } else {
                old(self).pos as int
            }),
    {
        if self.pos < self.chars.len() {
            let c = self.chars[self.pos];
            self.pos += 1;
            Some(c)
        } else {
            None
        }
    }

    fn skip(&mut self, n: usize)
        requires
            old(self).pos <= old(self).chars@.len(),
        ensures
            final(self).chars == old(self).chars,
            final(self).pos == min_int(old(self).pos + n, old(self).chars@.len() as int),
    {
        self.pos = if n < self.chars.len() - self.pos {
            self.pos + n
        } else {
            self.chars.len()
        };
    }

    /// How many times `ch` repeats from the current position.
    fn count_run(&self, ch: char) -> (n: usize)
        requires
            self.pos <= self.chars@.len(),
        ensures
            n == run_len(self.chars@.skip(self.pos as int), ch),
            self.pos + n <= self.chars@.len(),
    {
        count_run(&self.chars, self.pos, ch)
    }

    /// The text from the current position starts with `s`.
    fn starts_with(&self, s: &str) -> (r: bool)
        requires
            self.pos <= self.chars@.len(),
        ensures
            r == starts_with(self.chars@.skip(self.pos as int), s@),
    {
        let p = str_chars(s);
        let r = eq_at(&self.chars, self.pos, &p);
        proof {
            let t = self.chars@.skip(self.pos as int);
            if r {
                assert(t.take(p@.len() as int) =~= self.chars@.subrange(
                    self.pos as int,
                    self.pos + p@.len(),
                ));
            } else if p@.len() <= t.len() {
                assert(t.take(p@.len() as int) =~= self.chars@.subrange(
                    self.pos as int,
                    self.pos + p@.len(),
                ));
            }
        }
        r
    }

    /// The next occurrence of `needle` from the current position.
    fn find_from(&self, needle: &Vec<char>) -> (r: Option<usize>)
        ensures
            match r {
                Some(j) => find_seq(self.chars@, self.pos as int, needle@) == Some(j as int),
                None => find_seq(self.chars@, self.pos as int, needle@) is None,
            },
    {
        find_vec(&self.chars, self.pos, needle)
    }

    /// The characters from the current position to `end`; the position moves
    /// to `end + skip_after`.
    fn slice_and_advance(&mut self, end: usize, skip_after: usize) -> (r: Vec<char>)
        requires
            old(self).pos <= end,
            end + skip_after <= old(self).chars@.len(),
        ensures
            final(self).chars == old(self).chars,
            r@ == old(self).chars@.subrange(old(self).pos as int, end as int),
            final(self).pos == end + skip_after,
    {
        let _n = self.chars.len();
        let s = slice(&self.chars, self.pos, end);
        self.pos = end + skip_after;
        s
    }

    fn parse(self) -> (r: Vec<Inline>)
        requires
            self.pos == 0,
        ensures
            inlines_view(r@) == parse_inl(self.chars@),
        decreases self.chars@.len(), 4nat,
    {
        let mut p = self;
        p.parse_until(None)
    }

    /// Whether `stop` starts at the current position.
    fn stop_here(&self, stop: Option<&Vec<char>>) -> (r: bool)
        ensures
            r == stop_at(self.chars@, stop_view(stop), self.pos as int),
    {
        match stop {
            Some(st) => st.len() > 0 && eq_at(&self.chars, self.pos, st),
            None => false,
        }
    }

    /// Parses inlines until the end or until `stop` starts (not consumed).
    fn parse_until(&mut self, stop: Option<&Vec<char>>) -> (r: Vec<Inline>)
        requires
            old(self).pos <= old(self).chars@.len(),
        ensures
            final(self).chars@ == old(self).chars@,
            inlines_view(r@) == inl_loop(
                old(self).chars@,
                stop_view(stop),
                old(self).pos as int,
                Seq::empty(),
                Seq::empty(),
            ),
            final(self).pos == inl_end(
                old(self).chars@,
                stop_view(stop),
                old(self).pos as int,
                Seq::empty(),
                Seq::empty(),
            ),
            old(self).pos <= final(self).pos <= final(self).chars@.len(),
            final(self).pos == final(self).chars@.len() || stop_at(
                final(self).chars@,
                stop_view(stop),
                final(self).pos as int,
            ),
            stop is None ==> final(self).pos == final(self).chars@.len(),
        decreases old(self).chars@.len(), 3nat,
    {
        let ghost s = self.chars@;
        let ghost st = stop_view(stop);
        let ghost p0 = self.pos as int;
        let mut out: Vec<Inline> = Vec::new();
        let mut buf: Vec<char> = Vec::new();
        assert(inlines_view(out@) =~= Seq::<InlineV>::empty());
        while !self.stop_here(stop) && !self.at_end()
            invariant
                self.chars@ == s,
                s == old(self).chars@,
                st == stop_view(stop),
                p0 == old(self).pos,
                self.pos <= s.len(),
                inl_loop(s, st, p0, Seq::empty(), Seq::empty()) == inl_loop(
                    s,
                    st,
                    self.pos as int,
                    buf@,
                    inlines_view(out@),
                ),
                inl_end(s, st, p0, Seq::empty(), Seq::empty()) == inl_end(
                    s,
                    st,
                    self.pos as int,
                    buf@,
                    inlines_view(out@),
                ),
                p0 <= self.pos,
            decreases s.len() - self.pos,
        {
            self.step(&mut buf, &mut out);
        }
        flush(&mut buf, &mut out);
        out
    }

    /// One step of the scanner (the body of the loop of `parse_until`).
    fn step(&mut self, buf: &mut Vec<char>, out: &mut Vec<Inline>)
        requires
            old(self).pos < old(self).chars@.len(),
        ensures
            final(self).chars@ == old(self).chars@,
            old(self).pos < final(self).pos <= final(self).chars@.len(),
            (final(self).pos as int, final(buf)@, inlines_view(final(out)@)) == inl_step(
                old(self).chars@,
                old(self).pos as int,
                old(buf)@,
                inlines_view(old(out)@),
            ),
        decreases old(self).chars@.len(), 2nat,
    {
        let ghost s = self.chars@;
        let ghost pos = self.pos as int;
        let ch = self.chars[self.pos];
        let nxt = self.peek(1);
        proof {
            reveal_strlit("#grad[");
            reveal_strlit("#font[");
            assert("#grad["@ =~= seq!['#', 'g', 'r', 'a', 'd', '[']);
            assert("#font["@ =~= seq!['#', 'f', 'o', 'n', 't', '[']);
        }
        if ch == '\\' && nxt == Some('\n') {
            flush(buf, out);
            push_node(out, Inline::HardBreak);
            self.skip(2);
        } else if ch == '\\' && match nxt {
            Some(c) => is_ascii_punct_char(c),
            None => false,
        } {
            self.skip(1);
            let c = self.advance().unwrap();
            buf.push(c);
        } else if ch == '`' {
            self.step_code(buf, out);
        } else if ch == '*' {
            match self.try_delimited('*', buf, out) {
                Some(node) => push_node(out, node),
                None => {
                    buf.push('*');
                    self.skip(1);
                },
            }
        } else if ch == '_' {
            self.step_underscore(buf, out);
        } else if ch == '~' && nxt == Some('~') {
            self.step_strike(buf, out);
        } else if ch == '!' && nxt == Some('[') {
            let saved = self.pos;
            self.skip(2);
            let r = self.try_parse_bracket_link(true);
            self.finish_attempt(r, Ghost(link_spec(s, pos + 2, true)), saved, '!', buf, out);
        } else if ch == '[' {
            let saved = self.pos;
            self.skip(1);
            let r = self.try_parse_bracket_link(false);
            self.finish_attempt(r, Ghost(link_spec(s, pos + 1, false)), saved, '[', buf, out);
        } else if ch == '<' {
            let saved = self.pos;
            let r = self.try_parse_angle_bracket();
            self.finish_attempt(r, Ghost(angle_spec(s, pos)), saved, '<', buf, out);
        } else if ch == '#' && self.starts_with("#grad[") {
            let saved = self.pos;
            let r = self.try_parse_gradient();
            self.finish_attempt(r, Ghost(grad_spec(s, pos)), saved, '#', buf, out);
        } else if ch == '#' && self.starts_with("#font[") {
            let saved = self.pos;
            let r = self.try_parse_font();
            self.finish_attempt(r, Ghost(font_spec(s, pos)), saved, '#', buf, out);
        } else if ch == '\n' {
            self.step_break(buf, out);
        } else {
            buf.push(ch);
            self.skip(1);
        }
    }

    /// Completes an attempted construct started at `saved` with the character `c`.
    fn finish_attempt(
        &mut self,
        r: Option<Inline>,
        Ghost(spec_r): Ghost<Option<(int, InlineV)>>,
        saved: usize,
        c: char,
        buf: &mut Vec<char>,
        out: &mut Vec<Inline>,
    )
        requires
            saved < old(self).chars@.len(),
            match spec_r {
                Some((p, n)) => opt_inline_view(r) == Some(n) && old(self).pos == p && saved < p
                    <= old(self).chars@.len(),
                None => r is None,
            },
        ensures
            final(self).chars@ == old(self).chars@,
            saved < final(self).pos <= final(self).chars@.len(),
            (final(self).pos as int, final(buf)@, inlines_view(final(out)@)) == attempt(
                spec_r,
                saved as int,
                c,
                old(buf)@,
                inlines_view(old(out)@),
            ),
    {
        match r {
            Some(node) => {
                flush(buf, out);
                push_node(out, node);
            },
            None => {
                self.pos = saved;
                buf.push(c);
                self.skip(1);
            },
        }
    }

    /// A code span, or a literal run of backticks, at the current position.
    fn step_code(&mut self, buf: &mut Vec<char>, out: &mut Vec<Inline>)
        requires
            old(self).pos < old(self).chars@.len(),
            old(self).chars@[old(self).pos as int] == '`',
        ensures
            final(self).chars@ == old(self).chars@,
            old(self).pos < final(self).pos <= final(self).chars@.len(),
            (final(self).pos as int, final(buf)@, inlines_view(final(out)@)) == code_step(
                old(self).chars@,
                old(self).pos as int,
                old(buf)@,
                inlines_view(old(out)@),
            ),
    {
        assert(self.chars.len() == self.chars@.len());
        let ghost s = self.chars@;
        let ghost pos = self.pos as int;
        let ticks = self.count_run('`');
        proof {
            crate::text::lemma_skip_drop_first(s, pos);
        }
        let saved = self.pos;
        self.skip(ticks);
        let needle = repeat_vec('`', ticks);
        match self.find_from(&needle) {
            Some(close) => {
                proof {
                    lemma_find_seq(s, pos + ticks, repeat('`', ticks as nat));
                }
                let raw = self.slice_and_advance(close, ticks);
                let code = code_content_vec(raw);
                flush(buf, out);
                push_node(out, Inline::Code(string_of(&code)));
            },
            None => {
                self.pos = saved;
                let mut k: usize = 0;
                while k < ticks
                    invariant
                        k <= ticks,
                        buf@ == old(buf)@ + repeat('`', k as nat),
                    decreases ticks - k,
                {
                    buf.push('`');
                    k += 1;
                    assert(buf@ =~= old(buf)@ + repeat('`', k as nat));
                }
                self.skip(ticks);
            },
        }
    }

    /// `_` at the current position.
    fn step_underscore(&mut self, buf: &mut Vec<char>, out: &mut Vec<Inline>)
        requires
            old(self).pos < old(self).chars@.len(),
            old(self).chars@[old(self).pos as int] == '_',
        ensures
            final(self).chars@ == old(self).chars@,
            old(self).pos < final(self).pos <= final(self).chars@.len(),
            (final(self).pos as int, final(buf)@, inlines_view(final(out)@)) == (if old(self).pos
                == 0 || !char_is_alphanumeric(old(self).chars@[old(self).pos - 1]) {
                let (p, b, o, n) = delim_step(
                    old(self).chars@,
                    old(self).pos as int,
                    '_',
                    old(buf)@,
                    inlines_view(old(out)@),
                );
                match n {
                    Some(x) => (p, b, o.push(x)),
                    None => (old(self).pos + 1, old(buf)@.push('_'), inlines_view(old(out)@)),
                }
            } else {
                (old(self).pos + 1, old(buf)@.push('_'), inlines_view(old(out)@))
            }),
        decreases old(self).chars@.len(), 1nat,
    {
        let left_ok = self.pos == 0 || !is_alphanumeric(self.chars[self.pos - 1]);
        let mut done = false;
        if left_ok {
            match self.try_delimited('_', buf, out) {
                Some(node) => {
                    push_node(out, node);
                    done = true;
                },
                None => {},
            }
        }
        if !done {
            buf.push('_');
            self.skip(1);
        }
    }

    /// `~~` at the current position.
    fn step_strike(&mut self, buf: &mut Vec<char>, out: &mut Vec<Inline>)
        requires
            old(self).pos + 1 < old(self).chars@.len(),
            old(self).chars@[old(self).pos as int] == '~',
            old(self).chars@[old(self).pos + 1] == '~',
        ensures
            final(self).chars@ == old(self).chars@,
            old(self).pos < final(self).pos <= final(self).chars@.len(),
            (final(self).pos as int, final(buf)@, inlines_view(final(out)@)) == strike_step(
                old(self).chars@,
                old(self).pos as int,
                old(buf)@,
                inlines_view(old(out)@),
            ),
        decreases old(self).chars@.len(), 1nat,
    {
        assert(self.chars.len() == self.chars@.len());
        let ghost s = self.chars@;
        let ghost pos = self.pos as int;
        let saved = self.pos;
        self.skip(2);
        let needle = repeat_vec('~', 2);
        match self.find_from(&needle) {
            Some(close) => {
                proof {
                    lemma_find_seq(s, pos + 2, repeat('~', 2));
                }
                let inner = self.slice_and_advance(close, 2);
                let children = InlineParser::new(inner).parse();
                flush(buf, out);
                push_node(out, Inline::Strikethrough(children));
            },
            None => {
                self.pos = saved;
                buf.push('~');
                buf.push('~');
                self.skip(2);
                assert(buf@ =~= old(buf)@ + seq!['~', '~']);
            },
        }
    }

    /// A line feed at the current position.
    fn step_break(&mut self, buf: &mut Vec<char>, out: &mut Vec<Inline>)
        requires
            old(self).pos < old(self).chars@.len(),
        ensures
            final(self).chars@ == old(self).chars@,
            final(self).pos == old(self).pos + 1,
            (final(self).pos as int, final(buf)@, inlines_view(final(out)@)) == break_step(
                old(self).pos as int,
                old(buf)@,
                inlines_view(old(out)@),
            ),
    {
        let hard = buf.len() >= 2 && buf[buf.len() - 1] == ' ' && buf[buf.len() - 2] == ' ';
        proof {
            let b = old(buf)@;
            if b.len() >= 2 {
                assert(ends_with(b, seq![' ', ' ']) == (b[b.len() - 1] == ' ' && b[b.len() - 2]
                    == ' ')) by {
                    if b[b.len() - 1] == ' ' && b[b.len() - 2] == ' ' {
                        assert(b.skip(b.len() - 2) =~= seq![' ', ' ']);
                    } else if b.skip(b.len() - 2) == seq![' ', ' '] {
                        assert(b.skip(b.len() - 2)[0] == b[b.len() - 2]);
                        assert(b.skip(b.len() - 2)[1] == b[b.len() - 1]);
                    }
                }
            }
        }
        pop_trailing(buf, ' ');
        flush(buf, out);
        if hard {
            push_node(out, Inline::HardBreak);
        } else {
            push_node(out, Inline::SoftBreak);
        }
        self.skip(1);
    }

    /// `***`, `**` or `*` (or the `_` forms) at the current position.
    fn try_delimited(&mut self, delim: char, buf: &mut Vec<char>, out: &mut Vec<Inline>) -> (r:
        Option<Inline>)
        requires
            old(self).pos < old(self).chars@.len(),
            old(self).chars@[old(self).pos as int] == delim,
        ensures
            final(self).chars@ == old(self).chars@,
            r is Some ==> old(self).pos < final(self).pos <= final(self).chars@.len(),
            r is None ==> final(self).pos == old(self).pos,
            ({
                let (p, b, o, n) = delim_step(
                    old(self).chars@,
                    old(self).pos as int,
                    delim,
                    old(buf)@,
                    inlines_view(old(out)@),
                );
                &&& final(self).pos == p
                &&& final(buf)@ == b
                &&& inlines_view(final(out)@) == o
                &&& opt_inline_view(r) == n
            }),
        decreases old(self).chars@.len(), 0nat,
    {
        assert(self.chars.len() == self.chars@.len());
        let ghost s = self.chars@;
        let ghost pos = self.pos as int;
        let run = self.count_run(delim);
        let count = if run < 3 {
            run
        } else {
            3
        };
        let saved = self.pos;
        self.skip(count);
        let mut try_count = count;
        while try_count > 0
            invariant
                self.chars@ == s,
                s == old(self).chars@,
                s.len() <= usize::MAX,
                saved == old(self).pos,
                run == run_len(s.skip(saved as int), delim),
                count == (if run < 3 {
                    run
                } else {
                    3
                }),
                self.pos == saved + count,
                saved + count <= s.len(),
                1 <= count <= 3,
                try_count <= count,
                delim_close(s, self.pos as int, delim, count as nat) == delim_close(
                    s,
                    self.pos as int,
                    delim,
                    try_count as nat,
                ),
                buf@ == old(buf)@,
                out@ == old(out)@,
            decreases try_count,
        {
            let needle = repeat_vec(delim, try_count);
            match self.find_from(&needle) {
                Some(close) => {
                    proof {
                        lemma_find_seq(s, self.pos as int, repeat(delim, try_count as nat));
                    }
                    let inner = self.slice_and_advance(close, try_count);
                    let children = InlineParser::new(inner).parse();
                    let extra = count - try_count;
                    flush(buf, out);
                    let ghost base = inlines_view(out@);
                    let mut k: usize = 0;
                    while k < extra
                        invariant
                            k <= extra,
                            inlines_view(out@) == base + Seq::new(
                                k as nat,
                                |_i: int| InlineV::Text(seq![delim]),
                            ),
                        decreases extra - k,
                    {
                        let mut t = String::new();
                        t.push(delim);
                        push_node(out, Inline::Text(t));
                        k += 1;
                        assert(inlines_view(out@) =~= base + Seq::new(
                            k as nat,
                            |_i: int| InlineV::Text(seq![delim]),
                        ));
                    }
                    proof {
                        let ghost start = (saved + count) as int;
                        assert(delim_close(s, start, delim, try_count as nat) == Some(
                            (try_count as nat, close as int),
                        ));
                        assert(delim_close(s, start, delim, count as nat) == Some(
                            (try_count as nat, close as int),
                        ));
                        assert(inlines_view(children@) == parse_inl(s.subrange(start, close as int)));
                        let (p, b, o, n) = delim_step(s, saved as int, delim, old(buf)@, inlines_view(old(out)@));
                        assert(run_len(s.skip(saved as int), delim) == run);
                        assert(p == close + try_count);
                        assert(b == buf@);
                        assert(o == inlines_view(out@));
                        assert(n == Some(emph_node(try_count as nat, inlines_view(children@))));
                    }
                    if try_count == 3 {
                        return Some(Inline::StrongEmphasis(children));
                    } else if try_count == 2 {
                        return Some(Inline::Strong(children));
                    } else {
                        return Some(Inline::Emphasis(children));
                    }
                },
                None => {},
            }
            try_count -= 1;
        }
        self.pos = saved;
        None
    }

    /// A link or image whose `[` (or `![`) has been consumed.
    fn try_parse_bracket_link(&mut self, is_image: bool) -> (r: Option<Inline>)
        requires
            old(self).pos <= old(self).chars@.len(),
        ensures
            final(self).chars@ == old(self).chars@,
            match link_spec(old(self).chars@, old(self).pos as int, is_image) {
                Some((p, n)) => opt_inline_view(r) == Some(n) && final(self).pos == p && old(
                    self,
                ).pos < p <= old(self).chars@.len(),
                None => r is None,
            },
        decreases old(self).chars@.len(), 0nat,
    {
        assert(self.chars.len() == self.chars@.len());
        let ghost s = self.chars@;
        let bracket_start = self.pos;
        let bracket_end = match find_matching(&self.chars, bracket_start, '[', ']') {
            Some(j) => j,
            None => {
                return None;
            },
        };
        proof {
            lemma_match_close(s, bracket_start as int, 1, '[', ']');
        }
        if !(bracket_end + 1 < self.chars.len() && self.chars[bracket_end + 1] == '(') {
            return None;
        }
        let paren_start = bracket_end + 2;
        let paren_end = match find_matching(&self.chars, paren_start, '(', ')') {
            Some(j) => j,
            None => {
                return None;
            },
        };
        proof {
            lemma_match_close(s, paren_start as int, 1, '(', ')');
        }
        let inner_text = slice(&self.chars, bracket_start, bracket_end);
        let dest = slice(&self.chars, paren_start, paren_end);
        let (url, title) = split_url_title(&dest);
        self.pos = paren_end + 1;
        if is_image {
            Some(Inline::Image { alt: string_of(&inner_text), src: url, title })
        } else {
            let children = InlineParser::new(inner_text).parse();
            Some(Inline::Link { children, url, title })
        }
    }

    /// An autolink or raw HTML tag at the `<` at the current position.
    fn try_parse_angle_bracket(&mut self) -> (r: Option<Inline>)
        requires
            old(self).pos < old(self).chars@.len(),
        ensures
            final(self).chars@ == old(self).chars@,
            match angle_spec(old(self).chars@, old(self).pos as int) {
                Some((p, n)) => opt_inline_view(r) == Some(n) && final(self).pos == p && old(
                    self,
                ).pos < p <= old(self).chars@.len(),
                None => r is None,
            },
    {
        assert(self.chars.len() == self.chars@.len());
        let ghost s = self.chars@;
        let saved = self.pos;
        self.skip(1);
        let gt = match find_char_from(&self.chars, self.pos, '>') {
            Some(j) => j,
            None => {
                self.pos = saved;
                return None;
            },
        };
        proof {
            lemma_first_index_from(s, saved + 1, '>');
        }
        let inner = slice(&self.chars, self.pos, gt);
        let sep = vec![':', '/', '/'];
        let has_scheme = find_vec(&inner, 0, &sep).is_some();
        assert(sep@ =~= seq![':', '/', '/']);
        let autolink = has_scheme || (contains_char(&inner, '@') && !contains_char(&inner, ' ')
            && inner.len() > 0);
        if autolink || (inner.len() > 0 && (is_ascii_alpha_char(inner[0]) || inner[0] == '/')) {
            self.pos = gt + 1;
            let mut html: Vec<char> = Vec::new();
            html.push('<');
            let mut k: usize = 0;
            while k < inner.len()
                invariant
                    k <= inner@.len(),
                    html@ == seq!['<'] + inner@.take(k as int),
                decreases inner.len() - k,
            {
                html.push(inner[k]);
                k += 1;
                assert(html@ =~= seq!['<'] + inner@.take(k as int));
            }
            html.push('>');
            assert(inner@.take(inner@.len() as int) =~= inner@);
            assert(html@ =~= seq!['<'] + inner@ + seq!['>']);
            assert(inner@[0] == inner[0]);
            return Some(Inline::RawHtml(string_of(&html)));
        }
        self.pos = saved;
        None
    }

    /// `#grad[from, to](text)` at the current position.
    fn try_parse_gradient(&mut self) -> (r: Option<Inline>)
        requires
            old(self).pos + 6 <= old(self).chars@.len(),
        ensures
            final(self).chars@ == old(self).chars@,
            match grad_spec(old(self).chars@, old(self).pos as int) {
                Some((p, n)) => opt_inline_view(r) == Some(n) && final(self).pos == p && old(
                    self,
                ).pos < p <= old(self).chars@.len(),
                None => r is None,
            },
        decreases old(self).chars@.len(), 0nat,
    {
        assert(self.chars.len() == self.chars@.len());
        let ghost s = self.chars@;
        let ghost pos = self.pos as int;
        self.skip(6);
        let bracket_end = match find_char_from(&self.chars, self.pos, ']') {
            Some(j) => j,
            None => {
                return None;
            },
        };
        proof {
            lemma_first_index_from(s, pos + 6, ']');
        }
        let colors = slice(&self.chars, self.pos, bracket_end);
        let comma = match find_top_comma(&colors) {
            Some(j) => j,
            None => match find_char_from(&colors, 0, ',') {
                Some(j) => j,
                None => {
                    return None;
                },
            },
        };
        proof {
            lemma_color_split(colors@);
        }
        let from_raw = slice(&colors, 0, comma);
        let to_raw = slice(&colors, comma + 1, colors.len());
        assert(from_raw@ =~= colors@.take(comma as int));
        assert(to_raw@ =~= colors@.skip(comma + 1));
        let from = trim_vec(&from_raw);
        let to = trim_vec(&to_raw);
        self.pos = bracket_end + 1;
        match self.current() {
            Some(c) => {
                if c != '(' {
                    return None;
                }
            },
            None => {
                return None;
            },
        }
        let text_start = self.pos + 1;
        let paren_end = match find_text_close(&self.chars, text_start) {
            Some(j) => j,
            None => {
                return None;
            },
        };
        proof {
            lemma_text_close(s, text_start as int);
        }
        let inner = slice(&self.chars, text_start, paren_end);
        self.pos = paren_end + 1;
        let children = InlineParser::new(inner).parse();
        Some(Inline::Gradient { from: string_of(&from), to: string_of(&to), children })
    }

    /// `#font[family](text)` at the current position.
    fn try_parse_font(&mut self) -> (r: Option<Inline>)
        requires
            old(self).pos + 6 <= old(self).chars@.len(),
        ensures
            final(self).chars@ == old(self).chars@,
            match font_spec(old(self).chars@, old(self).pos as int) {
                Some((p, n)) => opt_inline_view(r) == Some(n) && final(self).pos == p && old(
                    self,
                ).pos < p <= old(self).chars@.len(),
                None => r is None,
            },
        decreases old(self).chars@.len(), 0nat,
    {
        assert(self.chars.len() == self.chars@.len());
        let ghost s = self.chars@;
        let ghost pos = self.pos as int;
        self.skip(6);
        let bracket_end = match find_char_from(&self.chars, self.pos, ']') {
            Some(j) => j,
            None => {
                return None;
            },
        };
        proof {
            lemma_first_index_from(s, pos + 6, ']');
        }
        let family_raw = slice(&self.chars, self.pos, bracket_end);
        let family = trim_vec(&family_raw);
        self.pos = bracket_end + 1;
        match self.current() {
            Some(c) => {
                if c != '(' {
                    return None;
                }
            },
            None => {
                return None;
            },
        }
        let text_start = self.pos + 1;
        let paren_end = match find_text_close(&self.chars, text_start) {
            Some(j) => j,
            None => {
                return None;
            },
        };
        proof {
            lemma_text_close(s, text_start as int);
        }
        let inner = slice(&self.chars, text_start, paren_end);
        self.pos = paren_end + 1;
        let children = InlineParser::new(inner).parse();
        Some(Inline::Font { family: string_of(&family), children })
    }
}

/// The model of an optional stop sequence.
pub open spec fn stop_view(stop: Option<&Vec<char>>) -> Option<Seq<char>> {
    match stop {
        Some(v) => Some(v@),
        None => None,
    }
}

} // verus!
