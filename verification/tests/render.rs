use webmd::{parse_blocks, render_html};

fn md(s: &str) -> String {
    render_html(&parse_blocks(s))
}

const GRAD_OPEN: &str = "; -webkit-background-clip: text; -webkit-text-fill-color: transparent; background-clip: text;\">";

#[test]
fn atx_headings() {
    assert_eq!(md("# Hello"), "<h1 id=\"hello\">Hello</h1>\n");
    assert_eq!(md("###### Six"), "<h6 id=\"six\">Six</h6>\n");
    assert_eq!(md("## Title ##"), "<h2 id=\"title\">Title</h2>\n");
    assert_eq!(md("####### seven"), "<p>####### seven</p>\n");
    assert_eq!(md("#nospace"), "<p>#nospace</p>\n");
    assert_eq!(md("# C#"), "<h1 id=\"c\">C#</h1>\n");
    assert_eq!(md("# a #"), "<h1 id=\"a\">a</h1>\n");
    assert_eq!(md("## ##"), "<h2></h2>\n");
}

#[test]
fn heading_id_uses_plain_text() {
    assert_eq!(md("# *Hi* there"), "<h1 id=\"hi-there\"><em>Hi</em> there</h1>\n");
    assert_eq!(md("# Hello World!"), "<h1 id=\"hello-world\">Hello World!</h1>\n");
}

#[test]
fn setext_headings() {
    assert_eq!(md("Heading 1\n========="), "<h1 id=\"heading-1\">Heading 1</h1>\n");
    assert_eq!(md("Heading 2\n---------"), "<h2 id=\"heading-2\">Heading 2</h2>\n");
}

#[test]
fn paragraphs_and_breaks() {
    assert_eq!(
        md("This is the first paragraph.\n\nThis is the second paragraph."),
        "<p>This is the first paragraph.</p>\n<p>This is the second paragraph.</p>\n"
    );
    assert_eq!(md("a\nb"), "<p>a b</p>\n");
    assert_eq!(md("Line one  \nLine two"), "<p>Line one<br />\nLine two</p>\n");
    assert_eq!(md("Line one\\\nLine two"), "<p>Line one<br />\nLine two</p>\n");
}

#[test]
fn emphasis_forms() {
    assert_eq!(
        md("*i* **b** ***bi***"),
        "<p><em>i</em> <strong>b</strong> <strong><em>bi</em></strong></p>\n"
    );
    assert_eq!(md("_i_ __b__"), "<p><em>i</em> <strong>b</strong></p>\n");
    assert_eq!(md("___bi___"), "<p><strong><em>bi</em></strong></p>\n");
    assert_eq!(md("snake_case_word"), "<p>snake_case_word</p>\n");
    assert_eq!(md("a _b"), "<p>a _b</p>\n");
    assert_eq!(md("**a"), "<p>**a</p>\n");
    assert_eq!(md("a_ b_c *d"), "<p>a_ b_c *d</p>\n");
    assert_eq!(md("~~strike~~"), "<p><del>strike</del></p>\n");
}

#[test]
fn inline_code() {
    assert_eq!(md("Use `x < 1` inline."), "<p>Use <code>x &lt; 1</code> inline.</p>\n");
    assert_eq!(
        md("`` There is a `backtick` inside ``"),
        "<p><code>There is a `backtick` inside</code></p>\n"
    );
    assert_eq!(md("`unclosed"), "<p>`unclosed</p>\n");
}

#[test]
fn links_and_images() {
    assert_eq!(
        md("[link text](https://example.com)"),
        "<p><a href=\"https://example.com\">link text</a></p>\n"
    );
    assert_eq!(
        md("[link with title](https://example.com \"My title\")"),
        "<p><a href=\"https://example.com\" title=\"My title\">link with title</a></p>\n"
    );
    assert_eq!(
        md("![alt text](image.png \"Optional title\")"),
        "<p><img src=\"image.png\" alt=\"alt text\" title=\"Optional title\" /></p>\n"
    );
    assert_eq!(md("[not a link"), "<p>[not a link</p>\n");
}

#[test]
fn autolinks_and_raw_html() {
    assert_eq!(
        md("<https://example.com>"),
        "<p><https://example.com></p>\n"
    );
    assert_eq!(
        md("This has <em>inline HTML</em> inside it."),
        "<p>This has <em>inline HTML</em> inside it.</p>\n"
    );
    assert_eq!(md("1 < 2"), "<p>1 &lt; 2</p>\n");
}

#[test]
fn html_blocks() {
    assert_eq!(
        md("<div class=\"custom\">\n  Raw HTML block\n</div>"),
        "<div class=\"custom\">\n  Raw HTML block\n</div>\n"
    );
    assert_eq!(md("<DIV>\n*x*\n\npara"), "<DIV>\n*x*\n<p>para</p>\n");
    assert_eq!(md("text\n<table>\n</table>"), "<p>text</p>\n<table>\n</table>\n");
    assert_eq!(md("<span>inline</span>"), "<p><span>inline</span></p>\n");
    assert_eq!(md("<divx>"), "<p><divx></p>\n");
    assert_eq!(md("    <div>"), "<pre><code>&lt;div&gt;</code></pre>\n");
}

#[test]
fn escapes() {
    assert_eq!(md("\\*not italic\\*"), "<p>*not italic*</p>\n");
    assert_eq!(md("\\# not a heading"), "<p># not a heading</p>\n");
    assert_eq!(md("\\[not a link\\](url)"), "<p>[not a link](url)</p>\n");
}

#[test]
fn unordered_lists() {
    assert_eq!(md("- a\n- b"), "<ul>\n<li>a</li>\n<li>b</li>\n</ul>\n");
    assert_eq!(md("* a\n* b"), "<ul>\n<li>a</li>\n<li>b</li>\n</ul>\n");
    assert_eq!(
        md("- First item\n- Second item\n  - Nested item\n- Third item"),
        "<ul>\n<li>First item</li>\n<li>Second item<ul>\n<li>Nested item</li>\n</ul>\n</li>\n<li>Third item</li>\n</ul>\n"
    );
}

#[test]
fn nested_lists() {
    assert_eq!(
        md("1. First item\n2. Second item\n   1. Nested ordered\n3. Third item"),
        "<ol>\n<li>First item</li>\n<li>Second item<ol>\n<li>Nested ordered</li>\n</ol>\n</li>\n<li>Third item</li>\n</ol>\n"
    );
    assert_eq!(md("text\n- item"), "<p>text</p>\n<ul>\n<li>item</li>\n</ul>\n");
    assert_eq!(md("foo\n*"), "<p>foo *</p>\n");
    assert_eq!(md("foo\n1."), "<p>foo 1.</p>\n");
    assert_eq!(md("foo\n1. bar"), "<p>foo</p>\n<ol>\n<li>bar</li>\n</ol>\n");
    assert_eq!(md("year\n1999. was"), "<p>year\n1999. was</p>\n".replace("\n1999", " 1999"));
}

#[test]
fn loose_list_wraps_items() {
    assert_eq!(
        md("- Item one\n\n- Item two\n\n- Item three"),
        "<ul>\n<li>\n<p>Item one</p>\n</li>\n<li>\n<p>Item two</p>\n</li>\n<li>\n<p>Item three</p>\n</li>\n</ul>\n"
    );
}

#[test]
fn ordered_lists() {
    assert_eq!(md("1. one\n2. two"), "<ol>\n<li>one</li>\n<li>two</li>\n</ol>\n");
    assert_eq!(
        md("7. Seventh item\n8. Eighth item"),
        "<ol start=\"7\">\n<li>Seventh item</li>\n<li>Eighth item</li>\n</ol>\n"
    );
}

#[test]
fn task_lists() {
    assert_eq!(
        md("- [x] done\n- [ ] todo"),
        "<ul>\n<li><input type=\"checkbox\" checked disabled /> done</li>\n<li><input type=\"checkbox\" disabled /> todo</li>\n</ul>\n"
    );
    assert_eq!(
        md("1. [x] Design the API"),
        "<ol>\n<li><input type=\"checkbox\" checked disabled /> Design the API</li>\n</ol>\n"
    );
}

#[test]
fn block_quotes() {
    assert_eq!(md("> quote"), "<blockquote>\n<p>quote</p>\n</blockquote>\n");
    assert_eq!(
        md("> Outer quote\n>\n> > Inner (nested) quote"),
        "<blockquote>\n<p>Outer quote</p>\n<blockquote>\n<p>Inner (nested) quote</p>\n</blockquote>\n</blockquote>\n"
    );
}

#[test]
fn code_blocks() {
    assert_eq!(
        md("```js\nlet x = 1 < 2;\n```"),
        "<pre><code class=\"language-js\">let x = 1 &lt; 2;</code></pre>\n"
    );
    assert_eq!(md("~~~\nplain\n~~~"), "<pre><code>plain</code></pre>\n");
    assert_eq!(md("```\nnot closed"), "<pre><code>not closed</code></pre>\n");
    assert_eq!(md("    code\n    more"), "<pre><code>code\nmore</code></pre>\n");
    assert_eq!(md("\tcode"), "<pre><code>code</code></pre>\n");
    assert_eq!(md("    a\n\n    b\n\nc"), "<pre><code>a\n\nb</code></pre>\n<p>c</p>\n");
}

#[test]
fn thematic_breaks() {
    assert_eq!(md("---"), "<hr />\n");
    assert_eq!(md("***"), "<hr />\n");
    assert_eq!(md("_ _ _"), "<hr />\n");
    assert_eq!(md("--"), "<p>--</p>\n");
    assert_eq!(md("    ***"), "<pre><code>***</code></pre>\n");
    assert_eq!(md("a\n    ---"), "<p>a     ---</p>\n");
}

#[test]
fn tables() {
    assert_eq!(
        md("| A | B | C |\n|---|:-:|--:|\n| left | center | right |"),
        "<table>\n<thead>\n<tr>\n<th>A</th>\n<th style=\"text-align:center\">B</th>\n<th style=\"text-align:right\">C</th>\n</tr>\n</thead>\n<tbody>\n<tr>\n<td>left</td>\n<td style=\"text-align:center\">center</td>\n<td style=\"text-align:right\">right</td>\n</tr>\n</tbody>\n</table>\n"
    );
    assert_eq!(
        md("A | B\n:-- | ---\n1 | 2"),
        "<table>\n<thead>\n<tr>\n<th style=\"text-align:left\">A</th>\n<th>B</th>\n</tr>\n</thead>\n<tbody>\n<tr>\n<td style=\"text-align:left\">1</td>\n<td>2</td>\n</tr>\n</tbody>\n</table>\n"
    );
}

#[test]
fn gradient_extension() {
    assert_eq!(
        md("#grad[red, blue](Rainbow heading)"),
        format!("<p><span style=\"background: linear-gradient(to right, red, blue){}Rainbow heading</span></p>\n", GRAD_OPEN)
    );
    assert_eq!(
        md("#grad[rgb(255, 0, 0), blue](x)"),
        format!("<p><span style=\"background: linear-gradient(to right, rgb(255, 0, 0), blue){}x</span></p>\n", GRAD_OPEN)
    );
    assert_eq!(
        md("#grad[oklch(60% 0.25 280), oklch(60% 0.25 180)](Purple to teal)"),
        format!("<p><span style=\"background: linear-gradient(to right, oklch(60% 0.25 280), oklch(60% 0.25 180)){}Purple to teal</span></p>\n", GRAD_OPEN)
    );
    assert_eq!(
        md("A #grad[tomato, dodgerblue](**bold**) b"),
        format!("<p>A <span style=\"background: linear-gradient(to right, tomato, dodgerblue){}<strong>bold</strong></span> b</p>\n", GRAD_OPEN)
    );
    assert_eq!(md("#grad[red](x)"), "<p>#grad<a href=\"x\">red</a></p>\n");
}

#[test]
fn unbalanced_extension_text() {
    assert_eq!(
        md("#font[X](a (b)"),
        "<p><span style=\"font-family: 'X'\">a (b</span></p>\n"
    );
    assert_eq!(
        md("#grad[rgb(1, 2](x)"),
        format!("<p><span style=\"background: linear-gradient(to right, rgb(1, 2){}x</span></p>\n", GRAD_OPEN)
    );
}

#[test]
fn font_extension() {
    assert_eq!(
        md("#font[Comic Sans MS](Whimsical text)"),
        "<p><span style=\"font-family: 'Comic Sans MS'\">Whimsical text</span></p>\n"
    );
    assert_eq!(
        md("#font[Georgia](#grad[gold, crimson](Styled and coloured))"),
        format!("<p><span style=\"font-family: 'Georgia'\"><span style=\"background: linear-gradient(to right, gold, crimson){}Styled and coloured</span></span></p>\n", GRAD_OPEN)
    );
}

#[test]
fn line_endings_parse_alike() {
    assert_eq!(md("a\r\nb\r\n\r\n# h"), md("a\nb\n\n# h"));
    assert_eq!(md("a\rb"), md("a\nb"));
}

#[test]
fn attributes_are_escaped() {
    assert_eq!(
        md("[x](a\"b)"),
        "<p><a href=\"a\" title=\"\">x</a></p>\n".replace("href=\"a\" title=\"\"", "href=\"a&quot;b\"")
    );
}
