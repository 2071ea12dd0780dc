use webmd::html_renderer::{escape_attr, escape_html, slug_of_lowercase, slugify};
use webmd::block_parser::is_thematic_break;
use webmd::html_renderer::render_block;
use webmd::inline_parser::split_url_title;
use webmd::{parse_blocks, parse_inlines, Alignment, Block, Inline, WebMD};

#[test]
fn plain_text_is_one_node() {
    let v = parse_inlines("just words, nothing else.");
    assert_eq!(v.len(), 1);
    match &v[0] {
        Inline::Text(s) => assert_eq!(s, "just words, nothing else."),
        other => panic!("unexpected {:?}", other),
    }
}

#[test]
fn backslash_escape_is_literal() {
    for c in ['*', '_', '#', '[', '\\', '`', '~', '!'] {
        let input = format!("\\{}", c);
        let v = parse_inlines(&input);
        assert_eq!(v.len(), 1);
        match &v[0] {
            Inline::Text(s) => assert_eq!(s, &c.to_string()),
            other => panic!("unexpected {:?}", other),
        }
    }
}

#[test]
fn unmatched_delimiters_stay_text() {
    let v = parse_inlines("****");
    assert_eq!(v.len(), 3);
    assert!(matches!(&v[2], Inline::Emphasis(c) if c.is_empty()));
}

#[test]
fn link_title_with_single_quotes() {
    let v = parse_inlines("[t](u 'T')");
    match &v[0] {
        Inline::Link { url, title, .. } => {
            assert_eq!(url, "u");
            assert_eq!(title.as_deref(), Some("T"));
        },
        other => panic!("unexpected {:?}", other),
    }
}

#[test]
fn email_autolink() {
    let v = parse_inlines("<me@example.com>");
    assert_eq!(v.len(), 1);
    match &v[0] {
        Inline::RawHtml(h) => assert_eq!(h, "<me@example.com>"),
        other => panic!("unexpected {:?}", other),
    }
}

#[test]
fn url_autolink_is_raw_html() {
    let v = parse_inlines("<https://example.com>");
    assert_eq!(v.len(), 1);
    match &v[0] {
        Inline::RawHtml(h) => assert_eq!(h, "<https://example.com>"),
        other => panic!("unexpected {:?}", other),
    }
}

#[test]
fn unmatched_underscore_keeps_text() {
    let v = parse_inlines("a _b");
    assert_eq!(v.len(), 1);
    match &v[0] {
        Inline::Text(t) => assert_eq!(t, "a _b"),
        other => panic!("unexpected {:?}", other),
    }
}

#[test]
fn clone_copies_trees() {
    let blocks = parse_blocks("# *a*\n\n- [x] b\n\n| h |\n|:-:|\n| c |");
    let copy = blocks.clone();
    assert_eq!(format!("{:?}", blocks), format!("{:?}", copy));
    let inl = parse_inlines("[t](u \"v\") **w**");
    assert_eq!(format!("{:?}", inl.clone()), format!("{:?}", inl));
}

#[test]
fn escaping_functions() {
    assert_eq!(escape_html("a<b>&\"c\""), "a&lt;b&gt;&amp;&quot;c&quot;");
    assert_eq!(escape_attr("a<b>&\"c\""), "a<b>&amp;&quot;c&quot;");
}

#[test]
fn slugs() {
    assert_eq!(slugify("Hello World!"), "hello-world");
    assert_eq!(slugify("ABC-def 1"), "abc-def-1");
    assert_eq!(slugify("a!b"), "ab");
    assert_eq!(slugify("ÄÖ Straße"), "äö-straße");
    assert_eq!(slug_of_lowercase(&"Ab c!".to_string()), "Ab-c");
}

#[test]
fn heading_levels_in_range() {
    let blocks = parse_blocks("# a\n## b\n###### c\ntext\n===\n> # d\n- ## e");
    fn check(bs: &[Block]) {
        for b in bs {
            match b {
                Block::Heading { level, .. } => assert!((1..=6).contains(level)),
                Block::BlockQuote(c) => check(c),
                Block::List { items, .. } => {
                    for it in items {
                        check(&it.children)
                    }
                },
                _ => {},
            }
        }
    }
    check(&blocks);
    assert!(matches!(&blocks[0], Block::Heading { level: 1, .. }));
    assert!(matches!(&blocks[3], Block::Heading { level: 1, .. }));
}

#[test]
fn table_structure() {
    let blocks = parse_blocks("| a | b |\n| :-: | --- |\n| 1 | 2 |\n| 3 | 4 |");
    match &blocks[0] {
        Block::Table { headers, alignments, rows } => {
            assert_eq!(headers.len(), 2);
            assert_eq!(alignments, &vec![Alignment::Center, Alignment::Unaligned]);
            assert_eq!(rows.len(), 2);
        },
        other => panic!("unexpected {:?}", other),
    }
}

#[test]
fn list_tightness() {
    let tight = parse_blocks("- a\n- b");
    let loose = parse_blocks("- a\n\n- b");
    assert!(matches!(&tight[0], Block::List { tight: true, .. }));
    assert!(matches!(&loose[0], Block::List { tight: false, .. }));
    let ordered = parse_blocks("3) x");
    assert!(matches!(&ordered[0], Block::List { ordered: true, start: 3, .. }));
}

#[test]
fn webmd_render_uses_extensions_and_commonmark() {
    let md = WebMD::new();
    assert_eq!(md.render("# Hello"), "<h1>Hello</h1>\n");
    assert_eq!(md.render("**bold**"), "<p><strong>bold</strong></p>\n");
    let font = md.render("#font[Georgia](x)");
    assert!(font.contains("<span style=\"font-family: 'Georgia'\">x</span>"), "{}", font);
    let grad = md.render("#grad[red, blue](x)");
    assert!(grad.contains("linear-gradient(to right, red, blue)"), "{}", grad);
    assert!(grad.contains("background-clip: text;\">x</span>"), "{}", grad);
    let nested = md.render("#font[Georgia](#grad[gold, crimson](Styled and coloured))");
    assert!(
        nested.contains("<span style=\"font-family: 'Georgia'\"><span style=\"background: linear-gradient(to right, gold, crimson);"),
        "{}",
        nested
    );
    assert!(nested.contains("Styled and coloured</span></span>"), "{}", nested);
    let inner_font = md.render("#grad[red, blue](#font[Georgia](x))");
    assert!(
        inner_font.contains("background-clip: text;\"><span style=\"font-family: 'Georgia'\">x</span></span>"),
        "{}",
        inner_font
    );
    let unbalanced = md.render("#font[X](a (b)");
    assert!(unbalanced.contains("<span style=\"font-family: 'X'\">a (b</span>"), "{}", unbalanced);
    let rgb = md.render("#grad[rgb(255, 0, 0), blue](x)");
    assert!(rgb.contains("linear-gradient(to right, rgb(255, 0, 0), blue)"), "{}", rgb);
    assert!(md.render("~~gone~~").contains("<del>gone</del>"));
    assert!(md.render("| a |\n|---|\n| 1 |").contains("<table>"));
}

#[test]
fn url_and_title_split() {
    let c: Vec<char> = "  https://example.com \"My title\" ".chars().collect();
    assert_eq!(split_url_title(&c), ("https://example.com".to_string(), Some("My title".to_string())));
    let c: Vec<char> = "u 'T'".chars().collect();
    assert_eq!(split_url_title(&c), ("u".to_string(), Some("T".to_string())));
    let c: Vec<char> = " image.png ".chars().collect();
    assert_eq!(split_url_title(&c), ("image.png".to_string(), None));
}

#[test]
fn thematic_break_lines() {
    for (line, expected) in [("---", true), ("* * *", true), ("   ___", true), ("--", false), ("-*-", false), ("    ---", false)] {
        let v: Vec<char> = line.chars().collect();
        assert_eq!(is_thematic_break(&v), expected, "{}", line);
    }
}

#[test]
fn render_block_appends() {
    let mut out = String::from("x");
    render_block(&Block::ThematicBreak, &mut out);
    assert_eq!(out, "x<hr />\n");
    let mut out = String::new();
    render_block(&Block::CodeBlock { lang: None, code: "a<b".to_string() }, &mut out);
    assert_eq!(out, "<pre><code>a&lt;b</code></pre>\n");
}

#[test]
fn text_nodes_are_never_empty() {
    fn check(v: &[Inline]) {
        for n in v {
            match n {
                Inline::Text(t) => assert!(!t.is_empty()),
                Inline::Emphasis(c) | Inline::Strong(c) | Inline::StrongEmphasis(c) | Inline::Strikethrough(c) => check(c),
                Inline::Link { children, .. } | Inline::Gradient { children, .. } | Inline::Font { children, .. } => check(children),
                _ => {},
            }
        }
    }
    for src in ["**a**b  \nc", "*x* _y_ ~~~~", "[](u) **** `` ``", "a\\\n#grad[r, b]()"] {
        check(&parse_inlines(src));
    }
}

#[test]
fn escape_reads_back() {
    let e = escape_html("<a href=\"x\">&amp;</a>");
    assert_eq!(e, "&lt;a href=&quot;x&quot;&gt;&amp;amp;&lt;/a&gt;");
    let back = e.replace("&lt;", "<").replace("&gt;", ">").replace("&quot;", "\"").replace("&amp;", "&");
    assert_eq!(back, "<a href=\"x\">&amp;</a>");
}
