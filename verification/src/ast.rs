//! The document tree, and its mathematical model.

use vstd::prelude::*;

verus! {

/// Block-level elements of the document tree.
#[derive(Debug)]
pub enum Block {
    /// ATX heading; setext headings are converted to this during parsing.
    Heading { level: u8, children: Vec<Inline> },
    /// A paragraph of inline content.
    Paragraph(Vec<Inline>),
    /// A block quote: `> ...`
    BlockQuote(Vec<Block>),
    /// Ordered (`1.`) or unordered (`-`, `*`, `+`) list.
    List { ordered: bool, start: u32, tight: bool, items: Vec<ListItem> },
    /// Fenced or indented code block.
    CodeBlock { lang: Option<String>, code: String },
    /// `---`, `***`, `___`
    ThematicBreak,
    /// Raw HTML passthrough block.
    HtmlBlock(String),
    /// GitHub-Flavored Markdown pipe table.
    Table { headers: Vec<Vec<Inline>>, alignments: Vec<Alignment>, rows: Vec<Vec<Vec<Inline>>> },
}

/// A single list item.
#[derive(Debug)]
pub struct ListItem {
    /// Task-list checkbox: `Some(true)` = `[x]`, `Some(false)` = `[ ]`.
    pub checked: Option<bool>,
    pub children: Vec<Block>,
}

/// Column alignment in a GFM table.
#[derive(Debug, Clone, Copy, PartialEq, Eq, Structural)]
pub enum Alignment {
    Unaligned,
    Left,
    Center,
    Right,
}

/// Inline elements that appear inside blocks.
#[derive(Debug)]
pub enum Inline {
    Text(String),
    SoftBreak,
    HardBreak,
    Code(String),
    Emphasis(Vec<Inline>),
    Strong(Vec<Inline>),
    StrongEmphasis(Vec<Inline>),
    Strikethrough(Vec<Inline>),
    Link { children: Vec<Inline>, url: String, title: Option<String> },
    Image { alt: String, src: String, title: Option<String> },
    RawHtml(String),
    Gradient { from: String, to: String, children: Vec<Inline> },
    Font { family: String, children: Vec<Inline> },
}

/// The mathematical model of an [`Inline`]: text as sequences of characters.
pub enum InlineV {
    Text(Seq<char>),
    SoftBreak,
    HardBreak,
    Code(Seq<char>),
    Emphasis(Seq<InlineV>),
    Strong(Seq<InlineV>),
    StrongEmphasis(Seq<InlineV>),
    Strikethrough(Seq<InlineV>),
    Link { children: Seq<InlineV>, url: Seq<char>, title: Option<Seq<char>> },
    Image { alt: Seq<char>, src: Seq<char>, title: Option<Seq<char>> },
    RawHtml(Seq<char>),
    Gradient { from: Seq<char>, to: Seq<char>, children: Seq<InlineV> },
    Font { family: Seq<char>, children: Seq<InlineV> },
}

pub open spec fn opt_str_view(o: Option<String>) -> Option<Seq<char>> {
    match o {
        Some(s) => Some(s@),
        None => None,
    }
}

pub open spec fn inline_view(i: Inline) -> InlineV
    decreases i,
{
    match i {
        Inline::Text(s) => InlineV::Text(s@),
        Inline::SoftBreak => InlineV::SoftBreak,
        Inline::HardBreak => InlineV::HardBreak,
        Inline::Code(s) => InlineV::Code(s@),
        Inline::Emphasis(c) => InlineV::Emphasis(inlines_view(c@)),
        Inline::Strong(c) => InlineV::Strong(inlines_view(c@)),
        Inline::StrongEmphasis(c) => InlineV::StrongEmphasis(inlines_view(c@)),
        Inline::Strikethrough(c) => InlineV::Strikethrough(inlines_view(c@)),
        Inline::Link { children, url, title } => InlineV::Link {
            children: inlines_view(children@),
            url: url@,
            title: opt_str_view(title),
        },
        Inline::Image { alt, src, title } => InlineV::Image {
            alt: alt@,
            src: src@,
            title: opt_str_view(title),
        },
        Inline::RawHtml(s) => InlineV::RawHtml(s@),
        Inline::Gradient { from, to, children } => InlineV::Gradient {
            from: from@,
            to: to@,
            children: inlines_view(children@),
        },
        Inline::Font { family, children } => InlineV::Font {
            family: family@,
            children: inlines_view(children@),
        },
    }
}

pub open spec fn inlines_view(s: Seq<Inline>) -> Seq<InlineV>
    decreases s,
{
    if s.len() == 0 {
        Seq::empty()
    } else {
        inlines_view(s.drop_last()).push(inline_view(s.last()))
    }
}

pub proof fn lemma_inlines_view_push(s: Seq<Inline>, x: Inline)
    ensures
        inlines_view(s.push(x)) == inlines_view(s).push(inline_view(x)),
{
    assert(s.push(x).drop_last() =~= s);
}

pub proof fn lemma_inlines_view_len(s: Seq<Inline>)
    ensures
        inlines_view(s).len() == s.len(),
        forall|i: int| 0 <= i < s.len() ==> #[trigger] inlines_view(s)[i] == inline_view(s[i]),
    decreases s.len(),
{
    if s.len() > 0 {
        lemma_inlines_view_len(s.drop_last());
        assert forall|i: int| 0 <= i < s.len() implies #[trigger] inlines_view(s)[i] == inline_view(
            s[i],
        ) by {
            if i < s.len() - 1 {
                assert(s.drop_last()[i] == s[i]);
            }
        }
    }
}

/// The model of an optional inline node.
pub open spec fn opt_inline_view(o: Option<Inline>) -> Option<InlineV> {
    match o {
        Some(i) => Some(inline_view(i)),
        None => None,
    }
}

/// The mathematical model of a [`Block`].
pub enum BlockV {
    Heading { level: u8, children: Seq<InlineV> },
    Paragraph(Seq<InlineV>),
    BlockQuote(Seq<BlockV>),
    List { ordered: bool, start: u32, tight: bool, items: Seq<ListItemV> },
    CodeBlock { lang: Option<Seq<char>>, code: Seq<char> },
    ThematicBreak,
    HtmlBlock(Seq<char>),
    Table {
        headers: Seq<Seq<InlineV>>,
        alignments: Seq<Alignment>,
        rows: Seq<Seq<Seq<InlineV>>>,
    },
}

/// The mathematical model of a [`ListItem`].
pub struct ListItemV {
    pub checked: Option<bool>,
    pub children: Seq<BlockV>,
}

/// The models of a row of table cells.
pub open spec fn cells_view(s: Seq<Vec<Inline>>) -> Seq<Seq<InlineV>>
    decreases s.len(),
{
    if s.len() == 0 {
        Seq::empty()
    } else {
        cells_view(s.drop_last()).push(inlines_view(s.last()@))
    }
}

/// The models of table rows.
pub open spec fn rows_view(s: Seq<Vec<Vec<Inline>>>) -> Seq<Seq<Seq<InlineV>>>
    decreases s.len(),
{
    if s.len() == 0 {
        Seq::empty()
    } else {
        rows_view(s.drop_last()).push(cells_view(s.last()@))
    }
}

pub open spec fn block_view(b: Block) -> BlockV
    decreases b,
{
    match b {
        Block::Heading { level, children } => BlockV::Heading {
            level,
            children: inlines_view(children@),
        },
        Block::Paragraph(c) => BlockV::Paragraph(inlines_view(c@)),
        Block::BlockQuote(c) => BlockV::BlockQuote(blocks_view(c@)),
        Block::List { ordered, start, tight, items } => BlockV::List {
            ordered,
            start,
            tight,
            items: items_view(items@),
        },
        Block::CodeBlock { lang, code } => BlockV::CodeBlock { lang: opt_str_view(lang), code: code@ },
        Block::ThematicBreak => BlockV::ThematicBreak,
        Block::HtmlBlock(h) => BlockV::HtmlBlock(h@),
        Block::Table { headers, alignments, rows } => BlockV::Table {
            headers: cells_view(headers@),
            alignments: alignments@,
            rows: rows_view(rows@),
        },
    }
}

pub open spec fn blocks_view(s: Seq<Block>) -> Seq<BlockV>
    decreases s,
{
    if s.len() == 0 {
        Seq::empty()
    } else {
        blocks_view(s.drop_last()).push(block_view(s.last()))
    }
}

pub open spec fn item_view(i: ListItem) -> ListItemV
    decreases i,
{
    ListItemV { checked: i.checked, children: blocks_view(i.children@) }
}

pub open spec fn items_view(s: Seq<ListItem>) -> Seq<ListItemV>
    decreases s,
{
    if s.len() == 0 {
        Seq::empty()
    } else {
        items_view(s.drop_last()).push(item_view(s.last()))
    }
}

pub proof fn lemma_blocks_view_push(s: Seq<Block>, x: Block)
    ensures
        blocks_view(s.push(x)) == blocks_view(s).push(block_view(x)),
{
    assert(s.push(x).drop_last() =~= s);
}

pub proof fn lemma_items_view_push(s: Seq<ListItem>, x: ListItem)
    ensures
        items_view(s.push(x)) == items_view(s).push(item_view(x)),
{
    assert(s.push(x).drop_last() =~= s);
}

pub proof fn lemma_cells_view_push(s: Seq<Vec<Inline>>, x: Vec<Inline>)
    ensures
        cells_view(s.push(x)) == cells_view(s).push(inlines_view(x@)),
{
    assert(s.push(x).drop_last() =~= s);
}

pub proof fn lemma_rows_view_push(s: Seq<Vec<Vec<Inline>>>, x: Vec<Vec<Inline>>)
    ensures
        rows_view(s.push(x)) == rows_view(s).push(cells_view(x@)),
{
    assert(s.push(x).drop_last() =~= s);
}

pub proof fn lemma_blocks_view_len(s: Seq<Block>)
    ensures
        blocks_view(s).len() == s.len(),
        forall|i: int| 0 <= i < s.len() ==> #[trigger] blocks_view(s)[i] == block_view(s[i]),
    decreases s.len(),
{
    if s.len() > 0 {
        lemma_blocks_view_len(s.drop_last());
        assert forall|i: int| 0 <= i < s.len() implies #[trigger] blocks_view(s)[i] == block_view(
            s[i],
        ) by {
            if i < s.len() - 1 {
                assert(s.drop_last()[i] == s[i]);
            }
        }
    }
}

pub proof fn lemma_items_view_len(s: Seq<ListItem>)
    ensures
        items_view(s).len() == s.len(),
        forall|i: int| 0 <= i < s.len() ==> #[trigger] items_view(s)[i] == item_view(s[i]),
    decreases s.len(),
{
    if s.len() > 0 {
        lemma_items_view_len(s.drop_last());
        assert forall|i: int| 0 <= i < s.len() implies #[trigger] items_view(s)[i] == item_view(
            s[i],
        ) by {
            if i < s.len() - 1 {
                assert(s.drop_last()[i] == s[i]);
            }
        }
    }
}

pub proof fn lemma_cells_view_len(s: Seq<Vec<Inline>>)
    ensures
        cells_view(s).len() == s.len(),
        forall|i: int| 0 <= i < s.len() ==> #[trigger] cells_view(s)[i] == inlines_view(s[i]@),
    decreases s.len(),
{
    if s.len() > 0 {
        lemma_cells_view_len(s.drop_last());
        assert forall|i: int| 0 <= i < s.len() implies #[trigger] cells_view(s)[i] == inlines_view(
            s[i]@,
        ) by {
            if i < s.len() - 1 {
                assert(s.drop_last()[i] == s[i]);
            }
        }
    }
}

pub proof fn lemma_rows_view_len(s: Seq<Vec<Vec<Inline>>>)
    ensures
        rows_view(s).len() == s.len(),
        forall|i: int| 0 <= i < s.len() ==> #[trigger] rows_view(s)[i] == cells_view(s[i]@),
    decreases s.len(),
{
    if s.len() > 0 {
        lemma_rows_view_len(s.drop_last());
        assert forall|i: int| 0 <= i < s.len() implies #[trigger] rows_view(s)[i] == cells_view(
            s[i]@,
        ) by {
            if i < s.len() - 1 {
                assert(s.drop_last()[i] == s[i]);
            }
        }
    }
}

pub proof fn lemma_inlines_view_take(s: Seq<Inline>, i: int)
    requires
        0 <= i < s.len(),
    ensures
        inlines_view(s.take(i + 1)) == inlines_view(s.take(i)).push(inline_view(s[i])),
{
    assert(s.take(i + 1).drop_last() =~= s.take(i));
}

pub proof fn lemma_blocks_view_take(s: Seq<Block>, i: int)
    requires
        0 <= i < s.len(),
    ensures
        blocks_view(s.take(i + 1)) == blocks_view(s.take(i)).push(block_view(s[i])),
{
    assert(s.take(i + 1).drop_last() =~= s.take(i));
}

pub proof fn lemma_items_view_take(s: Seq<ListItem>, i: int)
    requires
        0 <= i < s.len(),
    ensures
        items_view(s.take(i + 1)) == items_view(s.take(i)).push(item_view(s[i])),
{
    assert(s.take(i + 1).drop_last() =~= s.take(i));
}

pub proof fn lemma_cells_view_take(s: Seq<Vec<Inline>>, i: int)
    requires
        0 <= i < s.len(),
    ensures
        cells_view(s.take(i + 1)) == cells_view(s.take(i)).push(inlines_view(s[i]@)),
{
    assert(s.take(i + 1).drop_last() =~= s.take(i));
}

pub proof fn lemma_rows_view_take(s: Seq<Vec<Vec<Inline>>>, i: int)
    requires
        0 <= i < s.len(),
    ensures
        rows_view(s.take(i + 1)) == rows_view(s.take(i)).push(cells_view(s[i]@)),
{
    assert(s.take(i + 1).drop_last() =~= s.take(i));
}

// ── Copies ───────────────────────────────────────────────────────────────────

fn copy_opt_string(o: &Option<String>) -> (r: Option<String>)
    ensures
        opt_str_view(r) == opt_str_view(*o),
{
    match o {
        Some(t) => Some(t.clone()),
        None => None,
    }
}

fn copy_inline(x: &Inline) -> (r: Inline)
    ensures
        inline_view(r) == inline_view(*x),
    decreases *x, 1nat,
{
    match x {
        Inline::Text(t) => Inline::Text(t.clone()),
        Inline::SoftBreak => Inline::SoftBreak,
        Inline::HardBreak => Inline::HardBreak,
        Inline::Code(t) => Inline::Code(t.clone()),
        Inline::Emphasis(c) => Inline::Emphasis(copy_inlines(c)),
        Inline::Strong(c) => Inline::Strong(copy_inlines(c)),
        Inline::StrongEmphasis(c) => Inline::StrongEmphasis(copy_inlines(c)),
        Inline::Strikethrough(c) => Inline::Strikethrough(copy_inlines(c)),
        Inline::Link { children, url, title } => Inline::Link {
            children: copy_inlines(children),
            url: url.clone(),
            title: copy_opt_string(title),
        },
        Inline::Image { alt, src, title } => Inline::Image {
            alt: alt.clone(),
            src: src.clone(),
            title: copy_opt_string(title),
        },
        Inline::RawHtml(t) => Inline::RawHtml(t.clone()),
        Inline::Gradient { from, to, children } => Inline::Gradient {
            from: from.clone(),
            to: to.clone(),
            children: copy_inlines(children),
        },
        Inline::Font { family, children } => Inline::Font {
            family: family.clone(),
            children: copy_inlines(children),
        },
    }
}

fn copy_inlines(v: &Vec<Inline>) -> (r: Vec<Inline>)
    ensures
        inlines_view(r@) == inlines_view(v@),
    decreases *v, 0nat,
{
    let mut r: Vec<Inline> = Vec::new();
    let mut i: usize = 0;
    assert(v@.take(0) =~= Seq::<Inline>::empty());
    while i < v.len()
        invariant
            i <= v@.len(),
            inlines_view(r@) == inlines_view(v@.take(i as int)),
        decreases v.len() - i,
    {
        proof {
            lemma_inlines_view_take(v@, i as int);
            lemma_inlines_view_push(r@, v@[i as int]);
            assert(decreases_to!(*v => v@[i as int]));
        }
        let c = copy_inline(&v[i]);
        proof {
            lemma_inlines_view_push(r@, c);
        }
        r.push(c);
        i += 1;
    }
    assert(v@.take(v@.len() as int) =~= v@);
    r
}

impl Clone for Inline {
    fn clone(&self) -> (r: Self)
        ensures
            inline_view(r) == inline_view(*self),
    {
        copy_inline(self)
    }
}

fn copy_cells(v: &Vec<Vec<Inline>>) -> (r: Vec<Vec<Inline>>)
    ensures
        cells_view(r@) == cells_view(v@),
{
    let mut r: Vec<Vec<Inline>> = Vec::new();
    let mut i: usize = 0;
    assert(v@.take(0) =~= Seq::<Vec<Inline>>::empty());
    while i < v.len()
        invariant
            i <= v@.len(),
            cells_view(r@) == cells_view(v@.take(i as int)),
        decreases v.len() - i,
    {
        proof {
            lemma_cells_view_take(v@, i as int);
        }
        let c = copy_inlines(&v[i]);
        proof {
            lemma_cells_view_push(r@, c);
        }
        r.push(c);
        i += 1;
    }
    assert(v@.take(v@.len() as int) =~= v@);
    r
}

fn copy_rows(v: &Vec<Vec<Vec<Inline>>>) -> (r: Vec<Vec<Vec<Inline>>>)
    ensures
        rows_view(r@) == rows_view(v@),
{
    let mut r: Vec<Vec<Vec<Inline>>> = Vec::new();
    let mut i: usize = 0;
    assert(v@.take(0) =~= Seq::<Vec<Vec<Inline>>>::empty());
    while i < v.len()
        invariant
            i <= v@.len(),
            rows_view(r@) == rows_view(v@.take(i as int)),
        decreases v.len() - i,
    {
        proof {
            lemma_rows_view_take(v@, i as int);
        }
        let c = copy_cells(&v[i]);
        proof {
            lemma_rows_view_push(r@, c);
        }
        r.push(c);
        i += 1;
    }
    assert(v@.take(v@.len() as int) =~= v@);
    r
}

fn copy_alignments(v: &Vec<Alignment>) -> (r: Vec<Alignment>)
    ensures
        r@ == v@,
{
    let mut r: Vec<Alignment> = Vec::new();
    let mut i: usize = 0;
    while i < v.len()
        invariant
            i <= v@.len(),
            r@ == v@.take(i as int),
        decreases v.len() - i,
    {
        r.push(v[i]);
        i += 1;
        assert(r@ =~= v@.take(i as int));
    }
    assert(v@.take(v@.len() as int) =~= v@);
    r
}

fn copy_block(x: &Block) -> (r: Block)
    ensures
        block_view(r) == block_view(*x),
    decreases *x, 3nat,
{
    match x {
        Block::Heading { level, children } => Block::Heading {
            level: *level,
            children: copy_inlines(children),
        },
        Block::Paragraph(c) => Block::Paragraph(copy_inlines(c)),
        Block::BlockQuote(c) => Block::BlockQuote(copy_blocks(c)),
        Block::List { ordered, start, tight, items } => Block::List {
            ordered: *ordered,
            start: *start,
            tight: *tight,
            items: copy_items(items),
        },
        Block::CodeBlock { lang, code } => Block::CodeBlock {
            lang: copy_opt_string(lang),
            code: code.clone(),
        },
        Block::ThematicBreak => Block::ThematicBreak,
        Block::HtmlBlock(h) => Block::HtmlBlock(h.clone()),
        Block::Table { headers, alignments, rows } => Block::Table {
            headers: copy_cells(headers),
            alignments: copy_alignments(alignments),
            rows: copy_rows(rows),
        },
    }
}

fn copy_blocks(v: &Vec<Block>) -> (r: Vec<Block>)
    ensures
        blocks_view(r@) == blocks_view(v@),
    decreases *v, 2nat,
{
    let mut r: Vec<Block> = Vec::new();
    let mut i: usize = 0;
    assert(v@.take(0) =~= Seq::<Block>::empty());
    while i < v.len()
        invariant
            i <= v@.len(),
            blocks_view(r@) == blocks_view(v@.take(i as int)),
        decreases v.len() - i,
    {
        proof {
            lemma_blocks_view_take(v@, i as int);
            assert(decreases_to!(*v => v@[i as int]));
        }
        let c = copy_block(&v[i]);
        proof {
            lemma_blocks_view_push(r@, c);
        }
        r.push(c);
        i += 1;
    }
    assert(v@.take(v@.len() as int) =~= v@);
    r
}

fn copy_item(x: &ListItem) -> (r: ListItem)
    ensures
        item_view(r) == item_view(*x),
    decreases *x, 1nat,
{
    ListItem { checked: x.checked, children: copy_blocks(&x.children) }
}

fn copy_items(v: &Vec<ListItem>) -> (r: Vec<ListItem>)
    ensures
        items_view(r@) == items_view(v@),
    decreases *v, 0nat,
{
    let mut r: Vec<ListItem> = Vec::new();
    let mut i: usize = 0;
    assert(v@.take(0) =~= Seq::<ListItem>::empty());
    while i < v.len()
        invariant
            i <= v@.len(),
            items_view(r@) == items_view(v@.take(i as int)),
        decreases v.len() - i,
    {
        proof {
            lemma_items_view_take(v@, i as int);
            assert(decreases_to!(*v => v@[i as int]));
        }
        let c = copy_item(&v[i]);
        proof {
            lemma_items_view_push(r@, c);
        }
        r.push(c);
        i += 1;
    }
    assert(v@.take(v@.len() as int) =~= v@);
    r
}

impl Clone for Block {
    fn clone(&self) -> (r: Self)
        ensures
            block_view(r) == block_view(*self),
    {
        copy_block(self)
    }
}

impl Clone for ListItem {
    fn clone(&self) -> (r: Self)
        ensures
            item_view(r) == item_view(*self),
    {
        copy_item(self)
    }
}

} // verus!
