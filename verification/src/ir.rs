use vstd::prelude::*;
use crate::document::DocumentLinkType;

verus! {

/// Where a link points: nowhere, a direct URL, a file path, or an addressable
/// element of the document looked up by kind and text during emission.
#[derive(Debug, PartialEq)]
pub enum LinkType {
    NoTarget,
    Href(String),
    File(String),
    DocumentLink(DocumentLinkType, String),
}

/// Inline-level intermediate representation.
#[derive(Debug, PartialEq)]
pub enum Inline {
    Space,
    Str(String),
    Emph(Vec<Inline>),
    Strong(Vec<Inline>),
    Underline(Vec<Inline>),
    Strikeout(Vec<Inline>),
    Subscript(Vec<Inline>),
    Superscript(Vec<Inline>),
    Code(String),
    Math(String),
    Link(Vec<Inline>, LinkType),
    Anchor(Vec<Inline>, String),
    Image(String),
}

/// One table cell: a sequence of blocks.
#[derive(Debug, PartialEq)]
pub struct Cell {
    pub blocks: Vec<Block>,
}

/// One list entry: a sequence of blocks.
#[derive(Debug, PartialEq)]
pub struct ListEntry {
    pub blocks: Vec<Block>,
}

/// Block-level intermediate representation. `Null` is the placeholder for a
/// malformed or empty container.
#[derive(Debug, PartialEq)]
pub enum Block {
    Null,
    Plain(Vec<Inline>),
    Paragraph(Vec<Vec<Inline>>),
    Header(i32, String, Vec<Inline>),
    BlockQuote(Vec<Block>),
    MathBlock(String),
    CodeBlock(Option<String>, String),
    Table(usize, Vec<Cell>, Vec<Vec<Cell>>),
    BulletList(Vec<ListEntry>),
    OrderedList(Vec<ListEntry>),
    DefinitionList(Vec<(Vec<Inline>, Vec<Block>)>),
}

// ---------------------------------------------------------------------------
// Mathematical views of the representation, used by the contracts.
// ---------------------------------------------------------------------------

pub enum LinkTargetV {
    NoTargetV,
    HrefV(Seq<char>),
    FileV(Seq<char>),
    DocLinkV(DocumentLinkType, Seq<char>),
}

pub enum InlineV {
    SpaceV,
    StrV(Seq<char>),
    EmphV(Seq<InlineV>),
    StrongV(Seq<InlineV>),
    UnderlineV(Seq<InlineV>),
    StrikeoutV(Seq<InlineV>),
    SubscriptV(Seq<InlineV>),
    SuperscriptV(Seq<InlineV>),
    CodeV(Seq<char>),
    MathV(Seq<char>),
    LinkV(Seq<InlineV>, LinkTargetV),
    AnchorV(Seq<InlineV>, Seq<char>),
    ImageV(Seq<char>),
}

pub enum BlockV {
    NullV,
    PlainV(Seq<InlineV>),
    ParagraphV(Seq<Seq<InlineV>>),
    HeaderV(int, Seq<char>, Seq<InlineV>),
    BlockQuoteV(Seq<BlockV>),
    MathBlockV(Seq<char>),
    CodeBlockV(Option<Seq<char>>, Seq<char>),
    TableV(int, Seq<Seq<BlockV>>, Seq<Seq<Seq<BlockV>>>),
    BulletListV(Seq<Seq<BlockV>>),
    OrderedListV(Seq<Seq<BlockV>>),
    DefinitionListV(Seq<(Seq<InlineV>, Seq<BlockV>)>),
}

pub open spec fn link_v(t: LinkType) -> LinkTargetV {
    match t {
        LinkType::NoTarget => LinkTargetV::NoTargetV,
        LinkType::Href(u) => LinkTargetV::HrefV(u@),
        LinkType::File(u) => LinkTargetV::FileV(u@),
        LinkType::DocumentLink(ty, text) => LinkTargetV::DocLinkV(ty, text@),
    }
}

pub open spec fn inline_v(i: Inline) -> InlineV
    decreases i,
{
    match i {
        Inline::Space => InlineV::SpaceV,
        Inline::Str(s) => InlineV::StrV(s@),
        Inline::Emph(v) => InlineV::EmphV(inlines_v(v@)),
        Inline::Strong(v) => InlineV::StrongV(inlines_v(v@)),
        Inline::Underline(v) => InlineV::UnderlineV(inlines_v(v@)),
        Inline::Strikeout(v) => InlineV::StrikeoutV(inlines_v(v@)),
        Inline::Subscript(v) => InlineV::SubscriptV(inlines_v(v@)),
        Inline::Superscript(v) => InlineV::SuperscriptV(inlines_v(v@)),
        Inline::Code(s) => InlineV::CodeV(s@),
        Inline::Math(s) => InlineV::MathV(s@),
        Inline::Link(v, t) => InlineV::LinkV(inlines_v(v@), link_v(t)),
        Inline::Anchor(v, n) => InlineV::AnchorV(inlines_v(v@), n@),
        Inline::Image(u) => InlineV::ImageV(u@),
    }
}

pub open spec fn inlines_v(s: Seq<Inline>) -> Seq<InlineV>
    decreases s,
{
    if s.len() == 0 {
        Seq::empty()
    } else {
        seq![inline_v(s[0])] + inlines_v(s.drop_first())
    }
}

pub open spec fn segs_v(s: Seq<Vec<Inline>>) -> Seq<Seq<InlineV>>
    decreases s,
{
    if s.len() == 0 {
        Seq::empty()
    } else {
        seq![inlines_v(s[0]@)] + segs_v(s.drop_first())
    }
}

pub open spec fn block_v(b: Block) -> BlockV
    decreases b,
{
    match b {
        Block::Null => BlockV::NullV,
        Block::Plain(v) => BlockV::PlainV(inlines_v(v@)),
        Block::Paragraph(vv) => BlockV::ParagraphV(segs_v(vv@)),
        Block::Header(l, id, v) => BlockV::HeaderV(l as int, id@, inlines_v(v@)),
        Block::BlockQuote(bs) => BlockV::BlockQuoteV(blocks_v(bs@)),
        Block::MathBlock(s) => BlockV::MathBlockV(s@),
        Block::CodeBlock(l, s) => BlockV::CodeBlockV(
            match l {
                Some(x) => Some(x@),
                None => None,
            },
            s@,
        ),
        Block::Table(n, head, rows) => BlockV::TableV(n as int, cells_v(head@), rows_v(rows@)),
        Block::BulletList(es) => BlockV::BulletListV(entries_v(es@)),
        Block::OrderedList(es) => BlockV::OrderedListV(entries_v(es@)),
        Block::DefinitionList(ds) => BlockV::DefinitionListV(defs_v(ds@)),
    }
}

pub open spec fn blocks_v(s: Seq<Block>) -> Seq<BlockV>
    decreases s,
{
    if s.len() == 0 {
        Seq::empty()
    } else {
        seq![block_v(s[0])] + blocks_v(s.drop_first())
    }
}

pub open spec fn cells_v(s: Seq<Cell>) -> Seq<Seq<BlockV>>
    decreases s,
{
    if s.len() == 0 {
        Seq::empty()
    } else {
        seq![blocks_v(s[0].blocks@)] + cells_v(s.drop_first())
    }
}

pub open spec fn rows_v(s: Seq<Vec<Cell>>) -> Seq<Seq<Seq<BlockV>>>
    decreases s,
{
    if s.len() == 0 {
        Seq::empty()
    } else {
        seq![cells_v(s[0]@)] + rows_v(s.drop_first())
    }
}

pub open spec fn entries_v(s: Seq<ListEntry>) -> Seq<Seq<BlockV>>
    decreases s,
{
    if s.len() == 0 {
        Seq::empty()
    } else {
        seq![blocks_v(s[0].blocks@)] + entries_v(s.drop_first())
    }
}

pub open spec fn defs_v(s: Seq<(Vec<Inline>, Vec<Block>)>) -> Seq<(Seq<InlineV>, Seq<BlockV>)>
    decreases s,
{
    if s.len() == 0 {
        Seq::empty()
    } else {
        seq![(inlines_v(s[0].0@), blocks_v(s[0].1@))] + defs_v(s.drop_first())
    }
}

pub proof fn lemma_inlines_v(s: Seq<Inline>)
    ensures
        inlines_v(s).len() == s.len(),
        forall|i: int| 0 <= i < s.len() ==> #[trigger] inlines_v(s)[i] == inline_v(s[i]),
    decreases s.len(),
{
    if s.len() > 0 {
        lemma_inlines_v(s.drop_first());
    }
}

pub proof fn lemma_segs_v(s: Seq<Vec<Inline>>)
    ensures
        segs_v(s).len() == s.len(),
        forall|i: int| 0 <= i < s.len() ==> #[trigger] segs_v(s)[i] == inlines_v(s[i]@),
    decreases s.len(),
{
    if s.len() > 0 {
        lemma_segs_v(s.drop_first());
    }
}

pub proof fn lemma_blocks_v(s: Seq<Block>)
    ensures
        blocks_v(s).len() == s.len(),
        forall|i: int| 0 <= i < s.len() ==> #[trigger] blocks_v(s)[i] == block_v(s[i]),
    decreases s.len(),
{
    if s.len() > 0 {
        lemma_blocks_v(s.drop_first());
    }
}

pub proof fn lemma_cells_v(s: Seq<Cell>)
    ensures
        cells_v(s).len() == s.len(),
        forall|i: int| 0 <= i < s.len() ==> #[trigger] cells_v(s)[i] == blocks_v(s[i].blocks@),
    decreases s.len(),
{
    if s.len() > 0 {
        lemma_cells_v(s.drop_first());
    }
}

pub proof fn lemma_rows_v(s: Seq<Vec<Cell>>)
    ensures
        rows_v(s).len() == s.len(),
        forall|i: int| 0 <= i < s.len() ==> #[trigger] rows_v(s)[i] == cells_v(s[i]@),
    decreases s.len(),
{
    if s.len() > 0 {
        lemma_rows_v(s.drop_first());
    }
}

pub proof fn lemma_entries_v(s: Seq<ListEntry>)
    ensures
        entries_v(s).len() == s.len(),
        forall|i: int| 0 <= i < s.len() ==> #[trigger] entries_v(s)[i] == blocks_v(s[i].blocks@),
    decreases s.len(),
{
    if s.len() > 0 {
        lemma_entries_v(s.drop_first());
    }
}

pub proof fn lemma_defs_v(s: Seq<(Vec<Inline>, Vec<Block>)>)
    ensures
        defs_v(s).len() == s.len(),
        forall|i: int|
            0 <= i < s.len() ==> #[trigger] defs_v(s)[i] == (
            inlines_v(s[i].0@),
            blocks_v(s[i].1@),
            ),
    decreases s.len(),
{
    if s.len() > 0 {
        lemma_defs_v(s.drop_first());
    }
}

// ---------------------------------------------------------------------------
// Size measures, for the termination of the emission pass.
// ---------------------------------------------------------------------------

pub open spec fn inline_size(i: Inline) -> nat
    decreases i,
{
    match i {
        Inline::Space => 1,
        Inline::Str(_) => 1,
        Inline::Emph(v) => 1 + inlines_size(v@),
        Inline::Strong(v) => 1 + inlines_size(v@),
        Inline::Underline(v) => 1 + inlines_size(v@),
        Inline::Strikeout(v) => 1 + inlines_size(v@),
        Inline::Subscript(v) => 1 + inlines_size(v@),
        Inline::Superscript(v) => 1 + inlines_size(v@),
        Inline::Code(_) => 1,
        Inline::Math(_) => 1,
        Inline::Link(v, _) => 1 + inlines_size(v@),
        Inline::Anchor(v, _) => 1 + inlines_size(v@),
        Inline::Image(_) => 1,
    }
}

pub open spec fn inlines_size(s: Seq<Inline>) -> nat
    decreases s,
{
    if s.len() == 0 {
        0
    } else {
        inline_size(s[0]) + inlines_size(s.drop_first())
    }
}

pub proof fn lemma_inline_size_pos(i: Inline)
    ensures
        inline_size(i) >= 1,
{
}

pub proof fn lemma_inlines_size_first(s: Seq<Inline>)
    requires
        s.len() > 0,
    ensures
        inlines_size(s) == inline_size(s[0]) + inlines_size(s.drop_first()),
        inline_size(s[0]) < inlines_size(s) + 1,
        inlines_size(s.drop_first()) < inlines_size(s),
{
    lemma_inline_size_pos(s[0]);
}

pub open spec fn block_size(b: Block) -> nat
    decreases b,
{
    match b {
        Block::Null => 1,
        Block::Plain(_) => 1,
        Block::Paragraph(_) => 1,
        Block::Header(_, _, _) => 1,
        Block::BlockQuote(bs) => 1 + blocks_size(bs@),
        Block::MathBlock(_) => 1,
        Block::CodeBlock(_, _) => 1,
        Block::Table(_, head, rows) => 1 + cells_size(head@) + rows_size(rows@),
        Block::BulletList(es) => 1 + entries_size(es@),
        Block::OrderedList(es) => 1 + entries_size(es@),
        Block::DefinitionList(ds) => 1 + defs_size(ds@),
    }
}

pub open spec fn blocks_size(s: Seq<Block>) -> nat
    decreases s,
{
    if s.len() == 0 {
        0
    } else {
        block_size(s[0]) + blocks_size(s.drop_first())
    }
}

pub open spec fn cells_size(s: Seq<Cell>) -> nat
    decreases s,
{
    if s.len() == 0 {
        0
    } else {
        1 + blocks_size(s[0].blocks@) + cells_size(s.drop_first())
    }
}

pub open spec fn rows_size(s: Seq<Vec<Cell>>) -> nat
    decreases s,
{
    if s.len() == 0 {
        0
    } else {
        1 + cells_size(s[0]@) + rows_size(s.drop_first())
    }
}

pub open spec fn entries_size(s: Seq<ListEntry>) -> nat
    decreases s,
{
    if s.len() == 0 {
        0
    } else {
        1 + blocks_size(s[0].blocks@) + entries_size(s.drop_first())
    }
}

pub open spec fn defs_size(s: Seq<(Vec<Inline>, Vec<Block>)>) -> nat
    decreases s,
{
    if s.len() == 0 {
        0
    } else {
        1 + blocks_size(s[0].1@) + defs_size(s.drop_first())
    }
}

pub proof fn lemma_block_size_pos(b: Block)
    ensures
        block_size(b) >= 1,
{
}

pub proof fn lemma_blocks_size_first(s: Seq<Block>)
    requires
        s.len() > 0,
    ensures
        blocks_size(s) == block_size(s[0]) + blocks_size(s.drop_first()),
        blocks_size(s.drop_first()) < blocks_size(s),
{
    lemma_block_size_pos(s[0]);
}

pub proof fn lemma_cells_size_first(s: Seq<Cell>)
    requires
        s.len() > 0,
    ensures
        cells_size(s) == 1 + blocks_size(s[0].blocks@) + cells_size(s.drop_first()),
        cells_size(s.drop_first()) < cells_size(s),
        blocks_size(s[0].blocks@) < cells_size(s),
{
}

pub proof fn lemma_rows_size_first(s: Seq<Vec<Cell>>)
    requires
        s.len() > 0,
    ensures
        rows_size(s) == 1 + cells_size(s[0]@) + rows_size(s.drop_first()),
        rows_size(s.drop_first()) < rows_size(s),
        cells_size(s[0]@) < rows_size(s),
{
}

pub proof fn lemma_entries_size_first(s: Seq<ListEntry>)
    requires
        s.len() > 0,
    ensures
        entries_size(s) == 1 + blocks_size(s[0].blocks@) + entries_size(s.drop_first()),
        entries_size(s.drop_first()) < entries_size(s),
        blocks_size(s[0].blocks@) < entries_size(s),
{
}

pub proof fn lemma_defs_size_first(s: Seq<(Vec<Inline>, Vec<Block>)>)
    requires
        s.len() > 0,
    ensures
        defs_size(s) == 1 + blocks_size(s[0].1@) + defs_size(s.drop_first()),
        defs_size(s.drop_first()) < defs_size(s),
        blocks_size(s[0].1@) < defs_size(s),
{
}

} // verus!
