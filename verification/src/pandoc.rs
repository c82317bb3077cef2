use vstd::prelude::*;
use crate::document::{DocumentBuilder, DocumentContext};
use crate::ir::{
    block_v, blocks_v, cells_v, defs_v, entries_v, inline_v, inlines_v, inlines_size, inline_size,
    lemma_blocks_size_first, lemma_blocks_v, lemma_cells_size_first, lemma_cells_v,
    lemma_defs_size_first, lemma_defs_v, lemma_entries_size_first, lemma_entries_v,
    lemma_inlines_size_first, lemma_inlines_v, lemma_rows_size_first, lemma_rows_v, lemma_segs_v,
    link_v, rows_v, segs_v, blocks_size, block_size, cells_size, defs_size, entries_size,
    rows_size, Block, BlockV, Cell, Inline, InlineV, LinkTargetV, LinkType, ListEntry,
};
use crate::meta::{pairs_v, MetaValue};

verus! {

/// The resolved output vocabulary: the library's own rendering of the emitted
/// document schema. A link target is a URL and a title.
#[derive(Debug, PartialEq)]
pub struct Target {
    pub url: String,
    pub title: String,
}

#[derive(Debug, PartialEq)]
pub enum MathType {
    InlineMath,
    DisplayMath,
}

#[derive(Debug, PartialEq)]
pub enum PandocInline {
    Space,
    Str(String),
    Emph(Vec<PandocInline>),
    Strong(Vec<PandocInline>),
    Underline(Vec<PandocInline>),
    Strikeout(Vec<PandocInline>),
    Subscript(Vec<PandocInline>),
    Superscript(Vec<PandocInline>),
    Code(String),
    Math(MathType, String),
    Link(Vec<PandocInline>, Target),
    Image(Vec<PandocInline>, Target),
}

#[derive(Debug, PartialEq)]
pub struct PandocCell {
    pub blocks: Vec<PandocBlock>,
}

#[derive(Debug, PartialEq)]
pub enum PandocBlock {
    Null,
    Plain(Vec<PandocInline>),
    Para(Vec<PandocInline>),
    Header(i32, String, Vec<PandocInline>),
    BlockQuote(Vec<PandocBlock>),
    CodeBlock(Vec<String>, String),
    Table(usize, Vec<PandocCell>, Vec<Vec<PandocCell>>),
    BulletList(Vec<Vec<PandocBlock>>),
    OrderedList(Vec<Vec<PandocBlock>>),
    DefinitionList(Vec<(Vec<PandocInline>, Vec<Vec<PandocBlock>>)>),
}

/// The finished document: the metadata mapping and the resolved blocks.
#[derive(Debug, PartialEq)]
pub struct Pandoc {
    pub meta: Vec<(String, MetaValue)>,
    pub blocks: Vec<PandocBlock>,
}

// ---------------------------------------------------------------------------
// What cross-reference resolution returns, over the finished registries.
// ---------------------------------------------------------------------------

/// The URL a link target resolves to. An unregistered document link degrades
/// to the empty URL; it never fails the conversion.
pub open spec fn url_of(t: LinkTargetV, ctx: DocumentContext) -> Seq<char> {
    match t {
        LinkTargetV::NoTargetV => Seq::empty(),
        LinkTargetV::HrefV(u) => u,
        LinkTargetV::FileV(u) => u,
        LinkTargetV::DocLinkV(ty, text) => {
            if ctx.links_map().contains_key((text, ty)) {
                ctx.links_map()[(text, ty)]
            } else {
                Seq::empty()
            }
        },
    }
}

/// The URL an anchor reference resolves to: the registered target's URL, or
/// the empty URL if the name was never registered.
pub open spec fn anchor_url(name: Seq<char>, ctx: DocumentContext) -> Seq<char> {
    if ctx.anchors_map().contains_key(name) {
        url_of(ctx.anchors_map()[name], ctx)
    } else {
        Seq::empty()
    }
}

/// The emission relation for one inline, against the finished registries.
pub open spec fn resolves_inline(iv: InlineV, ctx: DocumentContext, r: PandocInline) -> bool
    decreases iv,
{
    match iv {
        InlineV::SpaceV => r == PandocInline::Space,
        InlineV::StrV(s) => match r {
            PandocInline::Str(t) => t@ == s,
            _ => false,
        },
        InlineV::EmphV(vs) => match r {
            PandocInline::Emph(out) => resolves_inlines(vs, ctx, out@),
            _ => false,
        },
        InlineV::StrongV(vs) => match r {
            PandocInline::Strong(out) => resolves_inlines(vs, ctx, out@),
            _ => false,
        },
        InlineV::UnderlineV(vs) => match r {
            PandocInline::Underline(out) => resolves_inlines(vs, ctx, out@),
            _ => false,
        },
        InlineV::StrikeoutV(vs) => match r {
            PandocInline::Strikeout(out) => resolves_inlines(vs, ctx, out@),
            _ => false,
        },
        InlineV::SubscriptV(vs) => match r {
            PandocInline::Subscript(out) => resolves_inlines(vs, ctx, out@),
            _ => false,
        },
        InlineV::SuperscriptV(vs) => match r {
            PandocInline::Superscript(out) => resolves_inlines(vs, ctx, out@),
            _ => false,
        },
        InlineV::CodeV(s) => match r {
            PandocInline::Code(t) => t@ == s,
            _ => false,
        },
        InlineV::MathV(s) => match r {
            PandocInline::Math(mt, t) => mt == MathType::InlineMath && t@ == s,
            _ => false,
        },
        InlineV::LinkV(vs, t) => match r {
            PandocInline::Link(out, target) => resolves_inlines(vs, ctx, out@) && target.url@
                == url_of(t, ctx) && target.title@ == Seq::<char>::empty(),
            _ => false,
        },
        InlineV::AnchorV(vs, name) => match r {
            PandocInline::Link(out, target) => resolves_inlines(vs, ctx, out@) && target.url@
                == anchor_url(name, ctx) && target.title@ == Seq::<char>::empty(),
            _ => false,
        },
        InlineV::ImageV(u) => match r {
            PandocInline::Image(alt, target) => alt@.len() == 0 && target.url@ == u
                && target.title@ == Seq::<char>::empty(),
            _ => false,
        },
    }
}

pub open spec fn resolves_inlines(ivs: Seq<InlineV>, ctx: DocumentContext, rs: Seq<PandocInline>) -> bool
    decreases ivs,
{
    &&& rs.len() == ivs.len()
    &&& forall|i: int| 0 <= i < ivs.len() ==> resolves_inline(#[trigger] ivs[i], ctx, rs[i])
}

/// Paragraph segments are joined with one inter-segment space on emission.
pub open spec fn joined_segs(segs: Seq<Seq<InlineV>>) -> Seq<InlineV>
    decreases segs.len(),
{
    if segs.len() == 0 {
        Seq::empty()
    } else if segs.len() == 1 {
        segs[0]
    } else {
        joined_segs(segs.drop_last()) + seq![InlineV::SpaceV] + segs.last()
    }
}

/// The emission relation for one block.
pub open spec fn resolves_block(bv: BlockV, ctx: DocumentContext, r: PandocBlock) -> bool
    decreases bv,
{
    match bv {
        BlockV::NullV => r == PandocBlock::Null,
        BlockV::PlainV(ivs) => match r {
            PandocBlock::Plain(out) => resolves_inlines(ivs, ctx, out@),
            _ => false,
        },
        BlockV::ParagraphV(segs) => match r {
            PandocBlock::Para(out) => resolves_inlines(joined_segs(segs), ctx, out@),
            _ => false,
        },
        BlockV::HeaderV(lvl, id, ivs) => match r {
            PandocBlock::Header(l2, id2, out) => l2 as int == lvl && id2@ == id
                && resolves_inlines(ivs, ctx, out@),
            _ => false,
        },
        BlockV::BlockQuoteV(bs) => match r {
            PandocBlock::BlockQuote(out) => resolves_blocks(bs, ctx, out@),
            _ => false,
        },
        BlockV::MathBlockV(s) => match r {
            PandocBlock::Para(out) => out@.len() == 1 && (match out@[0] {
                PandocInline::Math(mt, t) => mt == MathType::DisplayMath && t@ == s,
                _ => false,
            }),
            _ => false,
        },
        BlockV::CodeBlockV(lang, s) => match r {
            PandocBlock::CodeBlock(classes, t) => t@ == s && (match lang {
                Some(l) => classes@.len() == 1 && classes@[0]@ == l,
                None => classes@.len() == 0,
            }),
            _ => false,
        },
        BlockV::TableV(ncols, head, rows) => match r {
            PandocBlock::Table(nc, h, b) => nc as int == ncols && resolves_cells(head, ctx, h@)
                && resolves_rows(rows, ctx, b@),
            _ => false,
        },
        BlockV::BulletListV(es) => match r {
            PandocBlock::BulletList(out) => resolves_entries(es, ctx, out@),
            _ => false,
        },
        BlockV::OrderedListV(es) => match r {
            PandocBlock::OrderedList(out) => resolves_entries(es, ctx, out@),
            _ => false,
        },
        BlockV::DefinitionListV(ds) => match r {
            PandocBlock::DefinitionList(out) => resolves_defs(ds, ctx, out@),
            _ => false,
        },
    }
}

pub open spec fn resolves_blocks(bs: Seq<BlockV>, ctx: DocumentContext, rs: Seq<PandocBlock>) -> bool
    decreases bs,
{
    &&& rs.len() == bs.len()
    &&& forall|i: int| 0 <= i < bs.len() ==> resolves_block(#[trigger] bs[i], ctx, rs[i])
}

pub open spec fn resolves_cells(cs: Seq<Seq<BlockV>>, ctx: DocumentContext, rs: Seq<PandocCell>) -> bool
    decreases cs,
{
    &&& rs.len() == cs.len()
    &&& forall|i: int| 0 <= i < cs.len() ==> resolves_blocks(#[trigger] cs[i], ctx, rs[i].blocks@)
}

pub open spec fn resolves_rows(
    rws: Seq<Seq<Seq<BlockV>>>,
    ctx: DocumentContext,
    rs: Seq<Vec<PandocCell>>,
) -> bool
    decreases rws,
{
    &&& rs.len() == rws.len()
    &&& forall|i: int| 0 <= i < rws.len() ==> resolves_cells(#[trigger] rws[i], ctx, rs[i]@)
}

pub open spec fn resolves_entries(
    es: Seq<Seq<BlockV>>,
    ctx: DocumentContext,
    rs: Seq<Vec<PandocBlock>>,
) -> bool
    decreases es,
{
    &&& rs.len() == es.len()
    &&& forall|i: int| 0 <= i < es.len() ==> resolves_blocks(#[trigger] es[i], ctx, rs[i]@)
}

/// Each definition becomes its term's inlines and a single list of its blocks.
pub open spec fn resolves_defs(
    ds: Seq<(Seq<InlineV>, Seq<BlockV>)>,
    ctx: DocumentContext,
    rs: Seq<(Vec<PandocInline>, Vec<Vec<PandocBlock>>)>,
) -> bool
    decreases ds,
{
    &&& rs.len() == ds.len()
    &&& forall|i: int|
        0 <= i < ds.len() ==> {
            &&& resolves_inlines((#[trigger] ds[i]).0, ctx, rs[i].0@)
            &&& rs[i].1@.len() == 1
            &&& resolves_blocks(ds[i].1, ctx, rs[i].1@[0]@)
        }
}

/// LAW (forward reference): resolution consults only the finished registries,
/// so an anchor registered after the referencing inline was built — later in
/// document order — still resolves to the registered target, and an anchor
/// resolution can never fail the conversion.
pub proof fn lemma_forward_reference(
    ctx: DocumentContext,
    name: Seq<char>,
    t: LinkTargetV,
    descr: Seq<InlineV>,
    r: PandocInline,
)
    requires
        ctx.anchors_map().contains_key(name),
        ctx.anchors_map()[name] == t,
        resolves_inline(InlineV::AnchorV(descr, name), ctx, r),
    ensures
        match r {
            PandocInline::Link(content, target) => target.url@ == url_of(t, ctx)
                && resolves_inlines(descr, ctx, content@),
            _ => false,
        },
{
}

proof fn lemma_resolves_inlines_concat(
    a: Seq<InlineV>,
    b: Seq<InlineV>,
    ctx: DocumentContext,
    ra: Seq<PandocInline>,
    rb: Seq<PandocInline>,
)
    requires
        resolves_inlines(a, ctx, ra),
        resolves_inlines(b, ctx, rb),
    ensures
        resolves_inlines(a + b, ctx, ra + rb),
{
    assert forall|i: int| 0 <= i < (a + b).len() implies resolves_inline(
        #[trigger] (a + b)[i],
        ctx,
        (ra + rb)[i],
    ) by {
        if i < a.len() {
            assert((a + b)[i] == a[i]);
            assert((ra + rb)[i] == ra[i]);
        } else {
            assert((a + b)[i] == b[i - a.len()]);
            assert((ra + rb)[i] == rb[i - a.len()]);
        }
    }
}

// ---------------------------------------------------------------------------
// The executable emission pass.
// ---------------------------------------------------------------------------

/// The URL a link target resolves to, from the registries.
pub fn get_link_url(ty: &LinkType, context: &DocumentContext) -> (r: String)
    ensures
        r@ == url_of(link_v(*ty), *context),
{
    match ty {
        LinkType::NoTarget => String::new(),
        LinkType::Href(url) => url.clone(),
        LinkType::File(url) => url.clone(),
        LinkType::DocumentLink(t, text) => match context.get_document_link(text.as_str(), t) {
            Some(id) => id.clone(),
            None => String::new(),
        },
    }
}

impl Inline {
    /// Emits this inline, resolving link and anchor targets by the registries.
    pub fn into_pandoc(self, context: &DocumentContext) -> (r: PandocInline)
        ensures
            resolves_inline(inline_v(self), *context, r),
        decreases inline_size(self), 0int,
    {
        match self {
            Inline::Space => PandocInline::Space,
            Inline::Str(s) => PandocInline::Str(s),
            Inline::Emph(v) => PandocInline::Emph(convert_inlines_to_pandoc(v, context)),
            Inline::Strong(v) => PandocInline::Strong(convert_inlines_to_pandoc(v, context)),
            Inline::Underline(v) => PandocInline::Underline(convert_inlines_to_pandoc(v, context)),
            Inline::Strikeout(v) => PandocInline::Strikeout(convert_inlines_to_pandoc(v, context)),
            Inline::Subscript(v) => PandocInline::Subscript(convert_inlines_to_pandoc(v, context)),
            Inline::Superscript(v) => PandocInline::Superscript(
                convert_inlines_to_pandoc(v, context),
            ),
            Inline::Code(s) => PandocInline::Code(s),
            Inline::Math(s) => PandocInline::Math(MathType::InlineMath, s),
            Inline::Link(v, ty) => {
                let url = get_link_url(&ty, context);
                PandocInline::Link(
                    convert_inlines_to_pandoc(v, context),
                    Target { url, title: String::new() },
                )
            },
            Inline::Anchor(v, id) => {
                let url = match context.get_anchor(id.as_str()) {
                    Some(t) => get_link_url(t, context),
                    None => String::new(),
                };
                PandocInline::Link(
                    convert_inlines_to_pandoc(v, context),
                    Target { url, title: String::new() },
                )
            },
            Inline::Image(u) => PandocInline::Image(
                Vec::new(),
                Target { url: u, title: String::new() },
            ),
        }
    }
}

pub(crate) fn convert_inlines_to_pandoc(inlines: Vec<Inline>, context: &DocumentContext) -> (r:
    Vec<PandocInline>)
    ensures
        resolves_inlines(inlines_v(inlines@), *context, r@),
    decreases inlines_size(inlines@), 1int,
{
    let ghost ivs = inlines_v(inlines@);
    proof {
        lemma_inlines_v(inlines@);
    }
    let mut rest = inlines;
    let mut out: Vec<PandocInline> = Vec::new();
    while rest.len() > 0
        invariant
            ivs.len() == out@.len() + rest@.len(),
            inlines_size(rest@) <= inlines_size(inlines@),
            forall|i: int| 0 <= i < out@.len() ==> resolves_inline(#[trigger] ivs[i], *context, out@[i]),
            forall|i: int|
                0 <= i < rest@.len() ==> inline_v(#[trigger] rest@[i]) == ivs[out@.len() + i],
        decreases inlines_size(rest@),
    {
        let ghost r0 = rest@;
        let x = rest.remove(0);
        proof {
            lemma_inlines_size_first(r0);
            assert(rest@ =~= r0.drop_first());
        }
        let y = x.into_pandoc(context);
        out.push(y);
    }
    out
}

fn convert_blocks_to_pandoc_inner(blocks: Vec<Block>, context: &DocumentContext) -> (r: Vec<
    PandocBlock,
>)
    ensures
        resolves_blocks(blocks_v(blocks@), *context, r@),
    decreases blocks_size(blocks@), 1int,
{
    let ghost bvs = blocks_v(blocks@);
    proof {
        lemma_blocks_v(blocks@);
    }
    let mut rest = blocks;
    let mut out: Vec<PandocBlock> = Vec::new();
    while rest.len() > 0
        invariant
            bvs.len() == out@.len() + rest@.len(),
            blocks_size(rest@) <= blocks_size(blocks@),
            forall|i: int| 0 <= i < out@.len() ==> resolves_block(#[trigger] bvs[i], *context, out@[i]),
            forall|i: int|
                0 <= i < rest@.len() ==> block_v(#[trigger] rest@[i]) == bvs[out@.len() + i],
        decreases blocks_size(rest@),
    {
        let ghost r0 = rest@;
        let x = rest.remove(0);
        proof {
            lemma_blocks_size_first(r0);
            assert(rest@ =~= r0.drop_first());
        }
        let y = x.into_pandoc(context);
        out.push(y);
    }
    out
}

/// Emits a run of blocks in order.
pub(crate) fn convert_blocks_to_pandoc(blocks: Vec<Block>, context: &DocumentContext) -> (r: Vec<
    PandocBlock,
>)
    ensures
        resolves_blocks(blocks_v(blocks@), *context, r@),
{
    convert_blocks_to_pandoc_inner(blocks, context)
}

fn convert_cells(cells: Vec<Cell>, context: &DocumentContext) -> (r: Vec<PandocCell>)
    ensures
        resolves_cells(cells_v(cells@), *context, r@),
    decreases cells_size(cells@), 1int,
{
    let ghost cvs = cells_v(cells@);
    proof {
        lemma_cells_v(cells@);
    }
    let mut rest = cells;
    let mut out: Vec<PandocCell> = Vec::new();
    while rest.len() > 0
        invariant
            cvs.len() == out@.len() + rest@.len(),
            cells_size(rest@) <= cells_size(cells@),
            forall|i: int|
                0 <= i < out@.len() ==> resolves_blocks(#[trigger] cvs[i], *context, out@[i].blocks@),
            forall|i: int|
                0 <= i < rest@.len() ==> blocks_v((#[trigger] rest@[i]).blocks@) == cvs[out@.len()
                    + i],
        decreases cells_size(rest@),
    {
        let ghost r0 = rest@;
        let x = rest.remove(0);
        proof {
            lemma_cells_size_first(r0);
            assert(rest@ =~= r0.drop_first());
        }
        let content = convert_blocks_to_pandoc_inner(x.blocks, context);
        out.push(PandocCell { blocks: content });
    }
    out
}

fn convert_rows(rows: Vec<Vec<Cell>>, context: &DocumentContext) -> (r: Vec<Vec<PandocCell>>)
    ensures
        resolves_rows(rows_v(rows@), *context, r@),
    decreases rows_size(rows@), 1int,
{
    let ghost rvs = rows_v(rows@);
    proof {
        lemma_rows_v(rows@);
    }
    let mut rest = rows;
    let mut out: Vec<Vec<PandocCell>> = Vec::new();
    while rest.len() > 0
        invariant
            rvs.len() == out@.len() + rest@.len(),
            rows_size(rest@) <= rows_size(rows@),
            forall|i: int| 0 <= i < out@.len() ==> resolves_cells(#[trigger] rvs[i], *context, out@[i]@),
            forall|i: int|
                0 <= i < rest@.len() ==> cells_v((#[trigger] rest@[i])@) == rvs[out@.len() + i],
        decreases rows_size(rest@),
    {
        let ghost r0 = rest@;
        let x = rest.remove(0);
        proof {
            lemma_rows_size_first(r0);
            assert(rest@ =~= r0.drop_first());
        }
        let row = convert_cells(x, context);
        out.push(row);
    }
    out
}

fn convert_entries(entries: Vec<ListEntry>, context: &DocumentContext) -> (r: Vec<Vec<PandocBlock>>)
    ensures
        resolves_entries(entries_v(entries@), *context, r@),
    decreases entries_size(entries@), 1int,
{
    let ghost evs = entries_v(entries@);
    proof {
        lemma_entries_v(entries@);
    }
    let mut rest = entries;
    let mut out: Vec<Vec<PandocBlock>> = Vec::new();
    while rest.len() > 0
        invariant
            evs.len() == out@.len() + rest@.len(),
            entries_size(rest@) <= entries_size(entries@),
            forall|i: int|
                0 <= i < out@.len() ==> resolves_blocks(#[trigger] evs[i], *context, out@[i]@),
            forall|i: int|
                0 <= i < rest@.len() ==> blocks_v((#[trigger] rest@[i]).blocks@) == evs[out@.len()
                    + i],
        decreases entries_size(rest@),
    {
        let ghost r0 = rest@;
        let x = rest.remove(0);
        proof {
            lemma_entries_size_first(r0);
            assert(rest@ =~= r0.drop_first());
        }
        let bs = convert_blocks_to_pandoc_inner(x.blocks, context);
        out.push(bs);
    }
    out
}

#[verifier::rlimit(50)]
fn convert_defs(ds: Vec<(Vec<Inline>, Vec<Block>)>, context: &DocumentContext) -> (r: Vec<
    (Vec<PandocInline>, Vec<Vec<PandocBlock>>),
>)
    ensures
        resolves_defs(defs_v(ds@), *context, r@),
    decreases defs_size(ds@), 1int,
{
    let ghost dvs = defs_v(ds@);
    proof {
        lemma_defs_v(ds@);
    }
    let mut rest = ds;
    let mut out: Vec<(Vec<PandocInline>, Vec<Vec<PandocBlock>>)> = Vec::new();
    while rest.len() > 0
        invariant
            dvs.len() == out@.len() + rest@.len(),
            defs_size(rest@) <= defs_size(ds@),
            forall|i: int|
                0 <= i < out@.len() ==> {
                    &&& resolves_inlines((#[trigger] dvs[i]).0, *context, out@[i].0@)
                    &&& out@[i].1@.len() == 1
                    &&& resolves_blocks(dvs[i].1, *context, out@[i].1@[0]@)
                },
            forall|i: int|
                0 <= i < rest@.len() ==> (inlines_v((#[trigger] rest@[i]).0@), blocks_v(
                    rest@[i].1@,
                )) == dvs[out@.len() + i],
        decreases defs_size(rest@),
    {
        let ghost r0 = rest@;
        let (seg, bs) = rest.remove(0);
        proof {
            lemma_defs_size_first(r0);
            assert(rest@ =~= r0.drop_first());
        }
        let inls = convert_inlines_to_pandoc(seg, context);
        let blks = convert_blocks_to_pandoc_inner(bs, context);
        let mut wrapped: Vec<Vec<PandocBlock>> = Vec::new();
        wrapped.push(blks);
        out.push((inls, wrapped));
    }
    proof {
        assert(out@.len() == dvs.len());
        assert forall|i: int|
            0 <= i < dvs.len() implies {
            &&& resolves_inlines((#[trigger] dvs[i]).0, *context, out@[i].0@)
            &&& out@[i].1@.len() == 1
            &&& resolves_blocks(dvs[i].1, *context, out@[i].1@[0]@)
        } by {
            assert(0 <= i < out@.len());
        }
        assert(resolves_defs(defs_v(ds@), *context, out@));
    }
    out
}

impl Block {
    /// Emits this block, resolving every cross-reference inside it.
    pub fn into_pandoc(self, context: &DocumentContext) -> (r: PandocBlock)
        ensures
            resolves_block(block_v(self), *context, r),
        decreases block_size(self), 0int,
    {
        match self {
            Block::Null => PandocBlock::Null,
            Block::Plain(segment) => PandocBlock::Plain(
                convert_inlines_to_pandoc(segment, context),
            ),
            Block::Paragraph(segments) => {
                let ghost segsv = segs_v(segments@);
                proof {
                    lemma_segs_v(segments@);
                }
                let mut rest = segments;
                let mut out: Vec<PandocInline> = Vec::new();
                let mut first: bool = true;
                while rest.len() > 0
                    invariant
                        rest@.len() <= segsv.len(),
                        first == (rest@.len() == segsv.len()),
                        forall|i: int|
                            0 <= i < rest@.len() ==> inlines_v((#[trigger] rest@[i])@) == segsv[
                                segsv.len() - rest@.len() + i],
                        resolves_inlines(
                            joined_segs(segsv.take(segsv.len() - rest@.len())),
                            *context,
                            out@,
                        ),
                    decreases rest@.len(),
                {
                    let ghost done = segsv.len() - rest@.len();
                    let ghost r0 = rest@;
                    let ghost out0 = out@;
                    let seg = rest.remove(0);
                    proof {
                        assert(rest@ =~= r0.drop_first());
                        assert(inlines_v(seg@) == segsv[done as int]);
                    }
                    if !first {
                        out.push(PandocInline::Space);
                    }
                    let mut part = convert_inlines_to_pandoc(seg, context);
                    let ghost partv = part@;
                    out.append(&mut part);
                    proof {
                        if done == 0 {
                            assert(joined_segs(segsv.take(0int)).len() == 0);
                            assert(out0 =~= Seq::<PandocInline>::empty());
                            assert(out@ =~= partv);
                            assert(segsv.take(1int).len() == 1);
                            assert(segsv.take(1int)[0] == segsv[0]);
                            assert(joined_segs(segsv.take(1int)) == segsv[0]);
                        } else {
                            let prev = segsv.take(done as int);
                            let now = segsv.take(done + 1);
                            assert(now.drop_last() =~= prev);
                            assert(now.last() == segsv[done as int]);
                            assert(now.len() >= 2);
                            assert(joined_segs(now) == joined_segs(prev) + seq![InlineV::SpaceV]
                                + segsv[done as int]);
                            assert(resolves_inlines(
                                seq![InlineV::SpaceV],
                                *context,
                                seq![PandocInline::Space],
                            ));
                            lemma_resolves_inlines_concat(
                                joined_segs(prev),
                                seq![InlineV::SpaceV],
                                *context,
                                out0,
                                seq![PandocInline::Space],
                            );
                            lemma_resolves_inlines_concat(
                                joined_segs(prev) + seq![InlineV::SpaceV],
                                segsv[done as int],
                                *context,
                                out0 + seq![PandocInline::Space],
                                partv,
                            );
                            assert(out@ =~= (out0 + seq![PandocInline::Space]) + partv);
                        }
                    }
                    first = false;
                }
                proof {
                    assert(segsv.take(segsv.len() as int) =~= segsv);
                }
                PandocBlock::Para(out)
            },
            Block::Header(level, id, segment) => PandocBlock::Header(
                level,
                id,
                convert_inlines_to_pandoc(segment, context),
            ),
            Block::BlockQuote(blocks) => PandocBlock::BlockQuote(
                convert_blocks_to_pandoc_inner(blocks, context),
            ),
            Block::MathBlock(code) => {
                let mut inls: Vec<PandocInline> = Vec::new();
                inls.push(PandocInline::Math(MathType::DisplayMath, code));
                PandocBlock::Para(inls)
            },
            Block::CodeBlock(language, code) => {
                let mut classes: Vec<String> = Vec::new();
                match language {
                    Some(l) => {
                        classes.push(l);
                    },
                    None => {},
                }
                PandocBlock::CodeBlock(classes, code)
            },
            Block::Table(num_cols, head, body) => {
                let h = convert_cells(head, context);
                let b = convert_rows(body, context);
                PandocBlock::Table(num_cols, h, b)
            },
            Block::BulletList(entries) => PandocBlock::BulletList(
                convert_entries(entries, context),
            ),
            Block::OrderedList(entries) => PandocBlock::OrderedList(
                convert_entries(entries, context),
            ),
            Block::DefinitionList(ds) => PandocBlock::DefinitionList(convert_defs(ds, context)),
        }
    }
}

impl DocumentBuilder {
    /// Builds the finished document from the single remaining scope: the root
    /// blocks are emitted in order, a trailing non-empty collector is flushed
    /// as one final `Plain` block, and the metadata mapping is passed through.
    pub fn build(self, context: &DocumentContext) -> (r: Pandoc)
        requires
            self.scopes_v().len() == 1,
        ensures
            pairs_v(r.meta@) == self.meta_pairs(),
            ({
                let root = self.scopes_v()[0];
                if self.collector_v().len() > 0 {
                    &&& r.blocks@.len() == root.len() + 1
                    &&& resolves_blocks(root, *context, r.blocks@.take(root.len() as int))
                    &&& match r.blocks@.last() {
                        PandocBlock::Plain(out) => resolves_inlines(
                            self.collector_v(),
                            *context,
                            out@,
                        ),
                        _ => false,
                    }
                } else {
                    resolves_blocks(root, *context, r.blocks@)
                }
            }),
    {
        let (mut scopes, metadata, collector) = self.into_parts();
        proof {
            crate::document::lemma_scopes_v_of(scopes@);
        }
        let root = scopes.pop().unwrap();
        let mut blocks = convert_blocks_to_pandoc_inner(root, context);
        if collector.len() > 0 {
            let ghost b0 = blocks@;
            let inl = convert_inlines_to_pandoc(collector, context);
            blocks.push(PandocBlock::Plain(inl));
            proof {
                assert(blocks@.take(b0.len() as int) =~= b0);
            }
        }
        Pandoc { meta: metadata, blocks }
    }
}

} // verus!
