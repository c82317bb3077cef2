use vstd::prelude::*;
use crate::document::DocumentLinkType;
use crate::field_ids::FieldIds;
use crate::ir::{inline_v, inlines_v, lemma_inlines_v, Inline, InlineV, LinkTargetV, LinkType};
use crate::tree::{
    field_is, forest_size, lemma_forest_size_elem, lemma_forest_size_skip, node_size, node_wf,
    NodeKind, SyntaxNode,
};
use crate::Builder;

verus! {

// ---------------------------------------------------------------------------
// What the inline handlers yield, at the specification level: a mirror of the
// segment grammar over the node tree, the source text and the field ids.
// ---------------------------------------------------------------------------

/// The delimited span of an attached modifier: the node's own span, narrowed
/// past every opening mark's end and before every closing mark's start, in
/// child order.
pub open spec fn delim_bounds(children: Seq<SyntaxNode>, s0: nat, e0: nat) -> (nat, nat)
    decreases children.len(),
{
    if children.len() == 0 {
        (s0, e0)
    } else {
        let p = delim_bounds(children.drop_last(), s0, e0);
        let c = children.last();
        match c.kind {
            NodeKind::OpenMark | NodeKind::FreeFormOpen => (
                if c.end > p.0 {
                    c.end as nat
                } else {
                    p.0
                },
                p.1,
            ),
            NodeKind::CloseMark | NodeKind::FreeFormClose => (
                p.0,
                if (c.start as nat) < p.1 {
                    c.start as nat
                } else {
                    p.1
                },
            ),
            _ => p,
        }
    }
}

/// The delimited text itself; an inverted span yields the empty text.
pub open spec fn delim_text(n: SyntaxNode, src: Seq<char>) -> Seq<char> {
    let b = delim_bounds(n.children@, n.start as nat, n.end as nat);
    if b.0 <= b.1 <= src.len() {
        src.subrange(b.0 as int, b.1 as int)
    } else {
        Seq::empty()
    }
}

/// The state a link node's children fold into: whether a description was
/// seen and its inlines, the last description's text (the anchor name),
/// whether a location was seen, and the last location's kind and text.
pub struct LinkScanV {
    pub has_desc: bool,
    pub descr: Seq<InlineV>,
    pub name: Seq<char>,
    pub has_loc: bool,
    pub kind: NodeKind,
    pub text: Seq<char>,
}

pub open spec fn empty_scan() -> LinkScanV {
    LinkScanV {
        has_desc: false,
        descr: Seq::empty(),
        name: Seq::empty(),
        has_loc: false,
        kind: NodeKind::Unknown,
        text: Seq::empty(),
    }
}

/// The link target a location's kind and text denote. A location whose kind
/// the converter does not recognise keeps its text as a direct target.
pub open spec fn target_of(kind: NodeKind, text: Seq<char>) -> LinkTargetV {
    match kind {
        NodeKind::LinkTargetUrl => LinkTargetV::HrefV(text),
        NodeKind::LinkTargetExternalFile => LinkTargetV::FileV(text),
        NodeKind::LinkTargetHeading { level } => LinkTargetV::DocLinkV(
            DocumentLinkType::Heading(level as i32),
            text,
        ),
        _ => LinkTargetV::HrefV(text),
    }
}

/// A location's children, folded left: the last recognised target kind and
/// the last `text` field win.
pub open spec fn loc_scan(
    gcs: Seq<SyntaxNode>,
    src: Seq<char>,
    fids: FieldIds,
    kind0: NodeKind,
    text0: Seq<char>,
) -> (NodeKind, Seq<char>)
    decreases gcs.len(),
{
    if gcs.len() == 0 {
        (kind0, text0)
    } else {
        let g = gcs[0];
        let k2 = match g.kind {
            NodeKind::LinkTargetUrl | NodeKind::LinkTargetExternalFile
                | NodeKind::LinkTargetHeading { .. } => g.kind,
            _ => kind0,
        };
        let t2 = if g.field_id == Some(fids.text) {
            src.subrange(g.start as int, g.end as int)
        } else {
            text0
        };
        loc_scan(gcs.drop_first(), src, fids, k2, t2)
    }
}

/// The inlines one segment node yields. Unknown kinds yield nothing.
pub open spec fn inlines_of(n: SyntaxNode, src: Seq<char>, fids: FieldIds) -> Seq<InlineV>
    decreases node_size(n), 1int,
{
    match n.kind {
        NodeKind::ParagraphSegment => seg_children_of(n.children@, src, fids),
        NodeKind::Word => seq![InlineV::StrV(src.subrange(n.start as int, n.end as int))],
        NodeKind::Space => seq![InlineV::SpaceV],
        NodeKind::EscapeSequence => escape_of(n.children@, src, fids),
        NodeKind::Link => seq![link_result(n, src, fids, false)],
        NodeKind::AnchorDeclaration => seq![link_result(n, src, fids, true)],
        NodeKind::AnchorDefinition => seq![link_result(n, src, fids, true)],
        NodeKind::Bold => seq![InlineV::StrongV(attached_of(n.children@, src, fids))],
        NodeKind::Underline => seq![InlineV::UnderlineV(attached_of(n.children@, src, fids))],
        NodeKind::Italic => seq![InlineV::EmphV(attached_of(n.children@, src, fids))],
        NodeKind::Strikethrough => seq![InlineV::StrikeoutV(attached_of(n.children@, src, fids))],
        NodeKind::Superscript => seq![InlineV::SuperscriptV(attached_of(n.children@, src, fids))],
        NodeKind::Subscript => seq![InlineV::SubscriptV(attached_of(n.children@, src, fids))],
        NodeKind::Verbatim => seq![InlineV::CodeV(delim_text(n, src))],
        NodeKind::InlineMath => seq![InlineV::MathV(delim_text(n, src))],
        _ => Seq::empty(),
    }
}

/// The catenated inlines of a segment's children.
pub open spec fn seg_children_of(cs: Seq<SyntaxNode>, src: Seq<char>, fids: FieldIds) -> Seq<
    InlineV,
>
    decreases forest_size(cs), 2int
        via seg_children_of_dec
{
    if cs.len() == 0 {
        Seq::empty()
    } else {
        inlines_of(cs[0], src, fids) + seg_children_of(cs.drop_first(), src, fids)
    }
}

/// The inlines of an attached modifier's children, the delimiter marks left
/// out.
pub open spec fn attached_of(cs: Seq<SyntaxNode>, src: Seq<char>, fids: FieldIds) -> Seq<InlineV>
    decreases forest_size(cs), 2int
        via attached_of_dec
{
    if cs.len() == 0 {
        Seq::empty()
    } else {
        let part = match cs[0].kind {
            NodeKind::OpenMark | NodeKind::CloseMark | NodeKind::FreeFormOpen
                | NodeKind::FreeFormClose => Seq::<InlineV>::empty(),
            _ => inlines_of(cs[0], src, fids),
        };
        part + attached_of(cs.drop_first(), src, fids)
    }
}

/// The text of each `token` field of an escape sequence.
pub open spec fn escape_of(cs: Seq<SyntaxNode>, src: Seq<char>, fids: FieldIds) -> Seq<InlineV>
    decreases cs.len(),
{
    if cs.len() == 0 {
        Seq::empty()
    } else {
        let part = if cs[0].field_id == Some(fids.token) {
            seq![InlineV::StrV(src.subrange(cs[0].start as int, cs[0].end as int))]
        } else {
            Seq::<InlineV>::empty()
        };
        part + escape_of(cs.drop_first(), src, fids)
    }
}

/// The inlines of a description: the children of each `text` field, as
/// segments.
pub open spec fn desc_children_of(gcs: Seq<SyntaxNode>, src: Seq<char>, fids: FieldIds) -> Seq<
    InlineV,
>
    decreases forest_size(gcs), 2int
        via desc_children_of_dec
{
    if gcs.len() == 0 {
        Seq::empty()
    } else {
        let part = if gcs[0].field_id == Some(fids.text) {
            text_children_of(gcs[0].children@, src, fids)
        } else {
            Seq::<InlineV>::empty()
        };
        part + desc_children_of(gcs.drop_first(), src, fids)
    }
}

pub open spec fn text_children_of(hs: Seq<SyntaxNode>, src: Seq<char>, fids: FieldIds) -> Seq<
    InlineV,
>
    decreases forest_size(hs), 2int
        via text_children_of_dec
{
    if hs.len() == 0 {
        Seq::empty()
    } else {
        inlines_of(hs[0], src, fids) + text_children_of(hs.drop_first(), src, fids)
    }
}

/// A link node's children, folded left.
pub open spec fn link_scan(
    cs: Seq<SyntaxNode>,
    src: Seq<char>,
    fids: FieldIds,
    acc: LinkScanV,
) -> LinkScanV
    decreases forest_size(cs), 2int
        via link_scan_dec
{
    if cs.len() == 0 {
        acc
    } else {
        let c = cs[0];
        let acc2 = if c.kind == NodeKind::LinkDescription {
            LinkScanV {
                has_desc: true,
                descr: acc.descr + desc_children_of(c.children@, src, fids),
                name: src.subrange(c.start as int, c.end as int),
                ..acc
            }
        } else if c.kind == NodeKind::LinkLocation {
            let p = loc_scan(c.children@, src, fids, acc.kind, acc.text);
            LinkScanV { has_loc: true, kind: p.0, text: p.1, ..acc }
        } else {
            acc
        };
        link_scan(cs.drop_first(), src, fids, acc2)
    }
}

/// The inline a link or anchor node yields: without a description, the
/// target's text stands in for it.
pub open spec fn link_result(
    n: SyntaxNode,
    src: Seq<char>,
    fids: FieldIds,
    is_anchor: bool,
) -> InlineV
    decreases node_size(n), 0int,
{
    let st = link_scan(n.children@, src, fids, empty_scan());
    let descr = if !st.has_desc {
        st.descr.push(InlineV::StrV(st.text))
    } else {
        st.descr
    };
    if is_anchor {
        InlineV::AnchorV(descr, st.name)
    } else {
        InlineV::LinkV(descr, target_of(st.kind, st.text))
    }
}


#[via_fn]
proof fn seg_children_of_dec(cs: Seq<SyntaxNode>, src: Seq<char>, fids: FieldIds) {
    if cs.len() > 0 {
        crate::tree::lemma_forest_size_first(cs);
    }
}

#[via_fn]
proof fn attached_of_dec(cs: Seq<SyntaxNode>, src: Seq<char>, fids: FieldIds) {
    if cs.len() > 0 {
        crate::tree::lemma_forest_size_first(cs);
    }
}

#[via_fn]
proof fn desc_children_of_dec(gcs: Seq<SyntaxNode>, src: Seq<char>, fids: FieldIds) {
    if gcs.len() > 0 {
        crate::tree::lemma_forest_size_first(gcs);
    }
}

#[via_fn]
proof fn text_children_of_dec(hs: Seq<SyntaxNode>, src: Seq<char>, fids: FieldIds) {
    if hs.len() > 0 {
        crate::tree::lemma_forest_size_first(hs);
    }
}

#[via_fn]
proof fn link_scan_dec(cs: Seq<SyntaxNode>, src: Seq<char>, fids: FieldIds, acc: LinkScanV) {
    if cs.len() > 0 {
        crate::tree::lemma_forest_size_first(cs);
    }
}

// ---------------------------------------------------------------------------
// The executable inline handlers.
// ---------------------------------------------------------------------------

impl Builder {
    /// Handles one paragraph-segment element (or a child of one), appending
    /// exactly the inlines that `inlines_of` says it yields.
    pub fn handle_segment(&mut self, node: &SyntaxNode, inlines: &mut Vec<Inline>)
        requires
            node_wf(*node, old(self).src_len()),
        ensures
            Builder::inline_ok(*old(self), *final(self)),
            inlines_v(final(inlines)@) == inlines_v(old(inlines)@) + inlines_of(
                *node,
                old(self).source@,
                old(self).field_ids,
            ),
        decreases node_size(*node), 2int,
    {
        let ghost src = self.source@;
        let ghost fids = self.field_ids;
        let ghost base = inlines_v(inlines@);
        match node.kind {
            NodeKind::ParagraphSegment => {
                let mut i: usize = 0;
                proof {
                    assert(node.children@.skip(0) =~= node.children@);
                    assert(base + seg_children_of(node.children@.skip(0), src, fids) =~= base
                        + seg_children_of(node.children@, src, fids));
                }
                while i < node.children.len()
                    invariant
                        0 <= i <= node.children@.len(),
                        node_wf(*node, old(self).src_len()),
                        src == old(self).source@,
                        fids == old(self).field_ids,
                        base == inlines_v(old(inlines)@),
                        Builder::inline_ok(*old(self), *self),
                        inlines_v(inlines@) + seg_children_of(
                            node.children@.skip(i as int),
                            src,
                            fids,
                        ) == base + seg_children_of(node.children@, src, fids),
                    decreases node.children@.len() - i,
                {
                    proof {
                        lemma_forest_size_elem(node.children@, i as int);
                    }
                    let ghost cur = inlines_v(inlines@);
                    self.handle_segment(&node.children[i], inlines);
                    proof {
                        assert(node.children@.skip(i as int).drop_first() =~= node.children@.skip(
                            i + 1,
                        ));
                        assert(node.children@.skip(i as int)[0] == node.children@[i as int]);
                        assert((cur + inlines_of(node.children@[i as int], src, fids))
                            + seg_children_of(node.children@.skip(i + 1), src, fids) =~= cur + (
                        inlines_of(node.children@[i as int], src, fids) + seg_children_of(
                            node.children@.skip(i + 1),
                            src,
                            fids,
                        )));
                    }
                    i = i + 1;
                }
                proof {
                    assert(node.children@.skip(node.children@.len() as int)
                        =~= Seq::<SyntaxNode>::empty());
                    assert(inlines_v(inlines@) + Seq::<InlineV>::empty() =~= inlines_v(inlines@));
                }
            },
            NodeKind::Word => {
                proof {
                    crate::tree::lemma_node_span(*node, old(self).src_len());
                }
                let text = String::from_str(
                    self.source.as_str().substring_char(node.start, node.end),
                );
                let ghost before = inlines@;
                inlines.push(Inline::Str(text));
                proof {
                    lemma_inlines_v(before);
                    lemma_inlines_v(inlines@);
                    assert(inlines_v(inlines@) =~= base + inlines_of(*node, src, fids));
                }
            },
            NodeKind::Space => {
                let ghost before = inlines@;
                inlines.push(Inline::Space);
                proof {
                    lemma_inlines_v(before);
                    lemma_inlines_v(inlines@);
                    assert(inlines_v(inlines@) =~= base + inlines_of(*node, src, fids));
                }
            },
            NodeKind::TrailingModifier => {
                proof {
                    assert(inlines_v(inlines@) =~= base + inlines_of(*node, src, fids));
                }
            },
            NodeKind::LineBreak => {
                proof {
                    assert(inlines_v(inlines@) =~= base + inlines_of(*node, src, fids));
                }
            },
            NodeKind::EscapeSequence => {
                let mut i: usize = 0;
                proof {
                    assert(node.children@.skip(0) =~= node.children@);
                }
                while i < node.children.len()
                    invariant
                        0 <= i <= node.children@.len(),
                        node_wf(*node, old(self).src_len()),
                        src == old(self).source@,
                        fids == old(self).field_ids,
                        base == inlines_v(old(inlines)@),
                        Builder::inline_ok(*old(self), *self),
                        inlines_v(inlines@) + escape_of(node.children@.skip(i as int), src, fids)
                            == base + escape_of(node.children@, src, fids),
                    decreases node.children@.len() - i,
                {
                    let child = &node.children[i];
                    proof {
                        crate::tree::lemma_child_wf(*node, i as int, old(self).src_len());
                        assert(node.children@.skip(i as int).drop_first() =~= node.children@.skip(
                            i + 1,
                        ));
                        assert(node.children@.skip(i as int)[0] == node.children@[i as int]);
                    }
                    let ghost cur = inlines_v(inlines@);
                    if field_is(child, self.field_ids.token) {
                        let text = String::from_str(
                            self.source.as_str().substring_char(child.start, child.end),
                        );
                        let ghost before = inlines@;
                        inlines.push(Inline::Str(text));
                        proof {
                            lemma_inlines_v(before);
                            lemma_inlines_v(inlines@);
                            assert(inlines_v(inlines@) =~= cur + seq![
                                InlineV::StrV(
                                    src.subrange(child.start as int, child.end as int),
                                )
                            ]);
                        }
                    }
                    proof {
                        assert(inlines_v(inlines@) + escape_of(
                            node.children@.skip(i + 1),
                            src,
                            fids,
                        ) =~= base + escape_of(node.children@, src, fids));
                    }
                    i = i + 1;
                }
                proof {
                    assert(node.children@.skip(node.children@.len() as int)
                        =~= Seq::<SyntaxNode>::empty());
                    assert(inlines_v(inlines@) + Seq::<InlineV>::empty() =~= inlines_v(inlines@));
                }
            },
            NodeKind::Link => {
                let l = self.handle_link(node, false);
                let ghost before = inlines@;
                inlines.push(l);
                proof {
                    lemma_inlines_v(before);
                    lemma_inlines_v(inlines@);
                    assert(inlines_v(inlines@) =~= base + inlines_of(*node, src, fids));
                }
            },
            NodeKind::AnchorDeclaration => {
                let l = self.handle_link(node, true);
                let ghost before = inlines@;
                inlines.push(l);
                proof {
                    lemma_inlines_v(before);
                    lemma_inlines_v(inlines@);
                    assert(inlines_v(inlines@) =~= base + inlines_of(*node, src, fids));
                }
            },
            NodeKind::AnchorDefinition => {
                let l = self.handle_link(node, true);
                let ghost before = inlines@;
                inlines.push(l);
                proof {
                    lemma_inlines_v(before);
                    lemma_inlines_v(inlines@);
                    assert(inlines_v(inlines@) =~= base + inlines_of(*node, src, fids));
                }
            },
            NodeKind::Bold => {
                let content = self.handle_attached_modifier_content(node);
                let ghost before = inlines@;
                inlines.push(Inline::Strong(content));
                proof {
                    lemma_inlines_v(before);
                    lemma_inlines_v(inlines@);
                    assert(inlines_v(inlines@) =~= base + inlines_of(*node, src, fids));
                }
            },
            NodeKind::Underline => {
                let content = self.handle_attached_modifier_content(node);
                let ghost before = inlines@;
                inlines.push(Inline::Underline(content));
                proof {
                    lemma_inlines_v(before);
                    lemma_inlines_v(inlines@);
                    assert(inlines_v(inlines@) =~= base + inlines_of(*node, src, fids));
                }
            },
            NodeKind::Italic => {
                let content = self.handle_attached_modifier_content(node);
                let ghost before = inlines@;
                inlines.push(Inline::Emph(content));
                proof {
                    lemma_inlines_v(before);
                    lemma_inlines_v(inlines@);
                    assert(inlines_v(inlines@) =~= base + inlines_of(*node, src, fids));
                }
            },
            NodeKind::Strikethrough => {
                let content = self.handle_attached_modifier_content(node);
                let ghost before = inlines@;
                inlines.push(Inline::Strikeout(content));
                proof {
                    lemma_inlines_v(before);
                    lemma_inlines_v(inlines@);
                    assert(inlines_v(inlines@) =~= base + inlines_of(*node, src, fids));
                }
            },
            NodeKind::Superscript => {
                let content = self.handle_attached_modifier_content(node);
                let ghost before = inlines@;
                inlines.push(Inline::Superscript(content));
                proof {
                    lemma_inlines_v(before);
                    lemma_inlines_v(inlines@);
                    assert(inlines_v(inlines@) =~= base + inlines_of(*node, src, fids));
                }
            },
            NodeKind::Subscript => {
                let content = self.handle_attached_modifier_content(node);
                let ghost before = inlines@;
                inlines.push(Inline::Subscript(content));
                proof {
                    lemma_inlines_v(before);
                    lemma_inlines_v(inlines@);
                    assert(inlines_v(inlines@) =~= base + inlines_of(*node, src, fids));
                }
            },
            NodeKind::Verbatim => {
                let text = self.get_delimited_modifier_text(node);
                let ghost before = inlines@;
                inlines.push(Inline::Code(text));
                proof {
                    lemma_inlines_v(before);
                    lemma_inlines_v(inlines@);
                    assert(inlines_v(inlines@) =~= base + inlines_of(*node, src, fids));
                }
            },
            NodeKind::InlineMath => {
                let text = self.get_delimited_modifier_text(node);
                let ghost before = inlines@;
                inlines.push(Inline::Math(text));
                proof {
                    lemma_inlines_v(before);
                    lemma_inlines_v(inlines@);
                    assert(inlines_v(inlines@) =~= base + inlines_of(*node, src, fids));
                }
            },
            NodeKind::InlineComment => {
                proof {
                    assert(inlines_v(inlines@) =~= base + inlines_of(*node, src, fids));
                }
            },
            _ => {
                proof {
                    assert(inlines_of(*node, src, fids) =~= Seq::<InlineV>::empty());
                    assert(inlines_v(inlines@) =~= base + inlines_of(*node, src, fids));
                }
            },
        }
    }

    /// The inline content of an attached modifier: every child but the
    /// delimiter marks, handled as segments.
    fn handle_attached_modifier_content(&mut self, node: &SyntaxNode) -> (r: Vec<Inline>)
        requires
            node_wf(*node, old(self).src_len()),
        ensures
            Builder::inline_ok(*old(self), *final(self)),
            inlines_v(r@) == attached_of(node.children@, old(self).source@, old(self).field_ids),
        decreases node_size(*node), 1int,
    {
        let ghost src = self.source@;
        let ghost fids = self.field_ids;
        let mut out: Vec<Inline> = Vec::new();
        let mut i: usize = 0;
        proof {
            assert(node.children@.skip(0) =~= node.children@);
            assert(inlines_v(out@) =~= Seq::<InlineV>::empty());
        }
        while i < node.children.len()
            invariant
                0 <= i <= node.children@.len(),
                node_wf(*node, old(self).src_len()),
                src == old(self).source@,
                fids == old(self).field_ids,
                Builder::inline_ok(*old(self), *self),
                inlines_v(out@) + attached_of(node.children@.skip(i as int), src, fids)
                    == attached_of(node.children@, src, fids),
            decreases node.children@.len() - i,
        {
            proof {
                lemma_forest_size_elem(node.children@, i as int);
                assert(node.children@.skip(i as int).drop_first() =~= node.children@.skip(i + 1));
                assert(node.children@.skip(i as int)[0] == node.children@[i as int]);
            }
            let child = &node.children[i];
            match child.kind {
                NodeKind::OpenMark => {},
                NodeKind::CloseMark => {},
                NodeKind::FreeFormOpen => {},
                NodeKind::FreeFormClose => {},
                _ => {
                    self.handle_segment(child, &mut out);
                },
            }
            proof {
                assert(inlines_v(out@) + attached_of(node.children@.skip(i + 1), src, fids)
                    =~= attached_of(node.children@, src, fids));
            }
            i = i + 1;
        }
        proof {
            assert(node.children@.skip(node.children@.len() as int) =~= Seq::<SyntaxNode>::empty());
            assert(inlines_v(out@) + Seq::<InlineV>::empty() =~= inlines_v(out@));
        }
        out
    }

    /// The text of a delimited modifier (verbatim, inline math): the node's
    /// span narrowed past its delimiter marks. A span that closes before it
    /// opens yields the empty text instead of failing.
    fn get_delimited_modifier_text(&self, node: &SyntaxNode) -> (r: String)
        requires
            node_wf(*node, self.src_len()),
        ensures
            r@ == delim_text(*node, self.source@),
    {
        let mut start: usize = node.start;
        let mut end: usize = node.end;
        let mut i: usize = 0;
        proof {
            crate::tree::lemma_node_span(*node, self.src_len());
        }
        while i < node.children.len()
            invariant
                0 <= i <= node.children@.len(),
                node_wf(*node, self.src_len()),
                (start as nat, end as nat) == delim_bounds(
                    node.children@.take(i as int),
                    node.start as nat,
                    node.end as nat,
                ),
                start <= self.src_len(),
                end <= self.src_len(),
            decreases node.children@.len() - i,
        {
            let child = &node.children[i];
            proof {
                crate::tree::lemma_child_wf(*node, i as int, self.src_len());
                assert(node.children@.take(i + 1).drop_last() =~= node.children@.take(i as int));
                assert(node.children@.take(i + 1).last() == node.children@[i as int]);
            }
            match child.kind {
                NodeKind::OpenMark | NodeKind::FreeFormOpen => {
                    if child.end > start {
                        start = child.end;
                    }
                },
                NodeKind::CloseMark | NodeKind::FreeFormClose => {
                    if child.start < end {
                        end = child.start;
                    }
                },
                _ => {},
            }
            i = i + 1;
        }
        proof {
            assert(node.children@.take(node.children@.len() as int) =~= node.children@);
        }
        if start <= end {
            String::from_str(self.source.as_str().substring_char(start, end))
        } else {
            String::new()
        }
    }

    /// Handles a link or anchor node: collects the description's inlines,
    /// reads the location's target, and — for an anchor with a location —
    /// registers the target under the description text. A reference without
    /// a description shows the target text itself. The result is exactly
    /// `link_result`, and the registration half of forward referencing holds:
    /// after an anchor node with a location, its name maps to its target.
    fn handle_link(&mut self, node: &SyntaxNode, is_anchor: bool) -> (r: Inline)
        requires
            node_wf(*node, old(self).src_len()),
        ensures
            Builder::inline_ok(*old(self), *final(self)),
            inline_v(r) == link_result(
                *node,
                old(self).source@,
                old(self).field_ids,
                is_anchor,
            ),
            ({
                let st = link_scan(
                    node.children@,
                    old(self).source@,
                    old(self).field_ids,
                    empty_scan(),
                );
                (is_anchor && st.has_loc) ==> final(self).context.anchors_map().contains_key(
                    st.name,
                ) && final(self).context.anchors_map()[st.name] == target_of(st.kind, st.text)
            }),
        decreases node_size(*node), 1int,
    {
        let ghost src = self.source@;
        let ghost fids = self.field_ids;
        let mut has_description: bool = false;
        let mut text_inlines: Vec<Inline> = Vec::new();
        let mut has_location: bool = false;
        let mut anchor_name = String::new();
        let mut target_kind = NodeKind::Unknown;
        let mut target_text = String::new();
        proof {
            assert(node.children@.skip(0) =~= node.children@);
            assert(inlines_v(text_inlines@) =~= Seq::<InlineV>::empty());
        }
        let mut i: usize = 0;
        while i < node.children.len()
            invariant
                0 <= i <= node.children@.len(),
                node_wf(*node, old(self).src_len()),
                src == old(self).source@,
                fids == old(self).field_ids,
                Builder::inline_ok(*old(self), *self),
                link_scan(
                    node.children@.skip(i as int),
                    src,
                    fids,
                    LinkScanV {
                        has_desc: has_description,
                        descr: inlines_v(text_inlines@),
                        name: anchor_name@,
                        has_loc: has_location,
                        kind: target_kind,
                        text: target_text@,
                    },
                ) == link_scan(node.children@, src, fids, empty_scan()),
            decreases node.children@.len() - i,
        {
            proof {
                lemma_forest_size_elem(node.children@, i as int);
                assert(node.children@.skip(i as int).drop_first() =~= node.children@.skip(i + 1));
                assert(node.children@.skip(i as int)[0] == node.children@[i as int]);
            }
            let ghost stv = LinkScanV {
                has_desc: has_description,
                descr: inlines_v(text_inlines@),
                name: anchor_name@,
                has_loc: has_location,
                kind: target_kind,
                text: target_text@,
            };
            let child = &node.children[i];
            match child.kind {
                NodeKind::LinkDescription => {
                    proof {
                        crate::tree::lemma_child_wf(*node, i as int, old(self).src_len());
                    }
                    has_description = true;
                    self.handle_link_description(child, &mut text_inlines);
                    anchor_name = String::from_str(
                        self.source.as_str().substring_char(child.start, child.end),
                    );
                },
                NodeKind::LinkLocation => {
                    let ghost k0 = target_kind;
                    let ghost t0 = target_text@;
                    let mut j: usize = 0;
                    proof {
                        crate::tree::lemma_child_wf(*node, i as int, old(self).src_len());
                        assert(child.children@.skip(0) =~= child.children@);
                    }
                    while j < child.children.len()
                        invariant
                            0 <= j <= child.children@.len(),
                            node_wf(*child, self.src_len()),
                            src == self.source@,
                            fids == self.field_ids,
                            loc_scan(
                                child.children@.skip(j as int),
                                src,
                                fids,
                                target_kind,
                                target_text@,
                            ) == loc_scan(child.children@, src, fids, k0, t0),
                        decreases child.children@.len() - j,
                    {
                        let gc = &child.children[j];
                        proof {
                            crate::tree::lemma_child_wf(*child, j as int, self.src_len());
                            assert(child.children@.skip(j as int).drop_first()
                                =~= child.children@.skip(j + 1));
                            assert(child.children@.skip(j as int)[0] == child.children@[j as int]);
                        }
                        match gc.kind {
                            NodeKind::LinkTargetUrl | NodeKind::LinkTargetExternalFile
                                | NodeKind::LinkTargetHeading { .. } => {
                                target_kind = gc.kind;
                            },
                            _ => {},
                        }
                        if field_is(gc, self.field_ids.text) {
                            target_text = String::from_str(
                                self.source.as_str().substring_char(gc.start, gc.end),
                            );
                        }
                        j = j + 1;
                    }
                    proof {
                        assert(child.children@.skip(child.children@.len() as int)
                            =~= Seq::<SyntaxNode>::empty());
                    }
                    has_location = true;
                },
                _ => {},
            }
            proof {
                let now = LinkScanV {
                    has_desc: has_description,
                    descr: inlines_v(text_inlines@),
                    name: anchor_name@,
                    has_loc: has_location,
                    kind: target_kind,
                    text: target_text@,
                };
                if node.children@[i as int].kind == NodeKind::LinkDescription {
                    assert(now == LinkScanV {
                        has_desc: true,
                        descr: stv.descr + desc_children_of(
                            node.children@[i as int].children@,
                            src,
                            fids,
                        ),
                        name: src.subrange(
                            node.children@[i as int].start as int,
                            node.children@[i as int].end as int,
                        ),
                        ..stv
                    });
                } else if node.children@[i as int].kind == NodeKind::LinkLocation {
                    let p = loc_scan(
                        node.children@[i as int].children@,
                        src,
                        fids,
                        stv.kind,
                        stv.text,
                    );
                    assert(now == LinkScanV { has_loc: true, kind: p.0, text: p.1, ..stv });
                } else {
                    assert(now == stv);
                }
                assert(link_scan(node.children@.skip(i + 1), src, fids, now) == link_scan(
                    node.children@,
                    src,
                    fids,
                    empty_scan(),
                ));
            }
            i = i + 1;
        }
        proof {
            assert(node.children@.skip(node.children@.len() as int) =~= Seq::<SyntaxNode>::empty());
        }
        let ghost st = link_scan(node.children@, src, fids, empty_scan());
        if is_anchor && has_location {
            let t = make_target(target_kind, target_text.clone());
            self.context.add_anchor(anchor_name.clone(), t);
        }
        if !has_description {
            let ghost before = text_inlines@;
            text_inlines.push(Inline::Str(target_text.clone()));
            proof {
                lemma_inlines_v(before);
                lemma_inlines_v(text_inlines@);
                assert(inlines_v(text_inlines@) =~= st.descr.push(InlineV::StrV(st.text)));
            }
        }
        if is_anchor {
            Inline::Anchor(text_inlines, anchor_name)
        } else {
            Inline::Link(text_inlines, make_target(target_kind, target_text))
        }
    }

    /// The description's inline content: the children of each `text` field,
    /// handled as segments.
    fn handle_link_description(&mut self, node: &SyntaxNode, inlines: &mut Vec<Inline>)
        requires
            node_wf(*node, old(self).src_len()),
        ensures
            Builder::inline_ok(*old(self), *final(self)),
            inlines_v(final(inlines)@) == inlines_v(old(inlines)@) + desc_children_of(
                node.children@,
                old(self).source@,
                old(self).field_ids,
            ),
        decreases node_size(*node), 0int,
    {
        let ghost src = self.source@;
        let ghost fids = self.field_ids;
        let ghost base = inlines_v(inlines@);
        let mut i: usize = 0;
        proof {
            assert(node.children@.skip(0) =~= node.children@);
            assert(base + desc_children_of(node.children@, src, fids) =~= base + desc_children_of(
                node.children@.skip(0),
                src,
                fids,
            ));
        }
        while i < node.children.len()
            invariant
                0 <= i <= node.children@.len(),
                node_wf(*node, old(self).src_len()),
                src == old(self).source@,
                fids == old(self).field_ids,
                base == inlines_v(old(inlines)@),
                Builder::inline_ok(*old(self), *self),
                inlines_v(inlines@) + desc_children_of(node.children@.skip(i as int), src, fids)
                    == base + desc_children_of(node.children@, src, fids),
            decreases node.children@.len() - i,
        {
            proof {
                lemma_forest_size_elem(node.children@, i as int);
                assert(node.children@.skip(i as int).drop_first() =~= node.children@.skip(i + 1));
                assert(node.children@.skip(i as int)[0] == node.children@[i as int]);
            }
            let child = &node.children[i];
            let ghost cur = inlines_v(inlines@);
            if field_is(child, self.field_ids.text) {
                let mut j: usize = 0;
                proof {
                    crate::tree::lemma_child_wf(*node, i as int, old(self).src_len());
                    assert(child.children@.skip(0) =~= child.children@);
                    assert(cur + text_children_of(child.children@.skip(0), src, fids) =~= cur
                        + text_children_of(child.children@, src, fids));
                }
                while j < child.children.len()
                    invariant
                        0 <= j <= child.children@.len(),
                        node_wf(*node, old(self).src_len()),
                        0 <= i < node.children@.len(),
                        *child == node.children@[i as int],
                        node_wf(*child, old(self).src_len()),
                        src == old(self).source@,
                        fids == old(self).field_ids,
                        Builder::inline_ok(*old(self), *self),
                        inlines_v(inlines@) + text_children_of(
                            child.children@.skip(j as int),
                            src,
                            fids,
                        ) == cur + text_children_of(child.children@, src, fids),
                    decreases child.children@.len() - j,
                {
                    proof {
                        lemma_forest_size_elem(node.children@, i as int);
                        lemma_forest_size_elem(child.children@, j as int);
                        assert(child.children@.skip(j as int).drop_first() =~= child.children@.skip(
                            j + 1,
                        ));
                        assert(child.children@.skip(j as int)[0] == child.children@[j as int]);
                    }
                    let ghost cur2 = inlines_v(inlines@);
                    self.handle_segment(&child.children[j], inlines);
                    proof {
                        assert((cur2 + inlines_of(child.children@[j as int], src, fids))
                            + text_children_of(child.children@.skip(j + 1), src, fids) =~= cur2 + (
                        inlines_of(child.children@[j as int], src, fids) + text_children_of(
                            child.children@.skip(j + 1),
                            src,
                            fids,
                        )));
                    }
                    j = j + 1;
                }
                proof {
                    assert(child.children@.skip(child.children@.len() as int)
                        =~= Seq::<SyntaxNode>::empty());
                    assert(inlines_v(inlines@) + Seq::<InlineV>::empty() =~= inlines_v(inlines@));
                    assert(inlines_v(inlines@) =~= cur + text_children_of(
                        child.children@,
                        src,
                        fids,
                    ));
                }
            }
            proof {
                assert(inlines_v(inlines@) + desc_children_of(
                    node.children@.skip(i + 1),
                    src,
                    fids,
                ) =~= base + desc_children_of(node.children@, src, fids));
            }
            i = i + 1;
        }
        proof {
            assert(node.children@.skip(node.children@.len() as int) =~= Seq::<SyntaxNode>::empty());
            assert(inlines_v(inlines@) + Seq::<InlineV>::empty() =~= inlines_v(inlines@));
        }
    }
}

/// The link target a location's kind and text denote, as `target_of` says.
fn make_target(kind: NodeKind, text: String) -> (r: LinkType)
    ensures
        crate::ir::link_v(r) == target_of(kind, text@),
{
    match kind {
        NodeKind::LinkTargetUrl => LinkType::Href(text),
        NodeKind::LinkTargetExternalFile => LinkType::File(text),
        NodeKind::LinkTargetHeading { level } => LinkType::DocumentLink(
            DocumentLinkType::Heading(level as i32),
            text,
        ),
        _ => LinkType::Href(text),
    }
}

} // verus!
