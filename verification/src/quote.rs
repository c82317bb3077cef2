use vstd::prelude::*;
use crate::document::{lemma_scopes_v_of, scopes_v_of};
use crate::extensions::ext_icons_of;
use crate::field_ids::FieldIds;
use crate::ir::{block_v, blocks_v, lemma_blocks_v, Block, BlockV, InlineV};
use crate::para_scan;
use crate::tree::{
    forest_size, lemma_forest_size_elem, lemma_forest_size_first, node_size, node_wf, NodeKind,
    SyntaxNode,
};
use crate::TodoSymbols;
use crate::Builder;

verus! {

/// Quote depths are distinct node kinds, bounded at six, so the builder keeps
/// one pending-block buffer per depth `0..6` plus the depth last written to.
/// The buffer array keeps merging right when the quote depth falls by more
/// than one level between consecutive paragraphs.
pub struct QuoteBuilder {
    blocks: Vec<Vec<Block>>,
    last_level: usize,
}

/// What closing out to `level` does: while the last written depth is deeper,
/// the deeper buffer is wrapped as one `BlockQuote` appended to the buffer one
/// level up, and emptied.
pub open spec fn spec_merge(bl: Seq<Seq<BlockV>>, last: nat, level: nat) -> Seq<Seq<BlockV>>
    decreases last,
{
    if level < last && last < bl.len() {
        let moved = BlockV::BlockQuoteV(bl[last as int]);
        let bl2 = bl.update(last - 1, bl[last - 1].push(moved)).update(last as int, Seq::empty());
        spec_merge(bl2, (last - 1) as nat, level)
    } else {
        bl
    }
}

/// The state the quote walk folds through: the six buffers, the last level
/// written, and the pending inline collector.
pub struct QuoteStateV {
    pub bl: Seq<Seq<BlockV>>,
    pub last: nat,
    pub coll: Seq<InlineV>,
}

/// What one quote node's children do to the state at `level`: nested quote
/// kinds recurse, a paragraph closes the deeper levels out and joins this
/// level's buffer (unless it came out empty), a task-status extension adds its
/// symbols to the collector, everything else is passed over.
pub open spec fn quote_children_scan(
    cs: Seq<SyntaxNode>,
    level: nat,
    st: QuoteStateV,
    src: Seq<char>,
    fids: FieldIds,
    syms: TodoSymbols,
) -> QuoteStateV
    decreases forest_size(cs), 1int
        via quote_children_scan_dec
{
    if cs.len() == 0 {
        st
    } else {
        let c = cs[0];
        let st2 = match c.kind {
            NodeKind::QuoteLevel { level: l } => {
                if 1 <= l <= 6 {
                    quote_level_scan(c, (l - 1) as nat, st, src, fids, syms)
                } else {
                    st
                }
            },
            NodeKind::Paragraph => {
                let merged = spec_merge(st.bl, st.last, level);
                let ps = para_scan(c.children@, src, fids, Seq::empty(), st.coll);
                let content = if ps.0.len() > 0 {
                    seq![BlockV::ParagraphV(ps.0)]
                } else {
                    Seq::<BlockV>::empty()
                };
                QuoteStateV {
                    bl: merged.update(level as int, merged[level as int] + content),
                    last: level,
                    coll: Seq::empty(),
                }
            },
            NodeKind::DetachedModifierExtension => QuoteStateV {
                coll: st.coll + ext_icons_of(c.children@, syms),
                ..st
            },
            _ => st,
        };
        quote_children_scan(cs.drop_first(), level, st2, src, fids, syms)
    }
}

#[via_fn]
proof fn quote_children_scan_dec(
    cs: Seq<SyntaxNode>,
    level: nat,
    st: QuoteStateV,
    src: Seq<char>,
    fids: FieldIds,
    syms: TodoSymbols,
) {
    if cs.len() > 0 {
        lemma_forest_size_first(cs);
    }
}

/// What one quote node does at `level`: its children fold through, then the
/// deeper buffers close out to `level`.
pub open spec fn quote_level_scan(
    n: SyntaxNode,
    level: nat,
    st: QuoteStateV,
    src: Seq<char>,
    fids: FieldIds,
    syms: TodoSymbols,
) -> QuoteStateV
    decreases node_size(n), 0int,
{
    let s1 = quote_children_scan(n.children@, level, st, src, fids, syms);
    QuoteStateV { bl: spec_merge(s1.bl, s1.last, level), last: level, coll: s1.coll }
}

/// What a run of sibling quote nodes does: each recognised depth kind folds
/// through at its level.
pub open spec fn quote_parse_scan(
    siblings: Seq<SyntaxNode>,
    st: QuoteStateV,
    src: Seq<char>,
    fids: FieldIds,
    syms: TodoSymbols,
) -> QuoteStateV
    decreases siblings.len(),
{
    if siblings.len() == 0 {
        st
    } else {
        let c = siblings[0];
        let st2 = match c.kind {
            NodeKind::QuoteLevel { level: l } => {
                if 1 <= l <= 6 {
                    quote_level_scan(c, (l - 1) as nat, st, src, fids, syms)
                } else {
                    st
                }
            },
            _ => st,
        };
        quote_parse_scan(siblings.drop_first(), st2, src, fids, syms)
    }
}

impl QuoteBuilder {
    /// The six pending buffers.
    pub closed spec fn blocks_vv(&self) -> Seq<Seq<BlockV>> {
        scopes_v_of(self.blocks@)
    }

    /// The deepest level written since the last merge.
    pub closed spec fn level(&self) -> nat {
        self.last_level as nat
    }

    pub open spec fn wf(&self) -> bool {
        self.blocks_vv().len() == 6 && self.level() < 6
    }

    /// A fresh builder: six empty buffers, last level zero.
    pub fn new() -> (r: Self)
        ensures
            r.wf(),
            r.level() == 0,
            r.blocks_vv() == Seq::new(6, |i: int| Seq::<BlockV>::empty()),
    {
        let mut blocks: Vec<Vec<Block>> = Vec::new();
        let mut i: usize = 0;
        while i < 6
            invariant
                0 <= i <= 6,
                blocks@.len() == i,
                forall|j: int| 0 <= j < i ==> (#[trigger] blocks@[j])@.len() == 0,
            decreases 6 - i,
        {
            blocks.push(Vec::new());
            i = i + 1;
        }
        let r = QuoteBuilder { blocks, last_level: 0 };
        proof {
            lemma_scopes_v_of(r.blocks@);
            assert forall|j: int| 0 <= j < 6 implies #[trigger] scopes_v_of(r.blocks@)[j]
                == Seq::<BlockV>::empty() by {
                assert(blocks_v(r.blocks@[j]@) =~= Seq::<BlockV>::empty());
            }
            assert(r.blocks_vv() =~= Seq::new(6, |i: int| Seq::<BlockV>::empty()));
        }
        r
    }

    /// Parses a run of sibling quote nodes and returns the merged root
    /// buffer: the quote's body, exactly as the fold of the siblings says.
    pub fn parse(self, b: &mut Builder, siblings: &Vec<SyntaxNode>) -> (r: Vec<Block>)
        requires
            self.wf(),
            old(b).document.scopes_v().len() > 0,
            forall|i: int|
                0 <= i < siblings@.len() ==> node_wf(#[trigger] siblings@[i], old(b).src_len()),
        ensures
            Builder::frames_ok(*old(b), *final(b)),
            final(b).document.scopes_v() == old(b).document.scopes_v(),
            final(b).document.meta_pairs() == old(b).document.meta_pairs(),
            final(b).context.links_map() == old(b).context.links_map(),
            ({
                let s1 = quote_parse_scan(
                    siblings@,
                    QuoteStateV {
                        bl: self.blocks_vv(),
                        last: self.level(),
                        coll: old(b).document.collector_v(),
                    },
                    old(b).source@,
                    old(b).field_ids,
                    old(b).config.todo_symbols,
                );
                &&& blocks_v(r@) == spec_merge(s1.bl, s1.last, 0)[0]
                &&& final(b).document.collector_v() == s1.coll
            }),
    {
        let ghost src = b.source@;
        let ghost fids = b.field_ids;
        let ghost syms = b.config.todo_symbols;
        let ghost st0 = QuoteStateV {
            bl: self.blocks_vv(),
            last: self.level(),
            coll: b.document.collector_v(),
        };
        let mut this = self;
        let mut i: usize = 0;
        proof {
            assert(siblings@.skip(0) =~= siblings@);
        }
        while i < siblings.len()
            invariant
                0 <= i <= siblings@.len(),
                this.wf(),
                old(b).document.scopes_v().len() > 0,
                forall|k: int|
                    0 <= k < siblings@.len() ==> node_wf(#[trigger] siblings@[k], old(b).src_len()),
                src == old(b).source@,
                fids == old(b).field_ids,
                syms == old(b).config.todo_symbols,
                Builder::frames_ok(*old(b), *b),
                b.document.scopes_v() == old(b).document.scopes_v(),
                b.document.meta_pairs() == old(b).document.meta_pairs(),
                b.context.links_map() == old(b).context.links_map(),
                quote_parse_scan(
                    siblings@.skip(i as int),
                    QuoteStateV {
                        bl: this.blocks_vv(),
                        last: this.level(),
                        coll: b.document.collector_v(),
                    },
                    src,
                    fids,
                    syms,
                ) == quote_parse_scan(siblings@, st0, src, fids, syms),
            decreases siblings@.len() - i,
        {
            let ghost pre = *b;
            let node = &siblings[i];
            proof {
                assert(siblings@.skip(i as int).drop_first() =~= siblings@.skip(i + 1));
                assert(siblings@.skip(i as int)[0] == siblings@[i as int]);
            }
            match node.kind {
                NodeKind::QuoteLevel { level } => {
                    if 1 <= level && level <= 6 {
                        this.handle_quote_level(b, node, (level - 1) as usize);
                    }
                },
                _ => {},
            }
            proof {
                Builder::lemma_frames_ok_refl(pre);
                Builder::lemma_frames_ok_trans(*old(b), pre, *b);
            }
            i = i + 1;
        }
        proof {
            assert(siblings@.skip(siblings@.len() as int) =~= Seq::<SyntaxNode>::empty());
        }
        this.merge_quotes(0);
        let ghost blfinal = this.blocks_vv();
        let QuoteBuilder { mut blocks, .. } = this;
        proof {
            lemma_scopes_v_of(blocks@);
        }
        let mut root: Vec<Block> = Vec::new();
        core::mem::swap(&mut root, &mut blocks[0]);
        proof {
            assert(blocks_v(root@) == blfinal[0]);
        }
        root
    }

    /// Wraps and appends the buffers deeper than `level`, as `spec_merge`
    /// says, then records `level` as the last depth written.
    fn merge_quotes(&mut self, level: usize)
        requires
            old(self).wf(),
            level < 6,
        ensures
            final(self).wf(),
            final(self).level() == level,
            final(self).blocks_vv() == spec_merge(
                old(self).blocks_vv(),
                old(self).level(),
                level as nat,
            ),
    {
        proof {
            lemma_scopes_v_of(self.blocks@);
        }
        let mut i: usize = self.last_level;
        while i > level
            invariant
                0 <= i < 6,
                self.blocks@.len() == 6,
                self.blocks_vv().len() == 6,
                spec_merge(self.blocks_vv(), i as nat, level as nat) == spec_merge(
                    old(self).blocks_vv(),
                    old(self).level(),
                    level as nat,
                ),
            decreases i,
        {
            let ghost b0 = self.blocks@;
            let ghost bv0 = self.blocks_vv();
            proof {
                lemma_scopes_v_of(b0);
            }
            let mut temp: Vec<Block> = Vec::new();
            core::mem::swap(&mut temp, &mut self.blocks[i]);
            let wrapped = Block::BlockQuote(temp);
            let target = i - 1;
            self.blocks[target].push(wrapped);
            proof {
                lemma_scopes_v_of(self.blocks@);
                lemma_blocks_v(b0[target as int]@);
                lemma_blocks_v(self.blocks@[target as int]@);
                assert(self.blocks@[target as int]@ =~= b0[target as int]@.push(wrapped));
                assert(blocks_v(self.blocks@[target as int]@) =~= blocks_v(
                    b0[target as int]@,
                ).push(block_v(wrapped)));
                assert(blocks_v(Seq::<Block>::empty()) =~= Seq::<BlockV>::empty());
                assert(self.blocks_vv() =~= bv0.update(
                    target as int,
                    bv0[target as int].push(BlockV::BlockQuoteV(bv0[i as int])),
                ).update(i as int, Seq::<BlockV>::empty()));
            }
            i = i - 1;
        }
        self.last_level = level;
    }

    /// Handles one quote node at `level`: nested quote kinds recurse,
    /// paragraphs first close the deeper levels out and then join this
    /// level's buffer, prefixes are passed over, unknown kinds yield nothing —
    /// exactly what `quote_level_scan` folds the state to.
    fn handle_quote_level(&mut self, b: &mut Builder, node: &SyntaxNode, level: usize)
        requires
            old(self).wf(),
            level < 6,
            old(b).document.scopes_v().len() > 0,
            node_wf(*node, old(b).src_len()),
        ensures
            final(self).wf(),
            final(self).level() == level,
            Builder::frames_ok(*old(b), *final(b)),
            final(b).document.scopes_v() == old(b).document.scopes_v(),
            final(b).document.meta_pairs() == old(b).document.meta_pairs(),
            final(b).context.links_map() == old(b).context.links_map(),
            ({
                let st = quote_level_scan(
                    *node,
                    level as nat,
                    QuoteStateV {
                        bl: old(self).blocks_vv(),
                        last: old(self).level(),
                        coll: old(b).document.collector_v(),
                    },
                    old(b).source@,
                    old(b).field_ids,
                    old(b).config.todo_symbols,
                );
                &&& final(self).blocks_vv() == st.bl
                &&& final(b).document.collector_v() == st.coll
            }),
        decreases node_size(*node),
    {
        let ghost src = b.source@;
        let ghost fids = b.field_ids;
        let ghost syms = b.config.todo_symbols;
        let ghost st0 = QuoteStateV {
            bl: self.blocks_vv(),
            last: self.level(),
            coll: b.document.collector_v(),
        };
        let mut i: usize = 0;
        proof {
            assert(node.children@.skip(0) =~= node.children@);
        }
        while i < node.children.len()
            invariant
                0 <= i <= node.children@.len(),
                self.wf(),
                level < 6,
                node_wf(*node, old(b).src_len()),
                old(b).document.scopes_v().len() > 0,
                src == old(b).source@,
                fids == old(b).field_ids,
                syms == old(b).config.todo_symbols,
                Builder::frames_ok(*old(b), *b),
                b.document.scopes_v() == old(b).document.scopes_v(),
                b.document.meta_pairs() == old(b).document.meta_pairs(),
                b.context.links_map() == old(b).context.links_map(),
                quote_children_scan(
                    node.children@.skip(i as int),
                    level as nat,
                    QuoteStateV {
                        bl: self.blocks_vv(),
                        last: self.level(),
                        coll: b.document.collector_v(),
                    },
                    src,
                    fids,
                    syms,
                ) == quote_children_scan(node.children@, level as nat, st0, src, fids, syms),
            decreases node.children@.len() - i,
        {
            proof {
                lemma_forest_size_elem(node.children@, i as int);
                assert(node.children@.skip(i as int).drop_first() =~= node.children@.skip(i + 1));
                assert(node.children@.skip(i as int)[0] == node.children@[i as int]);
            }
            let ghost pre = *b;
            let child = &node.children[i];
            match child.kind {
                NodeKind::QuoteLevel { level: l } => {
                    if 1 <= l && l <= 6 {
                        self.handle_quote_level(b, child, (l - 1) as usize);
                    }
                },
                NodeKind::QuotePrefix => {},
                NodeKind::Paragraph => {
                    self.merge_quotes(level);
                    let ghost merged = self.blocks_vv();
                    let ghost coll_in = b.document.collector_v();
                    let ghost s0 = b.document.scopes_v();
                    b.document.push_scope();
                    b.handle_paragraph(child);
                    let mut scope = b.document.pop_scope();
                    let ghost ps = para_scan(child.children@, src, fids, Seq::empty(), coll_in);
                    let ghost content = if ps.0.len() > 0 {
                        seq![BlockV::ParagraphV(ps.0)]
                    } else {
                        Seq::<BlockV>::empty()
                    };
                    proof {
                        let s1 = s0.push(Seq::<BlockV>::empty());
                        if ps.0.len() > 0 {
                            let blk = BlockV::ParagraphV(ps.0);
                            assert(crate::document::spec_add_block(s1, Seq::empty(), blk).last()
                                =~= seq![blk]);
                            assert(crate::document::spec_add_block(
                                s1,
                                Seq::empty(),
                                blk,
                            ).drop_last() =~= s0);
                        } else {
                            assert(s1.drop_last() =~= s0);
                        }
                        assert(blocks_v(scope@) =~= content);
                        assert(b.document.scopes_v() =~= pre.document.scopes_v());
                        lemma_scopes_v_of(self.blocks@);
                    }
                    let ghost scope0 = scope@;
                    let ghost slot0 = self.blocks@[level as int]@;
                    let slot = &mut self.blocks[level];
                    slot.append(&mut scope);
                    proof {
                        lemma_scopes_v_of(self.blocks@);
                        lemma_blocks_v(slot0);
                        lemma_blocks_v(scope0);
                        lemma_blocks_v(self.blocks@[level as int]@);
                        assert(self.blocks@[level as int]@ =~= slot0 + scope0);
                        assert forall|k: int|
                            0 <= k < slot0.len() + scope0.len() implies #[trigger] blocks_v(
                            self.blocks@[level as int]@,
                        )[k] == (blocks_v(slot0) + blocks_v(scope0))[k] by {
                            if k < slot0.len() {
                                assert((slot0 + scope0)[k] == slot0[k]);
                            } else {
                                assert((slot0 + scope0)[k] == scope0[k - slot0.len()]);
                            }
                        }
                        assert(blocks_v(self.blocks@[level as int]@) =~= blocks_v(slot0)
                            + blocks_v(scope0));
                        assert(blocks_v(slot0) == merged[level as int]);
                        assert(self.blocks_vv() =~= merged.update(
                            level as int,
                            merged[level as int] + content,
                        ));
                    }
                },
                NodeKind::DetachedModifierExtension => {
                    b.handle_detached_ext(child);
                },
                _ => {},
            }
            proof {
                Builder::lemma_frames_ok_refl(pre);
                Builder::lemma_frames_ok_trans(*old(b), pre, *b);
            }
            i = i + 1;
        }
        proof {
            assert(node.children@.skip(node.children@.len() as int) =~= Seq::<SyntaxNode>::empty());
        }
        self.merge_quotes(level);
    }
}

} // verus!
