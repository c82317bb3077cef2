use vstd::prelude::*;
use crate::document::{lemma_spec_add_block_prefix, spec_add_block};
use crate::extensions::ext_icons_of;
use crate::field_ids::FieldIds;
use crate::ir::{
    block_v, entries_v, lemma_entries_v, Block, BlockV, InlineV, ListEntry,
};
use crate::para_scan;
use crate::tree::{
    forest_size, lemma_forest_size_elem, lemma_forest_size_skip, lemma_forest_size_skip_le,
    node_size, node_wf, NodeKind, SyntaxNode,
};
use crate::TodoSymbols;
use crate::Builder;

verus! {

/// The list type a level is being built as.
#[derive(Clone, Copy, Debug, PartialEq, Eq, Structural)]
pub enum ListType {
    /// No list node was processed yet, so the type is unknown.
    Unknown,
    /// The level is an ordered list.
    Ordered,
    /// The level is an unordered list.
    Unordered,
}

/// Why building one level stopped consuming siblings.
#[derive(Clone, Copy, Debug, PartialEq, Eq, Structural)]
pub enum ExitCondition {
    /// There are no more siblings.
    EndOfNodes,
    /// The next sibling's nesting level is shallower than the level being
    /// built; the caller one level up picks it back up.
    LevelIsHigher,
    /// The next sibling's list type differs from the level's; it starts a new
    /// list at the caller.
    TypeMismatch,
}

/// The result of building one level: the built block, the level's type, why
/// building stopped, and the index of the first unconsumed sibling.
pub struct BuildListsResult {
    pub block: Block,
    pub list_type: ListType,
    pub exit: ExitCondition,
    pub next: usize,
}

/// The zero-based nesting level and type a list node kind encodes, if any.
pub open spec fn spec_list_kind_info(k: NodeKind) -> Option<(usize, ListType)> {
    match k {
        NodeKind::UnorderedList { level } => {
            if 1 <= level <= 6 {
                Some((((level - 1) as usize), ListType::Unordered))
            } else {
                None
            }
        },
        NodeKind::OrderedList { level } => {
            if 1 <= level <= 6 {
                Some((((level - 1) as usize), ListType::Ordered))
            } else {
                None
            }
        },
        _ => None,
    }
}

fn list_kind_info(k: NodeKind) -> (r: Option<(usize, ListType)>)
    ensures
        r == spec_list_kind_info(k),
        match r {
            Some(p) => p.0 < 6,
            None => true,
        },
{
    match k {
        NodeKind::UnorderedList { level } => {
            if 1 <= level && level <= 6 {
                Some((((level - 1) as usize), ListType::Unordered))
            } else {
                None
            }
        },
        NodeKind::OrderedList { level } => {
            if 1 <= level && level <= 6 {
                Some((((level - 1) as usize), ListType::Ordered))
            } else {
                None
            }
        },
        _ => None,
    }
}

/// The block a finished level becomes: `Null` when no list node was consumed,
/// else the ordered or unordered list of the entries.
pub open spec fn mk_list(t: ListType, entries: Seq<Seq<BlockV>>) -> BlockV {
    match t {
        ListType::Unknown => BlockV::NullV,
        ListType::Ordered => BlockV::OrderedListV(entries),
        ListType::Unordered => BlockV::BulletListV(entries),
    }
}

fn list_from_type(list_type: ListType, items: Vec<ListEntry>) -> (r: Block)
    ensures
        block_v(r) == mk_list(list_type, entries_v(items@)),
        list_type == ListType::Unknown ==> r == Block::Null,
        list_type is Ordered ==> r is OrderedList,
        list_type is Unordered ==> r is BulletList,
{
    match list_type {
        ListType::Unknown => Block::Null,
        ListType::Ordered => Block::OrderedList(items),
        ListType::Unordered => Block::BulletList(items),
    }
}

/// `k` synthetic single-entry wrapper lists of type `t` around `b`: what a
/// level jump inserts, one wrapper per skipped level.
pub open spec fn wrap_block(t: ListType, b: BlockV, k: nat) -> BlockV
    decreases k,
{
    if k == 0 {
        b
    } else {
        wrap_block(t, mk_list(t, seq![seq![b]]), (k - 1) as nat)
    }
}

// ---------------------------------------------------------------------------
// The reconstruction, at the specification level: a mirror of the level
// builder, the entry builder and the driver over the sibling run.
// ---------------------------------------------------------------------------

/// The state building one level folds into: the entries so far, the level's
/// type, why it stopped, the first unconsumed sibling, and the collector.
pub struct BuildScanV {
    pub entries: Seq<Seq<BlockV>>,
    pub list_type: ListType,
    pub exit: ExitCondition,
    pub next: int,
    pub coll: Seq<InlineV>,
}

/// Building one level from `idx`: the first recognised sibling fixes the
/// type and a later sibling of the other type halts the level; an equal-level
/// sibling is consumed as one entry; a deeper sibling becomes the last
/// entry's sole child, wrapped once per skipped level, and building resumes
/// at the first sibling the deeper run left unconsumed; a shallower sibling
/// halts the level for the caller; unrecognised kinds are passed over.
pub open spec fn build_scan(
    s: Seq<SyntaxNode>,
    idx: int,
    level: int,
    lt: ListType,
    entries: Seq<Seq<BlockV>>,
    coll: Seq<InlineV>,
    src: Seq<char>,
    fids: FieldIds,
    syms: TodoSymbols,
) -> BuildScanV
    decreases forest_size(s.skip(idx)), 6 - level, 1int
        via build_scan_dec
{
    if idx < 0 || idx >= s.len() || level < 0 || level > 6 {
        BuildScanV {
            entries,
            list_type: lt,
            exit: ExitCondition::EndOfNodes,
            next: s.len() as int,
            coll,
        }
    } else {
        match spec_list_kind_info(s[idx].kind) {
            None => build_scan(s, idx + 1, level, lt, entries, coll, src, fids, syms),
            Some(p) => {
                if lt != ListType::Unknown && p.1 != lt {
                    BuildScanV {
                        entries,
                        list_type: lt,
                        exit: ExitCondition::TypeMismatch,
                        next: idx,
                        coll,
                    }
                } else {
                    let lt2 = if lt == ListType::Unknown {
                        p.1
                    } else {
                        lt
                    };
                    if level < p.0 {
                        let r = build_scan(
                            s,
                            idx,
                            p.0 as int,
                            ListType::Unknown,
                            Seq::empty(),
                            coll,
                            src,
                            fids,
                            syms,
                        );
                        let listb = wrap_block(
                            r.list_type,
                            mk_list(r.list_type, r.entries),
                            (p.0 - level - 1) as nat,
                        );
                        let entries2 = entries.push(seq![listb]);
                        if r.exit == ExitCondition::EndOfNodes {
                            BuildScanV {
                                entries: entries2,
                                list_type: lt2,
                                exit: ExitCondition::EndOfNodes,
                                next: s.len() as int,
                                coll: r.coll,
                            }
                        } else {
                            let nx = if r.next > idx && r.next <= s.len() {
                                r.next
                            } else {
                                idx + 1
                            };
                            build_scan(s, nx, level, lt2, entries2, r.coll, src, fids, syms)
                        }
                    } else if level == p.0 {
                        let e = entry_scan(s[idx], level, coll, src, fids, syms);
                        build_scan(s, idx + 1, level, lt2, entries.push(e.0), e.1, src, fids, syms)
                    } else {
                        BuildScanV {
                            entries,
                            list_type: lt2,
                            exit: ExitCondition::LevelIsHigher,
                            next: idx,
                            coll,
                        }
                    }
                }
            },
        }
    }
}

#[via_fn]
proof fn build_scan_dec(
    s: Seq<SyntaxNode>,
    idx: int,
    level: int,
    lt: ListType,
    entries: Seq<Seq<BlockV>>,
    coll: Seq<InlineV>,
    src: Seq<char>,
    fids: FieldIds,
    syms: TodoSymbols,
) {
    if 0 <= idx < s.len() {
        lemma_forest_size_skip(s, idx);
        assert forall|m: int| idx + 1 <= m <= s.len() implies forest_size(s.skip(m)) < forest_size(
            s.skip(idx),
        ) by {
            lemma_forest_size_skip_le(s, idx + 1, m);
        }
    }
}

/// What one entry node's children fold into at `level`: paragraphs append
/// their block, nested deeper runs append (after flushing a pending collector
/// as one `Plain` block) the list they build, task statuses feed the
/// collector, prefixes and unknown kinds are passed over.
pub open spec fn entry_scan(
    n: SyntaxNode,
    level: int,
    coll: Seq<InlineV>,
    src: Seq<char>,
    fids: FieldIds,
    syms: TodoSymbols,
) -> (Seq<BlockV>, Seq<InlineV>)
    decreases node_size(n), 6 - level, 0int
        via entry_scan_dec
{
    entry_children_scan(n.children@, 0, level, Seq::empty(), coll, src, fids, syms)
}

#[via_fn]
proof fn entry_scan_dec(
    n: SyntaxNode,
    level: int,
    coll: Seq<InlineV>,
    src: Seq<char>,
    fids: FieldIds,
    syms: TodoSymbols,
) {
    assert(n.children@.skip(0) =~= n.children@);
}

pub open spec fn entry_children_scan(
    cs: Seq<SyntaxNode>,
    j: int,
    level: int,
    blocks: Seq<BlockV>,
    coll: Seq<InlineV>,
    src: Seq<char>,
    fids: FieldIds,
    syms: TodoSymbols,
) -> (Seq<BlockV>, Seq<InlineV>)
    decreases forest_size(cs.skip(j)), 6 - level, 2int
        via entry_children_scan_dec
{
    if j < 0 || j >= cs.len() || level < 0 || level > 5 {
        (blocks, coll)
    } else {
        let c = cs[j];
        match c.kind {
            NodeKind::UnorderedList { .. } | NodeKind::OrderedList { .. } => {
                let r = build_scan(
                    cs,
                    j,
                    level + 1,
                    ListType::Unknown,
                    Seq::empty(),
                    coll,
                    src,
                    fids,
                    syms,
                );
                let blk = mk_list(r.list_type, r.entries);
                let blocks2 = (if r.coll.len() > 0 {
                    blocks.push(BlockV::PlainV(r.coll))
                } else {
                    blocks
                }).push(blk);
                let j2 = if r.exit == ExitCondition::EndOfNodes {
                    r.next
                } else {
                    r.next + 1
                };
                let j3 = if j2 > j && j2 <= cs.len() {
                    j2
                } else {
                    j + 1
                };
                entry_children_scan(cs, j3, level, blocks2, Seq::empty(), src, fids, syms)
            },
            NodeKind::Paragraph => {
                let ps = para_scan(c.children@, src, fids, Seq::empty(), coll);
                let blocks2 = if ps.0.len() > 0 {
                    blocks.push(BlockV::ParagraphV(ps.0))
                } else {
                    blocks
                };
                entry_children_scan(cs, j + 1, level, blocks2, Seq::empty(), src, fids, syms)
            },
            NodeKind::DetachedModifierExtension => entry_children_scan(
                cs,
                j + 1,
                level,
                blocks,
                coll + ext_icons_of(c.children@, syms),
                src,
                fids,
                syms,
            ),
            _ => entry_children_scan(cs, j + 1, level, blocks, coll, src, fids, syms),
        }
    }
}

#[via_fn]
proof fn entry_children_scan_dec(
    cs: Seq<SyntaxNode>,
    j: int,
    level: int,
    blocks: Seq<BlockV>,
    coll: Seq<InlineV>,
    src: Seq<char>,
    fids: FieldIds,
    syms: TodoSymbols,
) {
    if 0 <= j < cs.len() {
        lemma_forest_size_skip(cs, j);
        assert forall|m: int| j + 1 <= m <= cs.len() implies forest_size(cs.skip(m)) < forest_size(
            cs.skip(j),
        ) by {
            lemma_forest_size_skip_le(cs, j + 1, m);
        }
    }
}

/// The blocks the top-level driver appends: one finished level-zero block per
/// round — preceded by a flushed `Plain` block when inlines are pending, and
/// including `Null` rounds, keeping the one-to-one correspondence with parse
/// failures — until the run is exhausted.
pub open spec fn lists_driver(
    cs: Seq<SyntaxNode>,
    idx: int,
    coll: Seq<InlineV>,
    src: Seq<char>,
    fids: FieldIds,
    syms: TodoSymbols,
) -> Seq<BlockV>
    decreases forest_size(cs.skip(idx))
        via lists_driver_dec
{
    if idx < 0 || idx >= cs.len() {
        Seq::empty()
    } else {
        let r = build_scan(cs, idx, 0, ListType::Unknown, Seq::empty(), coll, src, fids, syms);
        let emitted = (if r.coll.len() > 0 {
            seq![BlockV::PlainV(r.coll)]
        } else {
            Seq::<BlockV>::empty()
        }).push(mk_list(r.list_type, r.entries));
        if r.exit == ExitCondition::EndOfNodes {
            emitted
        } else {
            let nx = if r.next > idx && r.next <= cs.len() {
                r.next
            } else {
                idx + 1
            };
            emitted + lists_driver(cs, nx, Seq::empty(), src, fids, syms)
        }
    }
}

#[via_fn]
proof fn lists_driver_dec(
    cs: Seq<SyntaxNode>,
    idx: int,
    coll: Seq<InlineV>,
    src: Seq<char>,
    fids: FieldIds,
    syms: TodoSymbols,
) {
    if 0 <= idx < cs.len() {
        lemma_forest_size_skip(cs, idx);
        assert forall|m: int| idx + 1 <= m <= cs.len() implies forest_size(cs.skip(m))
            < forest_size(cs.skip(idx)) by {
            lemma_forest_size_skip_le(cs, idx + 1, m);
        }
    }
}

impl Builder {
    /// Handles a run of sibling list nodes: levels are repeatedly built from
    /// the bottom, one finished block per round — `Null` rounds included —
    /// until the siblings are exhausted, exactly as `lists_driver` says;
    /// consecutive sibling lists of different types become distinct blocks
    /// rather than one malformed tree.
    pub fn handle_lists(&mut self, node: &SyntaxNode)
        requires
            old(self).document.scopes_v().len() > 0,
            node_wf(*node, old(self).src_len()),
        ensures
            Builder::frames_ok(*old(self), *final(self)),
            node.children@.len() == 0 ==> *final(self) == *old(self),
            node.children@.len() > 0 ==> {
                let emitted = lists_driver(
                    node.children@,
                    0,
                    old(self).document.collector_v(),
                    old(self).source@,
                    old(self).field_ids,
                    old(self).config.todo_symbols,
                );
                &&& final(self).document.scopes_v() == old(self).document.scopes_v().update(
                    old(self).document.scopes_v().len() - 1,
                    old(self).document.scopes_v().last() + emitted,
                )
                &&& final(self).document.collector_v() == Seq::<InlineV>::empty()
                &&& final(self).document.meta_pairs() == old(self).document.meta_pairs()
                &&& final(self).context.links_map() == old(self).context.links_map()
            },
    {
        if node.children.len() == 0 {
            proof {
                Builder::lemma_frames_ok_refl(*old(self));
            }
            return ;
        }
        let ghost src = self.source@;
        let ghost fids = self.field_ids;
        let ghost syms = self.config.todo_symbols;
        let ghost coll0 = self.document.collector_v();
        let ghost s0 = self.document.scopes_v();
        let ghost total = lists_driver(node.children@, 0, coll0, src, fids, syms);
        let ghost mut appended: Seq<BlockV> = Seq::empty();
        let mut idx: usize = 0;
        let mut go: bool = true;
        proof {
            Builder::lemma_frames_ok_refl(*old(self));
            assert(s0.update(s0.len() - 1, s0.last() + appended) =~= s0);
        }
        while go
            invariant
                node_wf(*node, old(self).src_len()),
                old(self).document.scopes_v().len() > 0,
                src == old(self).source@,
                fids == old(self).field_ids,
                syms == old(self).config.todo_symbols,
                coll0 == old(self).document.collector_v(),
                s0 == old(self).document.scopes_v(),
                total == lists_driver(node.children@, 0, coll0, src, fids, syms),
                Builder::frames_ok(*old(self), *self),
                self.document.meta_pairs() == old(self).document.meta_pairs(),
                self.context.links_map() == old(self).context.links_map(),
                go ==> idx < node.children@.len(),
                idx <= node.children@.len(),
                self.document.scopes_v() == s0.update(s0.len() - 1, s0.last() + appended),
                go ==> appended + lists_driver(
                    node.children@,
                    idx as int,
                    self.document.collector_v(),
                    src,
                    fids,
                    syms,
                ) == total,
                !go ==> appended == total && self.document.collector_v() == Seq::<
                    InlineV,
                >::empty(),
            decreases forest_size(node.children@.skip(idx as int)), (if go {
                1int
            } else {
                0int
            }),
        {
            let ghost pre = *self;
            let ghost idx0 = idx as int;
            let ghost coll_in = self.document.collector_v();
            let res = self.build_lists_level(&node.children, idx, 0);
            let ghost r = build_scan(
                node.children@,
                idx0,
                0,
                ListType::Unknown,
                Seq::empty(),
                coll_in,
                src,
                fids,
                syms,
            );
            let ghost mid = *self;
            self.document.add_block(res.block);
            proof {
                lemma_spec_add_block_prefix(mid.document.scopes_v(), mid.document.collector_v());
                Builder::lemma_frames_ok_trans(pre, mid, *self);
                Builder::lemma_frames_ok_trans(*old(self), pre, *self);
                let emitted = (if r.coll.len() > 0 {
                    seq![BlockV::PlainV(r.coll)]
                } else {
                    Seq::<BlockV>::empty()
                }).push(mk_list(r.list_type, r.entries));
                assert(mid.document.scopes_v().last() == s0.last() + appended);
                if r.coll.len() > 0 {
                    assert(self.document.scopes_v().last() == ((s0.last() + appended).push(
                        BlockV::PlainV(r.coll),
                    )).push(mk_list(r.list_type, r.entries)));
                } else {
                    assert(self.document.scopes_v().last() == (s0.last() + appended).push(
                        mk_list(r.list_type, r.entries),
                    ));
                }
                assert(self.document.scopes_v().last() =~= s0.last() + (appended + emitted));
                assert(self.document.scopes_v() =~= s0.update(
                    s0.len() - 1,
                    s0.last() + (appended + emitted),
                ));
            }
            let ghost emitted = (if r.coll.len() > 0 {
                seq![BlockV::PlainV(r.coll)]
            } else {
                Seq::<BlockV>::empty()
            }).push(mk_list(r.list_type, r.entries));
            proof {
                if r.exit == ExitCondition::EndOfNodes {
                    assert(lists_driver(node.children@, idx0, coll_in, src, fids, syms)
                        == emitted);
                } else {
                    assert(lists_driver(node.children@, idx0, coll_in, src, fids, syms) == emitted
                        + lists_driver(node.children@, r.next, Seq::empty(), src, fids, syms));
                }
                assert((appended + emitted) + lists_driver(
                    node.children@,
                    r.next,
                    Seq::<InlineV>::empty(),
                    src,
                    fids,
                    syms,
                ) =~= appended + (emitted + lists_driver(
                    node.children@,
                    r.next,
                    Seq::<InlineV>::empty(),
                    src,
                    fids,
                    syms,
                )));
                assert((appended + emitted) =~= appended + emitted);
                appended = appended + emitted;
            }
            if matches!(res.exit, ExitCondition::EndOfNodes) {
                go = false;
            } else {
                proof {
                    if res.exit == ExitCondition::LevelIsHigher {
                        assert(false);
                    }
                    lemma_forest_size_skip_le(node.children@, idx0, res.next as int);
                    lemma_forest_size_skip(node.children@, idx0);
                    lemma_forest_size_skip_le(node.children@, idx0 + 1, res.next as int);
                }
                idx = res.next;
            }
        }
    }

    /// Builds the list at one nesting level from the sibling run, starting at
    /// `idx` — exactly what `build_scan` folds the run to. The result also
    /// says which sibling is the first not consumed: the run is exhausted
    /// exactly when the exit reason says so, a type mismatch leaves the
    /// opposite-typed sibling unconsumed at `next`, and a shallower sibling
    /// halts the level for the caller the same way.
    fn build_lists_level(&mut self, siblings: &Vec<SyntaxNode>, idx: usize, level: usize) -> (res:
        BuildListsResult)
        requires
            old(self).document.scopes_v().len() > 0,
            idx <= siblings@.len(),
            level <= 6,
            forall|i: int|
                0 <= i < siblings@.len() ==> node_wf(#[trigger] siblings@[i], old(self).src_len()),
        ensures
            Builder::frames_ok(*old(self), *final(self)),
            final(self).document.scopes_v() == old(self).document.scopes_v(),
            final(self).document.meta_pairs() == old(self).document.meta_pairs(),
            final(self).context.links_map() == old(self).context.links_map(),
            idx <= res.next <= siblings@.len(),
            (res.exit == ExitCondition::EndOfNodes) == (res.next == siblings@.len()),
            res.exit == ExitCondition::TypeMismatch ==> res.next > idx && (
            match spec_list_kind_info(siblings@[res.next as int].kind) {
                Some(p) => p.1 != res.list_type && res.list_type != ListType::Unknown,
                None => false,
            }),
            res.exit == ExitCondition::LevelIsHigher ==> (match spec_list_kind_info(
                siblings@[res.next as int].kind,
            ) {
                Some(p) => p.0 < level,
                None => false,
            }),
            ({
                let r = build_scan(
                    siblings@,
                    idx as int,
                    level as int,
                    ListType::Unknown,
                    Seq::empty(),
                    old(self).document.collector_v(),
                    old(self).source@,
                    old(self).field_ids,
                    old(self).config.todo_symbols,
                );
                &&& res.list_type == r.list_type
                &&& res.exit == r.exit
                &&& res.next as int == r.next
                &&& block_v(res.block) == mk_list(r.list_type, r.entries)
                &&& final(self).document.collector_v() == r.coll
            }),
        decreases forest_size(siblings@.skip(idx as int)), 6 - level, 1int,
    {
        let ghost src = self.source@;
        let ghost fids = self.field_ids;
        let ghost syms = self.config.todo_symbols;
        let ghost coll0 = self.document.collector_v();
        let ghost target = build_scan(
            siblings@,
            idx as int,
            level as int,
            ListType::Unknown,
            Seq::empty(),
            coll0,
            src,
            fids,
            syms,
        );
        let mut entries: Vec<ListEntry> = Vec::new();
        let mut exit = ExitCondition::EndOfNodes;
        let mut list_type = ListType::Unknown;
        let mut i: usize = idx;
        let mut done: bool = false;
        proof {
            Builder::lemma_frames_ok_refl(*old(self));
            lemma_entries_v(entries@);
            assert(entries_v(entries@) =~= Seq::<Seq<BlockV>>::empty());
        }
        while !done && i < siblings.len()
            invariant
                idx <= i <= siblings@.len(),
                level <= 6,
                old(self).document.scopes_v().len() > 0,
                forall|k: int|
                    0 <= k < siblings@.len() ==> node_wf(
                        #[trigger] siblings@[k],
                        old(self).src_len(),
                    ),
                src == old(self).source@,
                fids == old(self).field_ids,
                syms == old(self).config.todo_symbols,
                target == build_scan(
                    siblings@,
                    idx as int,
                    level as int,
                    ListType::Unknown,
                    Seq::empty(),
                    coll0,
                    src,
                    fids,
                    syms,
                ),
                Builder::frames_ok(*old(self), *self),
                self.document.scopes_v() == old(self).document.scopes_v(),
                self.document.meta_pairs() == old(self).document.meta_pairs(),
                self.context.links_map() == old(self).context.links_map(),
                !done ==> exit == ExitCondition::EndOfNodes,
                !done ==> build_scan(
                    siblings@,
                    i as int,
                    level as int,
                    list_type,
                    entries_v(entries@),
                    self.document.collector_v(),
                    src,
                    fids,
                    syms,
                ) == target,
                done ==> exit != ExitCondition::EndOfNodes && i < siblings@.len(),
                done ==> target == (BuildScanV {
                    entries: entries_v(entries@),
                    list_type,
                    exit,
                    next: i as int,
                    coll: self.document.collector_v(),
                }),
                done && exit == ExitCondition::TypeMismatch ==> i > idx && (
                match spec_list_kind_info(siblings@[i as int].kind) {
                    Some(p) => p.1 != list_type && list_type != ListType::Unknown,
                    None => false,
                }),
                done && exit == ExitCondition::LevelIsHigher ==> (match spec_list_kind_info(
                    siblings@[i as int].kind,
                ) {
                    Some(p) => p.0 < level,
                    None => false,
                }),
                !done && list_type != ListType::Unknown ==> i > idx,
                forest_size(siblings@.skip(i as int)) <= forest_size(siblings@.skip(idx as int)),
            decreases siblings@.len() - i, (if done {
                0int
            } else {
                1int
            }),
        {
            let ghost pre = *self;
            proof {
                assert(siblings@.skip(i as int)[0] == siblings@[i as int]);
            }
            match list_kind_info(siblings[i].kind) {
                None => {
                    proof {
                        lemma_forest_size_skip(siblings@, i as int);
                        lemma_forest_size_skip_le(siblings@, idx as int, i as int);
                    }
                    i = i + 1;
                },
                Some((new_level, new_type)) => {
                    let mut halt: bool = false;
                    if matches!(list_type, ListType::Unknown) {
                        list_type = new_type;
                    } else if !type_eq(new_type, list_type) {
                        exit = ExitCondition::TypeMismatch;
                        done = true;
                        halt = true;
                    }
                    if !halt {
                        if level < new_level {
                            proof {
                                lemma_forest_size_skip_le(siblings@, idx as int, i as int);
                            }
                            let ghost coll_in = self.document.collector_v();
                            let res = self.build_lists_level(siblings, i, new_level);
                            let ghost r = build_scan(
                                siblings@,
                                i as int,
                                new_level as int,
                                ListType::Unknown,
                                Seq::empty(),
                                coll_in,
                                src,
                                fids,
                                syms,
                            );
                            let mut list = res.block;
                            let diff = new_level - level;
                            let mut d: usize = 1;
                            proof {
                                assert(block_v(list) == wrap_block(
                                    r.list_type,
                                    mk_list(r.list_type, r.entries),
                                    0,
                                ));
                            }
                            while d < diff
                                invariant
                                    1 <= d <= diff <= 6,
                                    res.list_type == r.list_type,
                                    block_v(list) == wrap_block(
                                        r.list_type,
                                        mk_list(r.list_type, r.entries),
                                        (d - 1) as nat,
                                    ),
                                decreases diff - d,
                            {
                                let mut inner: Vec<Block> = Vec::new();
                                inner.push(list);
                                let mut wrap: Vec<ListEntry> = Vec::new();
                                wrap.push(ListEntry { blocks: inner });
                                let ghost prevb = block_v(wrap@[0].blocks@[0]);
                                proof {
                                    lemma_entries_v(wrap@);
                                    crate::ir::lemma_blocks_v(wrap@[0].blocks@);
                                    assert(entries_v(wrap@) =~= seq![seq![prevb]]);
                                }
                                list = list_from_type(res.list_type, wrap);
                                proof {
                                    assert(wrap_block(
                                        r.list_type,
                                        mk_list(r.list_type, r.entries),
                                        d as nat,
                                    ) == mk_list(
                                        r.list_type,
                                        seq![
                                            seq![
                                                wrap_block(
                                                    r.list_type,
                                                    mk_list(r.list_type, r.entries),
                                                    (d - 1) as nat,
                                                )
                                            ]
                                        ],
                                    )) by {
                                        lemma_wrap_block_unfold(
                                            r.list_type,
                                            mk_list(r.list_type, r.entries),
                                            d as nat,
                                        );
                                    }
                                }
                                d = d + 1;
                            }
                            let ghost entries0 = entries_v(entries@);
                            let ghost listv = block_v(list);
                            let mut inner: Vec<Block> = Vec::new();
                            inner.push(list);
                            proof {
                                crate::ir::lemma_blocks_v(inner@);
                                assert(crate::ir::blocks_v(inner@) =~= seq![listv]);
                            }
                            let ghost ebefore = entries@;
                            entries.push(ListEntry { blocks: inner });
                            proof {
                                lemma_entries_v(entries@);
                                lemma_entries_v(ebefore);
                                assert(entries@ == ebefore.push(entries@[entries@.len() - 1]));
                                assert(listv == wrap_block(
                                    r.list_type,
                                    mk_list(r.list_type, r.entries),
                                    (new_level - level - 1) as nat,
                                ));
                                assert(entries_v(entries@).len() == entries0.len() + 1);
                                assert(entries_v(entries@)[entries0.len() as int] =~= seq![listv]);
                                assert forall|k: int| 0 <= k < entries0.len() implies #[trigger] entries_v(
                                    entries@,
                                )[k] == entries0[k] by {
                                    assert(entries@[k] == ebefore[k]);
                                }
                                assert(entries_v(entries@) =~= entries0.push(
                                    seq![
                                        wrap_block(
                                            r.list_type,
                                            mk_list(r.list_type, r.entries),
                                            (new_level - level - 1) as nat,
                                        )
                                    ],
                                ));
                                if res.exit == ExitCondition::LevelIsHigher && res.next == i {
                                    assert(false);
                                }
                                lemma_forest_size_skip_le(siblings@, idx as int, res.next as int);
                                if res.next > i {
                                    lemma_forest_size_skip(siblings@, i as int);
                                    lemma_forest_size_skip_le(siblings@, i + 1, res.next as int);
                                }
                                Builder::lemma_frames_ok_trans(*old(self), pre, *self);
                            }
                            i = res.next;
                            if matches!(res.exit, ExitCondition::EndOfNodes) {
                                // The run is exhausted; the loop ends here.
                            } else {
                                continue ;
                            }
                        } else if level == new_level {
                            proof {
                                lemma_forest_size_elem(siblings@, i as int);
                                lemma_forest_size_skip(siblings@, i as int);
                                lemma_forest_size_skip_le(siblings@, idx as int, i as int);
                            }
                            let ghost entries0 = entries_v(entries@);
                            let entry = self.handle_list_content(&siblings[i], level);
                            let ghost entryv = crate::ir::blocks_v(entry.blocks@);
                            let ghost ebefore = entries@;
                            entries.push(entry);
                            proof {
                                lemma_entries_v(entries@);
                                lemma_entries_v(ebefore);
                                assert(entries_v(entries@).len() == entries0.len() + 1);
                                assert(entries_v(entries@)[entries0.len() as int] == entryv);
                                assert forall|k: int| 0 <= k < entries0.len() implies #[trigger] entries_v(
                                    entries@,
                                )[k] == entries0[k] by {
                                    assert(entries@[k] == ebefore[k]);
                                }
                                assert(entries_v(entries@) =~= entries0.push(
                                    entry_scan(
                                        siblings@[i as int],
                                        level as int,
                                        pre.document.collector_v(),
                                        src,
                                        fids,
                                        syms,
                                    ).0,
                                ));
                                Builder::lemma_frames_ok_trans(*old(self), pre, *self);
                            }
                            i = i + 1;
                        } else {
                            exit = ExitCondition::LevelIsHigher;
                            done = true;
                        }
                    }
                },
            }
            proof {
                Builder::lemma_frames_ok_refl(pre);
                Builder::lemma_frames_ok_trans(*old(self), pre, *self);
            }
        }
        proof {
            if !done {
                assert(i == siblings@.len());
            }
        }
        BuildListsResult { block: list_from_type(list_type, entries), list_type, exit, next: i }
    }

    /// One list entry: a fresh scope takes the entry's content — paragraphs,
    /// nested deeper lists, detached extensions — in document order, exactly
    /// what `entry_scan` folds the children to, and becomes its blocks.
    fn handle_list_content(&mut self, node: &SyntaxNode, level: usize) -> (r: ListEntry)
        requires
            old(self).document.scopes_v().len() > 0,
            level <= 5,
            node_wf(*node, old(self).src_len()),
        ensures
            Builder::frames_ok(*old(self), *final(self)),
            final(self).document.scopes_v() == old(self).document.scopes_v(),
            final(self).document.meta_pairs() == old(self).document.meta_pairs(),
            final(self).context.links_map() == old(self).context.links_map(),
            ({
                let e = entry_scan(
                    *node,
                    level as int,
                    old(self).document.collector_v(),
                    old(self).source@,
                    old(self).field_ids,
                    old(self).config.todo_symbols,
                );
                &&& crate::ir::blocks_v(r.blocks@) == e.0
                &&& final(self).document.collector_v() == e.1
            }),
        decreases node_size(*node), 6 - level, 0int,
    {
        let ghost src = self.source@;
        let ghost fids = self.field_ids;
        let ghost syms = self.config.todo_symbols;
        let ghost coll0 = self.document.collector_v();
        let ghost target = entry_scan(*node, level as int, coll0, src, fids, syms);
        self.document.push_scope();
        let mut j: usize = 0;
        proof {
            assert(node.children@.skip(0) =~= node.children@);
        }
        while j < node.children.len()
            invariant
                0 <= j <= node.children@.len(),
                level <= 5,
                node_wf(*node, old(self).src_len()),
                old(self).document.scopes_v().len() > 0,
                src == old(self).source@,
                fids == old(self).field_ids,
                syms == old(self).config.todo_symbols,
                target == entry_scan(*node, level as int, coll0, src, fids, syms),
                self.document.scopes_v().len() == old(self).document.scopes_v().len() + 1,
                self.document.scopes_v().drop_last() == old(self).document.scopes_v(),
                self.document.meta_pairs() == old(self).document.meta_pairs(),
                self.context.links_map() == old(self).context.links_map(),
                self.source == old(self).source,
                self.config == old(self).config,
                self.field_ids == old(self).field_ids,
                old(self).frontend.wf() ==> self.frontend.wf(),
                old(self).frontend.issued().subset_of(self.frontend.issued()),
                old(self).context.links_map().dom().subset_of(self.context.links_map().dom()),
                entry_children_scan(
                    node.children@,
                    j as int,
                    level as int,
                    self.document.scopes_v().last(),
                    self.document.collector_v(),
                    src,
                    fids,
                    syms,
                ) == target,
            decreases node.children@.len() - j,
        {
            let ghost pre = *self;
            let child = &node.children[j];
            let mut advanced: bool = false;
            proof {
                assert(node.children@.skip(j as int)[0] == node.children@[j as int]);
            }
            match child.kind {
                NodeKind::UnorderedListPrefix { .. } => {},
                NodeKind::OrderedListPrefix { .. } => {},
                NodeKind::UnorderedList { .. } | NodeKind::OrderedList { .. } => {
                    proof {
                        lemma_forest_size_elem(node.children@, j as int);
                        lemma_forest_size_skip_le(node.children@, 0, j as int);
                        assert(node.children@.skip(0) =~= node.children@);
                    }
                    let ghost coll_in = self.document.collector_v();
                    let res = self.build_lists_level(&node.children, j, level + 1);
                    let ghost r = build_scan(
                        node.children@,
                        j as int,
                        level as int + 1,
                        ListType::Unknown,
                        Seq::empty(),
                        coll_in,
                        src,
                        fids,
                        syms,
                    );
                    let ghost mid = *self;
                    self.document.add_block(res.block);
                    proof {
                        lemma_spec_add_block_prefix(
                            mid.document.scopes_v(),
                            mid.document.collector_v(),
                        );
                        assert(self.document.scopes_v().last() =~= (if r.coll.len() > 0 {
                            pre.document.scopes_v().last().push(BlockV::PlainV(r.coll))
                        } else {
                            pre.document.scopes_v().last()
                        }).push(mk_list(r.list_type, r.entries)));
                        assert(self.document.scopes_v().drop_last()
                            =~= mid.document.scopes_v().drop_last());
                    }
                    if matches!(res.exit, ExitCondition::EndOfNodes) {
                        j = res.next;
                    } else {
                        j = res.next + 1;
                    }
                    advanced = true;
                },
                NodeKind::Paragraph => {
                    proof {
                        lemma_forest_size_elem(node.children@, j as int);
                    }
                    self.handle_paragraph(child);
                },
                NodeKind::DetachedModifierExtension => {
                    proof {
                        lemma_forest_size_elem(node.children@, j as int);
                    }
                    self.handle_detached_ext(child);
                },
                _ => {},
            }
            proof {
                assert(self.document.scopes_v().len() == pre.document.scopes_v().len());
                assert(self.document.scopes_v().drop_last()
                    =~= pre.document.scopes_v().drop_last());
            }
            if !advanced {
                j = j + 1;
            }
        }
        let blocks = self.document.pop_scope();
        proof {
            Builder::lemma_frames_ok_refl(*old(self));
            assert(self.document.scopes_v() =~= old(self).document.scopes_v());
        }
        ListEntry { blocks }
    }
}

proof fn lemma_wrap_block_unfold(t: ListType, b: BlockV, k: nat)
    requires
        k >= 1,
    ensures
        wrap_block(t, b, k) == mk_list(t, seq![seq![wrap_block(t, b, (k - 1) as nat)]]),
    decreases k,
{
    assert(wrap_block(t, b, k) == wrap_block(t, mk_list(t, seq![seq![b]]), (k - 1) as nat));
    if k == 1 {
        assert(wrap_block(t, mk_list(t, seq![seq![b]]), 0) == mk_list(t, seq![seq![b]]));
        assert(wrap_block(t, b, 0) == b);
    } else {
        lemma_wrap_block_unfold(t, mk_list(t, seq![seq![b]]), (k - 1) as nat);
        assert(wrap_block(t, b, (k - 1) as nat) == wrap_block(
            t,
            mk_list(t, seq![seq![b]]),
            (k - 2) as nat,
        ));
    }
}

fn type_eq(a: ListType, b: ListType) -> (r: bool)
    ensures
        r == (a == b),
{
    a == b
}

} // verus!
