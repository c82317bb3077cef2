use vstd::prelude::*;
use crate::ir::{
    block_v, blocks_v, inline_v, inlines_v, lemma_blocks_v, lemma_inlines_v, link_v, Block, BlockV,
    Inline, InlineV, LinkTargetV, LinkType,
};
use crate::meta::{meta_insert, meta_v, pairs_v, spec_insert_pair, MetaValue, MetaValueV};
use crate::strutil::str_eq;

verus! {

/// The kind of an addressable document element a link can refer to by text.
#[derive(Clone, Copy, Debug, PartialEq, Eq, Hash, Structural)]
pub enum DocumentLinkType {
    Heading(i32),
}

/// The registries that cross-reference resolution consults: anchor names to
/// their targets, and `(text, kind)` pairs to generated identifiers. Both are
/// written during the tree walk and only read during emission; a repeated
/// registration overwrites (last write wins).
pub struct DocumentContext {
    anchors: Vec<(String, LinkType)>,
    document_links: Vec<(String, DocumentLinkType, String)>,
}

pub closed spec fn anchors_map_of(s: Seq<(String, LinkType)>) -> Map<Seq<char>, LinkTargetV>
    decreases s.len(),
{
    if s.len() == 0 {
        Map::empty()
    } else {
        anchors_map_of(s.drop_last()).insert(s.last().0@, link_v(s.last().1))
    }
}

pub closed spec fn links_map_of(s: Seq<(String, DocumentLinkType, String)>) -> Map<
    (Seq<char>, DocumentLinkType),
    Seq<char>,
>
    decreases s.len(),
{
    if s.len() == 0 {
        Map::empty()
    } else {
        links_map_of(s.drop_last()).insert((s.last().0@, s.last().1), s.last().2@)
    }
}

proof fn lemma_anchors_lookup(s: Seq<(String, LinkType)>, k: Seq<char>, j: int)
    requires
        0 <= j < s.len(),
        s[j].0@ == k,
        forall|l: int| j < l < s.len() ==> (#[trigger] s[l]).0@ != k,
    ensures
        anchors_map_of(s).contains_key(k),
        anchors_map_of(s)[k] == link_v(s[j].1),
    decreases s.len(),
{
    if j < s.len() - 1 {
        lemma_anchors_lookup(s.drop_last(), k, j);
    }
}

proof fn lemma_anchors_absent(s: Seq<(String, LinkType)>, k: Seq<char>)
    requires
        forall|l: int| 0 <= l < s.len() ==> (#[trigger] s[l]).0@ != k,
    ensures
        !anchors_map_of(s).contains_key(k),
    decreases s.len(),
{
    if s.len() > 0 {
        lemma_anchors_absent(s.drop_last(), k);
    }
}

proof fn lemma_links_lookup(
    s: Seq<(String, DocumentLinkType, String)>,
    text: Seq<char>,
    ty: DocumentLinkType,
    j: int,
)
    requires
        0 <= j < s.len(),
        s[j].0@ == text && s[j].1 == ty,
        forall|l: int| j < l < s.len() ==> ((#[trigger] s[l]).0@ != text || s[l].1 != ty),
    ensures
        links_map_of(s).contains_key((text, ty)),
        links_map_of(s)[(text, ty)] == s[j].2@,
    decreases s.len(),
{
    if j < s.len() - 1 {
        lemma_links_lookup(s.drop_last(), text, ty, j);
    }
}

proof fn lemma_links_absent(
    s: Seq<(String, DocumentLinkType, String)>,
    text: Seq<char>,
    ty: DocumentLinkType,
)
    requires
        forall|l: int| 0 <= l < s.len() ==> ((#[trigger] s[l]).0@ != text || s[l].1 != ty),
    ensures
        !links_map_of(s).contains_key((text, ty)),
    decreases s.len(),
{
    if s.len() > 0 {
        lemma_links_absent(s.drop_last(), text, ty);
    }
}

impl DocumentContext {
    /// Anchor name to registered target.
    pub closed spec fn anchors_map(self) -> Map<Seq<char>, LinkTargetV> {
        anchors_map_of(self.anchors@)
    }

    /// `(text, kind)` to generated identifier.
    pub closed spec fn links_map(self) -> Map<(Seq<char>, DocumentLinkType), Seq<char>> {
        links_map_of(self.document_links@)
    }

    pub fn new() -> (r: Self)
        ensures
            r.anchors_map() == Map::<Seq<char>, LinkTargetV>::empty(),
            r.links_map() == Map::<(Seq<char>, DocumentLinkType), Seq<char>>::empty(),
    {
        DocumentContext { anchors: Vec::new(), document_links: Vec::new() }
    }

    /// Registers an anchor; a repeated name overwrites.
    pub fn add_anchor(&mut self, name: String, target: LinkType)
        ensures
            final(self).anchors_map() == old(self).anchors_map().insert(name@, link_v(target)),
            final(self).links_map() == old(self).links_map(),
    {
        let ghost s0 = self.anchors@;
        self.anchors.push((name, target));
        proof {
            assert(self.anchors@.drop_last() =~= s0);
        }
    }

    /// Registers a generated identifier for `(text, ty)`; a repeated pair
    /// overwrites.
    pub fn add_document_link(&mut self, text: String, ty: DocumentLinkType, id: String)
        ensures
            final(self).links_map() == old(self).links_map().insert((text@, ty), id@),
            final(self).anchors_map() == old(self).anchors_map(),
    {
        let ghost s0 = self.document_links@;
        self.document_links.push((text, ty, id));
        proof {
            assert(self.document_links@.drop_last() =~= s0);
        }
    }

    /// Looks an anchor up; the result is the last registered target, if any.
    pub fn get_anchor(&self, name: &str) -> (r: Option<&LinkType>)
        ensures
            match r {
                Some(t) => self.anchors_map().contains_key(name@) && link_v(*t)
                    == self.anchors_map()[name@],
                None => !self.anchors_map().contains_key(name@),
            },
    {
        let mut i: usize = self.anchors.len();
        while i > 0
            invariant
                0 <= i <= self.anchors@.len(),
                forall|l: int|
                    i <= l < self.anchors@.len() ==> (#[trigger] self.anchors@[l]).0@ != name@,
            decreases i,
        {
            i = i - 1;
            if str_eq(self.anchors[i].0.as_str(), name) {
                proof {
                    lemma_anchors_lookup(self.anchors@, name@, i as int);
                }
                return Some(&self.anchors[i].1);
            }
        }
        proof {
            lemma_anchors_absent(self.anchors@, name@);
        }
        None
    }

    /// Looks a document link up; the result is the last registered identifier
    /// for `(text, ty)`, if any.
    pub fn get_document_link(&self, text: &str, ty: &DocumentLinkType) -> (r: Option<&String>)
        ensures
            match r {
                Some(id) => self.links_map().contains_key((text@, *ty)) && id@
                    == self.links_map()[(text@, *ty)],
                None => !self.links_map().contains_key((text@, *ty)),
            },
    {
        let mut i: usize = self.document_links.len();
        while i > 0
            invariant
                0 <= i <= self.document_links@.len(),
                forall|l: int|
                    i <= l < self.document_links@.len() ==> ((
                    #[trigger] self.document_links@[l]).0@ != text@ || self.document_links@[l].1
                        != *ty),
            decreases i,
        {
            i = i - 1;
            if str_eq(self.document_links[i].0.as_str(), text) && self.document_links[i].1 == *ty {
                proof {
                    lemma_links_lookup(self.document_links@, text@, *ty, i as int);
                }
                return Some(&self.document_links[i].2);
            }
        }
        proof {
            lemma_links_absent(self.document_links@, text@, *ty);
        }
        None
    }
}

impl Default for DocumentContext {
    fn default() -> (r: Self)
        ensures
            r.anchors_map() == Map::<Seq<char>, LinkTargetV>::empty(),
            r.links_map() == Map::<(Seq<char>, DocumentLinkType), Seq<char>>::empty(),
    {
        DocumentContext::new()
    }
}

// ---------------------------------------------------------------------------
// The document builder: scope stack, inline collector, metadata.
// ---------------------------------------------------------------------------

pub open spec fn scopes_v_of(s: Seq<Vec<Block>>) -> Seq<Seq<BlockV>>
    decreases s,
{
    if s.len() == 0 {
        Seq::empty()
    } else {
        seq![blocks_v(s[0]@)] + scopes_v_of(s.drop_first())
    }
}

pub proof fn lemma_scopes_v_of(s: Seq<Vec<Block>>)
    ensures
        scopes_v_of(s).len() == s.len(),
        forall|i: int| 0 <= i < s.len() ==> #[trigger] scopes_v_of(s)[i] == blocks_v(s[i]@),
    decreases s.len(),
{
    if s.len() > 0 {
        lemma_scopes_v_of(s.drop_first());
    }
}

/// What adding one block does: a pending non-empty collector is flushed as one
/// synthesised `Plain` block first, then the block is appended to the top
/// scope.
pub open spec fn spec_add_block(
    scopes: Seq<Seq<BlockV>>,
    collector: Seq<InlineV>,
    b: BlockV,
) -> Seq<Seq<BlockV>>
    recommends
        scopes.len() > 0,
{
    let top = scopes.last();
    let top2 = if collector.len() > 0 {
        top.push(BlockV::PlainV(collector))
    } else {
        top
    };
    scopes.update(scopes.len() - 1, top2.push(b))
}

/// Adding a run of blocks in order; after the first, the collector is empty.
pub open spec fn spec_add_blocks(
    scopes: Seq<Seq<BlockV>>,
    collector: Seq<InlineV>,
    bs: Seq<BlockV>,
) -> (Seq<Seq<BlockV>>, Seq<InlineV>)
    decreases bs.len(),
{
    if bs.len() == 0 {
        (scopes, collector)
    } else {
        spec_add_blocks(spec_add_block(scopes, collector, bs[0]), Seq::empty(), bs.drop_first())
    }
}

/// Adding a block leaves the stack's depth and the scopes below the top
/// untouched, and only appends to the top scope.
pub proof fn lemma_spec_add_block_prefix(scopes: Seq<Seq<BlockV>>, collector: Seq<InlineV>)
    requires
        scopes.len() > 0,
    ensures
        forall|b: BlockV| (#[trigger] spec_add_block(scopes, collector, b)).len() == scopes.len(),
        forall|b: BlockV, i: int|
            0 <= i < scopes.len() - 1 ==> #[trigger] spec_add_block(scopes, collector, b)[i]
                == scopes[i],
        forall|b: BlockV|
            scopes.last().is_prefix_of(#[trigger] spec_add_block(scopes, collector, b).last()),
{
    assert forall|b: BlockV|
        scopes.last().is_prefix_of(#[trigger] spec_add_block(scopes, collector, b).last()) by {
        let top = scopes.last();
        let top3 = spec_add_block(scopes, collector, b).last();
        assert(top =~= top3.subrange(0, top.len() as int));
    }
}

proof fn lemma_add_blocks_empty_collector(scopes: Seq<Seq<BlockV>>, bs: Seq<BlockV>)
    requires
        scopes.len() > 0,
    ensures
        ({
            let (s2, c2) = spec_add_blocks(scopes, Seq::empty(), bs);
            &&& c2 == Seq::<InlineV>::empty()
            &&& s2.len() == scopes.len()
            &&& (forall|i: int| 0 <= i < scopes.len() - 1 ==> #[trigger] s2[i] == scopes[i])
            &&& s2.last() == scopes.last() + bs
        }),
    decreases bs.len(),
{
    if bs.len() == 0 {
        assert(scopes.last() + bs =~= scopes.last());
    } else {
        let scopes1 = spec_add_block(scopes, Seq::empty(), bs[0]);
        lemma_add_blocks_empty_collector(scopes1, bs.drop_first());
        let (s2, c2) = spec_add_blocks(scopes, Seq::empty(), bs);
        assert(scopes1.last() == scopes.last().push(bs[0]));
        assert(s2.last() == scopes.last().push(bs[0]) + bs.drop_first());
        assert(scopes.last().push(bs[0]) + bs.drop_first() =~= scopes.last() + bs);
    }
}

/// LAW (inline-collector flush): appending any non-empty run of blocks while
/// inlines are pending produces exactly one synthesised `Plain` block, placed
/// before the first appended block; the collector is flushed, not duplicated
/// and not dropped, and the scopes below the top are untouched.
pub proof fn lemma_collector_flushed_once(
    scopes: Seq<Seq<BlockV>>,
    collector: Seq<InlineV>,
    bs: Seq<BlockV>,
)
    requires
        scopes.len() > 0,
        collector.len() > 0,
        bs.len() > 0,
    ensures
        ({
            let (s2, c2) = spec_add_blocks(scopes, collector, bs);
            &&& c2 == Seq::<InlineV>::empty()
            &&& s2.len() == scopes.len()
            &&& (forall|i: int| 0 <= i < scopes.len() - 1 ==> #[trigger] s2[i] == scopes[i])
            &&& s2.last() == scopes.last().push(BlockV::PlainV(collector)) + bs
        }),
{
    let scopes1 = spec_add_block(scopes, collector, bs[0]);
    lemma_add_blocks_empty_collector(scopes1, bs.drop_first());
    let (s2, c2) = spec_add_blocks(scopes, collector, bs);
    assert(scopes1.last() == scopes.last().push(BlockV::PlainV(collector)).push(bs[0]));
    assert(s2.last() == scopes.last().push(BlockV::PlainV(collector)).push(bs[0])
        + bs.drop_first());
    assert(scopes.last().push(BlockV::PlainV(collector)).push(bs[0]) + bs.drop_first()
        =~= scopes.last().push(BlockV::PlainV(collector)) + bs);
}

/// Accumulates the document: a stack of open block scopes, a transient inline
/// collector, and the metadata mapping.
pub struct DocumentBuilder {
    scopes: Vec<Vec<Block>>,
    metadata: Vec<(String, MetaValue)>,
    inlines_collector: Vec<Inline>,
}

/// Folding a run of `(key, value)` pairs into a mapping, left to right.
pub open spec fn spec_extend(
    m: Seq<(Seq<char>, MetaValueV)>,
    ps: Seq<(Seq<char>, MetaValueV)>,
) -> Seq<(Seq<char>, MetaValueV)>
    decreases ps.len(),
{
    if ps.len() == 0 {
        m
    } else {
        spec_extend(spec_insert_pair(m, ps[0].0, ps[0].1), ps.drop_first())
    }
}

impl DocumentBuilder {
    /// The stack of open scopes, outermost first.
    pub closed spec fn scopes_v(&self) -> Seq<Seq<BlockV>> {
        scopes_v_of(self.scopes@)
    }

    /// The pending inline collector.
    pub closed spec fn collector_v(&self) -> Seq<InlineV> {
        inlines_v(self.inlines_collector@)
    }

    /// The metadata mapping in first-insertion order.
    pub closed spec fn meta_pairs(&self) -> Seq<(Seq<char>, MetaValueV)> {
        pairs_v(self.metadata@)
    }

    spec fn metadata_raw(&self) -> Seq<(String, MetaValue)> {
        self.metadata@
    }

    /// The root scope's blocks; used by `build`.
    pub(crate) fn into_parts(self) -> (r: (Vec<Vec<Block>>, Vec<(String, MetaValue)>, Vec<Inline>))
        ensures
            scopes_v_of(r.0@) == self.scopes_v(),
            pairs_v(r.1@) == self.meta_pairs(),
            inlines_v(r.2@) == self.collector_v(),
    {
        (self.scopes, self.metadata, self.inlines_collector)
    }

    /// Pushes a new empty scope.
    pub fn push_scope(&mut self)
        ensures
            final(self).scopes_v() == old(self).scopes_v().push(Seq::<BlockV>::empty()),
            final(self).collector_v() == old(self).collector_v(),
            final(self).meta_pairs() == old(self).meta_pairs(),
    {
        let ghost s0 = self.scopes@;
        self.scopes.push(Vec::new());
        proof {
            lemma_scopes_v_of(s0);
            lemma_scopes_v_of(self.scopes@);
            assert(scopes_v_of(self.scopes@) =~= scopes_v_of(s0).push(Seq::<BlockV>::empty()));
        }
    }

    /// Pops the current scope, returning its blocks.
    pub fn pop_scope(&mut self) -> (r: Vec<Block>)
        requires
            old(self).scopes_v().len() > 0,
        ensures
            blocks_v(r@) == old(self).scopes_v().last(),
            final(self).scopes_v() == old(self).scopes_v().drop_last(),
            final(self).collector_v() == old(self).collector_v(),
            final(self).meta_pairs() == old(self).meta_pairs(),
    {
        proof {
            lemma_scopes_v_of(self.scopes@);
        }
        let ghost s0 = self.scopes@;
        let r = self.scopes.pop().unwrap();
        proof {
            lemma_scopes_v_of(s0);
            lemma_scopes_v_of(self.scopes@);
            assert(self.scopes@ =~= s0.drop_last());
            assert(scopes_v_of(self.scopes@) =~= scopes_v_of(s0).drop_last());
        }
        r
    }

    /// Appends a block to the current scope, flushing the inline collector
    /// first as `spec_add_block` says.
    pub fn add_block(&mut self, block: Block)
        requires
            old(self).scopes_v().len() > 0,
        ensures
            final(self).scopes_v() == spec_add_block(
                old(self).scopes_v(),
                old(self).collector_v(),
                block_v(block),
            ),
            final(self).collector_v() == Seq::<InlineV>::empty(),
            final(self).meta_pairs() == old(self).meta_pairs(),
    {
        proof {
            lemma_scopes_v_of(self.scopes@);
        }
        let ghost s0 = self.scopes@;
        let ghost c0 = self.inlines_collector@;
        let last = self.scopes.len() - 1;
        if self.inlines_collector.len() > 0 {
            let mut inlines: Vec<Inline> = Vec::new();
            core::mem::swap(&mut self.inlines_collector, &mut inlines);
            proof {
                lemma_inlines_v(c0);
            }
            let scope = &mut self.scopes[last];
            scope.push(Block::Plain(inlines));
            scope.push(block);
            proof {
                lemma_scopes_v_of(s0);
                lemma_scopes_v_of(self.scopes@);
                lemma_blocks_v(s0.last()@);
                assert(self.scopes@[last as int]@ =~= s0.last()@.push(
                    Block::Plain(inlines),
                ).push(block));
                assert(blocks_v(self.scopes@[last as int]@) =~= blocks_v(s0.last()@).push(
                    BlockV::PlainV(inlines_v(c0)),
                ).push(block_v(block))) by {
                    lemma_blocks_v(self.scopes@[last as int]@);
                    lemma_blocks_v(s0.last()@);
                }
                assert(scopes_v_of(self.scopes@) =~= spec_add_block(
                    scopes_v_of(s0),
                    inlines_v(c0),
                    block_v(block),
                ));
            }
        } else {
            let scope = &mut self.scopes[last];
            scope.push(block);
            proof {
                lemma_scopes_v_of(s0);
                lemma_scopes_v_of(self.scopes@);
                assert(self.scopes@[last as int]@ =~= s0.last()@.push(block));
                assert(blocks_v(self.scopes@[last as int]@) =~= blocks_v(s0.last()@).push(
                    block_v(block),
                )) by {
                    lemma_blocks_v(self.scopes@[last as int]@);
                    lemma_blocks_v(s0.last()@);
                }
                assert(inlines_v(c0) =~= Seq::<InlineV>::empty());
                assert(scopes_v_of(self.scopes@) =~= spec_add_block(
                    scopes_v_of(s0),
                    inlines_v(c0),
                    block_v(block),
                ));
            }
        }
    }

    /// Adds an inline to the collector, to be attached to the next block.
    pub fn push_inlines_collector(&mut self, inline: Inline)
        ensures
            final(self).collector_v() == old(self).collector_v().push(inline_v(inline)),
            final(self).scopes_v() == old(self).scopes_v(),
            final(self).meta_pairs() == old(self).meta_pairs(),
    {
        let ghost c0 = self.inlines_collector@;
        self.inlines_collector.push(inline);
        proof {
            lemma_inlines_v(c0);
            lemma_inlines_v(self.inlines_collector@);
            assert(inlines_v(self.inlines_collector@) =~= inlines_v(c0).push(inline_v(inline)));
        }
    }

    /// Takes the collector's contents, leaving it empty.
    pub fn take_inlines_collector(&mut self) -> (r: Vec<Inline>)
        ensures
            inlines_v(r@) == old(self).collector_v(),
            final(self).collector_v() == Seq::<InlineV>::empty(),
            final(self).scopes_v() == old(self).scopes_v(),
            final(self).meta_pairs() == old(self).meta_pairs(),
    {
        let mut inlines: Vec<Inline> = Vec::new();
        core::mem::swap(&mut self.inlines_collector, &mut inlines);
        inlines
    }

    /// Merges pairs into the metadata mapping, last write winning.
    pub fn extend_meta(&mut self, meta: Vec<(String, MetaValue)>)
        ensures
            final(self).meta_pairs() == spec_extend(old(self).meta_pairs(), pairs_v(meta@)),
            final(self).scopes_v() == old(self).scopes_v(),
            final(self).collector_v() == old(self).collector_v(),
    {
        let mut rest = meta;
        let ghost all = pairs_v(rest@);
        let ghost m0 = self.meta_pairs();
        proof {
            crate::meta::lemma_pairs_v(rest@);
        }
        while rest.len() > 0
            invariant
                spec_extend(self.meta_pairs(), pairs_v(rest@)) == spec_extend(m0, all),
                self.scopes_v() == old(self).scopes_v(),
                self.collector_v() == old(self).collector_v(),
            decreases rest@.len(),
        {
            let ghost r0 = rest@;
            let (k, v) = rest.remove(0);
            proof {
                crate::meta::lemma_pairs_v(r0);
                crate::meta::lemma_pairs_v(rest@);
                assert(rest@ =~= r0.drop_first());
                assert(pairs_v(rest@) =~= pairs_v(r0).drop_first());
            }
            meta_insert(&mut self.metadata, k, v);
        }
        proof {
            assert(pairs_v(rest@) =~= Seq::<(Seq<char>, MetaValueV)>::empty());
        }
    }
}

impl Default for DocumentBuilder {
    /// A fresh builder holds exactly the root scope, an empty collector, and
    /// no metadata.
    fn default() -> (r: Self)
        ensures
            r.scopes_v() == seq![Seq::<BlockV>::empty()],
            r.collector_v() == Seq::<InlineV>::empty(),
            r.meta_pairs() == Seq::<(Seq<char>, MetaValueV)>::empty(),
    {
        let mut scopes: Vec<Vec<Block>> = Vec::new();
        scopes.push(Vec::new());
        let r = DocumentBuilder { scopes, metadata: Vec::new(), inlines_collector: Vec::new() };
        proof {
            lemma_scopes_v_of(r.scopes@);
            assert(scopes_v_of(r.scopes@) =~= seq![Seq::<BlockV>::empty()]);
        }
        r
    }
}

} // verus!
