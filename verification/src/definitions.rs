use vstd::prelude::*;
use crate::ir::{block_v, Block, BlockV, Inline, InlineV};
use crate::tree::{field_is, lemma_forest_size_elem, node_size, node_wf, SyntaxNode};
use crate::Builder;

verus! {

impl Builder {
    /// Handles a definition list node: each child is one definition, and
    /// each yields one `DefinitionList` block in the current scope.
    pub fn handle_definition_list(&mut self, node: &SyntaxNode)
        requires
            old(self).document.scopes_v().len() > 0,
            node_wf(*node, old(self).src_len()),
            old(self).field_ids.wf(),
        ensures
            Builder::frames_ok(*old(self), *final(self)),
            node.children@.len() == 0 ==> *final(self) == *old(self),
            node.children@.len() > 0 ==> ({
                &&& final(self).document.scopes_v().last().len() > old(
                    self,
                ).document.scopes_v().last().len()
                &&& final(self).document.scopes_v().last().last() is DefinitionListV
                &&& final(self).document.collector_v() == Seq::<InlineV>::empty()
            }),
        decreases node_size(*node), 0int,
    {
        let mut i: usize = 0;
        while i < node.children.len()
            invariant
                0 <= i <= node.children@.len(),
                node_wf(*node, old(self).src_len()),
                old(self).document.scopes_v().len() > 0,
                old(self).field_ids.wf(),
                Builder::frames_ok(*old(self), *self),
                node.children@.len() == 0 ==> *self == *old(self),
                i > 0 ==> ({
                    &&& self.document.scopes_v().last().len() > old(
                        self,
                    ).document.scopes_v().last().len()
                    &&& self.document.scopes_v().last().last() is DefinitionListV
                    &&& self.document.collector_v() == Seq::<InlineV>::empty()
                }),
            decreases node.children@.len() - i,
        {
            proof {
                lemma_forest_size_elem(node.children@, i as int);
            }
            let ghost pre = *self;
            self.handle_definition(&node.children[i]);
            proof {
                Builder::lemma_frames_ok_trans(*old(self), pre, *self);
            }
            i = i + 1;
        }
    }

    /// One definition: each `title` field starts a term, the content that
    /// follows accumulates in a fresh scope as the term's definition, and the
    /// collected pairs become one `DefinitionList` block.
    fn handle_definition(&mut self, node: &SyntaxNode)
        requires
            old(self).document.scopes_v().len() > 0,
            node_wf(*node, old(self).src_len()),
            old(self).field_ids.wf(),
        ensures
            Builder::frames_ok(*old(self), *final(self)),
            final(self).document.scopes_v().last().len() > old(
                self,
            ).document.scopes_v().last().len(),
            (final(self).document.scopes_v().last().last() is DefinitionListV),
            final(self).document.collector_v() == Seq::<InlineV>::empty(),
        decreases node_size(*node), 1int,
    {
        let mut entries: Vec<(Vec<Inline>, Vec<Block>)> = Vec::new();
        let mut inlines: Vec<Inline> = Vec::new();
        self.document.push_scope();
        let mut i: usize = 0;
        while i < node.children.len()
            invariant
                0 <= i <= node.children@.len(),
                node_wf(*node, old(self).src_len()),
                old(self).document.scopes_v().len() > 0,
                old(self).field_ids.wf(),
                self.document.scopes_v().len() == old(self).document.scopes_v().len() + 1,
                self.document.scopes_v().drop_last() == old(self).document.scopes_v(),
                self.source == old(self).source,
                self.config == old(self).config,
                self.field_ids == old(self).field_ids,
                old(self).frontend.wf() ==> self.frontend.wf(),
                old(self).frontend.issued().subset_of(self.frontend.issued()),
                old(self).context.links_map().dom().subset_of(self.context.links_map().dom()),
            decreases node.children@.len() - i,
        {
            proof {
                lemma_forest_size_elem(node.children@, i as int);
            }
            let ghost pre = *self;
            let child = &node.children[i];
            if field_is(child, self.field_ids.content) {
                self.handle_node(child);
            } else if field_is(child, self.field_ids.title) {
                if inlines.len() > 0 {
                    let mut old_inlines: Vec<Inline> = Vec::new();
                    core::mem::swap(&mut inlines, &mut old_inlines);
                    let finished = self.document.pop_scope();
                    entries.push((old_inlines, finished));
                    self.document.push_scope();
                }
                let mut collected = self.document.take_inlines_collector();
                inlines.append(&mut collected);
                self.handle_segment(child, &mut inlines);
            } else if field_is(child, self.field_ids.state) {
                self.handle_detached_ext(child);
            }
            proof {
                assert(self.document.scopes_v().len() == pre.document.scopes_v().len());
                assert(self.document.scopes_v().drop_last()
                    =~= pre.document.scopes_v().drop_last());
            }
            i = i + 1;
        }
        let last_blocks = self.document.pop_scope();
        if inlines.len() > 0 {
            entries.push((inlines, last_blocks));
        }
        let ghost mid = *self;
        proof {
            assert(mid.document.scopes_v() =~= old(self).document.scopes_v());
        }
        self.document.add_block(Block::DefinitionList(entries));
        proof {
            crate::document::lemma_spec_add_block_prefix(
                mid.document.scopes_v(),
                mid.document.collector_v(),
            );
            assert(block_v(Block::DefinitionList(entries)) is DefinitionListV);
            assert(self.document.scopes_v().last().last() is DefinitionListV);
        }
    }
}

} // verus!
