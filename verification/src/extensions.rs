use vstd::prelude::*;
use crate::ir::{Inline, InlineV};
use crate::tree::{node_wf, NodeKind, SyntaxNode};
use crate::Builder;

verus! {

/// The inline a task status contributes: its configured symbol, or nothing
/// for a kind that is no status.
pub open spec fn icon_of(k: NodeKind, syms: TodoSymbols) -> Seq<InlineV> {
    match k {
        NodeKind::TodoItemCancelled => seq![InlineV::StrV(syms.cancelled@)],
        NodeKind::TodoItemDone => seq![InlineV::StrV(syms.done@)],
        NodeKind::TodoItemOnHold => seq![InlineV::StrV(syms.on_hold@)],
        NodeKind::TodoItemPending => seq![InlineV::StrV(syms.pending@)],
        NodeKind::TodoItemRecurring => seq![InlineV::StrV(syms.recurring@)],
        NodeKind::TodoItemUncertain => seq![InlineV::StrV(syms.uncertain@)],
        NodeKind::TodoItemUndone => seq![InlineV::StrV(syms.undone@)],
        NodeKind::TodoItemUrgent => seq![InlineV::StrV(syms.urgent@)],
        _ => Seq::empty(),
    }
}

/// The symbols a run of extension children contributes, in order.
pub open spec fn ext_icons_of(cs: Seq<SyntaxNode>, syms: TodoSymbols) -> Seq<InlineV>
    decreases cs.len(),
{
    if cs.len() == 0 {
        Seq::empty()
    } else {
        icon_of(cs[0].kind, syms) + ext_icons_of(cs.drop_first(), syms)
    }
}

/// The symbols standing for the task-status extension's states.
#[derive(Debug, Clone)]
pub struct TodoSymbols {
    /// Task put down or cancelled, `(_)`.
    pub cancelled: String,
    /// Task done, `(x)`.
    pub done: String,
    /// Task on hold, `(=)`.
    pub on_hold: String,
    /// Task in progress or pending, `(-)`.
    pub pending: String,
    /// Task recurring, `(+)`.
    pub recurring: String,
    /// Task needing further input, `(?)`.
    pub uncertain: String,
    /// Task undone, `( )`.
    pub undone: String,
    /// Task urgent, `(!)`.
    pub urgent: String,
}

impl Default for TodoSymbols {
    fn default() -> (r: Self)
        ensures
            r.cancelled@ == "❌"@,
            r.done@ == "✅"@,
            r.on_hold@ == "🛑"@,
            r.pending@ == "⏳"@,
            r.recurring@ == "🔁"@,
            r.uncertain@ == "❓"@,
            r.undone@ == "⬜"@,
            r.urgent@ == "❗"@,
    {
        TodoSymbols {
            cancelled: String::from_str("❌"),
            done: String::from_str("✅"),
            on_hold: String::from_str("🛑"),
            pending: String::from_str("⏳"),
            recurring: String::from_str("🔁"),
            uncertain: String::from_str("❓"),
            undone: String::from_str("⬜"),
            urgent: String::from_str("❗"),
        }
    }
}

impl Builder {
    /// Handles a detached-modifier extension: each recognised task status
    /// appends its configured symbol to the inline collector, to merge with
    /// the next block of inline content. Unknown statuses yield nothing.
    pub fn handle_detached_ext(&mut self, node: &SyntaxNode)
        requires
            node_wf(*node, old(self).src_len()),
        ensures
            final(self).document.scopes_v() == old(self).document.scopes_v(),
            final(self).document.collector_v() == old(self).document.collector_v() + ext_icons_of(
                node.children@,
                old(self).config.todo_symbols,
            ),
            final(self).document.meta_pairs() == old(self).document.meta_pairs(),
            final(self).source == old(self).source,
            final(self).config == old(self).config,
            final(self).field_ids == old(self).field_ids,
            final(self).frontend == old(self).frontend,
            final(self).context == old(self).context,
    {
        let ghost syms = self.config.todo_symbols;
        let ghost coll0 = self.document.collector_v();
        let mut i: usize = 0;
        proof {
            assert(node.children@.skip(0) =~= node.children@);
        }
        while i < node.children.len()
            invariant
                0 <= i <= node.children@.len(),
                syms == old(self).config.todo_symbols,
                coll0 == old(self).document.collector_v(),
                self.document.scopes_v() == old(self).document.scopes_v(),
                self.document.meta_pairs() == old(self).document.meta_pairs(),
                self.source == old(self).source,
                self.config == old(self).config,
                self.field_ids == old(self).field_ids,
                self.frontend == old(self).frontend,
                self.context == old(self).context,
                self.document.collector_v() + ext_icons_of(node.children@.skip(i as int), syms)
                    == coll0 + ext_icons_of(node.children@, syms),
            decreases node.children@.len() - i,
        {
            let child = &node.children[i];
            proof {
                assert(node.children@.skip(i as int).drop_first() =~= node.children@.skip(i + 1));
                assert(node.children@.skip(i as int)[0] == node.children@[i as int]);
            }
            match child.kind {
                NodeKind::ExtBegin => {},
                NodeKind::ExtEnd => {},
                NodeKind::ExtDelimiter => {},
                NodeKind::TodoItemCancelled | NodeKind::TodoItemDone | NodeKind::TodoItemOnHold
                    | NodeKind::TodoItemPending | NodeKind::TodoItemRecurring
                    | NodeKind::TodoItemUncertain | NodeKind::TodoItemUndone
                    | NodeKind::TodoItemUrgent => {
                    self.add_todo_status(child.kind);
                },
                _ => {},
            }
            proof {
                assert(self.document.collector_v() + ext_icons_of(
                    node.children@.skip(i + 1),
                    syms,
                ) =~= coll0 + ext_icons_of(node.children@, syms));
            }
            i = i + 1;
        }
        proof {
            assert(node.children@.skip(node.children@.len() as int) =~= Seq::<SyntaxNode>::empty());
            assert(self.document.collector_v() + Seq::<InlineV>::empty()
                =~= self.document.collector_v());
        }
    }

    /// Appends the configured symbol for one task status to the collector.
    fn add_todo_status(&mut self, status: NodeKind)
        ensures
            final(self).document.scopes_v() == old(self).document.scopes_v(),
            final(self).document.collector_v() == old(self).document.collector_v() + icon_of(
                status,
                old(self).config.todo_symbols,
            ),
            final(self).document.meta_pairs() == old(self).document.meta_pairs(),
            final(self).source == old(self).source,
            final(self).config == old(self).config,
            final(self).field_ids == old(self).field_ids,
            final(self).frontend == old(self).frontend,
            final(self).context == old(self).context,
    {
        let icon_opt: Option<String> = match status {
            NodeKind::TodoItemCancelled => Some(self.config.todo_symbols.cancelled.clone()),
            NodeKind::TodoItemDone => Some(self.config.todo_symbols.done.clone()),
            NodeKind::TodoItemOnHold => Some(self.config.todo_symbols.on_hold.clone()),
            NodeKind::TodoItemPending => Some(self.config.todo_symbols.pending.clone()),
            NodeKind::TodoItemRecurring => Some(self.config.todo_symbols.recurring.clone()),
            NodeKind::TodoItemUncertain => Some(self.config.todo_symbols.uncertain.clone()),
            NodeKind::TodoItemUndone => Some(self.config.todo_symbols.undone.clone()),
            NodeKind::TodoItemUrgent => Some(self.config.todo_symbols.urgent.clone()),
            _ => None,
        };
        let ghost c0 = self.document.collector_v();
        match icon_opt {
            Some(icon) => {
                let ghost iconv = icon@;
                self.document.push_inlines_collector(Inline::Str(icon));
                proof {
                    assert(self.document.collector_v() =~= c0 + seq![InlineV::StrV(iconv)]);
                    assert(self.document.collector_v() =~= c0 + icon_of(
                        status,
                        old(self).config.todo_symbols,
                    ));
                }
            },
            None => {
                proof {
                    assert(c0 + icon_of(status, old(self).config.todo_symbols) =~= c0);
                }
            },
        }
    }
}

} // verus!
