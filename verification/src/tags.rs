use vstd::prelude::*;
use crate::document::spec_add_block;
use crate::ir::{Block, BlockV, Cell, Inline, InlineV};
use crate::field_ids::FieldIds;
use crate::meta::MetaValueV;
use crate::tree::lemma_child_wf;
use crate::strutil::{split_lines, split_on, str_eq, strings_v, trim, ws_count};
use crate::tree::{node_wf, NodeKind, SyntaxNode};
use crate::Builder;

verus! {

/// A line of only whitespace; it does not take part in the indentation
/// minimum.
pub open spec fn line_blank(l: Seq<char>) -> bool {
    crate::strutil::first_non_ws(l) == l.len()
}

/// The least indentation of the non-blank lines, folded left over an initial
/// bound.
pub open spec fn min_indent_rest(ls: Seq<Seq<char>>, acc: nat) -> nat
    decreases ls.len(),
{
    if ls.len() == 0 {
        acc
    } else {
        let a2 = if !line_blank(ls[0]) && crate::strutil::first_non_ws(ls[0]) < acc {
            crate::strutil::first_non_ws(ls[0])
        } else {
            acc
        };
        min_indent_rest(ls.drop_first(), a2)
    }
}

pub open spec fn pad_spaces(n: nat) -> Seq<char> {
    Seq::new(n, |i: int| ' ')
}

/// The later lines, each after a line break with the indentation minimum
/// removed (short lines lose what they have).
pub open spec fn tail_lines(ls: Seq<Seq<char>>, mi: nat) -> Seq<char>
    decreases ls.len(),
{
    if ls.len() == 0 {
        Seq::empty()
    } else {
        let l = ls[0];
        let off = if mi < l.len() {
            mi as int
        } else {
            l.len() as int
        };
        seq!['\n'] + l.skip(off) + tail_lines(ls.drop_first(), mi)
    }
}

/// The re-indented text of a code-like block: the least indentation of the
/// later non-blank lines (bounded by the block's starting column) comes off
/// every later line, and the first line is padded by what the starting column
/// exceeds that minimum by.
pub open spec fn code_content_v(text: Seq<char>, start_col: nat) -> Seq<char> {
    let ls = crate::strutil::spec_lines(text);
    if ls.len() == 0 {
        Seq::empty()
    } else {
        let mi = min_indent_rest(ls.drop_first(), start_col);
        let fill = if mi <= start_col {
            (start_col - mi) as nat
        } else {
            0
        };
        pad_spaces(fill) + ls[0] + tail_lines(ls.drop_first(), mi)
    }
}

/// One pipe-table cell: a plain block holding the trimmed piece.
pub open spec fn table_cell_v(piece: Seq<char>) -> Seq<BlockV> {
    seq![BlockV::PlainV(seq![InlineV::StrV(crate::strutil::spec_trim(piece))])]
}

/// One pipe-table row: the line's pieces split at `|`, each a cell.
pub open spec fn table_row_v(line: Seq<char>) -> Seq<Seq<BlockV>> {
    crate::strutil::spec_split(line, '|').map_values(|p: Seq<char>| table_cell_v(p))
}

pub open spec fn table_rows_v(lines: Seq<Seq<char>>) -> Seq<Seq<Seq<BlockV>>> {
    lines.map_values(|l: Seq<char>| table_row_v(l))
}

/// The widest row's cell count.
pub open spec fn max_cols(lines: Seq<Seq<char>>) -> int
    decreases lines.len(),
{
    if lines.len() == 0 {
        0
    } else {
        let rest = max_cols(lines.drop_first());
        let c = crate::strutil::spec_split(lines[0], '|').len() as int;
        if c > rest {
            c
        } else {
            rest
        }
    }
}

pub proof fn lemma_max_cols_nonneg(lines: Seq<Seq<char>>)
    ensures
        max_cols(lines) >= 0,
    decreases lines.len(),
{
    if lines.len() > 0 {
        lemma_max_cols_nonneg(lines.drop_first());
    }
}

/// The parameter texts a parameters node carries: each child's own span.
pub open spec fn params_of(cs: Seq<SyntaxNode>, src: Seq<char>) -> Seq<Seq<char>>
    decreases cs.len(),
{
    if cs.len() == 0 {
        Seq::empty()
    } else {
        seq![src.subrange(cs[0].start as int, cs[0].end as int)] + params_of(cs.drop_first(), src)
    }
}

/// The state a tag node's children fold through: the tag name and parameter
/// texts seen so far, and the document state the content handlers act on.
pub struct TagStateV {
    pub name: Seq<char>,
    pub params: Seq<Seq<char>>,
    pub scopes: Seq<Seq<BlockV>>,
    pub coll: Seq<InlineV>,
    pub meta: Seq<(Seq<char>, MetaValueV)>,
}

/// What one verbatim-tag child does: the name and parameters accumulate, and
/// a content node dispatches by the name seen — code, embeds, pipe tables,
/// the metadata block, display math; any other name yields nothing.
pub open spec fn verbatim_step(st: TagStateV, c: SyntaxNode, src: Seq<char>, fids: FieldIds) -> TagStateV {
    match c.kind {
        NodeKind::TagName => TagStateV {
            name: src.subrange(c.start as int, c.end as int),
            ..st
        },
        NodeKind::TagParameters => TagStateV {
            params: st.params + params_of(c.children@, src),
            ..st
        },
        NodeKind::RangedVerbatimTagContent => {
            let text = src.subrange(c.start as int, c.end as int);
            if st.name == "code"@ {
                let lang = if st.params.len() > 0 {
                    Some(st.params[0])
                } else {
                    None
                };
                TagStateV {
                    scopes: spec_add_block(
                        st.scopes,
                        st.coll,
                        BlockV::CodeBlockV(lang, code_content_v(text, c.start_col as nat)),
                    ),
                    coll: Seq::empty(),
                    ..st
                }
            } else if st.name == "embed"@ {
                if st.params.len() >= 1 && st.params[0] == "image"@ {
                    TagStateV {
                        scopes: spec_add_block(
                            st.scopes,
                            st.coll,
                            BlockV::PlainV(seq![InlineV::ImageV(text)]),
                        ),
                        coll: Seq::empty(),
                        ..st
                    }
                } else {
                    st
                }
            } else if st.name == "table"@ {
                let lines = crate::strutil::spec_lines(text);
                let blk = if lines.len() == 0 {
                    BlockV::TableV(0, Seq::empty(), Seq::empty())
                } else {
                    BlockV::TableV(
                        max_cols(lines),
                        table_row_v(lines[0]),
                        table_rows_v(lines.drop_first()),
                    )
                };
                TagStateV { scopes: spec_add_block(st.scopes, st.coll, blk), coll: Seq::empty(), ..st }
            } else if st.name == "document.meta"@ {
                TagStateV {
                    meta: crate::document::spec_extend(
                        st.meta,
                        crate::meta::spec_parse_object_inner(text).0,
                    ),
                    ..st
                }
            } else if st.name == "math"@ {
                TagStateV {
                    scopes: spec_add_block(st.scopes, st.coll, BlockV::MathBlockV(text)),
                    coll: Seq::empty(),
                    ..st
                }
            } else {
                st
            }
        },
        _ => st,
    }
}

pub open spec fn verbatim_scan(
    cs: Seq<SyntaxNode>,
    st: TagStateV,
    src: Seq<char>,
    fids: FieldIds,
) -> TagStateV
    decreases cs.len(),
{
    if cs.len() == 0 {
        st
    } else {
        verbatim_scan(cs.drop_first(), verbatim_step(st, cs[0], src, fids), src, fids)
    }
}

/// What one ranged-tag child does: only the `example` content name yields a
/// block — a code block in the source markup language.
pub open spec fn ranged_step(st: TagStateV, c: SyntaxNode, src: Seq<char>, fids: FieldIds) -> TagStateV {
    match c.kind {
        NodeKind::TagName => TagStateV {
            name: src.subrange(c.start as int, c.end as int),
            ..st
        },
        NodeKind::TagParameters => TagStateV {
            params: st.params + params_of(c.children@, src),
            ..st
        },
        NodeKind::RangedTagContent => {
            if st.name == "example"@ {
                let text = src.subrange(c.start as int, c.end as int);
                TagStateV {
                    scopes: spec_add_block(
                        st.scopes,
                        st.coll,
                        BlockV::CodeBlockV(Some("norg"@), code_content_v(text, c.start_col as nat)),
                    ),
                    coll: Seq::empty(),
                    ..st
                }
            } else {
                st
            }
        },
        _ => st,
    }
}

pub open spec fn ranged_scan(
    cs: Seq<SyntaxNode>,
    st: TagStateV,
    src: Seq<char>,
    fids: FieldIds,
) -> TagStateV
    decreases cs.len(),
{
    if cs.len() == 0 {
        st
    } else {
        ranged_scan(cs.drop_first(), ranged_step(st, cs[0], src, fids), src, fids)
    }
}

impl Builder {
    /// Handles a ranged tag: reads the tag's name and parameters, then hands
    /// the content node to the handler the name selects. Unknown names yield
    /// nothing.
    pub fn handle_ranged_tag(&mut self, node: &SyntaxNode)
        requires
            old(self).document.scopes_v().len() > 0,
            node_wf(*node, old(self).src_len()),
        ensures
            Builder::frames_ok(*old(self), *final(self)),
            final(self).context == old(self).context,
            ({
                let st = ranged_scan(
                    node.children@,
                    TagStateV {
                        name: Seq::empty(),
                        params: Seq::empty(),
                        scopes: old(self).document.scopes_v(),
                        coll: old(self).document.collector_v(),
                        meta: old(self).document.meta_pairs(),
                    },
                    old(self).source@,
                    old(self).field_ids,
                );
                &&& final(self).document.scopes_v() == st.scopes
                &&& final(self).document.collector_v() == st.coll
                &&& final(self).document.meta_pairs() == st.meta
            }),
    {
        let ghost src = self.source@;
        let ghost fids = self.field_ids;
        let ghost st0 = TagStateV {
            name: Seq::empty(),
            params: Seq::empty(),
            scopes: self.document.scopes_v(),
            coll: self.document.collector_v(),
            meta: self.document.meta_pairs(),
        };
        let mut name = String::new();
        let mut parameters: Vec<String> = Vec::new();
        let mut i: usize = 0;
        proof {
            assert(node.children@.skip(0) =~= node.children@);
            assert(strings_v(parameters@) =~= Seq::<Seq<char>>::empty());
        }
        while i < node.children.len()
            invariant
                0 <= i <= node.children@.len(),
                node_wf(*node, old(self).src_len()),
                old(self).document.scopes_v().len() > 0,
                self.document.scopes_v().len() > 0,
                src == old(self).source@,
                fids == old(self).field_ids,
                st0 == (TagStateV {
                    name: Seq::<char>::empty(),
                    params: Seq::<Seq<char>>::empty(),
                    scopes: old(self).document.scopes_v(),
                    coll: old(self).document.collector_v(),
                    meta: old(self).document.meta_pairs(),
                }),
                Builder::frames_ok(*old(self), *self),
                self.context == old(self).context,
                ranged_scan(
                    node.children@.skip(i as int),
                    TagStateV {
                        name: name@,
                        params: strings_v(parameters@),
                        scopes: self.document.scopes_v(),
                        coll: self.document.collector_v(),
                        meta: self.document.meta_pairs(),
                    },
                    src,
                    fids,
                ) == ranged_scan(node.children@, st0, src, fids),
            decreases node.children@.len() - i,
        {
            let ghost pre = *self;
            let ghost stv = TagStateV {
                name: name@,
                params: strings_v(parameters@),
                scopes: self.document.scopes_v(),
                coll: self.document.collector_v(),
                meta: self.document.meta_pairs(),
            };
            let child = &node.children[i];
            proof {
                assert(node.children@.skip(i as int).drop_first() =~= node.children@.skip(i + 1));
                assert(node.children@.skip(i as int)[0] == node.children@[i as int]);
            }
            match child.kind {
                NodeKind::TagPrefix => {},
                NodeKind::Space => {},
                NodeKind::LineBreak => {},
                NodeKind::RangedTagEnd => {},
                NodeKind::TagName => {
                    proof {
                        lemma_child_wf(*node, i as int, old(self).src_len());
                    }
                    name = String::from_str(
                        self.source.as_str().substring_char(child.start, child.end),
                    );
                },
                NodeKind::TagParameters => {
                    proof {
                        lemma_child_wf(*node, i as int, old(self).src_len());
                    }
                    self.handle_tag_parameters(child, &mut parameters);
                },
                NodeKind::RangedTagContent => {
                    proof {
                        lemma_child_wf(*node, i as int, old(self).src_len());
                    }
                    if str_eq(name.as_str(), "example") {
                        self.handle_example_block(child, &parameters);
                    }
                },
                _ => {},
            }
            proof {
                let stv2 = TagStateV {
                    name: name@,
                    params: strings_v(parameters@),
                    scopes: self.document.scopes_v(),
                    coll: self.document.collector_v(),
                    meta: self.document.meta_pairs(),
                };
                assert(stv2 == ranged_step(stv, node.children@[i as int], src, fids));
                Builder::lemma_frames_ok_refl(pre);
                Builder::lemma_frames_ok_trans(*old(self), pre, *self);
            }
            i = i + 1;
        }
        proof {
            assert(node.children@.skip(node.children@.len() as int) =~= Seq::<SyntaxNode>::empty());
        }
    }

    /// Handles a ranged verbatim tag: code, embeds, pipe tables, the document
    /// metadata block, display math and comments, selected by the tag name.
    pub fn handle_verbatim(&mut self, node: &SyntaxNode)
        requires
            old(self).document.scopes_v().len() > 0,
            node_wf(*node, old(self).src_len()),
        ensures
            Builder::frames_ok(*old(self), *final(self)),
            final(self).context == old(self).context,
            ({
                let st = verbatim_scan(
                    node.children@,
                    TagStateV {
                        name: Seq::empty(),
                        params: Seq::empty(),
                        scopes: old(self).document.scopes_v(),
                        coll: old(self).document.collector_v(),
                        meta: old(self).document.meta_pairs(),
                    },
                    old(self).source@,
                    old(self).field_ids,
                );
                &&& final(self).document.scopes_v() == st.scopes
                &&& final(self).document.collector_v() == st.coll
                &&& final(self).document.meta_pairs() == st.meta
            }),
    {
        let ghost src = self.source@;
        let ghost fids = self.field_ids;
        let ghost st0 = TagStateV {
            name: Seq::empty(),
            params: Seq::empty(),
            scopes: self.document.scopes_v(),
            coll: self.document.collector_v(),
            meta: self.document.meta_pairs(),
        };
        let mut name = String::new();
        let mut parameters: Vec<String> = Vec::new();
        let mut i: usize = 0;
        proof {
            assert(node.children@.skip(0) =~= node.children@);
            assert(strings_v(parameters@) =~= Seq::<Seq<char>>::empty());
        }
        while i < node.children.len()
            invariant
                0 <= i <= node.children@.len(),
                node_wf(*node, old(self).src_len()),
                old(self).document.scopes_v().len() > 0,
                self.document.scopes_v().len() > 0,
                src == old(self).source@,
                fids == old(self).field_ids,
                st0 == (TagStateV {
                    name: Seq::<char>::empty(),
                    params: Seq::<Seq<char>>::empty(),
                    scopes: old(self).document.scopes_v(),
                    coll: old(self).document.collector_v(),
                    meta: old(self).document.meta_pairs(),
                }),
                Builder::frames_ok(*old(self), *self),
                self.context == old(self).context,
                verbatim_scan(
                    node.children@.skip(i as int),
                    TagStateV {
                        name: name@,
                        params: strings_v(parameters@),
                        scopes: self.document.scopes_v(),
                        coll: self.document.collector_v(),
                        meta: self.document.meta_pairs(),
                    },
                    src,
                    fids,
                ) == verbatim_scan(node.children@, st0, src, fids),
            decreases node.children@.len() - i,
        {
            let ghost pre = *self;
            let ghost stv = TagStateV {
                name: name@,
                params: strings_v(parameters@),
                scopes: self.document.scopes_v(),
                coll: self.document.collector_v(),
                meta: self.document.meta_pairs(),
            };
            let child = &node.children[i];
            proof {
                assert(node.children@.skip(i as int).drop_first() =~= node.children@.skip(i + 1));
                assert(node.children@.skip(i as int)[0] == node.children@[i as int]);
            }
            match child.kind {
                NodeKind::TagPrefix => {},
                NodeKind::Space => {},
                NodeKind::LineBreak => {},
                NodeKind::RangedVerbatimTagEnd => {},
                NodeKind::TagName => {
                    proof {
                        lemma_child_wf(*node, i as int, old(self).src_len());
                    }
                    name = String::from_str(
                        self.source.as_str().substring_char(child.start, child.end),
                    );
                },
                NodeKind::TagParameters => {
                    proof {
                        lemma_child_wf(*node, i as int, old(self).src_len());
                    }
                    self.handle_tag_parameters(child, &mut parameters);
                },
                NodeKind::RangedVerbatimTagContent => {
                    proof {
                        lemma_child_wf(*node, i as int, old(self).src_len());
                    }
                    if str_eq(name.as_str(), "code") {
                        self.handle_code_block(child, &parameters);
                        proof {
                            crate::strutil::lemma_strings_v(parameters@);
                        }
                    } else if str_eq(name.as_str(), "embed") {
                        proof {
                            crate::strutil::lemma_strings_v(parameters@);
                        }
                        self.handle_embed_block(child, &parameters);
                    } else if str_eq(name.as_str(), "table") {
                        self.handle_table_block(child, &parameters);
                    } else if str_eq(name.as_str(), "document.meta") {
                        self.handle_document_meta_block(child, &parameters);
                    } else if str_eq(name.as_str(), "math") {
                        self.handle_math_block(child, &parameters);
                    }
                },
                _ => {},
            }
            proof {
                let stv2 = TagStateV {
                    name: name@,
                    params: strings_v(parameters@),
                    scopes: self.document.scopes_v(),
                    coll: self.document.collector_v(),
                    meta: self.document.meta_pairs(),
                };
                assert(stv2 == verbatim_step(stv, node.children@[i as int], src, fids));
                Builder::lemma_frames_ok_refl(pre);
                Builder::lemma_frames_ok_trans(*old(self), pre, *self);
            }
            i = i + 1;
        }
        proof {
            assert(node.children@.skip(node.children@.len() as int) =~= Seq::<SyntaxNode>::empty());
        }
    }

    /// Collects tag parameters: one entry per child of the parameters node,
    /// each holding that child's own text.
    fn handle_tag_parameters(&mut self, node: &SyntaxNode, parameters: &mut Vec<String>)
        requires
            node_wf(*node, old(self).src_len()),
        ensures
            *final(self) == *old(self),
            strings_v(final(parameters)@) == strings_v(old(parameters)@) + params_of(
                node.children@,
                old(self).source@,
            ),
    {
        let ghost base = strings_v(parameters@);
        let mut i: usize = 0;
        proof {
            assert(node.children@.skip(0) =~= node.children@);
        }
        while i < node.children.len()
            invariant
                0 <= i <= node.children@.len(),
                node_wf(*node, old(self).src_len()),
                *self == *old(self),
                base == strings_v(old(parameters)@),
                strings_v(parameters@) + params_of(node.children@.skip(i as int), self.source@)
                    == base + params_of(node.children@, self.source@),
            decreases node.children@.len() - i,
        {
            let child = &node.children[i];
            proof {
                crate::tree::lemma_child_wf(*node, i as int, old(self).src_len());
                assert(node.children@.skip(i as int).drop_first() =~= node.children@.skip(i + 1));
                assert(node.children@.skip(i as int)[0] == node.children@[i as int]);
            }
            let ghost cur = strings_v(parameters@);
            let text = String::from_str(
                self.source.as_str().substring_char(child.start, child.end),
            );
            let ghost before = parameters@;
            parameters.push(text);
            proof {
                crate::strutil::lemma_strings_v(before);
                crate::strutil::lemma_strings_v(parameters@);
                assert(strings_v(parameters@) =~= cur.push(
                    self.source@.subrange(child.start as int, child.end as int),
                ));
                assert(strings_v(parameters@) + params_of(
                    node.children@.skip(i + 1),
                    self.source@,
                ) =~= base + params_of(node.children@, self.source@));
            }
            i = i + 1;
        }
        proof {
            assert(node.children@.skip(node.children@.len() as int) =~= Seq::<SyntaxNode>::empty());
            assert(strings_v(parameters@) + Seq::<Seq<char>>::empty() =~= strings_v(parameters@));
        }
    }

    /// An `example` block becomes a code block in the source markup language.
    fn handle_example_block(&mut self, node: &SyntaxNode, parameters: &Vec<String>)
        requires
            old(self).document.scopes_v().len() > 0,
            node_wf(*node, old(self).src_len()),
        ensures
            Builder::frames_ok(*old(self), *final(self)),
            final(self).context == old(self).context,
            final(self).frontend == old(self).frontend,
            final(self).document.meta_pairs() == old(self).document.meta_pairs(),
            final(self).document.scopes_v() == spec_add_block(
                old(self).document.scopes_v(),
                old(self).document.collector_v(),
                BlockV::CodeBlockV(
                    Some("norg"@),
                    code_content_v(
                        old(self).source@.subrange(node.start as int, node.end as int),
                        node.start_col as nat,
                    ),
                ),
            ),
            final(self).document.collector_v() == Seq::<InlineV>::empty(),
    {
        let content = self.code_content(node);
        let ghost pre = *self;
        self.document.add_block(Block::CodeBlock(Some(String::from_str("norg")), content));
        proof {
            crate::document::lemma_spec_add_block_prefix(
                pre.document.scopes_v(),
                pre.document.collector_v(),
            );
        }
    }

    /// A `code` block, with the first parameter as its language.
    fn handle_code_block(&mut self, node: &SyntaxNode, parameters: &Vec<String>)
        requires
            old(self).document.scopes_v().len() > 0,
            node_wf(*node, old(self).src_len()),
        ensures
            Builder::frames_ok(*old(self), *final(self)),
            final(self).context == old(self).context,
            final(self).frontend == old(self).frontend,
            final(self).document.meta_pairs() == old(self).document.meta_pairs(),
            final(self).document.scopes_v() == spec_add_block(
                old(self).document.scopes_v(),
                old(self).document.collector_v(),
                BlockV::CodeBlockV(
                    if parameters@.len() > 0 {
                        Some(parameters@[0]@)
                    } else {
                        None
                    },
                    code_content_v(
                        old(self).source@.subrange(node.start as int, node.end as int),
                        node.start_col as nat,
                    ),
                ),
            ),
            final(self).document.collector_v() == Seq::<InlineV>::empty(),
    {
        let content = self.code_content(node);
        let language: Option<String> = if parameters.len() > 0 {
            Some(parameters[0].clone())
        } else {
            None
        };
        let ghost pre = *self;
        self.document.add_block(Block::CodeBlock(language, content));
        proof {
            crate::document::lemma_spec_add_block_prefix(
                pre.document.scopes_v(),
                pre.document.collector_v(),
            );
        }
    }

    /// The text of a code-like block, re-indented: the least indentation of
    /// the later non-blank lines (and the block's starting column) is removed
    /// from every later line, and the first line is padded by what the
    /// starting column exceeds that least indentation by.
    fn code_content(&self, node: &SyntaxNode) -> (r: String)
        requires
            node_wf(*node, self.src_len()),
        ensures
            r@ == code_content_v(
                self.source@.subrange(node.start as int, node.end as int),
                node.start_col as nat,
            ),
    {
        proof {
            crate::tree::lemma_node_span(*node, self.src_len());
        }
        let text = self.source.as_str().substring_char(node.start, node.end);
        let lines = split_lines(text);
        proof {
            crate::strutil::lemma_strings_v(lines@);
        }
        let ghost lsv = crate::strutil::strings_v(lines@);
        if lines.len() == 0 {
            return String::new();
        }
        let start_indent = node.start_col;
        let mut min_indent = start_indent;
        let mut i: usize = 1;
        proof {
            assert(lsv.skip(1) =~= lsv.drop_first());
        }
        while i < lines.len()
            invariant
                1 <= i <= lines@.len(),
                min_indent <= start_indent,
                lsv == crate::strutil::strings_v(lines@),
                lsv.len() == lines@.len(),
                forall|k: int| 0 <= k < lines@.len() ==> #[trigger] lsv[k] == lines@[k]@,
                min_indent_rest(lsv.skip(i as int), min_indent as nat) == min_indent_rest(
                    lsv.drop_first(),
                    start_indent as nat,
                ),
            decreases lines@.len() - i,
        {
            let line = &lines[i];
            let indent = ws_count(line.as_str());
            let blank = indent == line.unicode_len();
            proof {
                assert(lsv.skip(i as int).drop_first() =~= lsv.skip(i + 1));
                assert(lsv.skip(i as int)[0] == lsv[i as int]);
            }
            if !blank && indent < min_indent {
                min_indent = indent;
            }
            i = i + 1;
        }
        let ghost mi = min_indent_rest(lsv.drop_first(), start_indent as nat);
        proof {
            assert(lsv.skip(lines@.len() as int) =~= Seq::<Seq<char>>::empty());
            assert(min_indent as nat == mi);
        }
        let mut content = String::new();
        let mut p: usize = 0;
        while p < start_indent - min_indent
            invariant
                min_indent <= start_indent,
                0 <= p <= start_indent - min_indent,
                content@ == pad_spaces(p as nat),
            decreases start_indent - min_indent - p,
        {
            crate::strutil::push_char(&mut content, ' ');
            proof {
                assert(content@ =~= pad_spaces((p + 1) as nat));
            }
            p = p + 1;
        }
        content.append(lines[0].as_str());
        let ghost built = pad_spaces((start_indent - min_indent) as nat) + lsv[0];
        proof {
            assert(content@ =~= built);
        }
        let mut j: usize = 1;
        while j < lines.len()
            invariant
                1 <= j <= lines@.len(),
                min_indent as nat == mi,
                lsv == crate::strutil::strings_v(lines@),
                lsv.len() == lines@.len(),
                forall|k: int| 0 <= k < lines@.len() ==> #[trigger] lsv[k] == lines@[k]@,
                content@ + tail_lines(lsv.skip(j as int), mi) == built + tail_lines(
                    lsv.drop_first(),
                    mi,
                ),
            decreases lines@.len() - j,
        {
            let ghost c0 = content@;
            crate::strutil::push_char(&mut content, '\n');
            let line = &lines[j];
            let n = line.unicode_len();
            let offset = if min_indent < n {
                min_indent
            } else {
                n
            };
            let piece = line.as_str().substring_char(offset, n);
            content.append(piece);
            proof {
                assert(lsv.skip(j as int).drop_first() =~= lsv.skip(j + 1));
                assert(lsv.skip(j as int)[0] == lsv[j as int]);
                assert(piece@ =~= lsv[j as int].skip(
                    if mi < lsv[j as int].len() {
                        mi as int
                    } else {
                        lsv[j as int].len() as int
                    },
                ));
                assert(content@ =~= c0 + seq!['\n'] + piece@);
                assert(content@ + tail_lines(lsv.skip(j + 1), mi) =~= c0 + tail_lines(
                    lsv.skip(j as int),
                    mi,
                ));
            }
            j = j + 1;
        }
        proof {
            assert(lsv.skip(lines@.len() as int) =~= Seq::<Seq<char>>::empty());
            assert(content@ + tail_lines(lsv.skip(lines@.len() as int), mi) =~= content@);
            assert(lsv.drop_first() =~= lsv.skip(1));
            assert(content@ =~= code_content_v(text@, node.start_col as nat));
        }
        content
    }

    /// An `embed` block: an `image` embed becomes a plain block holding one
    /// image whose URL is the block's text.
    fn handle_embed_block(&mut self, node: &SyntaxNode, parameters: &Vec<String>)
        requires
            old(self).document.scopes_v().len() > 0,
            node_wf(*node, old(self).src_len()),
        ensures
            Builder::frames_ok(*old(self), *final(self)),
            final(self).context == old(self).context,
            final(self).frontend == old(self).frontend,
            final(self).document.meta_pairs() == old(self).document.meta_pairs(),
            (parameters@.len() >= 1 && parameters@[0]@ == "image"@)
                ==> final(self).document.scopes_v() == spec_add_block(
                old(self).document.scopes_v(),
                old(self).document.collector_v(),
                BlockV::PlainV(
                    seq![
                        InlineV::ImageV(
                            old(self).source@.subrange(node.start as int, node.end as int),
                        )
                    ],
                ),
            ) && final(self).document.collector_v() == Seq::<InlineV>::empty(),
            !(parameters@.len() >= 1 && parameters@[0]@ == "image"@) ==> *final(self) == *old(
                self,
            ),
    {
        if parameters.len() >= 1 && str_eq(parameters[0].as_str(), "image") {
            proof {
                crate::tree::lemma_node_span(*node, old(self).src_len());
            }
            let text = String::from_str(
                self.source.as_str().substring_char(node.start, node.end),
            );
            let mut segment: Vec<Inline> = Vec::new();
            segment.push(Inline::Image(text));
            proof {
                crate::ir::lemma_inlines_v(segment@);
                assert(crate::ir::inlines_v(segment@) =~= seq![
                    InlineV::ImageV(
                        old(self).source@.subrange(node.start as int, node.end as int),
                    )
                ]);
            }
            let ghost pre = *self;
            self.document.add_block(Block::Plain(segment));
            proof {
                crate::document::lemma_spec_add_block_prefix(
                    pre.document.scopes_v(),
                    pre.document.collector_v(),
                );
            }
        }
    }

    /// A `table` block: each line is one row, cells split at `|` and trimmed;
    /// the first line is the header row, and the column count is the widest
    /// row's.
    fn handle_table_block(&mut self, node: &SyntaxNode, parameters: &Vec<String>)
        requires
            old(self).document.scopes_v().len() > 0,
            node_wf(*node, old(self).src_len()),
        ensures
            Builder::frames_ok(*old(self), *final(self)),
            final(self).context == old(self).context,
            final(self).frontend == old(self).frontend,
            final(self).document.meta_pairs() == old(self).document.meta_pairs(),
            final(self).document.scopes_v() == spec_add_block(
                old(self).document.scopes_v(),
                old(self).document.collector_v(),
                ({
                    let lines = crate::strutil::spec_lines(
                        old(self).source@.subrange(node.start as int, node.end as int),
                    );
                    if lines.len() == 0 {
                        BlockV::TableV(0, Seq::empty(), Seq::empty())
                    } else {
                        BlockV::TableV(
                            max_cols(lines),
                            table_row_v(lines[0]),
                            table_rows_v(lines.drop_first()),
                        )
                    }
                }),
            ),
            final(self).document.collector_v() == Seq::<InlineV>::empty(),
    {
        proof {
            crate::tree::lemma_node_span(*node, old(self).src_len());
        }
        let text = self.source.as_str().substring_char(node.start, node.end);
        let lines = split_lines(text);
        proof {
            crate::strutil::lemma_strings_v(lines@);
        }
        let ghost lsv = crate::strutil::strings_v(lines@);
        let mut cols: usize = 0;
        let mut head: Vec<Cell> = Vec::new();
        let mut body: Vec<Vec<Cell>> = Vec::new();
        let mut i: usize = 0;
        proof {
            assert(crate::ir::cells_v(head@) =~= Seq::<Seq<BlockV>>::empty());
            assert(crate::ir::rows_v(body@) =~= Seq::<Seq<Seq<BlockV>>>::empty());
            assert(lsv.skip(0) =~= lsv);
            lemma_max_cols_nonneg(lsv);
        }
        while i < lines.len()
            invariant
                0 <= i <= lines@.len(),
                lsv == crate::strutil::strings_v(lines@),
                lsv.len() == lines@.len(),
                forall|k: int| 0 <= k < lines@.len() ==> #[trigger] lsv[k] == lines@[k]@,
                i >= 1 ==> crate::ir::cells_v(head@) == table_row_v(lsv[0]),
                i == 0 ==> head@.len() == 0,
                i >= 1 ==> crate::ir::rows_v(body@) == table_rows_v(lsv.subrange(1, i as int)),
                i == 0 ==> body@.len() == 0,
                (if cols as int > max_cols(lsv.skip(i as int)) {
                    cols as int
                } else {
                    max_cols(lsv.skip(i as int))
                }) == max_cols(lsv),
            decreases lines@.len() - i,
        {
            let pieces = split_on(lines[i].as_str(), '|');
            proof {
                crate::strutil::lemma_strings_v(pieces@);
            }
            let ghost psv = crate::strutil::strings_v(pieces@);
            let mut row: Vec<Cell> = Vec::new();
            let mut j: usize = 0;
            proof {
                assert(crate::ir::cells_v(row@) =~= Seq::<Seq<BlockV>>::empty());
                assert(table_row_v(lsv[i as int]).take(0) =~= Seq::<Seq<BlockV>>::empty());
            }
            while j < pieces.len()
                invariant
                    0 <= j <= pieces@.len(),
                    psv == crate::strutil::strings_v(pieces@),
                    psv.len() == pieces@.len(),
                    forall|k: int| 0 <= k < pieces@.len() ==> #[trigger] psv[k] == pieces@[k]@,
                    0 <= i < lines@.len(),
                    lsv == crate::strutil::strings_v(lines@),
                    lsv.len() == lines@.len(),
                    forall|k: int| 0 <= k < lines@.len() ==> #[trigger] lsv[k] == lines@[k]@,
                    psv == crate::strutil::spec_split(lsv[i as int], '|'),
                    crate::ir::cells_v(row@) == table_row_v(lsv[i as int]).take(j as int),
                decreases pieces@.len() - j,
            {
                let ghost row0 = row@;
                let content = String::from_str(trim(pieces[j].as_str()));
                let ghost contentv = content@;
                let mut inls: Vec<Inline> = Vec::new();
                inls.push(Inline::Str(content));
                let ghost inlsv = inls@;
                proof {
                    crate::ir::lemma_inlines_v(inlsv);
                    assert(crate::ir::inlines_v(inlsv) =~= seq![InlineV::StrV(contentv)]);
                }
                let mut blocks: Vec<Block> = Vec::new();
                blocks.push(Block::Plain(inls));
                let ghost cellv = crate::ir::blocks_v(blocks@);
                proof {
                    crate::ir::lemma_blocks_v(blocks@);
                    assert(cellv =~= seq![BlockV::PlainV(crate::ir::inlines_v(inlsv))]);
                    assert(contentv == crate::strutil::spec_trim(psv[j as int]));
                    assert(cellv =~= table_cell_v(psv[j as int]));
                }
                row.push(Cell { blocks });
                proof {
                    crate::ir::lemma_cells_v(row@);
                    crate::ir::lemma_cells_v(row0);
                    assert(crate::ir::cells_v(row@) =~= crate::ir::cells_v(row0).push(cellv));
                    assert(crate::ir::cells_v(row@) =~= table_row_v(lsv[i as int]).take(j + 1));
                }
                j = j + 1;
            }
            let ghost rowv = crate::ir::cells_v(row@);
            proof {
                assert(table_row_v(lsv[i as int]).take(psv.len() as int) =~= table_row_v(
                    lsv[i as int],
                ));
                assert(rowv == table_row_v(lsv[i as int]));
                crate::ir::lemma_cells_v(row@);
                assert(row@.len() == crate::strutil::spec_split(lsv[i as int], '|').len());
                assert(lsv.skip(i as int).drop_first() =~= lsv.skip(i + 1));
                assert(lsv.skip(i as int)[0] == lsv[i as int]);
            }
            if row.len() > cols {
                cols = row.len();
            }
            if i == 0 {
                head = row;
                proof {
                    assert(crate::ir::cells_v(head@) == rowv);
                }
            } else {
                let ghost body0 = body@;
                body.push(row);
                proof {
                    crate::ir::lemma_rows_v(body@);
                    crate::ir::lemma_rows_v(body0);
                    assert forall|k: int| 0 <= k < body@.len() implies #[trigger] crate::ir::rows_v(
                        body@,
                    )[k] == table_rows_v(lsv.subrange(1, i + 1))[k] by {
                        if k < body0.len() {
                            assert(body@[k] == body0[k]);
                            assert(crate::ir::rows_v(body0)[k] == crate::ir::cells_v(body0[k]@));
                            assert(table_rows_v(lsv.subrange(1, i as int))[k] == table_row_v(
                                lsv.subrange(1, i as int)[k],
                            ));
                            assert(lsv.subrange(1, i as int)[k] == lsv[k + 1]);
                            assert(lsv.subrange(1, i + 1)[k] == lsv[k + 1]);
                        } else {
                            assert(body@[k]@ == row@);
                            assert(lsv.subrange(1, i + 1)[k] == lsv[i as int]);
                        }
                    }
                    assert(crate::ir::rows_v(body@).len() == table_rows_v(
                        lsv.subrange(1, i + 1),
                    ).len());
                    assert(crate::ir::rows_v(body@) =~= table_rows_v(lsv.subrange(1, i + 1)));
                }
            }
            i = i + 1;
        }
        proof {
            assert(lsv.skip(lines@.len() as int) =~= Seq::<Seq<char>>::empty());
            if lsv.len() >= 1 {
                assert(lsv.subrange(1, lsv.len() as int) =~= lsv.drop_first());
            }
        }
        let ghost pre = *self;
        self.document.add_block(Block::Table(cols, head, body));
        proof {
            crate::document::lemma_spec_add_block_prefix(
                pre.document.scopes_v(),
                pre.document.collector_v(),
            );
        }
    }


    /// A `math` block becomes one display-math block holding the text.
    fn handle_math_block(&mut self, node: &SyntaxNode, parameters: &Vec<String>)
        requires
            old(self).document.scopes_v().len() > 0,
            node_wf(*node, old(self).src_len()),
        ensures
            Builder::frames_ok(*old(self), *final(self)),
            final(self).context == old(self).context,
            final(self).frontend == old(self).frontend,
            final(self).document.meta_pairs() == old(self).document.meta_pairs(),
            final(self).document.scopes_v() == spec_add_block(
                old(self).document.scopes_v(),
                old(self).document.collector_v(),
                BlockV::MathBlockV(
                    old(self).source@.subrange(node.start as int, node.end as int),
                ),
            ),
            final(self).document.collector_v() == Seq::<InlineV>::empty(),
    {
        proof {
            crate::tree::lemma_node_span(*node, old(self).src_len());
        }
        let text = String::from_str(self.source.as_str().substring_char(node.start, node.end));
        let ghost pre = *self;
        self.document.add_block(Block::MathBlock(text));
        proof {
            crate::document::lemma_spec_add_block_prefix(
                pre.document.scopes_v(),
                pre.document.collector_v(),
            );
        }
    }
}

} // verus!
