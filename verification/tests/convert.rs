use pandoc_norg_converter::meta::MetaValue;
use pandoc_norg_converter::pandoc::{MathType, Pandoc, PandocBlock, PandocCell, PandocInline, Target};
use pandoc_norg_converter::{Config, FieldIds, Frontend, NodeKind, SyntaxNode};

const TITLE: u16 = 1;
const CONTENT: u16 = 2;
const STATE: u16 = 3;
const TOKEN: u16 = 4;
const TEXT: u16 = 5;

fn fids() -> FieldIds {
    FieldIds::new(TITLE, CONTENT, STATE, TOKEN, TEXT)
}

fn node(kind: NodeKind, children: Vec<SyntaxNode>) -> SyntaxNode {
    SyntaxNode { kind, field_id: None, start: 0, end: 0, start_col: 0, children }
}

fn span_node(kind: NodeKind, start: usize, end: usize) -> SyntaxNode {
    SyntaxNode { kind, field_id: None, start, end, start_col: 0, children: vec![] }
}

fn field_node(
    kind: NodeKind,
    field: u16,
    start: usize,
    end: usize,
    children: Vec<SyntaxNode>,
) -> SyntaxNode {
    SyntaxNode { kind, field_id: Some(field), start, end, start_col: 0, children }
}

fn word(start: usize, end: usize) -> SyntaxNode {
    span_node(NodeKind::Word, start, end)
}

fn para1(start: usize, end: usize) -> SyntaxNode {
    node(
        NodeKind::Paragraph,
        vec![node(NodeKind::ParagraphSegment, vec![word(start, end)])],
    )
}

fn convert(source: &str, root: SyntaxNode) -> Pandoc {
    let mut frontend = Frontend::default();
    frontend.convert(source, &root, fids())
}

fn str_inline(t: &str) -> PandocInline {
    PandocInline::Str(t.to_string())
}

fn para_block(t: &str) -> PandocBlock {
    PandocBlock::Para(vec![str_inline(t)])
}

/// Depth-first read-back of a bullet-list tree: each paragraph records the
/// list depth it sits at.
fn profile(block: &PandocBlock, depth: usize, out: &mut Vec<usize>) {
    match block {
        PandocBlock::BulletList(entries) => {
            for entry in entries {
                for b in entry {
                    match b {
                        PandocBlock::BulletList(_) => profile(b, depth + 1, out),
                        PandocBlock::Para(_) => out.push(depth),
                        other => panic!("unexpected block in list: {:?}", other),
                    }
                }
            }
        }
        other => panic!("expected a bullet list, got {:?}", other),
    }
}

fn ulist(level: u8, start: usize) -> SyntaxNode {
    node(NodeKind::UnorderedList { level }, vec![para1(start, start + 1)])
}

#[test]
fn list_level_round_trip() {
    let source = "abcde";
    let items = vec![ulist(1, 0), ulist(2, 1), ulist(3, 2), ulist(2, 3), ulist(1, 4)];
    let doc = node(NodeKind::Document, vec![node(NodeKind::GenericList, items)]);
    let result = convert(source, doc);
    assert_eq!(result.blocks.len(), 1);
    let mut out = Vec::new();
    profile(&result.blocks[0], 1, &mut out);
    assert_eq!(out, vec![1, 2, 3, 2, 1]);
}

#[test]
fn list_level_jump_inserts_wrappers() {
    let source = "ab";
    let items = vec![ulist(1, 0), ulist(4, 1)];
    let doc = node(NodeKind::Document, vec![node(NodeKind::GenericList, items)]);
    let result = convert(source, doc);
    assert_eq!(result.blocks.len(), 1);
    let mut out = Vec::new();
    profile(&result.blocks[0], 1, &mut out);
    assert_eq!(out, vec![1, 4]);
    // Each synthetic wrapper between levels 1 and 4 has exactly one entry.
    if let PandocBlock::BulletList(entries) = &result.blocks[0] {
        assert_eq!(entries.len(), 2);
        if let PandocBlock::BulletList(level2) = &entries[1][0] {
            assert_eq!(level2.len(), 1);
            if let PandocBlock::BulletList(level3) = &level2[0][0] {
                assert_eq!(level3.len(), 1);
            } else {
                panic!("missing level-3 wrapper");
            }
        } else {
            panic!("missing level-2 wrapper");
        }
    } else {
        panic!("expected a bullet list");
    }
}

#[test]
fn type_mismatch_boundary() {
    let source = "ab";
    let items = vec![
        node(NodeKind::UnorderedList { level: 1 }, vec![para1(0, 1)]),
        node(NodeKind::OrderedList { level: 1 }, vec![para1(1, 2)]),
    ];
    let doc = node(NodeKind::Document, vec![node(NodeKind::GenericList, items)]);
    let result = convert(source, doc);
    assert_eq!(
        result.blocks,
        vec![
            PandocBlock::BulletList(vec![vec![para_block("a")]]),
            PandocBlock::OrderedList(vec![vec![para_block("b")]]),
        ]
    );
}

#[test]
fn quote_merge() {
    let source = "ab";
    let quote = node(
        NodeKind::Quote,
        vec![node(
            NodeKind::QuoteLevel { level: 1 },
            vec![
                span_node(NodeKind::QuotePrefix, 0, 0),
                para1(0, 1),
                node(NodeKind::QuoteLevel { level: 2 }, vec![para1(1, 2)]),
            ],
        )],
    );
    let doc = node(NodeKind::Document, vec![quote]);
    let result = convert(source, doc);
    assert_eq!(
        result.blocks,
        vec![PandocBlock::BlockQuote(vec![
            para_block("a"),
            PandocBlock::BlockQuote(vec![para_block("b")]),
        ])]
    );
}

#[test]
fn quote_merge_reopen() {
    // Levels fall back from 2 to 1: the nested quote closes between the
    // paragraphs, in document order.
    let source = "abc";
    let quote = node(
        NodeKind::Quote,
        vec![node(
            NodeKind::QuoteLevel { level: 1 },
            vec![
                para1(0, 1),
                node(NodeKind::QuoteLevel { level: 2 }, vec![para1(1, 2)]),
                para1(2, 3),
            ],
        )],
    );
    let doc = node(NodeKind::Document, vec![quote]);
    let result = convert(source, doc);
    assert_eq!(
        result.blocks,
        vec![PandocBlock::BlockQuote(vec![
            para_block("a"),
            PandocBlock::BlockQuote(vec![para_block("b")]),
            para_block("c"),
        ])]
    );
}

fn heading_with_title(level: u8, start: usize, end: usize) -> SyntaxNode {
    node(
        NodeKind::Heading { level },
        vec![field_node(
            NodeKind::ParagraphSegment,
            TITLE,
            start,
            end,
            vec![word(start, end)],
        )],
    )
}

#[test]
fn identifier_uniqueness() {
    let source = "Heading";
    let doc = node(
        NodeKind::Document,
        vec![heading_with_title(1, 0, 7), heading_with_title(1, 0, 7)],
    );
    let result = convert(source, doc);
    assert_eq!(result.blocks.len(), 2);
    match (&result.blocks[0], &result.blocks[1]) {
        (PandocBlock::Header(1, id1, _), PandocBlock::Header(1, id2, _)) => {
            assert_eq!(id1, "Heading");
            assert_eq!(id2, "Heading~0");
        }
        other => panic!("expected two headers, got {:?}", other),
    }
}

#[test]
fn identifier_replaces_whitespace_and_tilde() {
    let source = "My Title";
    let doc = node(NodeKind::Document, vec![heading_with_title(2, 0, 8)]);
    let result = convert(source, doc);
    match &result.blocks[0] {
        PandocBlock::Header(2, id, _) => assert_eq!(id, "My-Title"),
        other => panic!("expected a header, got {:?}", other),
    }
}

#[test]
fn identifier_replaces_carriage_return() {
    // The whole whitespace class is replaced, carriage returns included.
    let source = "a\rb";
    let doc = node(NodeKind::Document, vec![heading_with_title(1, 0, 3)]);
    let result = convert(source, doc);
    match &result.blocks[0] {
        PandocBlock::Header(1, id, _) => assert_eq!(id, "a-b"),
        other => panic!("expected a header, got {:?}", other),
    }
}

#[test]
fn identifiers_shared_across_documents() {
    // One session, two documents: the second heading with the same text gets
    // the counter, by design.
    let source = "Heading";
    let mut frontend = Frontend::new(Config::default());
    let doc1 = node(NodeKind::Document, vec![heading_with_title(1, 0, 7)]);
    let doc2 = node(NodeKind::Document, vec![heading_with_title(1, 0, 7)]);
    let r1 = frontend.convert(source, &doc1, fids());
    let r2 = frontend.convert(source, &doc2, fids());
    match (&r1.blocks[0], &r2.blocks[0]) {
        (PandocBlock::Header(_, id1, _), PandocBlock::Header(_, id2, _)) => {
            assert_eq!(id1, "Heading");
            assert_eq!(id2, "Heading~0");
        }
        other => panic!("expected headers, got {:?}", other),
    }
}

fn anchor_description(start: usize, end: usize) -> SyntaxNode {
    SyntaxNode {
        kind: NodeKind::LinkDescription,
        field_id: None,
        start,
        end,
        start_col: 0,
        children: vec![field_node(
            NodeKind::ParagraphSegment,
            TEXT,
            start,
            end,
            vec![word(start, end)],
        )],
    }
}

#[test]
fn forward_reference() {
    // The reference appears before the definition in document order and
    // still resolves: resolution is deferred to emission.
    let source = "name url";
    let declaration = node(NodeKind::AnchorDeclaration, vec![anchor_description(0, 4)]);
    let definition = node(
        NodeKind::AnchorDefinition,
        vec![
            anchor_description(0, 4),
            node(
                NodeKind::LinkLocation,
                vec![
                    span_node(NodeKind::LinkTargetUrl, 0, 0),
                    field_node(NodeKind::Word, TEXT, 5, 8, vec![]),
                ],
            ),
        ],
    );
    let doc = node(
        NodeKind::Document,
        vec![
            node(
                NodeKind::Paragraph,
                vec![node(NodeKind::ParagraphSegment, vec![declaration])],
            ),
            node(
                NodeKind::Paragraph,
                vec![node(NodeKind::ParagraphSegment, vec![definition])],
            ),
        ],
    );
    let result = convert(source, doc);
    match &result.blocks[0] {
        PandocBlock::Para(inlines) => match &inlines[0] {
            PandocInline::Link(content, target) => {
                assert_eq!(content, &vec![str_inline("name")]);
                assert_eq!(target.url, "url");
            }
            other => panic!("expected a link, got {:?}", other),
        },
        other => panic!("expected a paragraph, got {:?}", other),
    }
}

#[test]
fn unresolved_anchor_degrades_to_empty_url() {
    let source = "name";
    let declaration = node(NodeKind::AnchorDeclaration, vec![anchor_description(0, 4)]);
    let doc = node(
        NodeKind::Document,
        vec![node(
            NodeKind::Paragraph,
            vec![node(NodeKind::ParagraphSegment, vec![declaration])],
        )],
    );
    let result = convert(source, doc);
    match &result.blocks[0] {
        PandocBlock::Para(inlines) => match &inlines[0] {
            PandocInline::Link(_, target) => assert_eq!(target.url, ""),
            other => panic!("expected a link, got {:?}", other),
        },
        other => panic!("expected a paragraph, got {:?}", other),
    }
}

#[test]
fn collector_flush_once() {
    // A pending task-status symbol flushes as exactly one synthesised Plain
    // block before the next appended block (here a childless nested list, so
    // no paragraph claims the pending inlines first).
    let source = "a";
    let entry = node(
        NodeKind::UnorderedList { level: 1 },
        vec![
            node(
                NodeKind::DetachedModifierExtension,
                vec![span_node(NodeKind::TodoItemDone, 0, 0)],
            ),
            node(NodeKind::UnorderedList { level: 2 }, vec![]),
        ],
    );
    let doc = node(NodeKind::Document, vec![node(NodeKind::GenericList, vec![entry])]);
    let result = convert(source, doc);
    assert_eq!(
        result.blocks,
        vec![PandocBlock::BulletList(vec![vec![
            PandocBlock::Plain(vec![str_inline("✅")]),
            PandocBlock::BulletList(vec![vec![]]),
        ]])]
    );
}

#[test]
fn todo_symbol_merges_with_paragraph() {
    let source = "a";
    let entry = node(
        NodeKind::UnorderedList { level: 1 },
        vec![
            node(
                NodeKind::DetachedModifierExtension,
                vec![span_node(NodeKind::TodoItemUrgent, 0, 0)],
            ),
            para1(0, 1),
        ],
    );
    let doc = node(NodeKind::Document, vec![node(NodeKind::GenericList, vec![entry])]);
    let result = convert(source, doc);
    assert_eq!(
        result.blocks,
        vec![PandocBlock::BulletList(vec![vec![PandocBlock::Para(vec![
            str_inline("❗"),
            str_inline("a"),
        ])]])]
    );
}

#[test]
fn document_meta_through_convert() {
    let source = "document.metatitle: Look spaces\nauthor: brain";
    let tag = node(
        NodeKind::RangedVerbatimTag,
        vec![
            span_node(NodeKind::TagName, 0, 13),
            span_node(NodeKind::RangedVerbatimTagContent, 13, 45),
        ],
    );
    let doc = node(NodeKind::Document, vec![tag]);
    let result = convert(source, doc);
    assert_eq!(
        result.meta,
        vec![
            (
                "title".to_string(),
                MetaValue::MetaString("Look spaces".to_string())
            ),
            (
                "author".to_string(),
                MetaValue::MetaString("brain".to_string())
            ),
        ]
    );
}

#[test]
fn code_block_language() {
    let source = "coderustlet x = 1;";
    let tag = node(
        NodeKind::RangedVerbatimTag,
        vec![
            span_node(NodeKind::TagName, 0, 4),
            node(
                NodeKind::TagParameters,
                vec![word(4, 8)],
            ),
            span_node(NodeKind::RangedVerbatimTagContent, 8, 18),
        ],
    );
    // The parameters node itself spans the parameter text.
    let mut tag = tag;
    tag.children[1].start = 4;
    tag.children[1].end = 8;
    let doc = node(NodeKind::Document, vec![tag]);
    let result = convert(source, doc);
    assert_eq!(
        result.blocks,
        vec![PandocBlock::CodeBlock(
            vec!["rust".to_string()],
            "let x = 1;".to_string()
        )]
    );
}

#[test]
fn math_block() {
    let source = "mathx^2";
    let tag = node(
        NodeKind::RangedVerbatimTag,
        vec![
            span_node(NodeKind::TagName, 0, 4),
            span_node(NodeKind::RangedVerbatimTagContent, 4, 7),
        ],
    );
    let doc = node(NodeKind::Document, vec![tag]);
    let result = convert(source, doc);
    assert_eq!(
        result.blocks,
        vec![PandocBlock::Para(vec![PandocInline::Math(
            MathType::DisplayMath,
            "x^2".to_string()
        )])]
    );
}

#[test]
fn pipe_table_block() {
    let source = "tablea | b\nc | d";
    let tag = node(
        NodeKind::RangedVerbatimTag,
        vec![
            span_node(NodeKind::TagName, 0, 5),
            span_node(NodeKind::RangedVerbatimTagContent, 5, 16),
        ],
    );
    let doc = node(NodeKind::Document, vec![tag]);
    let result = convert(source, doc);
    let cell = |t: &str| PandocCell { blocks: vec![PandocBlock::Plain(vec![str_inline(t)])] };
    assert_eq!(
        result.blocks,
        vec![PandocBlock::Table(
            2,
            vec![cell("a"), cell("b")],
            vec![vec![cell("c"), cell("d")]]
        )]
    );
}

#[test]
fn positioned_cells_grow_a_sparse_grid() {
    let source = "B2x";
    let cell_node = node(
        NodeKind::SingleTableCell,
        vec![
            field_node(NodeKind::Word, TITLE, 0, 2, vec![]),
            field_node(
                NodeKind::Paragraph,
                CONTENT,
                2,
                3,
                vec![node(NodeKind::ParagraphSegment, vec![word(2, 3)])],
            ),
        ],
    );
    let table = node(NodeKind::Table, vec![cell_node]);
    let doc = node(NodeKind::Document, vec![table]);
    let result = convert(source, doc);
    let empty_cell = PandocCell { blocks: vec![] };
    let x_cell = PandocCell { blocks: vec![para_block("x")] };
    assert_eq!(
        result.blocks,
        vec![PandocBlock::Table(
            2,
            vec![],
            vec![vec![], vec![empty_cell, x_cell]]
        )]
    );
}

#[test]
fn definition_list_through_convert() {
    let source = "td";
    let definition = node(
        NodeKind::Unknown,
        vec![
            field_node(
                NodeKind::ParagraphSegment,
                TITLE,
                0,
                1,
                vec![word(0, 1)],
            ),
            field_node(
                NodeKind::Paragraph,
                CONTENT,
                1,
                2,
                vec![node(NodeKind::ParagraphSegment, vec![word(1, 2)])],
            ),
        ],
    );
    let doc = node(
        NodeKind::Document,
        vec![node(NodeKind::DefinitionList, vec![definition])],
    );
    let result = convert(source, doc);
    assert_eq!(
        result.blocks,
        vec![PandocBlock::DefinitionList(vec![(
            vec![str_inline("t")],
            vec![vec![para_block("d")]]
        )])]
    );
}

#[test]
fn inline_markup_and_delimited_text() {
    let source = "xcodey";
    let bold = node(
        NodeKind::Bold,
        vec![
            span_node(NodeKind::OpenMark, 0, 0),
            node(NodeKind::ParagraphSegment, vec![word(0, 1)]),
            span_node(NodeKind::CloseMark, 1, 1),
        ],
    );
    let verbatim = SyntaxNode {
        kind: NodeKind::Verbatim,
        field_id: None,
        start: 1,
        end: 5,
        start_col: 0,
        children: vec![],
    };
    let seg = node(NodeKind::ParagraphSegment, vec![bold, verbatim, word(5, 6)]);
    let doc = node(
        NodeKind::Document,
        vec![node(NodeKind::Paragraph, vec![seg])],
    );
    let result = convert(source, doc);
    assert_eq!(
        result.blocks,
        vec![PandocBlock::Para(vec![
            PandocInline::Strong(vec![str_inline("x")]),
            PandocInline::Code("code".to_string()),
            str_inline("y"),
        ])]
    );
}

#[test]
fn empty_document_has_no_blocks() {
    let result = convert("", node(NodeKind::Document, vec![]));
    assert_eq!(result.blocks, Vec::<PandocBlock>::new());
    assert_eq!(result.meta, Vec::<(String, MetaValue)>::new());
}

#[test]
fn unknown_kinds_yield_nothing() {
    let doc = node(
        NodeKind::Document,
        vec![span_node(NodeKind::Unknown, 0, 0), para1(0, 1)],
    );
    let result = convert("a", doc);
    assert_eq!(result.blocks, vec![para_block("a")]);
}

#[test]
fn image_embed() {
    let source = "embedimageimg.png";
    let tag = node(
        NodeKind::RangedVerbatimTag,
        vec![
            span_node(NodeKind::TagName, 0, 5),
            {
                let mut p = node(NodeKind::TagParameters, vec![word(5, 10)]);
                p.start = 5;
                p.end = 10;
                p
            },
            span_node(NodeKind::RangedVerbatimTagContent, 10, 17),
        ],
    );
    let doc = node(NodeKind::Document, vec![tag]);
    let result = convert(source, doc);
    assert_eq!(
        result.blocks,
        vec![PandocBlock::Plain(vec![PandocInline::Image(
            vec![],
            Target { url: "img.png".to_string(), title: "".to_string() }
        )])]
    );
}

#[test]
fn heading_link_resolves_to_generated_identifier() {
    let source = "Heading";
    let link = node(
        NodeKind::Link,
        vec![node(
            NodeKind::LinkLocation,
            vec![
                span_node(NodeKind::LinkTargetHeading { level: 1 }, 0, 0),
                field_node(NodeKind::Word, TEXT, 0, 7, vec![]),
            ],
        )],
    );
    let doc = node(
        NodeKind::Document,
        vec![
            heading_with_title(1, 0, 7),
            node(
                NodeKind::Paragraph,
                vec![node(NodeKind::ParagraphSegment, vec![link])],
            ),
        ],
    );
    let result = convert(source, doc);
    match &result.blocks[1] {
        PandocBlock::Para(inlines) => match &inlines[0] {
            PandocInline::Link(content, target) => {
                // Without a description, the target text stands in for it.
                assert_eq!(content, &vec![str_inline("Heading")]);
                assert_eq!(target.url, "Heading");
            }
            other => panic!("expected a link, got {:?}", other),
        },
        other => panic!("expected a paragraph, got {:?}", other),
    }
}

#[test]
fn unrecognised_list_children_yield_a_null_block() {
    // The driver emits one block per round, a failed round included: the
    // one-to-one correspondence with parse failures is kept.
    let doc = node(
        NodeKind::Document,
        vec![node(
            NodeKind::GenericList,
            vec![span_node(NodeKind::Unknown, 0, 0)],
        )],
    );
    let result = convert("", doc);
    assert_eq!(result.blocks, vec![PandocBlock::Null]);
}
