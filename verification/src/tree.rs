use vstd::prelude::*;

verus! {

/// The kinds of syntax-tree nodes that the converter recognises, one variant
/// per surface-grammar tag. Depth-encoded constructs (headings, quotes, lists)
/// carry their surface level, `1..=6`, as data. Every tag the converter does
/// not know maps to `Unknown`, which handlers skip as a non-fatal condition.
#[derive(Clone, Copy, Debug, PartialEq, Eq, Structural)]
pub enum NodeKind {
    Document,
    Heading { level: u8 },
    Quote,
    QuoteLevel { level: u8 },
    QuotePrefix,
    Paragraph,
    ParagraphBreak,
    ParagraphSegment,
    Word,
    Space,
    TrailingModifier,
    LineBreak,
    EscapeSequence,
    Link,
    AnchorDeclaration,
    AnchorDefinition,
    LinkDescription,
    LinkLocation,
    LinkTargetUrl,
    LinkTargetExternalFile,
    LinkTargetHeading { level: u8 },
    Bold,
    Underline,
    Italic,
    Strikethrough,
    Superscript,
    Subscript,
    Verbatim,
    InlineMath,
    InlineComment,
    OpenMark,
    CloseMark,
    FreeFormOpen,
    FreeFormClose,
    RangedTag,
    RangedVerbatimTag,
    TagPrefix,
    TagName,
    TagParameters,
    RangedTagEnd,
    RangedVerbatimTagEnd,
    RangedTagContent,
    RangedVerbatimTagContent,
    GenericList,
    UnorderedList { level: u8 },
    OrderedList { level: u8 },
    UnorderedListPrefix { level: u8 },
    OrderedListPrefix { level: u8 },
    DetachedModifierExtension,
    ExtBegin,
    ExtEnd,
    ExtDelimiter,
    TodoItemCancelled,
    TodoItemDone,
    TodoItemOnHold,
    TodoItemPending,
    TodoItemRecurring,
    TodoItemUncertain,
    TodoItemUndone,
    TodoItemUrgent,
    DefinitionList,
    Table,
    SingleTableCell,
    SingleTableCellPrefix,
    IntersectingModifier,
    Unknown,
}

/// One node of the concrete syntax tree, as the converter sees it: a kind, an
/// optional pre-resolved field id (how the parent labels this child), the
/// node's span in the source text as character offsets (`start <= end`), the
/// column of its first character, and its children in document order.
pub struct SyntaxNode {
    pub kind: NodeKind,
    pub field_id: Option<u16>,
    pub start: usize,
    pub end: usize,
    pub start_col: usize,
    pub children: Vec<SyntaxNode>,
}

/// Number of nodes in the tree rooted at `n`; the measure for traversals.
pub open spec fn node_size(n: SyntaxNode) -> nat
    decreases n,
{
    1 + forest_size(n.children@)
}

/// Number of nodes in a forest of sibling trees.
pub open spec fn forest_size(s: Seq<SyntaxNode>) -> nat
    decreases s,
{
    if s.len() == 0 {
        0
    } else {
        node_size(s[0]) + forest_size(s.drop_first())
    }
}

pub proof fn lemma_forest_size_elem(s: Seq<SyntaxNode>, i: int)
    requires
        0 <= i < s.len(),
    ensures
        node_size(s[i]) <= forest_size(s),
    decreases s.len(),
{
    if i > 0 {
        lemma_forest_size_elem(s.drop_first(), i - 1);
    }
}

pub proof fn lemma_forest_size_first(s: Seq<SyntaxNode>)
    requires
        s.len() > 0,
    ensures
        forest_size(s) == node_size(s[0]) + forest_size(s.drop_first()),
        node_size(s[0]) >= 1,
        forest_size(s.drop_first()) < forest_size(s),
        forest_size(s[0].children@) < forest_size(s),
{
}

pub proof fn lemma_forest_size_skip(s: Seq<SyntaxNode>, i: int)
    requires
        0 <= i < s.len(),
    ensures
        forest_size(s.skip(i)) == node_size(s[i]) + forest_size(s.skip(i + 1)),
    decreases i,
{
    if i == 0 {
        assert(s.skip(0) =~= s);
        assert(s.drop_first() =~= s.skip(1));
    } else {
        lemma_forest_size_skip(s.drop_first(), i - 1);
        assert(s.drop_first().skip(i - 1) =~= s.skip(i));
        assert(s.drop_first().skip(i) =~= s.skip(i + 1));
        assert(s.drop_first()[i - 1] == s[i]);
    }
}

pub proof fn lemma_forest_size_skip_le(s: Seq<SyntaxNode>, i: int, j: int)
    requires
        0 <= i <= j <= s.len(),
    ensures
        forest_size(s.skip(j)) <= forest_size(s.skip(i)),
    decreases j - i,
{
    if i < j {
        lemma_forest_size_skip(s, i);
        lemma_forest_size_skip_le(s, i + 1, j);
    }
}

/// Spans are valid character offsets into a source text of `src_len`
/// characters, throughout the tree.
pub open spec fn node_wf(n: SyntaxNode, src_len: nat) -> bool
    decreases n,
{
    &&& n.start <= n.end <= src_len
    &&& forall|i: int|
        0 <= i < n.children@.len() ==> node_wf(#[trigger] n.children@[i], src_len)
}

pub proof fn lemma_node_span(n: SyntaxNode, len: nat)
    requires
        node_wf(n, len),
    ensures
        n.start <= n.end <= len,
{
}

pub proof fn lemma_child_wf(n: SyntaxNode, i: int, len: nat)
    requires
        node_wf(n, len),
        0 <= i < n.children@.len(),
    ensures
        node_wf(n.children@[i], len),
        n.children@[i].start <= n.children@[i].end <= len,
{
    assert(node_wf(n.children@[i], len));
}

/// Runtime check of `node_wf`, for callers outside the verified library.
pub fn check_node_wf(n: &SyntaxNode, src_len: usize) -> (r: bool)
    ensures
        r == node_wf(*n, src_len as nat),
    decreases node_size(*n),
{
    if !(n.start <= n.end && n.end <= src_len) {
        return false;
    }
    let mut i: usize = 0;
    while i < n.children.len()
        invariant
            0 <= i <= n.children@.len(),
            n.start <= n.end <= src_len,
            forall|j: int| 0 <= j < i ==> node_wf(#[trigger] n.children@[j], src_len as nat),
        decreases n.children@.len() - i,
    {
        proof {
            lemma_forest_size_elem(n.children@, i as int);
        }
        if !check_node_wf(&n.children[i], src_len) {
            return false;
        }
        i = i + 1;
    }
    true
}

/// True when the node's field id is `id`.
pub fn field_is(n: &SyntaxNode, id: u16) -> (r: bool)
    ensures
        r == (n.field_id == Some(id)),
{
    match n.field_id {
        Some(x) => x == id,
        None => false,
    }
}

} // verus!
