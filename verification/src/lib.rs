use vstd::prelude::*;

pub mod definitions;
pub mod document;
pub mod extensions;
pub mod field_ids;
pub mod inlines;
pub mod ir;
pub mod lists;
pub mod meta;
pub mod pandoc;
pub mod quote;
pub mod strutil;
pub mod table;
pub mod tags;
pub mod tree;

pub use extensions::TodoSymbols;
pub use field_ids::FieldIds;
pub use tree::{NodeKind, SyntaxNode};

use crate::document::{DocumentBuilder, DocumentContext, DocumentLinkType};
use crate::ir::{Block, Inline};
use crate::pandoc::Pandoc;
use crate::strutil::{
    dashed, is_ws_char, lemma_dashed_tilde_free, lemma_digits_injective, lemma_digits_not_tilde,
    lemma_digits_not_ws, lemma_tilde_split_unique, push_char, spec_dashed, spec_digits, str_eq,
    tilde_free, u32_digits, ws_free,
};
use crate::tree::{field_is, lemma_forest_size_elem, node_size, node_wf};

verus! {

// ---------------------------------------------------------------------------
// Identifier generation: a per-session table of issued heading identifiers.
// ---------------------------------------------------------------------------

spec fn id_map_of(s: Seq<(String, u32)>) -> Map<Seq<char>, u32>
    decreases s.len(),
{
    if s.len() == 0 {
        Map::empty()
    } else {
        id_map_of(s.drop_last()).insert(s.last().0@, s.last().1)
    }
}

proof fn lemma_ids_lookup(s: Seq<(String, u32)>, k: Seq<char>, j: int)
    requires
        0 <= j < s.len(),
        s[j].0@ == k,
        forall|l: int| j < l < s.len() ==> (#[trigger] s[l]).0@ != k,
    ensures
        id_map_of(s).contains_key(k),
        id_map_of(s)[k] == s[j].1,
    decreases s.len(),
{
    if j < s.len() - 1 {
        lemma_ids_lookup(s.drop_last(), k, j);
    }
}

proof fn lemma_ids_absent(s: Seq<(String, u32)>, k: Seq<char>)
    requires
        forall|l: int| 0 <= l < s.len() ==> (#[trigger] s[l]).0@ != k,
    ensures
        !id_map_of(s).contains_key(k),
    decreases s.len(),
{
    if s.len() > 0 {
        lemma_ids_absent(s.drop_last(), k);
    }
}

/// Whether `id` was already issued, as the counter table records it: for each
/// known base, the base itself and `base~i` for every counter value `i` below
/// the base's counter.
pub open spec fn id_issued(m: Map<Seq<char>, u32>, id: Seq<char>) -> bool {
    exists|base: Seq<char>|
        #[trigger] m.contains_key(base) && (id == base || (exists|i: nat|
            i < m[base] && id == base + seq!['~'] + spec_digits(i)))
}

pub open spec fn issued_of(m: Map<Seq<char>, u32>) -> Set<Seq<char>> {
    Set::new(|id: Seq<char>| id_issued(m, id))
}

/// All recorded bases are free of the counter delimiter `~`.
pub open spec fn id_map_wf(m: Map<Seq<char>, u32>) -> bool {
    forall|k: Seq<char>| #[trigger] m.contains_key(k) ==> tilde_free(k)
}

proof fn lemma_issued_fresh_new(m: Map<Seq<char>, u32>, base: Seq<char>)
    requires
        id_map_wf(m),
        !m.contains_key(base),
        tilde_free(base),
    ensures
        !issued_of(m).contains(base),
        issued_of(m.insert(base, 0u32)) =~= issued_of(m).insert(base),
        id_map_wf(m.insert(base, 0u32)),
{
    if id_issued(m, base) {
        let b = choose|b: Seq<char>|
            #[trigger] m.contains_key(b) && (base == b || (exists|i: nat|
                i < m[b] && base == b + seq!['~'] + spec_digits(i)));
        if base == b {
            assert(false);
        } else {
            let i = choose|i: nat| i < m[b] && base == b + seq!['~'] + spec_digits(i);
            assert(base[b.len() as int] == '~');
            assert(false);
        }
    }
    let m2 = m.insert(base, 0u32);
    assert forall|id: Seq<char>| #[trigger] id_issued(m2, id) implies id_issued(m, id) || id
        == base by {
        let b = choose|b: Seq<char>|
            #[trigger] m2.contains_key(b) && (id == b || (exists|i: nat|
                i < m2[b] && id == b + seq!['~'] + spec_digits(i)));
        if b == base {
            if id != base {
                let i = choose|i: nat| i < m2[b] && id == b + seq!['~'] + spec_digits(i);
                assert(false);
            }
        } else {
            assert(m.contains_key(b));
            assert(m[b] == m2[b]);
        }
    }
    assert forall|id: Seq<char>| id_issued(m, id) || id == base implies #[trigger] id_issued(
        m2,
        id,
    ) by {
        if id == base {
            assert(m2.contains_key(base));
        } else {
            let b = choose|b: Seq<char>|
                #[trigger] m.contains_key(b) && (id == b || (exists|i: nat|
                    i < m[b] && id == b + seq!['~'] + spec_digits(i)));
            assert(b != base);
            assert(m2.contains_key(b));
            assert(m2[b] == m[b]);
        }
    }
}

proof fn lemma_issued_fresh_bump(m: Map<Seq<char>, u32>, base: Seq<char>, c: u32)
    requires
        id_map_wf(m),
        m.contains_key(base),
        m[base] == c,
        c < u32::MAX,
    ensures
        !issued_of(m).contains(base + seq!['~'] + spec_digits(c as nat)),
        issued_of(m.insert(base, (c + 1) as u32)) =~= issued_of(m).insert(
            base + seq!['~'] + spec_digits(c as nat),
        ),
        id_map_wf(m.insert(base, (c + 1) as u32)),
{
    let r = base + seq!['~'] + spec_digits(c as nat);
    lemma_digits_not_tilde(c as nat);
    if id_issued(m, r) {
        let b = choose|b: Seq<char>|
            #[trigger] m.contains_key(b) && (r == b || (exists|i: nat|
                i < m[b] && r == b + seq!['~'] + spec_digits(i)));
        if r == b {
            assert(r[base.len() as int] == '~');
            assert(false);
        } else {
            let i = choose|i: nat| i < m[b] && r == b + seq!['~'] + spec_digits(i);
            lemma_digits_not_tilde(i);
            lemma_tilde_split_unique(base, spec_digits(c as nat), b, spec_digits(i));
            lemma_digits_injective(c as nat, i);
            assert(false);
        }
    }
    let m2 = m.insert(base, (c + 1) as u32);
    assert forall|id: Seq<char>| #[trigger] id_issued(m2, id) implies id_issued(m, id) || id
        == r by {
        let b = choose|b: Seq<char>|
            #[trigger] m2.contains_key(b) && (id == b || (exists|i: nat|
                i < m2[b] && id == b + seq!['~'] + spec_digits(i)));
        if b == base {
            if id == base {
                assert(id_issued(m, id)) by {
                    assert(m.contains_key(base));
                }
            } else {
                let i = choose|i: nat| i < m2[b] && id == b + seq!['~'] + spec_digits(i);
                if i < c {
                    assert(m.contains_key(base));
                } else {
                    assert(i == c);
                }
            }
        } else {
            assert(m.contains_key(b));
            assert(m[b] == m2[b]);
        }
    }
    assert forall|id: Seq<char>| id_issued(m, id) || id == r implies #[trigger] id_issued(
        m2,
        id,
    ) by {
        if id == r {
            assert(m2.contains_key(base));
            assert((c as nat) < m2[base]);
        } else {
            let b = choose|b: Seq<char>|
                #[trigger] m.contains_key(b) && (id == b || (exists|i: nat|
                    i < m[b] && id == b + seq!['~'] + spec_digits(i)));
            assert(m2.contains_key(b));
            if b == base {
                if id != b {
                    let i = choose|i: nat| i < m[b] && id == b + seq!['~'] + spec_digits(i);
                    assert(i < m2[base]);
                }
            } else {
                assert(m2[b] == m[b]);
            }
        }
    }
}

proof fn lemma_issued_monotone_insert(m: Map<Seq<char>, u32>, base: Seq<char>, c: u32)
    requires
        !m.contains_key(base) || m[base] <= c,
    ensures
        issued_of(m).subset_of(issued_of(m.insert(base, c))),
{
    let m2 = m.insert(base, c);
    assert forall|id: Seq<char>| issued_of(m).contains(id) implies issued_of(m2).contains(id) by {
        let b = choose|b: Seq<char>|
            #[trigger] m.contains_key(b) && (id == b || (exists|i: nat|
                i < m[b] && id == b + seq!['~'] + spec_digits(i)));
        if b == base {
            assert(m2.contains_key(base));
            if id != b {
                let i = choose|i: nat| i < m[b] && id == b + seq!['~'] + spec_digits(i);
                assert(i < m2[base]);
            }
        } else {
            assert(m2.contains_key(b));
            assert(m2[b] == m[b]);
        }
    }
}

fn find_last_id(v: &Vec<(String, u32)>, k: &str) -> (r: Option<usize>)
    ensures
        match r {
            Some(j) => j < v@.len() && v@[j as int].0@ == k@ && (forall|l: int|
                j < l < v@.len() ==> (#[trigger] v@[l]).0@ != k@),
            None => forall|l: int| 0 <= l < v@.len() ==> (#[trigger] v@[l]).0@ != k@,
        },
{
    let mut i: usize = v.len();
    while i > 0
        invariant
            0 <= i <= v@.len(),
            forall|l: int| i <= l < v@.len() ==> (#[trigger] v@[l]).0@ != k@,
        decreases i,
    {
        i = i - 1;
        if str_eq(v[i].0.as_str(), k) {
            return Some(i);
        }
    }
    None
}

/// Session state of the converter: the table behind identifier generation.
/// Its lifetime is the conversion session, deliberately shared across the
/// documents of one combined output.
pub struct FrontendState {
    identifiers: Vec<(String, u32)>,
}

impl FrontendState {
    /// Base text to counter of issued duplicates.
    pub closed spec fn id_map(&self) -> Map<Seq<char>, u32> {
        id_map_of(self.identifiers@)
    }

    pub open spec fn wf(&self) -> bool {
        id_map_wf(self.id_map())
    }

    /// Every identifier this state has issued.
    pub open spec fn issued(&self) -> Set<Seq<char>> {
        issued_of(self.id_map())
    }

    pub fn new() -> (r: Self)
        ensures
            r.id_map() == Map::<Seq<char>, u32>::empty(),
            r.wf(),
            r.issued() == Set::<Seq<char>>::empty(),
    {
        let r = FrontendState { identifiers: Vec::new() };
        proof {
            assert(id_map_of(r.identifiers@) =~= Map::<Seq<char>, u32>::empty());
            assert forall|id: Seq<char>| !(#[trigger] issued_of(r.id_map()).contains(id)) by {
                if id_issued(r.id_map(), id) {
                    let b = choose|b: Seq<char>|
                        #[trigger] r.id_map().contains_key(b) && (id == b || (exists|i: nat|
                            i < r.id_map()[b] && id == b + seq!['~'] + spec_digits(i)));
                    assert(false);
                }
            }
            assert(r.issued() =~= Set::<Seq<char>>::empty());
        }
        r
    }

    /// Generates a unique HTML-id-safe identifier from `text`: whitespace and
    /// `~` become `-`; a base that was issued before gets `~<counter>`
    /// appended, and the counter steps up (it saturates at its maximum).
    ///
    /// LAW (identifier uniqueness): as long as no counter has saturated, the
    /// result was never issued before by this state, and the issued set grows
    /// by exactly the result — identical heading texts in one session never
    /// collide. The result holds no whitespace.
    pub fn generate_id(&mut self, text: &str) -> (r: String)
        ensures
            ws_free(r@),
            old(self).issued().subset_of(final(self).issued()),
            ({
                let base = spec_dashed(text@);
                let m = old(self).id_map();
                &&& (!m.contains_key(base) ==> r@ == base && final(self).id_map() == m.insert(
                    base,
                    0u32,
                ))
                &&& (m.contains_key(base) ==> r@ == base + seq!['~'] + spec_digits(m[base] as nat)
                    && (m[base] < u32::MAX ==> final(self).id_map() == m.insert(
                    base,
                    (m[base] + 1) as u32,
                )) && (m[base] == u32::MAX ==> final(self).id_map() == m))
            }),
            old(self).wf() ==> final(self).wf(),
            (old(self).wf() && (old(self).id_map().contains_key(spec_dashed(text@)) ==> old(
                self,
            ).id_map()[spec_dashed(text@)] < u32::MAX)) ==> {
                &&& !old(self).issued().contains(r@)
                &&& final(self).issued() == old(self).issued().insert(r@)
            },
    {
        let base = dashed(text);
        proof {
            lemma_dashed_tilde_free(text@);
        }
        match find_last_id(&self.identifiers, base.as_str()) {
            Some(j) => {
                proof {
                    lemma_ids_lookup(self.identifiers@, base@, j as int);
                }
                let c = self.identifiers[j].1;
                let mut r = base.clone();
                push_char(&mut r, '~');
                let ds = u32_digits(c);
                r.append(ds.as_str());
                proof {
                    assert(r@ =~= base@ + seq!['~'] + spec_digits(c as nat));
                    lemma_digits_not_ws(c as nat);
                    assert forall|k: int| 0 <= k < r@.len() implies !is_ws_char(
                        #[trigger] r@[k],
                    ) by {
                        if k < base@.len() {
                            assert(r@[k] == base@[k]);
                        } else if k == base@.len() {
                            assert(r@[k] == '~');
                        } else {
                            assert(r@[k] == spec_digits(c as nat)[k - base@.len() - 1]);
                        }
                    }
                }
                if c < u32::MAX {
                    let ghost s0 = self.identifiers@;
                    self.identifiers.push((base, c + 1));
                    proof {
                        assert(self.identifiers@.drop_last() =~= s0);
                        assert(self.id_map() == old(self).id_map().insert(base@, (c + 1) as u32));
                        lemma_issued_monotone_insert(old(self).id_map(), base@, (c + 1) as u32);
                        if old(self).wf() {
                            lemma_issued_fresh_bump(old(self).id_map(), base@, c);
                            assert(self.issued() =~= old(self).issued().insert(r@));
                        }
                    }
                }
                proof {
                    if c == u32::MAX {
                        assert(old(self).issued().subset_of(self.issued()));
                    }
                }
                r
            },
            None => {
                proof {
                    lemma_ids_absent(self.identifiers@, base@);
                }
                let r = base.clone();
                let ghost s0 = self.identifiers@;
                self.identifiers.push((base, 0));
                proof {
                    assert(self.identifiers@.drop_last() =~= s0);
                    assert(self.id_map() == old(self).id_map().insert(r@, 0u32));
                    lemma_issued_monotone_insert(old(self).id_map(), r@, 0u32);
                    if old(self).wf() {
                        lemma_issued_fresh_new(old(self).id_map(), r@);
                        assert(self.issued() =~= old(self).issued().insert(r@));
                    }
                }
                r
            },
        }
    }
}

// ---------------------------------------------------------------------------
// Configuration and the front end.
// ---------------------------------------------------------------------------

/// Configuration of a conversion: the symbols standing for task statuses.
#[derive(Debug, Clone)]
pub struct Config {
    pub todo_symbols: TodoSymbols,
}

impl Default for Config {
    fn default() -> (r: Self) {
        Config { todo_symbols: TodoSymbols::default() }
    }
}

/// The central entry point. One `Frontend` converts any number of documents
/// that belong to one output, sharing the identifier-uniqueness table across
/// them by design.
pub struct Frontend {
    config: Config,
    state: FrontendState,
}

impl Frontend {
    /// The session's identifier table is well formed.
    pub closed spec fn state_wf(&self) -> bool {
        self.state.wf()
    }

    /// Every identifier this session has issued.
    pub closed spec fn issued(&self) -> Set<Seq<char>> {
        self.state.issued()
    }

    /// The configuration the session was created with.
    pub closed spec fn config_of(&self) -> Config {
        self.config
    }

    /// Creates a front end with the given configuration: a fresh session that
    /// has issued no identifiers yet.
    pub fn new(config: Config) -> (r: Self)
        ensures
            r.state_wf(),
            r.issued() == Set::<Seq<char>>::empty(),
            r.config_of() == config,
    {
        Frontend { config, state: FrontendState::new() }
    }

    /// Converts one parsed document tree, with its source text and the
    /// pre-resolved field ids, into the resolved output document. The walk
    /// accumulates the intermediate representation and the cross-reference
    /// registries; emission then resolves every reference against the
    /// finished registries.
    pub fn convert(&mut self, source: &str, root: &SyntaxNode, field_ids: FieldIds) -> (r: Pandoc)
        requires
            node_wf(*root, source@.len()),
            field_ids.wf(),
            old(self).state_wf(),
        ensures
            final(self).state_wf(),
            final(self).config_of() == old(self).config_of(),
            old(self).issued().subset_of(final(self).issued()),
    {
        let mut state = FrontendState::new();
        core::mem::swap(&mut state, &mut self.state);
        let mut builder = Builder {
            source: String::from_str(source),
            document: DocumentBuilder::default(),
            context: DocumentContext::new(),
            config: self.config.clone(),
            frontend: state,
            field_ids,
        };
        builder.handle_node(root);
        let Builder { document, context, frontend, .. } = builder;
        self.state = frontend;
        document.build(&context)
    }
}

impl Default for Frontend {
    fn default() -> (r: Self)
        ensures
            r.state_wf(),
            r.issued() == Set::<Seq<char>>::empty(),
    {
        Frontend::new(Config::default())
    }
}

// ---------------------------------------------------------------------------
// The tree walker.
// ---------------------------------------------------------------------------

/// What one paragraph's children fold into: the finished segments, and the
/// inlines accumulated for the next segment. A child whose inlines leave the
/// running segment non-empty closes it as one finished segment.
pub open spec fn para_scan(
    cs: Seq<SyntaxNode>,
    src: Seq<char>,
    fids: FieldIds,
    segs: Seq<Seq<crate::ir::InlineV>>,
    cur: Seq<crate::ir::InlineV>,
) -> (Seq<Seq<crate::ir::InlineV>>, Seq<crate::ir::InlineV>)
    decreases cs.len(),
{
    if cs.len() == 0 {
        (segs, cur)
    } else {
        let cur2 = cur + crate::inlines::inlines_of(cs[0], src, fids);
        if cur2.len() > 0 {
            para_scan(cs.drop_first(), src, fids, segs.push(cur2), Seq::empty())
        } else {
            para_scan(cs.drop_first(), src, fids, segs, cur2)
        }
    }
}

/// The walking state: the source text, the document being accumulated, the
/// cross-reference registries, and the session state.
pub struct Builder {
    pub source: String,
    pub document: DocumentBuilder,
    pub context: DocumentContext,
    pub config: Config,
    pub frontend: FrontendState,
    pub field_ids: FieldIds,
}

impl Builder {
    pub open spec fn src_len(&self) -> nat {
        self.source@.len()
    }

    /// The discipline every handler keeps: the scope stack keeps its depth,
    /// scopes below the top are untouched, the top scope only grows at its
    /// end, the fixed parts of the state stay fixed, and the registries only
    /// gain keys — a registered document link stays registered, an issued
    /// identifier stays issued.
    pub open spec fn frames_ok(pre: Builder, post: Builder) -> bool {
        &&& post.document.scopes_v().len() == pre.document.scopes_v().len()
        &&& (pre.document.scopes_v().len() > 0 ==> {
            &&& (forall|i: int|
                0 <= i < pre.document.scopes_v().len() - 1
                    ==> #[trigger] post.document.scopes_v()[i] == pre.document.scopes_v()[i])
            &&& pre.document.scopes_v().last().is_prefix_of(post.document.scopes_v().last())
        })
        &&& post.source == pre.source
        &&& post.config == pre.config
        &&& post.field_ids == pre.field_ids
        &&& (pre.frontend.wf() ==> post.frontend.wf())
        &&& pre.context.links_map().dom().subset_of(post.context.links_map().dom())
        &&& pre.frontend.issued().subset_of(post.frontend.issued())
    }

    /// The discipline of inline-level handlers: the document accumulator is
    /// untouched (they only append to the inline run they are handed and may
    /// register anchors), and the fixed parts of the state stay fixed.
    pub open spec fn inline_ok(pre: Builder, post: Builder) -> bool {
        &&& post.document == pre.document
        &&& post.source == pre.source
        &&& post.config == pre.config
        &&& post.field_ids == pre.field_ids
        &&& post.frontend == pre.frontend
        &&& post.context.links_map() == pre.context.links_map()
    }

    pub proof fn lemma_frames_ok_refl(a: Builder)
        ensures
            Builder::frames_ok(a, a),
    {
        if a.document.scopes_v().len() > 0 {
            let l = a.document.scopes_v().last();
            assert(l =~= l.subrange(0, l.len() as int));
        }
    }

    pub proof fn lemma_frames_ok_trans(a: Builder, b: Builder, c: Builder)
        requires
            Builder::frames_ok(a, b),
            Builder::frames_ok(b, c),
        ensures
            Builder::frames_ok(a, c),
    {
        if a.document.scopes_v().len() > 0 {
            let la = a.document.scopes_v().last();
            let lb = b.document.scopes_v().last();
            let lc = c.document.scopes_v().last();
            assert(la.is_prefix_of(lc)) by {
                assert(la =~= lc.subrange(0, la.len() as int)) by {
                    assert(la =~= lb.subrange(0, la.len() as int));
                    assert(lb =~= lc.subrange(0, lb.len() as int));
                }
            }
        }
    }

    /// Dispatches on the node's kind to exactly one handler, with the
    /// handler's effect: paragraphs, quotes, lists and tables appear below
    /// with their exact folds; headings, definition lists and tags keep the
    /// frame discipline their own contracts state; unrecognised kinds — a
    /// non-fatal condition — leave the state untouched and traversal goes on
    /// at the sibling level.
    pub fn handle_node(&mut self, node: &SyntaxNode)
        requires
            old(self).document.scopes_v().len() > 0,
            node_wf(*node, old(self).src_len()),
            old(self).field_ids.wf(),
        ensures
            Builder::frames_ok(*old(self), *final(self)),
            (match node.kind {
                NodeKind::Document => true,
                NodeKind::Heading { .. } => true,
                NodeKind::DefinitionList => true,
                NodeKind::RangedTag => true,
                NodeKind::RangedVerbatimTag => true,
                NodeKind::Quote => ({
                    let s1 = crate::quote::quote_parse_scan(
                        node.children@,
                        crate::quote::QuoteStateV {
                            bl: Seq::new(6, |i: int| Seq::<crate::ir::BlockV>::empty()),
                            last: 0,
                            coll: old(self).document.collector_v(),
                        },
                        old(self).source@,
                        old(self).field_ids,
                        old(self).config.todo_symbols,
                    );
                    let root = crate::quote::spec_merge(s1.bl, s1.last, 0)[0];
                    &&& (node.children@.len() > 0 ==> final(self).document.scopes_v()
                        == crate::document::spec_add_block(
                        old(self).document.scopes_v(),
                        s1.coll,
                        crate::ir::BlockV::BlockQuoteV(root),
                    ) && final(self).document.collector_v() == Seq::<crate::ir::InlineV>::empty())
                    &&& (node.children@.len() == 0 ==> *final(self) == *old(self))
                }),
                NodeKind::Paragraph => ({
                    let st = para_scan(
                        node.children@,
                        old(self).source@,
                        old(self).field_ids,
                        Seq::empty(),
                        old(self).document.collector_v(),
                    );
                    &&& final(self).document.collector_v() == Seq::<crate::ir::InlineV>::empty()
                    &&& final(self).document.meta_pairs() == old(self).document.meta_pairs()
                    &&& final(self).context.links_map() == old(self).context.links_map()
                    &&& (if st.0.len() > 0 {
                        final(self).document.scopes_v() == crate::document::spec_add_block(
                            old(self).document.scopes_v(),
                            Seq::empty(),
                            crate::ir::BlockV::ParagraphV(st.0),
                        )
                    } else {
                        final(self).document.scopes_v() == old(self).document.scopes_v()
                    })
                }),
                NodeKind::GenericList => ({
                    &&& (node.children@.len() == 0 ==> *final(self) == *old(self))
                    &&& (node.children@.len() > 0 ==> {
                        let emitted = crate::lists::lists_driver(
                            node.children@,
                            0,
                            old(self).document.collector_v(),
                            old(self).source@,
                            old(self).field_ids,
                            old(self).config.todo_symbols,
                        );
                        &&& final(self).document.scopes_v() == old(
                            self,
                        ).document.scopes_v().update(
                            old(self).document.scopes_v().len() - 1,
                            old(self).document.scopes_v().last() + emitted,
                        )
                        &&& final(self).document.collector_v() == Seq::<
                            crate::ir::InlineV,
                        >::empty()
                        &&& final(self).document.meta_pairs() == old(self).document.meta_pairs()
                        &&& final(self).context.links_map() == old(self).context.links_map()
                    })
                }),
                NodeKind::Table => ({
                    let st = crate::table::table_scan(
                        node.children@,
                        old(self).source@,
                        old(self).field_ids,
                        crate::table::TableScanV {
                            rows: Seq::empty(),
                            cols: 0,
                            coll: old(self).document.collector_v(),
                        },
                    );
                    &&& final(self).document.scopes_v() == crate::document::spec_add_block(
                        old(self).document.scopes_v(),
                        st.coll,
                        crate::ir::BlockV::TableV(st.cols, Seq::empty(), st.rows),
                    )
                    &&& final(self).document.collector_v() == Seq::<crate::ir::InlineV>::empty()
                }),
                _ => *final(self) == *old(self),
            }),
        decreases node_size(*node), 1int,
    {
        match node.kind {
            NodeKind::Document => self.handle_document(node),
            NodeKind::Heading { level } => self.handle_heading(node, level),
            NodeKind::Quote => self.handle_quote(node),
            NodeKind::ParagraphBreak => {},
            NodeKind::Paragraph => self.handle_paragraph(node),
            NodeKind::RangedTag => self.handle_ranged_tag(node),
            NodeKind::RangedVerbatimTag => self.handle_verbatim(node),
            NodeKind::GenericList => self.handle_lists(node),
            NodeKind::DefinitionList => self.handle_definition_list(node),
            NodeKind::Table => self.handle_table(node),
            _ => {},
        }
        proof {
            if !(node.kind is Document || node.kind is Heading || node.kind is Quote
                || node.kind is Paragraph || node.kind is RangedTag
                || node.kind is RangedVerbatimTag || node.kind is GenericList
                || node.kind is DefinitionList || node.kind is Table) {
                Builder::lemma_frames_ok_refl(*old(self));
            }
        }
    }

    fn handle_document(&mut self, node: &SyntaxNode)
        requires
            old(self).document.scopes_v().len() > 0,
            node_wf(*node, old(self).src_len()),
            old(self).field_ids.wf(),
        ensures
            Builder::frames_ok(*old(self), *final(self)),
        decreases node_size(*node), 0int,
    {
        let mut i: usize = 0;
        while i < node.children.len()
            invariant
                0 <= i <= node.children@.len(),
                node_wf(*node, old(self).src_len()),
                old(self).document.scopes_v().len() > 0,
                old(self).field_ids.wf(),
                Builder::frames_ok(*old(self), *self),
            decreases node.children@.len() - i,
        {
            proof {
                lemma_forest_size_elem(node.children@, i as int);
            }
            let ghost pre = *self;
            self.handle_node(&node.children[i]);
            proof {
                Builder::lemma_frames_ok_trans(*old(self), pre, *self);
            }
            i = i + 1;
        }
    }

    /// Handles a heading: the title field's inlines (prefixed by the pending
    /// collector) become a `Header` block with a freshly generated unique
    /// identifier, registered in the document-link registry under the title
    /// text and the heading's level; content fields walk on; a state field is
    /// a task-status extension. Every title field leaves its registration
    /// behind, and a heading with a title grows the current scope.
    fn handle_heading(&mut self, node: &SyntaxNode, level: u8)
        requires
            old(self).document.scopes_v().len() > 0,
            node_wf(*node, old(self).src_len()),
            old(self).field_ids.wf(),
        ensures
            Builder::frames_ok(*old(self), *final(self)),
            forall|k: int|
                0 <= k < node.children@.len() && (#[trigger] node.children@[k]).field_id == Some(
                    old(self).field_ids.title,
                ) ==> final(self).context.links_map().contains_key(
                    (
                        old(self).source@.subrange(
                            node.children@[k].start as int,
                            node.children@[k].end as int,
                        ),
                        DocumentLinkType::Heading(level as i32),
                    ),
                ),
            (exists|k: int|
                0 <= k < node.children@.len() && (#[trigger] node.children@[k]).field_id == Some(
                    old(self).field_ids.title,
                )) ==> final(self).document.scopes_v().last().len() > old(
                self,
            ).document.scopes_v().last().len(),
        decreases node_size(*node), 0int,
    {
        let mut i: usize = 0;
        while i < node.children.len()
            invariant
                0 <= i <= node.children@.len(),
                node_wf(*node, old(self).src_len()),
                old(self).document.scopes_v().len() > 0,
                old(self).field_ids.wf(),
                Builder::frames_ok(*old(self), *self),
                forall|k: int|
                    0 <= k < i && (#[trigger] node.children@[k]).field_id == Some(
                        old(self).field_ids.title,
                    ) ==> self.context.links_map().contains_key(
                        (
                            old(self).source@.subrange(
                                node.children@[k].start as int,
                                node.children@[k].end as int,
                            ),
                            DocumentLinkType::Heading(level as i32),
                        ),
                    ),
                (exists|k: int|
                    0 <= k < i && (#[trigger] node.children@[k]).field_id == Some(
                        old(self).field_ids.title,
                    )) ==> self.document.scopes_v().last().len() > old(
                    self,
                ).document.scopes_v().last().len(),
            decreases node.children@.len() - i,
        {
            proof {
                lemma_forest_size_elem(node.children@, i as int);
            }
            let ghost pre = *self;
            let child = &node.children[i];
            if field_is(child, self.field_ids.content) {
                self.handle_node(child);
            } else if field_is(child, self.field_ids.title) {
                proof {
                    crate::tree::lemma_child_wf(*node, i as int, old(self).src_len());
                }
                let mut inlines = self.document.take_inlines_collector();
                self.handle_segment(child, &mut inlines);
                let title = String::from_str(
                    self.source.as_str().substring_char(child.start, child.end),
                );
                let id = self.frontend.generate_id(title.as_str());
                self.context.add_document_link(
                    title,
                    DocumentLinkType::Heading(level as i32),
                    id.clone(),
                );
                self.document.add_block(Block::Header(level as i32, id, inlines));
                proof {
                    crate::document::lemma_spec_add_block_prefix(
                        pre.document.scopes_v(),
                        pre.document.collector_v(),
                    );
                }
            } else if field_is(child, self.field_ids.state) {
                self.handle_detached_ext(child);
            }
            proof {
                Builder::lemma_frames_ok_refl(pre);
                Builder::lemma_frames_ok_trans(*old(self), pre, *self);
                assert forall|k: int|
                    0 <= k < i + 1 && (#[trigger] node.children@[k]).field_id == Some(
                        old(self).field_ids.title,
                    ) implies self.context.links_map().contains_key(
                    (
                        old(self).source@.subrange(
                            node.children@[k].start as int,
                            node.children@[k].end as int,
                        ),
                        DocumentLinkType::Heading(level as i32),
                    ),
                ) by {
                    let key = (
                        old(self).source@.subrange(
                            node.children@[k].start as int,
                            node.children@[k].end as int,
                        ),
                        DocumentLinkType::Heading(level as i32),
                    );
                    if k < i {
                        assert(pre.context.links_map().contains_key(key));
                        assert(pre.context.links_map().dom().contains(key));
                        assert(self.context.links_map().dom().contains(key));
                        assert(self.context.links_map().contains_key(key));
                    } else {
                        assert(self.context.links_map().contains_key(key));
                    }
                }
            }
            i = i + 1;
        }
    }

    fn handle_quote(&mut self, node: &SyntaxNode)
        requires
            old(self).document.scopes_v().len() > 0,
            node_wf(*node, old(self).src_len()),
        ensures
            Builder::frames_ok(*old(self), *final(self)),
            ({
                let s1 = crate::quote::quote_parse_scan(
                    node.children@,
                    crate::quote::QuoteStateV {
                        bl: Seq::new(6, |i: int| Seq::<crate::ir::BlockV>::empty()),
                        last: 0,
                        coll: old(self).document.collector_v(),
                    },
                    old(self).source@,
                    old(self).field_ids,
                    old(self).config.todo_symbols,
                );
                let root = crate::quote::spec_merge(s1.bl, s1.last, 0)[0];
                &&& (node.children@.len() > 0 ==> final(self).document.scopes_v()
                    == crate::document::spec_add_block(
                    old(self).document.scopes_v(),
                    s1.coll,
                    crate::ir::BlockV::BlockQuoteV(root),
                ) && final(self).document.collector_v() == Seq::<crate::ir::InlineV>::empty())
                &&& (node.children@.len() == 0 ==> *final(self) == *old(self))
            }),
        decreases node_size(*node), 0int,
    {
        if node.children.len() == 0 {
            return ;
        }
        let ghost pre = *self;
        let qb = crate::quote::QuoteBuilder::new();
        let root = qb.parse(self, &node.children);
        let ghost mid = *self;
        self.document.add_block(Block::BlockQuote(root));
        proof {
            crate::document::lemma_spec_add_block_prefix(
                mid.document.scopes_v(),
                mid.document.collector_v(),
            );
            Builder::lemma_frames_ok_trans(*old(self), mid, *self);
        }
    }

    /// Collects the paragraph's segments — the pending inline collector is
    /// the first segment — and appends one `Paragraph` block, unless every
    /// segment came out empty.
    pub(crate) fn handle_paragraph(&mut self, node: &SyntaxNode)
        requires
            old(self).document.scopes_v().len() > 0,
            node_wf(*node, old(self).src_len()),
        ensures
            Builder::frames_ok(*old(self), *final(self)),
            final(self).document.collector_v() == Seq::<crate::ir::InlineV>::empty(),
            final(self).document.meta_pairs() == old(self).document.meta_pairs(),
            final(self).context.links_map() == old(self).context.links_map(),
            ({
                let st = para_scan(
                    node.children@,
                    old(self).source@,
                    old(self).field_ids,
                    Seq::empty(),
                    old(self).document.collector_v(),
                );
                if st.0.len() > 0 {
                    final(self).document.scopes_v() == crate::document::spec_add_block(
                        old(self).document.scopes_v(),
                        Seq::empty(),
                        crate::ir::BlockV::ParagraphV(st.0),
                    )
                } else {
                    final(self).document.scopes_v() == old(self).document.scopes_v()
                }
            }),
        decreases node_size(*node), 0int,
    {
        let ghost src = self.source@;
        let ghost fids = self.field_ids;
        let ghost coll0 = self.document.collector_v();
        let mut segments: Vec<Vec<Inline>> = Vec::new();
        let mut segment = self.document.take_inlines_collector();
        let mut i: usize = 0;
        proof {
            assert(node.children@.skip(0) =~= node.children@);
            assert(crate::ir::segs_v(segments@) =~= Seq::<Seq<crate::ir::InlineV>>::empty());
        }
        while i < node.children.len()
            invariant
                0 <= i <= node.children@.len(),
                node_wf(*node, old(self).src_len()),
                old(self).document.scopes_v().len() > 0,
                src == old(self).source@,
                fids == old(self).field_ids,
                coll0 == old(self).document.collector_v(),
                self.document.scopes_v() == old(self).document.scopes_v(),
                self.document.collector_v() == Seq::<crate::ir::InlineV>::empty(),
                self.document.meta_pairs() == old(self).document.meta_pairs(),
                self.source == old(self).source,
                self.config == old(self).config,
                self.field_ids == old(self).field_ids,
                self.frontend == old(self).frontend,
                self.context.links_map() == old(self).context.links_map(),
                para_scan(
                    node.children@.skip(i as int),
                    src,
                    fids,
                    crate::ir::segs_v(segments@),
                    crate::ir::inlines_v(segment@),
                ) == para_scan(node.children@, src, fids, Seq::empty(), coll0),
            decreases node.children@.len() - i,
        {
            proof {
                lemma_forest_size_elem(node.children@, i as int);
                assert(node.children@.skip(i as int).drop_first() =~= node.children@.skip(i + 1));
                assert(node.children@.skip(i as int)[0] == node.children@[i as int]);
            }
            let ghost segs0 = crate::ir::segs_v(segments@);
            self.handle_segment(&node.children[i], &mut segment);
            proof {
                crate::ir::lemma_inlines_v(segment@);
            }
            if segment.len() > 0 {
                let mut new_segment: Vec<Inline> = Vec::new();
                core::mem::swap(&mut segment, &mut new_segment);
                let ghost before = segments@;
                let ghost curv = crate::ir::inlines_v(new_segment@);
                segments.push(new_segment);
                proof {
                    crate::ir::lemma_segs_v(segments@);
                    crate::ir::lemma_segs_v(before);
                    assert(crate::ir::segs_v(segments@) =~= segs0.push(curv));
                    assert(crate::ir::inlines_v(segment@) =~= Seq::<crate::ir::InlineV>::empty());
                }
            }
            i = i + 1;
        }
        proof {
            assert(node.children@.skip(node.children@.len() as int) =~= Seq::<SyntaxNode>::empty());
        }
        if segments.len() > 0 {
            let ghost mid = *self;
            proof {
                crate::ir::lemma_segs_v(segments@);
            }
            self.document.add_block(Block::Paragraph(segments));
            proof {
                crate::document::lemma_spec_add_block_prefix(
                    mid.document.scopes_v(),
                    mid.document.collector_v(),
                );
            }
        } else {
            proof {
                crate::ir::lemma_segs_v(segments@);
                Builder::lemma_frames_ok_refl(*old(self));
            }
        }
    }
}

} // verus!
