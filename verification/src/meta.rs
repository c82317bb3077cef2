use vstd::prelude::*;
use vstd::pervasive::VecAdditionalExecFns;
use crate::strutil::{first_non_ws, is_ws, lemma_first_non_ws, spec_trim, str_eq, trim};

verus! {

/// A structured metadata value: a bare string, a list of values, or a nested
/// key/value mapping. The mapping keeps first-insertion order; a repeated key
/// replaces the value in place (last write wins).
#[derive(Debug, PartialEq)]
pub enum MetaValue {
    MetaString(String),
    MetaList(Vec<MetaValue>),
    MetaMap(Vec<(String, MetaValue)>),
}

/// Mathematical view of a `MetaValue`.
pub enum MetaValueV {
    StrV(Seq<char>),
    ListV(Seq<MetaValueV>),
    MapV(Seq<(Seq<char>, MetaValueV)>),
}

pub open spec fn meta_v(m: MetaValue) -> MetaValueV
    decreases m,
{
    match m {
        MetaValue::MetaString(s) => MetaValueV::StrV(s@),
        MetaValue::MetaList(l) => MetaValueV::ListV(metas_v(l@)),
        MetaValue::MetaMap(m) => MetaValueV::MapV(pairs_v(m@)),
    }
}

pub open spec fn metas_v(s: Seq<MetaValue>) -> Seq<MetaValueV>
    decreases s,
{
    if s.len() == 0 {
        Seq::empty()
    } else {
        seq![meta_v(s[0])] + metas_v(s.drop_first())
    }
}

pub open spec fn pairs_v(s: Seq<(String, MetaValue)>) -> Seq<(Seq<char>, MetaValueV)>
    decreases s,
{
    if s.len() == 0 {
        Seq::empty()
    } else {
        seq![(s[0].0@, meta_v(s[0].1))] + pairs_v(s.drop_first())
    }
}

pub proof fn lemma_metas_v(s: Seq<MetaValue>)
    ensures
        metas_v(s).len() == s.len(),
        forall|i: int| 0 <= i < s.len() ==> #[trigger] metas_v(s)[i] == meta_v(s[i]),
    decreases s.len(),
{
    if s.len() > 0 {
        lemma_metas_v(s.drop_first());
    }
}

pub proof fn lemma_pairs_v(s: Seq<(String, MetaValue)>)
    ensures
        pairs_v(s).len() == s.len(),
        forall|i: int|
            0 <= i < s.len() ==> #[trigger] pairs_v(s)[i] == (s[i].0@, meta_v(s[i].1)),
    decreases s.len(),
{
    if s.len() > 0 {
        lemma_pairs_v(s.drop_first());
    }
}

// ---------------------------------------------------------------------------
// Insertion into an order-keeping mapping.
// ---------------------------------------------------------------------------

/// Position of the first entry with key `k` (the length, if there is none).
pub open spec fn first_key(m: Seq<(Seq<char>, MetaValueV)>, k: Seq<char>) -> nat
    decreases m.len(),
{
    if m.len() == 0 {
        0
    } else if m[0].0 == k {
        0
    } else {
        1 + first_key(m.drop_first(), k)
    }
}

pub proof fn lemma_first_key(m: Seq<(Seq<char>, MetaValueV)>, k: Seq<char>)
    ensures
        first_key(m, k) <= m.len(),
        forall|j: int| 0 <= j < first_key(m, k) ==> (#[trigger] m[j]).0 != k,
        first_key(m, k) < m.len() ==> m[first_key(m, k) as int].0 == k,
    decreases m.len(),
{
    if m.len() > 0 && m[0].0 != k {
        lemma_first_key(m.drop_first(), k);
        assert forall|j: int| 0 <= j < first_key(m, k) implies (#[trigger] m[j]).0 != k by {
            if j > 0 {
                assert(m.drop_first()[j - 1] == m[j]);
            }
        }
    }
}

/// Last-write-wins insertion that keeps first-insertion order: a present key
/// has its value replaced in place, a new key is appended.
pub open spec fn spec_insert_pair(
    m: Seq<(Seq<char>, MetaValueV)>,
    k: Seq<char>,
    v: MetaValueV,
) -> Seq<(Seq<char>, MetaValueV)> {
    if first_key(m, k) < m.len() {
        m.update(first_key(m, k) as int, (k, v))
    } else {
        m.push((k, v))
    }
}

/// Inserts `(k, v)` into the mapping, replacing the value of a present key.
pub fn meta_insert(m: &mut Vec<(String, MetaValue)>, k: String, v: MetaValue)
    ensures
        pairs_v(final(m)@) == spec_insert_pair(pairs_v(old(m)@), k@, meta_v(v)),
{
    proof {
        lemma_first_key(pairs_v(m@), k@);
        lemma_pairs_v(m@);
    }
    let ghost m0 = m@;
    let ghost pv = pairs_v(m@);
    let mut i: usize = 0;
    while i < m.len()
        invariant
            0 <= i <= m@.len(),
            m@ == old(m)@,
            m0 == old(m)@,
            pv == pairs_v(old(m)@),
            pv.len() == m0.len(),
            forall|j: int| 0 <= j < m0.len() ==> #[trigger] pv[j] == (m0[j].0@, meta_v(m0[j].1)),
            forall|j: int| 0 <= j < i ==> (#[trigger] pv[j]).0 != k@,
        decreases m@.len() - i,
    {
        if str_eq(m[i].0.as_str(), k.as_str()) {
            proof {
                assert(pv[i as int].0 == k@);
                lemma_first_key(pv, k@);
                if first_key(pv, k@) < i {
                    assert(pv[first_key(pv, k@) as int].0 != k@);
                    assert(false);
                }
                if first_key(pv, k@) > i {
                    assert(pv[i as int].0 != k@);
                    assert(false);
                }
            }
            m.set(i, (k, v));
            proof {
                lemma_pairs_v(m@);
                assert(m@ == m0.update(i as int, (k, v)));
                assert(pairs_v(m@) =~= spec_insert_pair(pv, k@, meta_v(v)));
            }
            return ;
        }
        i = i + 1;
    }
    proof {
        lemma_first_key(pv, k@);
        assert(first_key(pv, k@) == m@.len());
    }
    m.push((k, v));
    proof {
        lemma_pairs_v(m@);
        assert(pairs_v(m@) =~= spec_insert_pair(pv, k@, meta_v(v)));
    }
}

// ---------------------------------------------------------------------------
// The recursive-descent grammar, at the specification level.
// ---------------------------------------------------------------------------

/// The characters at which keys and bare strings stop.
pub open spec fn stop_char(c: char) -> bool {
    c == '[' || c == ']' || c == '{' || c == '}' || c == ':' || c == '\n'
}

/// Index of the first stop character (the length, if there is none).
pub open spec fn first_stop(s: Seq<char>) -> nat
    decreases s.len(),
{
    if s.len() == 0 {
        0
    } else if stop_char(s[0]) {
        0
    } else {
        1 + first_stop(s.drop_first())
    }
}

pub proof fn lemma_first_stop(s: Seq<char>)
    ensures
        first_stop(s) <= s.len(),
        forall|k: int| 0 <= k < first_stop(s) ==> !stop_char(#[trigger] s[k]),
        first_stop(s) < s.len() ==> stop_char(s[first_stop(s) as int]),
    decreases s.len(),
{
    if s.len() > 0 && !stop_char(s[0]) {
        lemma_first_stop(s.drop_first());
        assert forall|k: int| 0 <= k < first_stop(s) implies !stop_char(#[trigger] s[k]) by {
            if k > 0 {
                assert(s.drop_first()[k - 1] == s[k]);
            }
        }
    }
}

/// A key or bare string: everything up to the first stop character, trimmed.
pub open spec fn spec_parse_string(s: Seq<char>) -> (Seq<char>, Seq<char>) {
    (spec_trim(s.take(first_stop(s) as int)), s.skip(first_stop(s) as int))
}

/// The rest after leading whitespace.
pub open spec fn spec_ws(s: Seq<char>) -> Seq<char> {
    s.skip(first_non_ws(s) as int)
}

/// A value: a `{ }` object, a `[ ]` list, or a bare string. A missing closing
/// brace and a list or object that makes no progress end the construct where
/// it stands instead of failing: malformed metadata is recovered from, never
/// fatal.
pub open spec fn spec_parse_value(s: Seq<char>) -> (MetaValueV, Seq<char>)
    decreases s.len(), 1int,
{
    if s.len() > 0 && s[0] == '{' {
        let (m, r1) = spec_parse_object_inner(s.drop_first());
        let r2 = if r1.len() > 0 && r1[0] == '}' {
            r1.drop_first()
        } else {
            r1
        };
        (MetaValueV::MapV(m), r2)
    } else if s.len() > 0 && s[0] == '[' {
        let (l, r) = spec_parse_list(s.drop_first());
        (MetaValueV::ListV(l), r)
    } else {
        let (t, r) = spec_parse_string(s);
        (MetaValueV::StrV(t), r)
    }
}

/// List elements up to the closing `]`, whitespace-separated.
pub open spec fn spec_parse_list(s: Seq<char>) -> (Seq<MetaValueV>, Seq<char>)
    decreases s.len(), 2int
        via spec_parse_list_dec
{
    let s1 = spec_ws(s);
    if s1.len() == 0 {
        (Seq::empty(), s1)
    } else if s1[0] == ']' {
        (Seq::empty(), s1.drop_first())
    } else {
        let (v, r) = spec_parse_value(s1);
        if r.len() >= s1.len() {
            (seq![v], r)
        } else {
            let (vs, r2) = spec_parse_list(r);
            (seq![v] + vs, r2)
        }
    }
}

#[via_fn]
proof fn spec_parse_list_dec(s: Seq<char>) {
    crate::strutil::lemma_first_non_ws(s);
}

/// One `key: value` entry. A missing colon is recovered from: the value is
/// parsed from where the colon should have stood.
pub open spec fn spec_parse_object_entry(s: Seq<char>) -> (Seq<char>, MetaValueV, Seq<char>)
    decreases s.len(), 2int
        via spec_parse_object_entry_dec
{
    let s1 = spec_ws(s);
    let (name, r1) = spec_parse_string(s1);
    let r2 = if r1.len() > 0 && r1[0] == ':' {
        r1.drop_first()
    } else {
        r1
    };
    let r3 = spec_ws(r2);
    let (v, r4) = spec_parse_value(r3);
    (name, v, r4)
}

#[via_fn]
proof fn spec_parse_object_entry_dec(s: Seq<char>) {
    crate::strutil::lemma_first_non_ws(s);
    let s1 = spec_ws(s);
    lemma_first_stop(s1);
    let r1 = s1.skip(first_stop(s1) as int);
    let r2 = if r1.len() > 0 && r1[0] == ':' {
        r1.drop_first()
    } else {
        r1
    };
    crate::strutil::lemma_first_non_ws(r2);
}

/// Entries accumulated into `acc` until the end of input, a closing `}`, or an
/// entry that makes no progress.
pub open spec fn spec_parse_object_items(
    s: Seq<char>,
    acc: Seq<(Seq<char>, MetaValueV)>,
) -> (Seq<(Seq<char>, MetaValueV)>, Seq<char>)
    decreases s.len(), 3int,
{
    let (name, v, r) = spec_parse_object_entry(s);
    let acc2 = spec_insert_pair(acc, name, v);
    let r1 = spec_ws(r);
    if r1.len() == 0 {
        (acc2, r1)
    } else if r1[0] == '}' {
        (acc2, r1)
    } else if r1.len() >= s.len() {
        (acc2, r1)
    } else {
        spec_parse_object_items(r1, acc2)
    }
}

/// A sequence of `key: value` entries; the unconsumed remainder begins at the
/// enclosing `}`, if any.
pub open spec fn spec_parse_object_inner(s: Seq<char>) -> (
    Seq<(Seq<char>, MetaValueV)>,
    Seq<char>,
)
    decreases s.len(), 4int,
{
    spec_parse_object_items(s, Seq::empty())
}

// ---------------------------------------------------------------------------
// The executable parser.
// ---------------------------------------------------------------------------

/// Splits `text` at the first character on which `stop` returns true.
pub fn consume_any<F: Fn(char) -> bool>(text: &str, stop: F) -> (r: (&str, &str))
    requires
        forall|c: char| #[trigger] stop.requires((c,)),
    ensures
        exists|n: int|
            {
                &&& 0 <= n <= text@.len()
                &&& r.0@ == text@.take(n)
                &&& r.1@ == text@.skip(n)
                &&& forall|j: int| 0 <= j < n ==> call_ensures(stop, ((#[trigger] text@[j]),), false)
                &&& (n < text@.len() ==> call_ensures(stop, (text@[n],), true))
            },
{
    let n = text.unicode_len();
    let mut i: usize = 0;
    while i < n
        invariant
            0 <= i <= n,
            n == text@.len(),
            forall|c: char| #[trigger] stop.requires((c,)),
            forall|j: int| 0 <= j < i ==> call_ensures(stop, ((#[trigger] text@[j]),), false),
        decreases n - i,
    {
        if stop(text.get_char(i)) {
            let a = text.substring_char(0, i);
            let b = text.substring_char(i, n);
            proof {
                assert(a@ =~= text@.take(i as int));
                assert(b@ =~= text@.skip(i as int));
            }
            return (a, b);
        }
        i = i + 1;
    }
    let a = text.substring_char(0, n);
    let b = text.substring_char(n, n);
    proof {
        assert(a@ =~= text@.take(n as int));
        assert(b@ =~= text@.skip(n as int));
    }
    (a, b)
}

/// Skips leading whitespace.
pub fn consume_whitespace(text: &str) -> (r: &str)
    ensures
        r@ == spec_ws(text@),
        r@.len() <= text@.len(),
{
    proof {
        lemma_first_non_ws(text@);
    }
    let n = text.unicode_len();
    let mut i: usize = 0;
    while i < n && is_ws(text.get_char(i))
        invariant
            0 <= i <= n,
            n == text@.len(),
            forall|k: int| 0 <= k < i ==> crate::strutil::is_ws_char(#[trigger] text@[k]),
        decreases n - i,
    {
        i = i + 1;
    }
    proof {
        if i < first_non_ws(text@) {
            assert(crate::strutil::is_ws_char(text@[i as int]));
            assert(false);
        }
        if i > first_non_ws(text@) {
            assert(crate::strutil::is_ws_char(text@[first_non_ws(text@) as int]));
            assert(false);
        }
    }
    text.substring_char(i, n)
}

fn is_stop(c: char) -> (r: bool)
    ensures
        r == stop_char(c),
{
    c == '[' || c == ']' || c == '{' || c == '}' || c == ':' || c == '\n'
}

/// A key or bare string, trimmed of surrounding whitespace, and the rest.
pub fn parse_string(text: &str) -> (r: (&str, &str))
    ensures
        r.0@ == spec_parse_string(text@).0,
        r.1@ == spec_parse_string(text@).1,
        r.1@.len() <= text@.len(),
{
    proof {
        lemma_first_stop(text@);
    }
    let n = text.unicode_len();
    let mut i: usize = 0;
    while i < n && !is_stop(text.get_char(i))
        invariant
            0 <= i <= n,
            n == text@.len(),
            forall|k: int| 0 <= k < i ==> !stop_char(#[trigger] text@[k]),
        decreases n - i,
    {
        i = i + 1;
    }
    proof {
        if i < first_stop(text@) {
            assert(stop_char(text@[i as int]));
            assert(false);
        }
        if i > first_stop(text@) {
            assert(stop_char(text@[first_stop(text@) as int]));
            assert(false);
        }
    }
    let raw = text.substring_char(0, i);
    let rest = text.substring_char(i, n);
    proof {
        assert(raw@ =~= text@.take(i as int));
        assert(rest@ =~= text@.skip(i as int));
    }
    (trim(raw), rest)
}

/// A value: nested object, list, or bare string.
pub fn parse_value(text: &str) -> (r: (MetaValue, &str))
    ensures
        meta_v(r.0) == spec_parse_value(text@).0,
        r.1@ == spec_parse_value(text@).1,
    decreases text@.len(), 1int,
{
    let n = text.unicode_len();
    if n > 0 && text.get_char(0) == '{' {
        let inner = text.substring_char(1, n);
        proof {
            assert(inner@ =~= text@.drop_first());
        }
        let (map, rest) = parse_object_inner(inner);
        let rn = rest.unicode_len();
        if rn > 0 && rest.get_char(0) == '}' {
            let rest2 = rest.substring_char(1, rn);
            proof {
                assert(rest2@ =~= rest@.drop_first());
            }
            (MetaValue::MetaMap(map), rest2)
        } else {
            (MetaValue::MetaMap(map), rest)
        }
    } else if n > 0 && text.get_char(0) == '[' {
        let inner = text.substring_char(1, n);
        proof {
            assert(inner@ =~= text@.drop_first());
        }
        let (list, rest) = parse_list_items(inner);
        (MetaValue::MetaList(list), rest)
    } else {
        let (t, rest) = parse_string(text);
        (MetaValue::MetaString(String::from_str(t)), rest)
    }
}

/// List elements up to the closing `]`.
fn parse_list_items(text: &str) -> (r: (Vec<MetaValue>, &str))
    ensures
        metas_v(r.0@) == spec_parse_list(text@).0,
        r.1@ == spec_parse_list(text@).1,
    decreases text@.len(), 2int,
{
    let s1 = consume_whitespace(text);
    let n = s1.unicode_len();
    if n == 0 {
        (Vec::new(), s1)
    } else if s1.get_char(0) == ']' {
        let rest = s1.substring_char(1, n);
        proof {
            assert(rest@ =~= s1@.drop_first());
        }
        (Vec::new(), rest)
    } else {
        let (v, r) = parse_value(s1);
        if r.unicode_len() >= n {
            let mut out: Vec<MetaValue> = Vec::new();
            out.push(v);
            proof {
                lemma_metas_v(out@);
                assert(metas_v(out@) =~= seq![meta_v(v)]);
                assert(metas_v(out@) =~= spec_parse_list(text@).0);
            }
            (out, r)
        } else {
            let (mut vs, r2) = parse_list_items(r);
            let ghost vs0 = vs@;
            vs.insert(0, v);
            proof {
                assert(vs@ =~= seq![v] + vs0);
                lemma_metas_v(vs@);
                lemma_metas_v(vs0);
                assert forall|j: int| 0 <= j < vs@.len() implies #[trigger] metas_v(vs@)[j] == (
                seq![meta_v(v)] + metas_v(vs0))[j] by {
                    if j > 0 {
                        assert(vs@[j] == vs0[j - 1]);
                    }
                }
                assert(metas_v(vs@) =~= seq![meta_v(v)] + metas_v(vs0));
                assert(metas_v(vs@) =~= spec_parse_list(text@).0);
            }
            (vs, r2)
        }
    }
}

/// One `key: value` entry.
pub fn parse_object_entry(text: &str) -> (r: (String, MetaValue, &str))
    ensures
        r.0@ == spec_parse_object_entry(text@).0,
        meta_v(r.1) == spec_parse_object_entry(text@).1,
        r.2@ == spec_parse_object_entry(text@).2,
    decreases text@.len(), 2int,
{
    let s1 = consume_whitespace(text);
    let (name, r1) = parse_string(s1);
    let n1 = r1.unicode_len();
    let r2 = if n1 > 0 && r1.get_char(0) == ':' {
        let t = r1.substring_char(1, n1);
        proof {
            assert(t@ =~= r1@.drop_first());
        }
        t
    } else {
        r1
    };
    let r3 = consume_whitespace(r2);
    let (v, r4) = parse_value(r3);
    (String::from_str(name), v, r4)
}

fn parse_object_items(text: &str, acc: Vec<(String, MetaValue)>) -> (r: (
    Vec<(String, MetaValue)>,
    &str,
))
    ensures
        pairs_v(r.0@) == spec_parse_object_items(text@, pairs_v(acc@)).0,
        r.1@ == spec_parse_object_items(text@, pairs_v(acc@)).1,
    decreases text@.len(), 3int,
{
    let (name, value, rest) = parse_object_entry(text);
    let mut acc2 = acc;
    meta_insert(&mut acc2, name, value);
    let r1 = consume_whitespace(rest);
    let n1 = r1.unicode_len();
    if n1 == 0 {
        return (acc2, r1);
    }
    if r1.get_char(0) == '}' {
        return (acc2, r1);
    }
    if n1 >= text.unicode_len() {
        return (acc2, r1);
    }
    parse_object_items(r1, acc2)
}

/// A sequence of `key: value` entries, as an order-keeping mapping, and the
/// unconsumed remainder.
pub fn parse_object_inner(text: &str) -> (r: (Vec<(String, MetaValue)>, &str))
    ensures
        pairs_v(r.0@) == spec_parse_object_inner(text@).0,
        r.1@ == spec_parse_object_inner(text@).1,
    decreases text@.len(), 4int,
{
    parse_object_items(text, Vec::new())
}

impl crate::Builder {
    /// Handles a `document.meta` block: its text parses as a run of
    /// `key: value` entries, which merge into the document's metadata
    /// mapping, last write winning.
    pub(crate) fn handle_document_meta_block(
        &mut self,
        node: &crate::tree::SyntaxNode,
        parameters: &Vec<String>,
    )
        requires
            old(self).document.scopes_v().len() > 0,
            crate::tree::node_wf(*node, old(self).src_len()),
        ensures
            crate::Builder::frames_ok(*old(self), *final(self)),
            final(self).document.scopes_v() == old(self).document.scopes_v(),
            final(self).document.collector_v() == old(self).document.collector_v(),
            final(self).context == old(self).context,
            final(self).frontend == old(self).frontend,
            final(self).document.meta_pairs() == crate::document::spec_extend(
                old(self).document.meta_pairs(),
                spec_parse_object_inner(
                    old(self).source@.subrange(node.start as int, node.end as int),
                ).0,
            ),
    {
        proof {
            crate::tree::lemma_node_span(*node, old(self).src_len());
        }
        let text = self.source.as_str().substring_char(node.start, node.end);
        let (pairs, _) = parse_object_inner(text);
        self.document.extend_meta(pairs);
        proof {
            crate::Builder::lemma_frames_ok_refl(*old(self));
        }
    }
}

} // verus!
