use vstd::prelude::*;

verus! {

/// Relies on `String::push`: appends exactly the given character.
#[verifier::external_body]
pub fn push_char(s: &mut String, c: char)
    ensures
        final(s)@ == old(s)@.push(c),
{
    s.push(c);
}

/// Character-wise string equality, proved against the views.
pub fn str_eq(a: &str, b: &str) -> (r: bool)
    ensures
        r == (a@ == b@),
{
    let na = a.unicode_len();
    let nb = b.unicode_len();
    if na != nb {
        return false;
    }
    let mut i: usize = 0;
    while i < na
        invariant
            0 <= i <= na,
            na == a@.len(),
            nb == b@.len(),
            na == nb,
            forall|j: int| 0 <= j < i ==> a@[j] == b@[j],
        decreases na - i,
    {
        if a.get_char(i) != b.get_char(i) {
            return false;
        }
        i = i + 1;
    }
    proof {
        assert(a@ =~= b@);
    }
    true
}

/// The Unicode `White_Space` characters; what `char::is_whitespace` accepts.
pub open spec fn is_ws_char(c: char) -> bool {
    ||| c == ' '
    ||| c == '\t'
    ||| c == '\n'
    ||| c == '\r'
    ||| c == '\u{000B}'
    ||| c == '\u{000C}'
    ||| c == '\u{0085}'
    ||| c == '\u{00A0}'
    ||| c == '\u{1680}'
    ||| ('\u{2000}' <= c && c <= '\u{200A}')
    ||| c == '\u{2028}'
    ||| c == '\u{2029}'
    ||| c == '\u{202F}'
    ||| c == '\u{205F}'
    ||| c == '\u{3000}'
}

pub fn is_ws(c: char) -> (r: bool)
    ensures
        r == is_ws_char(c),
{
    c == ' ' || c == '\t' || c == '\n' || c == '\r' || c == '\u{000B}' || c == '\u{000C}'
        || c == '\u{0085}' || c == '\u{00A0}' || c == '\u{1680}' || ('\u{2000}' <= c && c
        <= '\u{200A}') || c == '\u{2028}' || c == '\u{2029}' || c == '\u{202F}' || c == '\u{205F}'
        || c == '\u{3000}'
}

/// Index of the first character that is not whitespace (the length, if all are).
pub open spec fn first_non_ws(s: Seq<char>) -> nat
    decreases s.len(),
{
    if s.len() > 0 && is_ws_char(s[0]) {
        1 + first_non_ws(s.drop_first())
    } else {
        0
    }
}

pub proof fn lemma_first_non_ws(s: Seq<char>)
    ensures
        first_non_ws(s) <= s.len(),
        forall|k: int| 0 <= k < first_non_ws(s) ==> is_ws_char(#[trigger] s[k]),
        first_non_ws(s) < s.len() ==> !is_ws_char(s[first_non_ws(s) as int]),
    decreases s.len(),
{
    if s.len() > 0 && is_ws_char(s[0]) {
        lemma_first_non_ws(s.drop_first());
        assert forall|k: int| 0 <= k < first_non_ws(s) implies is_ws_char(#[trigger] s[k]) by {
            if k > 0 {
                assert(s.drop_first()[k - 1] == s[k]);
            }
        }
    }
}

/// One past the last character that is not whitespace (zero, if all are).
pub open spec fn last_non_ws_end(s: Seq<char>) -> nat
    decreases s.len(),
{
    if s.len() > 0 && is_ws_char(s.last()) {
        last_non_ws_end(s.drop_last())
    } else {
        s.len()
    }
}

pub proof fn lemma_last_non_ws_end(s: Seq<char>)
    ensures
        last_non_ws_end(s) <= s.len(),
        forall|k: int| last_non_ws_end(s) <= k < s.len() ==> is_ws_char(#[trigger] s[k]),
        last_non_ws_end(s) > 0 ==> !is_ws_char(s[last_non_ws_end(s) - 1]),
    decreases s.len(),
{
    if s.len() > 0 && is_ws_char(s.last()) {
        lemma_last_non_ws_end(s.drop_last());
        assert forall|k: int| last_non_ws_end(s) <= k < s.len() implies is_ws_char(
            #[trigger] s[k],
        ) by {
            if k < s.len() - 1 {
                assert(s.drop_last()[k] == s[k]);
            }
        }
    }
}

/// The string with surrounding whitespace removed.
pub open spec fn spec_trim(s: Seq<char>) -> Seq<char> {
    if first_non_ws(s) >= last_non_ws_end(s) {
        Seq::empty()
    } else {
        s.subrange(first_non_ws(s) as int, last_non_ws_end(s) as int)
    }
}

/// Removes surrounding whitespace, as the view-level `spec_trim` says.
pub fn trim(s: &str) -> (r: &str)
    ensures
        r@ == spec_trim(s@),
{
    proof {
        lemma_first_non_ws(s@);
        lemma_last_non_ws_end(s@);
    }
    let n = s.unicode_len();
    let mut i: usize = 0;
    while i < n && is_ws(s.get_char(i))
        invariant
            0 <= i <= n,
            n == s@.len(),
            forall|k: int| 0 <= k < i ==> is_ws_char(#[trigger] s@[k]),
        decreases n - i,
    {
        i = i + 1;
    }
    if i == n {
        proof {
            if first_non_ws(s@) < s@.len() {
                assert(is_ws_char(s@[first_non_ws(s@) as int]));
                assert(false);
            }
            assert(last_non_ws_end(s@) <= s@.len());
        }
        let r = s.substring_char(n, n);
        proof {
            assert(r@ =~= spec_trim(s@));
        }
        return r;
    }
    // `i` is the first non-whitespace index.
    proof {
        if i < first_non_ws(s@) {
            assert(is_ws_char(s@[i as int]));
            assert(false);
        }
        if i > first_non_ws(s@) {
            assert(is_ws_char(s@[first_non_ws(s@) as int]));
            assert(false);
        }
    }
    let mut j: usize = n - 1;
    while j > i && is_ws(s.get_char(j))
        invariant
            i <= j < n,
            n == s@.len(),
            !is_ws_char(s@[i as int]),
            forall|k: int| j < k < n ==> is_ws_char(#[trigger] s@[k]),
        decreases j,
    {
        j = j - 1;
    }
    // `j` is the last non-whitespace index.
    proof {
        if j + 1 < last_non_ws_end(s@) {
            assert(is_ws_char(s@[last_non_ws_end(s@) - 1]));
            assert(false);
        }
        if j + 1 > last_non_ws_end(s@) {
            assert(is_ws_char(s@[j as int]));
            assert(false);
        }
    }
    let r = s.substring_char(i, j + 1);
    proof {
        assert(r@ =~= spec_trim(s@));
    }
    r
}

/// Number of leading whitespace characters.
pub fn ws_count(s: &str) -> (r: usize)
    ensures
        r as nat == first_non_ws(s@),
        r <= s@.len(),
{
    proof {
        lemma_first_non_ws(s@);
    }
    let n = s.unicode_len();
    let mut i: usize = 0;
    while i < n && is_ws(s.get_char(i))
        invariant
            0 <= i <= n,
            n == s@.len(),
            forall|k: int| 0 <= k < i ==> is_ws_char(#[trigger] s@[k]),
        decreases n - i,
    {
        i = i + 1;
    }
    proof {
        lemma_first_non_ws(s@);
        if i < first_non_ws(s@) {
            assert(is_ws_char(s@[i as int]));
            assert(false);
        }
        if i > first_non_ws(s@) {
            assert(is_ws_char(s@[first_non_ws(s@) as int]));
            assert(false);
        }
    }
    i
}

/// Index of the first occurrence of `c` (the length, if there is none).
pub open spec fn first_of(s: Seq<char>, c: char) -> nat
    decreases s.len(),
{
    if s.len() == 0 {
        0
    } else if s[0] == c {
        0
    } else {
        1 + first_of(s.drop_first(), c)
    }
}

pub proof fn lemma_first_of(s: Seq<char>, c: char)
    ensures
        first_of(s, c) <= s.len(),
        forall|k: int| 0 <= k < first_of(s, c) ==> #[trigger] s[k] != c,
        first_of(s, c) < s.len() ==> s[first_of(s, c) as int] == c,
    decreases s.len(),
{
    if s.len() > 0 && s[0] != c {
        lemma_first_of(s.drop_first(), c);
        assert forall|k: int| 0 <= k < first_of(s, c) implies #[trigger] s[k] != c by {
            if k > 0 {
                assert(s.drop_first()[k - 1] == s[k]);
            }
        }
    }
}

/// A line with one trailing carriage return removed.
pub open spec fn chop_cr(l: Seq<char>) -> Seq<char> {
    if l.len() > 0 && l.last() == '\r' {
        l.drop_last()
    } else {
        l
    }
}

/// The lines of a text: split at `\n`, each piece before a `\n` loses one
/// trailing `\r`, and a final line ending is optional.
pub open spec fn spec_lines(s: Seq<char>) -> Seq<Seq<char>>
    decreases s.len()
        via spec_lines_dec
{
    if s.len() == 0 {
        Seq::empty()
    } else {
        let k = first_of(s, '\n');
        if k == s.len() {
            seq![s]
        } else {
            seq![chop_cr(s.take(k as int))] + spec_lines(s.skip(k + 1 as int))
        }
    }
}

#[via_fn]
proof fn spec_lines_dec(s: Seq<char>) {
    lemma_first_of(s, '\n');
}

/// The pieces of a text split at every occurrence of `sep`; always at least
/// one piece.
pub open spec fn spec_split(s: Seq<char>, sep: char) -> Seq<Seq<char>>
    decreases s.len()
        via spec_split_dec
{
    let k = first_of(s, sep);
    if k == s.len() {
        seq![s]
    } else {
        seq![s.take(k as int)] + spec_split(s.skip(k + 1 as int), sep)
    }
}

#[via_fn]
proof fn spec_split_dec(s: Seq<char>, sep: char) {
    lemma_first_of(s, sep);
}

/// The views of a run of strings.
pub open spec fn strings_v(s: Seq<String>) -> Seq<Seq<char>>
    decreases s,
{
    if s.len() == 0 {
        Seq::empty()
    } else {
        seq![s[0]@] + strings_v(s.drop_first())
    }
}

pub proof fn lemma_strings_v(s: Seq<String>)
    ensures
        strings_v(s).len() == s.len(),
        forall|i: int| 0 <= i < s.len() ==> #[trigger] strings_v(s)[i] == s[i]@,
    decreases s.len(),
{
    if s.len() > 0 {
        lemma_strings_v(s.drop_first());
    }
}

fn find_char(s: &str, c: char) -> (r: usize)
    ensures
        r as nat == first_of(s@, c),
        r <= s@.len(),
{
    proof {
        lemma_first_of(s@, c);
    }
    let n = s.unicode_len();
    let mut i: usize = 0;
    while i < n && s.get_char(i) != c
        invariant
            0 <= i <= n,
            n == s@.len(),
            forall|k: int| 0 <= k < i ==> #[trigger] s@[k] != c,
        decreases n - i,
    {
        i = i + 1;
    }
    proof {
        lemma_first_of(s@, c);
        if i < first_of(s@, c) {
            assert(s@[i as int] == c);
            assert(false);
        }
        if i > first_of(s@, c) {
            assert(s@[first_of(s@, c) as int] != c);
            assert(false);
        }
    }
    i
}

/// Splits a text into its lines, as `spec_lines` says.
pub fn split_lines(text: &str) -> (r: Vec<String>)
    ensures
        strings_v(r@) == spec_lines(text@),
    decreases text@.len(),
{
    let n = text.unicode_len();
    if n == 0 {
        let r: Vec<String> = Vec::new();
        proof {
            assert(strings_v(r@) =~= spec_lines(text@));
        }
        return r;
    }
    let k = find_char(text, '\n');
    if k == n {
        let mut r: Vec<String> = Vec::new();
        r.push(String::from_str(text));
        proof {
            lemma_strings_v(r@);
            assert(strings_v(r@) =~= spec_lines(text@));
        }
        r
    } else {
        let mut line = text.substring_char(0, k);
        proof {
            assert(line@ =~= text@.take(k as int));
        }
        if k > 0 && line.get_char(k - 1) == '\r' {
            line = text.substring_char(0, k - 1);
            proof {
                assert(line@ =~= text@.take(k as int).drop_last());
            }
        }
        let tail = text.substring_char(k + 1, n);
        proof {
            assert(tail@ =~= text@.skip(k + 1));
        }
        let mut rest = split_lines(tail);
        let ghost rest0 = rest@;
        rest.insert(0, String::from_str(line));
        proof {
            assert(rest@ =~= seq![rest@[0]] + rest0);
            lemma_strings_v(rest@);
            lemma_strings_v(rest0);
            assert forall|j: int| 0 <= j < rest@.len() implies #[trigger] strings_v(rest@)[j] == (
            seq![chop_cr(text@.take(k as int))] + spec_lines(text@.skip(k + 1)))[j] by {
                if j > 0 {
                    assert(rest@[j] == rest0[j - 1]);
                }
            }
            assert(strings_v(rest@) =~= spec_lines(text@));
        }
        rest
    }
}

/// Splits a text at every occurrence of `sep`, as `spec_split` says.
pub fn split_on(text: &str, sep: char) -> (r: Vec<String>)
    ensures
        strings_v(r@) == spec_split(text@, sep),
    decreases text@.len(),
{
    let n = text.unicode_len();
    let k = find_char(text, sep);
    if k == n {
        let mut r: Vec<String> = Vec::new();
        r.push(String::from_str(text));
        proof {
            lemma_strings_v(r@);
            assert(strings_v(r@) =~= spec_split(text@, sep));
        }
        r
    } else {
        let piece = text.substring_char(0, k);
        let tail = text.substring_char(k + 1, n);
        proof {
            assert(piece@ =~= text@.take(k as int));
            assert(tail@ =~= text@.skip(k + 1));
        }
        let mut rest = split_on(tail, sep);
        let ghost rest0 = rest@;
        rest.insert(0, String::from_str(piece));
        proof {
            assert(rest@ =~= seq![rest@[0]] + rest0);
            lemma_strings_v(rest@);
            lemma_strings_v(rest0);
            assert forall|j: int| 0 <= j < rest@.len() implies #[trigger] strings_v(rest@)[j] == (
            seq![text@.take(k as int)] + spec_split(text@.skip(k + 1), sep))[j] by {
                if j > 0 {
                    assert(rest@[j] == rest0[j - 1]);
                }
            }
            assert(strings_v(rest@) =~= spec_split(text@, sep));
        }
        rest
    }
}

/// The decimal digit character for `d < 10`.
pub open spec fn digit_char(d: nat) -> char {
    if d == 0 {
        '0'
    } else if d == 1 {
        '1'
    } else if d == 2 {
        '2'
    } else if d == 3 {
        '3'
    } else if d == 4 {
        '4'
    } else if d == 5 {
        '5'
    } else if d == 6 {
        '6'
    } else if d == 7 {
        '7'
    } else if d == 8 {
        '8'
    } else {
        '9'
    }
}

/// Decimal digits of `n`, most significant first.
pub open spec fn spec_digits(n: nat) -> Seq<char>
    decreases n,
{
    if n < 10 {
        seq![digit_char(n)]
    } else {
        spec_digits(n / 10).push(digit_char(n % 10))
    }
}

pub proof fn lemma_digits_not_tilde(n: nat)
    ensures
        spec_digits(n).len() >= 1,
        forall|i: int| 0 <= i < spec_digits(n).len() ==> #[trigger] spec_digits(n)[i] != '~',
    decreases n,
{
    if n >= 10 {
        lemma_digits_not_tilde(n / 10);
    }
}

pub proof fn lemma_digits_injective(a: nat, b: nat)
    requires
        spec_digits(a) == spec_digits(b),
    ensures
        a == b,
    decreases a,
{
    lemma_digits_not_tilde(a);
    lemma_digits_not_tilde(b);
    if a < 10 && b < 10 {
        assert(spec_digits(a)[0] == digit_char(a));
        assert(spec_digits(b)[0] == digit_char(b));
    } else if a < 10 && b >= 10 {
        assert(spec_digits(a).len() == 1);
        assert(spec_digits(b).len() == spec_digits(b / 10).len() + 1);
        assert(false);
    } else if a >= 10 && b < 10 {
        assert(spec_digits(b).len() == 1);
        assert(spec_digits(a).len() == spec_digits(a / 10).len() + 1);
        assert(false);
    } else {
        assert(spec_digits(a).last() == digit_char(a % 10));
        assert(spec_digits(b).last() == digit_char(b % 10));
        assert(a % 10 == b % 10);
        assert(spec_digits(a).drop_last() =~= spec_digits(a / 10));
        assert(spec_digits(b).drop_last() =~= spec_digits(b / 10));
        lemma_digits_injective(a / 10, b / 10);
    }
}

fn digit_of(d: u32) -> (c: char)
    requires
        d < 10,
    ensures
        c == digit_char(d as nat),
{
    if d == 0 {
        '0'
    } else if d == 1 {
        '1'
    } else if d == 2 {
        '2'
    } else if d == 3 {
        '3'
    } else if d == 4 {
        '4'
    } else if d == 5 {
        '5'
    } else if d == 6 {
        '6'
    } else if d == 7 {
        '7'
    } else if d == 8 {
        '8'
    } else {
        '9'
    }
}

/// Renders `n` in decimal.
pub fn u32_digits(n: u32) -> (r: String)
    ensures
        r@ == spec_digits(n as nat),
    decreases n,
{
    if n < 10 {
        let mut s = String::new();
        push_char(&mut s, digit_of(n));
        proof {
            assert(s@ =~= spec_digits(n as nat));
        }
        s
    } else {
        let mut s = u32_digits(n / 10);
        push_char(&mut s, digit_of(n % 10));
        s
    }
}

/// No character of `s` is a tilde.
pub open spec fn tilde_free(s: Seq<char>) -> bool {
    forall|i: int| 0 <= i < s.len() ==> s[i] != '~'
}

/// No character of `s` is whitespace.
pub open spec fn ws_free(s: Seq<char>) -> bool {
    forall|i: int| 0 <= i < s.len() ==> !is_ws_char(s[i])
}

pub proof fn lemma_digits_not_ws(n: nat)
    ensures
        ws_free(spec_digits(n)),
    decreases n,
{
    if n >= 10 {
        lemma_digits_not_ws(n / 10);
        assert forall|i: int| 0 <= i < spec_digits(n).len() implies !is_ws_char(
            #[trigger] spec_digits(n)[i],
        ) by {
            if i < spec_digits(n / 10).len() {
                assert(spec_digits(n)[i] == spec_digits(n / 10)[i]);
            }
        }
    }
}

/// A tilde-free base followed by `~` and a tilde-free suffix decomposes
/// uniquely.
pub proof fn lemma_tilde_split_unique(x1: Seq<char>, d1: Seq<char>, x2: Seq<char>, d2: Seq<char>)
    requires
        tilde_free(x1),
        tilde_free(d1),
        tilde_free(x2),
        tilde_free(d2),
        x1 + seq!['~'] + d1 == x2 + seq!['~'] + d2,
    ensures
        x1 == x2,
        d1 == d2,
{
    let s = x1 + seq!['~'] + d1;
    assert(s[x1.len() as int] == '~');
    assert(s[x2.len() as int] == '~');
    if x1.len() < x2.len() {
        assert(s[x1.len() as int] == x2[x1.len() as int]);
        assert(false);
    }
    if x2.len() < x1.len() {
        assert(s[x2.len() as int] == x1[x2.len() as int]);
        assert(false);
    }
    assert forall|i: int| 0 <= i < x1.len() implies x1[i] == x2[i] by {
        assert(s[i] == x1[i]);
        assert((x2 + seq!['~'] + d2)[i] == x2[i]);
    }
    assert(x1 =~= x2);
    assert(s.len() == (x2 + seq!['~'] + d2).len());
    assert(d1.len() == d2.len());
    assert forall|i: int| 0 <= i < d1.len() implies d1[i] == d2[i] by {
        assert(s[x1.len() + 1 + i] == d1[i]);
        assert((x2 + seq!['~'] + d2)[x2.len() + 1 + i] == d2[i]);
    }
    assert(d1 =~= d2);
}

/// The character replacement that identifier generation applies: whitespace
/// class characters and the counter delimiter `~` become `-`.
pub open spec fn dash_char(c: char) -> char {
    if is_ws_char(c) || c == '~' {
        '-'
    } else {
        c
    }
}

pub open spec fn spec_dashed(s: Seq<char>) -> Seq<char> {
    s.map_values(|c: char| dash_char(c))
}

pub proof fn lemma_dashed_tilde_free(s: Seq<char>)
    ensures
        tilde_free(spec_dashed(s)),
        ws_free(spec_dashed(s)),
{
}

/// Replaces whitespace-class characters and `~` by `-`.
pub fn dashed(text: &str) -> (r: String)
    ensures
        r@ == spec_dashed(text@),
{
    let n = text.unicode_len();
    let mut r = String::new();
    let mut i: usize = 0;
    while i < n
        invariant
            0 <= i <= n,
            n == text@.len(),
            r@ == spec_dashed(text@.take(i as int)),
        decreases n - i,
    {
        let c = text.get_char(i);
        let d = if is_ws(c) || c == '~' {
            '-'
        } else {
            c
        };
        push_char(&mut r, d);
        proof {
            assert(r@ =~= spec_dashed(text@.take(i + 1)));
        }
        i = i + 1;
    }
    proof {
        assert(text@.take(n as int) =~= text@);
    }
    r
}

} // verus!
