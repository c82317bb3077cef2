use vstd::prelude::*;
use vstd::pervasive::VecAdditionalExecFns;
use crate::field_ids::FieldIds;
use crate::ir::{blocks_v, cells_v, lemma_cells_v, lemma_rows_v, rows_v, Block, BlockV, Cell, InlineV};
use crate::para_scan;
use crate::tree::{field_is, node_wf, NodeKind, SyntaxNode};
use crate::Builder;

verus! {

/// The error a malformed cell coordinate yields. A coordinate whose row or
/// column value does not fit the machine word is reported the same way.
#[derive(Debug, PartialEq)]
pub enum TableParsingError {
    InvalidLocation,
}

pub open spec fn is_upper(c: char) -> bool {
    'A' <= c && c <= 'Z'
}

pub open spec fn is_digit(c: char) -> bool {
    '0' <= c && c <= '9'
}

/// The value of one row letter: `A` is 1 through `Z` is 26.
pub open spec fn letter_val(c: char) -> int {
    (c as int) - ('A' as int) + 1
}

pub open spec fn digit_val(c: char) -> int {
    (c as int) - ('0' as int)
}

/// The spreadsheet value of a letter run: digits of base 26, `A`=1 .. `Z`=26,
/// most significant first. (Subtracting one afterwards makes it a zero-based
/// row index; that is spreadsheet column-naming arithmetic, not bare base 26.)
pub open spec fn letters_value(s: Seq<char>) -> int
    decreases s.len(),
{
    if s.len() == 0 {
        0
    } else {
        letters_value(s.drop_last()) * 26 + letter_val(s.last())
    }
}

/// The decimal value of a digit run, most significant first.
pub open spec fn digits_value(s: Seq<char>) -> int
    decreases s.len(),
{
    if s.len() == 0 {
        0
    } else {
        digits_value(s.drop_last()) * 10 + digit_val(s.last())
    }
}

/// Number of leading uppercase letters.
pub open spec fn first_non_upper(s: Seq<char>) -> nat
    decreases s.len(),
{
    if s.len() > 0 && is_upper(s[0]) {
        1 + first_non_upper(s.drop_first())
    } else {
        0
    }
}

pub proof fn lemma_first_non_upper(s: Seq<char>)
    ensures
        first_non_upper(s) <= s.len(),
        forall|k: int| 0 <= k < first_non_upper(s) ==> is_upper(#[trigger] s[k]),
        first_non_upper(s) < s.len() ==> !is_upper(s[first_non_upper(s) as int]),
    decreases s.len(),
{
    if s.len() > 0 && is_upper(s[0]) {
        lemma_first_non_upper(s.drop_first());
        assert forall|k: int| 0 <= k < first_non_upper(s) implies is_upper(#[trigger] s[k]) by {
            if k > 0 {
                assert(s.drop_first()[k - 1] == s[k]);
            }
        }
    }
}

/// A well-formed coordinate: at least one letter, then at least one digit
/// reaching the end, the first digit nonzero. This is exactly what the
/// three-state parse (start, row, column) accepts.
pub open spec fn loc_wf(s: Seq<char>) -> bool {
    let k = first_non_upper(s) as int;
    &&& 1 <= k < s.len()
    &&& '1' <= s[k] && s[k] <= '9'
    &&& forall|i: int| k <= i < s.len() ==> is_digit(#[trigger] s[i])
}

pub proof fn lemma_letters_value_bounds(s: Seq<char>, i: int, j: int)
    requires
        0 <= i <= j <= s.len(),
        forall|l: int| 0 <= l < j ==> is_upper(#[trigger] s[l]),
    ensures
        0 <= letters_value(s.take(i)) <= letters_value(s.take(j)),
        i >= 1 ==> 1 <= letters_value(s.take(i)),
    decreases j,
{
    if j == 0 {
        assert(s.take(0) =~= Seq::empty());
    } else if i == j {
        lemma_letters_value_bounds(s, if i >= 1 { i - 1 } else { 0 }, j - 1);
        assert(s.take(j).drop_last() =~= s.take(j - 1));
        assert(s.take(j).last() == s[j - 1]);
    } else {
        lemma_letters_value_bounds(s, i, j - 1);
        assert(s.take(j).drop_last() =~= s.take(j - 1));
        assert(s.take(j).last() == s[j - 1]);
    }
}

pub proof fn lemma_digits_value_bounds(s: Seq<char>, i: int, j: int)
    requires
        0 <= i <= j <= s.len(),
        forall|l: int| 0 <= l < j ==> is_digit(#[trigger] s[l]),
    ensures
        0 <= digits_value(s.take(i)) <= digits_value(s.take(j)),
        (i >= 1 && digit_val(s[0]) >= 1) ==> 1 <= digits_value(s.take(i)),
    decreases j,
{
    if j == 0 {
        assert(s.take(0) =~= Seq::empty());
    } else if i == j {
        lemma_digits_value_bounds(s, if i >= 1 { i - 1 } else { 0 }, j - 1);
        assert(s.take(j).drop_last() =~= s.take(j - 1));
        assert(s.take(j).last() == s[j - 1]);
        if i == 1 {
            assert(s.take(1).drop_last() =~= Seq::empty());
        }
    } else {
        lemma_digits_value_bounds(s, i, j - 1);
        assert(s.take(j).drop_last() =~= s.take(j - 1));
        assert(s.take(j).last() == s[j - 1]);
    }
}

fn upper_char(c: char) -> (r: bool)
    ensures
        r == is_upper(c),
{
    'A' <= c && c <= 'Z'
}

fn upper_val(c: char) -> (r: u32)
    requires
        is_upper(c),
    ensures
        r as int == letter_val(c),
        1 <= r <= 26,
{
    (c as u32) - ('A' as u32) + 1
}

/// The spreadsheet row value of a letter run, zero-based: `C` is 2, `AC` is
/// 28. The whole accumulated one-based value is decremented once at the end.
pub fn parse_row(row: &str) -> (r: usize)
    requires
        row@.len() >= 1,
        forall|l: int| 0 <= l < row@.len() ==> is_upper(#[trigger] row@[l]),
        letters_value(row@) <= usize::MAX,
    ensures
        r as int == letters_value(row@) - 1,
{
    let n = row.unicode_len();
    let mut accum: usize = 0;
    let mut i: usize = 0;
    proof {
        lemma_letters_value_bounds(row@, 0, n as int);
        assert(row@.take(n as int) =~= row@);
    }
    while i < n
        invariant
            0 <= i <= n,
            n == row@.len(),
            forall|l: int| 0 <= l < row@.len() ==> is_upper(#[trigger] row@[l]),
            letters_value(row@) <= usize::MAX,
            accum as int == letters_value(row@.take(i as int)),
        decreases n - i,
    {
        let c = row.get_char(i);
        let v = upper_val(c);
        proof {
            lemma_letters_value_bounds(row@, i + 1, n as int);
            assert(row@.take(n as int) =~= row@);
            assert(row@.take(i + 1).drop_last() =~= row@.take(i as int));
            assert(row@.take(i + 1).last() == row@[i as int]);
        }
        accum = accum * 26 + (v as usize);
        i = i + 1;
    }
    proof {
        assert(row@.take(n as int) =~= row@);
        lemma_letters_value_bounds(row@, n as int, n as int);
    }
    accum - 1
}

/// Parses a spreadsheet cell coordinate: a base-26 letter run for the row,
/// then a one-based decimal column. Returns the zero-based `(row, column)`
/// pair exactly for well-formed coordinates whose values fit the machine
/// word; everything else is an `InvalidLocation` error.
#[verifier::rlimit(50)]
pub fn parse_table_location(loc: &str) -> (r: Result<(usize, usize), TableParsingError>)
    ensures
        (match r {
            Ok(p) => p.0 < usize::MAX && p.1 < usize::MAX,
            Err(_) => true,
        }),
        ({
            let k = first_non_upper(loc@) as int;
            let rowv = letters_value(loc@.take(k));
            let colv = digits_value(loc@.skip(k));
            if loc_wf(loc@) && rowv <= usize::MAX && colv <= usize::MAX {
                r == Ok::<(usize, usize), TableParsingError>(
                    (((rowv - 1) as usize), ((colv - 1) as usize)),
                ) && 1 <= rowv && 1 <= colv
            } else {
                r == Err::<(usize, usize), TableParsingError>(TableParsingError::InvalidLocation)
            }
        }),
{
    proof {
        lemma_first_non_upper(loc@);
    }
    let n = loc.unicode_len();
    let mut k: usize = 0;
    while k < n && upper_char(loc.get_char(k))
        invariant
            0 <= k <= n,
            n == loc@.len(),
            forall|l: int| 0 <= l < k ==> is_upper(#[trigger] loc@[l]),
        decreases n - k,
    {
        k = k + 1;
    }
    proof {
        lemma_first_non_upper(loc@);
        if k < first_non_upper(loc@) {
            assert(is_upper(loc@[k as int]));
            assert(false);
        }
        if k > first_non_upper(loc@) {
            assert(is_upper(loc@[first_non_upper(loc@) as int]));
            assert(false);
        }
    }
    if k == 0 {
        return Err(TableParsingError::InvalidLocation);
    }
    if k == n {
        return Err(TableParsingError::InvalidLocation);
    }
    let c0 = loc.get_char(k);
    if !('1' <= c0 && c0 <= '9') {
        return Err(TableParsingError::InvalidLocation);
    }
    // Row value, with overflow detected as it accumulates.
    let ghost letters = loc@.take(k as int);
    proof {
        assert(letters.len() == k);
        assert(forall|l: int| 0 <= l < letters.len() ==> is_upper(#[trigger] letters[l]));
    }
    let mut row: usize = 0;
    let mut i: usize = 0;
    while i < k
        invariant
            0 <= i <= k <= n,
            n == loc@.len(),
            k as nat == first_non_upper(loc@),
            letters == loc@.take(k as int),
            letters.len() == k,
            forall|l: int| 0 <= l < letters.len() ==> is_upper(#[trigger] letters[l]),
            row as int == letters_value(letters.take(i as int)),
        decreases k - i,
    {
        let c = loc.get_char(i);
        proof {
            assert(letters[i as int] == loc@[i as int]);
        }
        let v = upper_val(c);
        let step = match row.checked_mul(26) {
            Some(x) => x.checked_add(v as usize),
            None => None,
        };
        proof {
            assert(letters.take(i + 1).drop_last() =~= letters.take(i as int));
            assert(letters.take(i + 1).last() == letters[i as int]);
        }
        match step {
            Some(x) => {
                row = x;
            },
            None => {
                proof {
                    lemma_letters_value_bounds(letters, i + 1, letters.len() as int);
                    assert(letters.take(letters.len() as int) =~= letters);
                    assert(letters_value(letters) > usize::MAX);
                }
                return Err(TableParsingError::InvalidLocation);
            },
        }
        i = i + 1;
    }
    proof {
        assert(letters.take(k as int) =~= letters);
        lemma_letters_value_bounds(letters, 1, k as int);
    }
    // Column value.
    let ghost digits = loc@.skip(k as int);
    let mut col: usize = 0;
    let mut j: usize = k;
    proof {
        assert(digits.take(0) =~= Seq::<char>::empty());
    }
    while j < n
        invariant
            k <= j <= n,
            n == loc@.len(),
            1 <= k < n,
            k as nat == first_non_upper(loc@),
            '1' <= loc@[k as int] && loc@[k as int] <= '9',
            digits == loc@.skip(k as int),
            digits.len() == n - k,
            letters == loc@.take(k as int),
            row as int == letters_value(letters),
            1 <= row,
            forall|l: int| 0 <= l < j - k ==> is_digit(#[trigger] digits[l]),
            col as int == digits_value(digits.take(j - k)),
        decreases n - j,
    {
        let c = loc.get_char(j);
        proof {
            assert(digits[j - k] == loc@[j as int]);
        }
        if !('0' <= c && c <= '9') {
            proof {
                assert(!is_digit(loc@[j as int]));
                assert(!loc_wf(loc@));
            }
            return Err(TableParsingError::InvalidLocation);
        }
        let v = (c as u32) - ('0' as u32);
        let step = match col.checked_mul(10) {
            Some(x) => x.checked_add(v as usize),
            None => None,
        };
        proof {
            assert(digits.take(j - k + 1).drop_last() =~= digits.take(j - k));
            assert(digits.take(j - k + 1).last() == digits[j - k]);
        }
        match step {
            Some(x) => {
                col = x;
            },
            None => {
                proof {
                    if loc_wf(loc@) {
                        assert forall|l: int| 0 <= l < digits.len() implies is_digit(
                            #[trigger] digits[l],
                        ) by {
                            assert(digits[l] == loc@[k + l]);
                        }
                        lemma_digits_value_bounds(digits, j - k + 1, digits.len() as int);
                        assert(digits.take(digits.len() as int) =~= digits);
                        assert(digits_value(digits) > usize::MAX);
                    }
                }
                return Err(TableParsingError::InvalidLocation);
            },
        }
        j = j + 1;
    }
    proof {
        assert(digits.take(digits.len() as int) =~= digits);
        assert(digits[0] == loc@[k as int]);
        assert(digit_val(digits[0]) >= 1);
        lemma_digits_value_bounds(digits, 1, digits.len() as int);
        assert(digits.take(1).drop_last() =~= Seq::<char>::empty());
        assert(digits.take(1).last() == digits[0]);
        assert(digits_value(Seq::<char>::empty()) == 0);
        assert(digits_value(digits.take(1)) == digit_val(digits[0]));
        assert forall|l: int| k <= l < n implies is_digit(#[trigger] loc@[l]) by {
            assert(digits[l - k] == loc@[l]);
        }
        assert(loc_wf(loc@));
    }
    Ok((row - 1, col - 1))
}

/// The zero-based coordinate a location text denotes, or nothing when it is
/// malformed or does not fit the machine word — what `parse_table_location`
/// returns, as a value.
pub open spec fn loc_result(s: Seq<char>) -> Option<(int, int)> {
    let k = first_non_upper(s) as int;
    let rowv = letters_value(s.take(k));
    let colv = digits_value(s.skip(k));
    if loc_wf(s) && rowv <= usize::MAX && colv <= usize::MAX {
        Some((rowv - 1, colv - 1))
    } else {
        None
    }
}

/// The state one positioned cell's children fold into: whether the location
/// was well formed, the coordinate, the cell's blocks, and the collector.
pub struct CellScanV {
    pub valid: bool,
    pub row: int,
    pub col: int,
    pub blocks: Seq<BlockV>,
    pub coll: Seq<InlineV>,
}

pub open spec fn cell_scan(
    cs: Seq<SyntaxNode>,
    src: Seq<char>,
    fids: FieldIds,
    st: CellScanV,
) -> CellScanV
    decreases cs.len(),
{
    if cs.len() == 0 {
        st
    } else {
        let c = cs[0];
        let st2 = if c.field_id == Some(fids.title) {
            match loc_result(src.subrange(c.start as int, c.end as int)) {
                Some(p) => CellScanV { row: p.0, col: p.1, ..st },
                None => CellScanV { valid: false, ..st },
            }
        } else if c.field_id == Some(fids.content) {
            let ps = para_scan(c.children@, src, fids, Seq::empty(), st.coll);
            let content = if ps.0.len() > 0 {
                seq![BlockV::ParagraphV(ps.0)]
            } else {
                Seq::<BlockV>::empty()
            };
            CellScanV { blocks: content, coll: Seq::empty(), ..st }
        } else {
            st
        };
        cell_scan(cs.drop_first(), src, fids, st2)
    }
}

pub open spec fn empty_cell_scan(coll: Seq<InlineV>) -> CellScanV {
    CellScanV { valid: true, row: 0, col: 0, blocks: Seq::empty(), coll }
}

/// Sparse grid placement: the grid grows with empty rows to reach row `r`,
/// the row grows with empty cells to reach column `c`, and the addressed cell
/// is overwritten.
pub open spec fn place_cell(
    rows: Seq<Seq<Seq<BlockV>>>,
    r: int,
    c: int,
    cell: Seq<BlockV>,
) -> Seq<Seq<Seq<BlockV>>>
    recommends
        r >= 0,
        c >= 0,
{
    let rows2 = if rows.len() <= r {
        rows + Seq::new((r + 1 - rows.len()) as nat, |k: int| Seq::<Seq<BlockV>>::empty())
    } else {
        rows
    };
    let row = rows2[r];
    let row2 = if row.len() <= c {
        row + Seq::new((c + 1 - row.len()) as nat, |k: int| Seq::<BlockV>::empty())
    } else {
        row
    };
    rows2.update(r, row2.update(c, cell))
}

/// The state a table node's children fold into: the sparse grid, the column
/// count, and the collector. A cell with a malformed coordinate is skipped —
/// reported, never fatal — though its content was walked.
pub struct TableScanV {
    pub rows: Seq<Seq<Seq<BlockV>>>,
    pub cols: int,
    pub coll: Seq<InlineV>,
}

pub open spec fn table_scan(
    cs: Seq<SyntaxNode>,
    src: Seq<char>,
    fids: FieldIds,
    st: TableScanV,
) -> TableScanV
    decreases cs.len(),
{
    if cs.len() == 0 {
        st
    } else {
        let c = cs[0];
        let st2 = if c.kind == NodeKind::SingleTableCell {
            let inner = cell_scan(c.children@, src, fids, empty_cell_scan(st.coll));
            if inner.valid {
                TableScanV {
                    rows: place_cell(st.rows, inner.row, inner.col, inner.blocks),
                    cols: if inner.col + 1 > st.cols {
                        inner.col + 1
                    } else {
                        st.cols
                    },
                    coll: inner.coll,
                }
            } else {
                TableScanV { coll: inner.coll, ..st }
            }
        } else {
            st
        };
        table_scan(cs.drop_first(), src, fids, st2)
    }
}

impl Builder {
    /// Handles a table node: visits its cells in document order, growing a
    /// sparse grid on demand with empty cells and overwriting the addressed
    /// cell; the column count is one past the widest column index placed —
    /// exactly what `table_scan` folds the children to.
    pub fn handle_table(&mut self, node: &SyntaxNode)
        requires
            old(self).document.scopes_v().len() > 0,
            node_wf(*node, old(self).src_len()),
        ensures
            Builder::frames_ok(*old(self), *final(self)),
            ({
                let st = table_scan(
                    node.children@,
                    old(self).source@,
                    old(self).field_ids,
                    TableScanV { rows: Seq::empty(), cols: 0, coll: old(self).document.collector_v() },
                );
                &&& final(self).document.scopes_v() == crate::document::spec_add_block(
                    old(self).document.scopes_v(),
                    st.coll,
                    BlockV::TableV(st.cols, Seq::empty(), st.rows),
                )
                &&& final(self).document.collector_v() == Seq::<InlineV>::empty()
            }),
    {
        let ghost src = self.source@;
        let ghost fids = self.field_ids;
        let ghost st0 = TableScanV {
            rows: Seq::empty(),
            cols: 0,
            coll: self.document.collector_v(),
        };
        let mut rows: Vec<Vec<Cell>> = Vec::new();
        let mut num_cols: usize = 0;
        let mut i: usize = 0;
        proof {
            assert(node.children@.skip(0) =~= node.children@);
            assert(rows_v(rows@) =~= Seq::<Seq<Seq<BlockV>>>::empty());
        }
        while i < node.children.len()
            invariant
                0 <= i <= node.children@.len(),
                node_wf(*node, old(self).src_len()),
                old(self).document.scopes_v().len() > 0,
                src == old(self).source@,
                fids == old(self).field_ids,
                st0 == (TableScanV {
                    rows: Seq::<Seq<Seq<BlockV>>>::empty(),
                    cols: 0,
                    coll: old(self).document.collector_v(),
                }),
                Builder::frames_ok(*old(self), *self),
                self.document.scopes_v() == old(self).document.scopes_v(),
                self.document.meta_pairs() == old(self).document.meta_pairs(),
                self.context.links_map() == old(self).context.links_map(),
                table_scan(
                    node.children@.skip(i as int),
                    src,
                    fids,
                    TableScanV {
                        rows: rows_v(rows@),
                        cols: num_cols as int,
                        coll: self.document.collector_v(),
                    },
                ) == table_scan(node.children@, src, fids, st0),
            decreases node.children@.len() - i,
        {
            proof {
                crate::tree::lemma_forest_size_elem(node.children@, i as int);
                assert(node.children@.skip(i as int).drop_first() =~= node.children@.skip(i + 1));
                assert(node.children@.skip(i as int)[0] == node.children@[i as int]);
            }
            let ghost pre = *self;
            let ghost rv0 = rows_v(rows@);
            let child = &node.children[i];
            if matches!(child.kind, NodeKind::SingleTableCell) {
                match self.handle_single_cell(child) {
                    Some((row_idx, col_idx, cell)) => {
                        let ghost cellv = blocks_v(cell.blocks@);
                        proof {
                            lemma_rows_v(rows@);
                        }
                        while rows.len() <= row_idx
                            invariant
                                row_idx < usize::MAX,
                                rows_v(rows@).len() == rows@.len(),
                                rv0.len() <= rows@.len(),
                                rows@.len() == rv0.len() || rows@.len() <= row_idx + 1,
                                forall|k: int| 0 <= k < rv0.len() ==> #[trigger] rows_v(rows@)[k] == rv0[k],
                                forall|k: int|
                                    rv0.len() <= k < rows@.len() ==> #[trigger] rows_v(rows@)[k]
                                        == Seq::<Seq<BlockV>>::empty(),
                            decreases row_idx + 1 - rows@.len(),
                        {
                            let ghost before = rows@;
                            rows.push(Vec::new());
                            proof {
                                lemma_rows_v(rows@);
                                lemma_rows_v(before);
                                assert(rows@[rows@.len() - 1]@ =~= Seq::<Cell>::empty());
                                assert(cells_v(rows@[rows@.len() - 1]@)
                                    =~= Seq::<Seq<BlockV>>::empty());
                                assert forall|k: int| 0 <= k < rows@.len() - 1 implies #[trigger] rows_v(
                                    rows@,
                                )[k] == rows_v(before)[k] by {
                                    assert(rows@[k] == before[k]);
                                }
                            }
                        }
                        let ghost grown = rows_v(rows@);
                        proof {
                            lemma_rows_v(rows@);
                            assert(grown =~= (if rv0.len() <= row_idx {
                                rv0 + Seq::new(
                                    (row_idx + 1 - rv0.len()) as nat,
                                    |k: int| Seq::<Seq<BlockV>>::empty(),
                                )
                            } else {
                                rv0
                            }));
                        }
                        let ghost rowv0 = cells_v(rows@[row_idx as int]@);
                        let row = &mut rows[row_idx];
                        proof {
                            lemma_cells_v(row@);
                        }
                        while row.len() <= col_idx
                            invariant
                                col_idx < usize::MAX,
                                cells_v(row@).len() == row@.len(),
                                rowv0.len() <= row@.len(),
                                row@.len() == rowv0.len() || row@.len() <= col_idx + 1,
                                forall|k: int| 0 <= k < rowv0.len() ==> #[trigger] cells_v(row@)[k] == rowv0[k],
                                forall|k: int|
                                    rowv0.len() <= k < row@.len() ==> #[trigger] cells_v(row@)[k]
                                        == Seq::<BlockV>::empty(),
                            decreases col_idx + 1 - row@.len(),
                        {
                            let ghost before = row@;
                            row.push(Cell { blocks: Vec::new() });
                            proof {
                                lemma_cells_v(row@);
                                lemma_cells_v(before);
                                assert(row@[row@.len() - 1].blocks@ =~= Seq::<Block>::empty());
                                assert(blocks_v(row@[row@.len() - 1].blocks@)
                                    =~= Seq::<BlockV>::empty());
                                assert forall|k: int| 0 <= k < row@.len() - 1 implies #[trigger] cells_v(
                                    row@,
                                )[k] == cells_v(before)[k] by {
                                    assert(row@[k] == before[k]);
                                }
                            }
                        }
                        let ghost rowgrown = cells_v(row@);
                        proof {
                            lemma_cells_v(row@);
                            assert(rowgrown =~= (if rowv0.len() <= col_idx {
                                rowv0 + Seq::new(
                                    (col_idx + 1 - rowv0.len()) as nat,
                                    |k: int| Seq::<BlockV>::empty(),
                                )
                            } else {
                                rowv0
                            }));
                        }
                        let ghost rowbefore = row@;
                        row.set(col_idx, cell);
                        proof {
                            lemma_cells_v(row@);
                            lemma_cells_v(rowbefore);
                            assert(cells_v(row@) =~= rowgrown.update(col_idx as int, cellv));
                        }
                        proof {
                            lemma_rows_v(rows@);
                            assert(rows_v(rows@) =~= grown.update(
                                row_idx as int,
                                rowgrown.update(col_idx as int, cellv),
                            ));
                            assert(rows_v(rows@) =~= place_cell(
                                rv0,
                                row_idx as int,
                                col_idx as int,
                                cellv,
                            ));
                        }
                        if col_idx + 1 > num_cols {
                            num_cols = col_idx + 1;
                        }
                        proof {
                            assert(table_scan(
                                node.children@.skip(i + 1),
                                src,
                                fids,
                                TableScanV {
                                    rows: rows_v(rows@),
                                    cols: num_cols as int,
                                    coll: self.document.collector_v(),
                                },
                            ) == table_scan(node.children@, src, fids, st0));
                        }
                    },
                    None => {
                        proof {
                            assert(table_scan(
                                node.children@.skip(i + 1),
                                src,
                                fids,
                                TableScanV {
                                    rows: rows_v(rows@),
                                    cols: num_cols as int,
                                    coll: self.document.collector_v(),
                                },
                            ) == table_scan(node.children@, src, fids, st0));
                        }
                    },
                }
            }
            proof {
                Builder::lemma_frames_ok_refl(pre);
                Builder::lemma_frames_ok_trans(*old(self), pre, *self);
            }
            i = i + 1;
        }
        proof {
            assert(node.children@.skip(node.children@.len() as int) =~= Seq::<SyntaxNode>::empty());
        }
        let ghost mid = *self;
        self.document.add_block(Block::Table(num_cols, Vec::new(), rows));
        proof {
            assert(cells_v(Seq::<Cell>::empty()) =~= Seq::<Seq<BlockV>>::empty());
            crate::document::lemma_spec_add_block_prefix(
                mid.document.scopes_v(),
                mid.document.collector_v(),
            );
            Builder::lemma_frames_ok_trans(*old(self), mid, *self);
        }
    }

    /// One positioned cell: the `title` field carries the coordinate, the
    /// `content` field the cell's paragraph. A malformed coordinate skips the
    /// cell — reported, never fatal — exactly what `cell_scan` folds the
    /// children to.
    fn handle_single_cell(&mut self, node: &SyntaxNode) -> (r: Option<(usize, usize, Cell)>)
        requires
            old(self).document.scopes_v().len() > 0,
            node_wf(*node, old(self).src_len()),
        ensures
            Builder::frames_ok(*old(self), *final(self)),
            final(self).document.scopes_v() == old(self).document.scopes_v(),
            final(self).document.meta_pairs() == old(self).document.meta_pairs(),
            final(self).context.links_map() == old(self).context.links_map(),
            ({
                let st = cell_scan(
                    node.children@,
                    old(self).source@,
                    old(self).field_ids,
                    empty_cell_scan(old(self).document.collector_v()),
                );
                &&& final(self).document.collector_v() == st.coll
                &&& (match r {
                    Some(p) => st.valid && p.0 as int == st.row && p.1 as int == st.col
                        && blocks_v(p.2.blocks@) == st.blocks && p.0 < usize::MAX && p.1
                        < usize::MAX,
                    None => !st.valid,
                })
            }),
    {
        let ghost src = self.source@;
        let ghost fids = self.field_ids;
        let ghost st0 = empty_cell_scan(self.document.collector_v());
        let mut blocks: Vec<Block> = Vec::new();
        let mut row: usize = 0;
        let mut col: usize = 0;
        let mut valid: bool = true;
        let mut i: usize = 0;
        proof {
            assert(node.children@.skip(0) =~= node.children@);
            assert(blocks_v(blocks@) =~= Seq::<BlockV>::empty());
        }
        while i < node.children.len()
            invariant
                0 <= i <= node.children@.len(),
                node_wf(*node, old(self).src_len()),
                old(self).document.scopes_v().len() > 0,
                src == old(self).source@,
                fids == old(self).field_ids,
                st0 == empty_cell_scan(old(self).document.collector_v()),
                Builder::frames_ok(*old(self), *self),
                self.document.scopes_v() == old(self).document.scopes_v(),
                self.document.meta_pairs() == old(self).document.meta_pairs(),
                self.context.links_map() == old(self).context.links_map(),
                row < usize::MAX,
                col < usize::MAX,
                cell_scan(
                    node.children@.skip(i as int),
                    src,
                    fids,
                    CellScanV {
                        valid,
                        row: row as int,
                        col: col as int,
                        blocks: blocks_v(blocks@),
                        coll: self.document.collector_v(),
                    },
                ) == cell_scan(node.children@, src, fids, st0),
            decreases node.children@.len() - i,
        {
            proof {
                crate::tree::lemma_forest_size_elem(node.children@, i as int);
                assert(node.children@.skip(i as int).drop_first() =~= node.children@.skip(i + 1));
                assert(node.children@.skip(i as int)[0] == node.children@[i as int]);
            }
            let ghost pre = *self;
            let child = &node.children[i];
            if field_is(child, self.field_ids.title) {
                proof {
                    crate::tree::lemma_child_wf(*node, i as int, old(self).src_len());
                }
                let text = self.source.as_str().substring_char(child.start, child.end);
                match parse_table_location(text) {
                    Ok((r0, c0)) => {
                        proof {
                            assert(loc_result(text@) == Some((r0 as int, c0 as int)));
                        }
                        row = r0;
                        col = c0;
                    },
                    Err(_) => {
                        proof {
                            assert(loc_result(text@) is None);
                        }
                        valid = false;
                    },
                }
            } else if field_is(child, self.field_ids.content) {
                proof {
                    crate::tree::lemma_child_wf(*node, i as int, old(self).src_len());
                }
                let ghost coll_in = self.document.collector_v();
                let ghost s0 = self.document.scopes_v();
                self.document.push_scope();
                self.handle_paragraph(child);
                blocks = self.document.pop_scope();
                let ghost ps = para_scan(child.children@, src, fids, Seq::empty(), coll_in);
                let ghost content = if ps.0.len() > 0 {
                    seq![BlockV::ParagraphV(ps.0)]
                } else {
                    Seq::<BlockV>::empty()
                };
                proof {
                    let s1 = s0.push(Seq::<BlockV>::empty());
                    if ps.0.len() > 0 {
                        let blk = BlockV::ParagraphV(ps.0);
                        assert(crate::document::spec_add_block(s1, Seq::empty(), blk).last()
                            =~= seq![blk]);
                        assert(crate::document::spec_add_block(s1, Seq::empty(), blk).drop_last()
                            =~= s0);
                    } else {
                        assert(s1.drop_last() =~= s0);
                    }
                    assert(blocks_v(blocks@) =~= content);
                    assert(self.document.scopes_v() =~= pre.document.scopes_v());
                }
            }
            proof {
                Builder::lemma_frames_ok_refl(pre);
                Builder::lemma_frames_ok_trans(*old(self), pre, *self);
            }
            i = i + 1;
        }
        proof {
            assert(node.children@.skip(node.children@.len() as int) =~= Seq::<SyntaxNode>::empty());
        }
        if valid {
            Some((row, col, Cell { blocks }))
        } else {
            None
        }
    }
}

/// Splits `input` at the first character on which `predicate` returns false.
pub fn consume_while<F: Fn(char) -> bool>(input: &str, predicate: F) -> (r: (&str, &str))
    requires
        forall|c: char| #[trigger] predicate.requires((c,)),
    ensures
        exists|m: int|
            {
                &&& 0 <= m <= input@.len()
                &&& r.0@ == input@.take(m)
                &&& r.1@ == input@.skip(m)
                &&& forall|j: int|
                    0 <= j < m ==> call_ensures(predicate, ((#[trigger] input@[j]),), true)
                &&& (m < input@.len() ==> call_ensures(predicate, (input@[m],), false))
            },
{
    let n = input.unicode_len();
    let mut i: usize = 0;
    while i < n
        invariant
            0 <= i <= n,
            n == input@.len(),
            forall|c: char| #[trigger] predicate.requires((c,)),
            forall|j: int| 0 <= j < i ==> call_ensures(predicate, ((#[trigger] input@[j]),), true),
        decreases n - i,
    {
        if !predicate(input.get_char(i)) {
            let a = input.substring_char(0, i);
            let b = input.substring_char(i, n);
            proof {
                assert(a@ =~= input@.take(i as int));
                assert(b@ =~= input@.skip(i as int));
            }
            return (a, b);
        }
        i = i + 1;
    }
    let a = input.substring_char(0, n);
    let b = input.substring_char(n, n);
    proof {
        assert(a@ =~= input@.take(n as int));
        assert(b@ =~= input@.skip(n as int));
    }
    (a, b)
}

} // verus!
