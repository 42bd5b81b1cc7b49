//! A table of text shown in the terminal: a header line, then one line per
//! row, each column padded to the widest entry seen when rows were added.

use vstd::prelude::*;
use vstd::utf8::encode_utf8;
use crate::paint::{bright_black, bright_black_spec};
use crate::text::{joined, push_char};

verus! {

/// The length of `s` in UTF-8 bytes, as `str::len` returns it.
pub open spec fn byte_len(s: Seq<char>) -> usize {
    encode_utf8(s).len() as usize
}

/// `s` padded on the right with spaces to `width` characters, as
/// `format!("{:<width$}", s)` does.
pub open spec fn pad_spec(s: Seq<char>, width: nat) -> Seq<char> {
    if s.len() >= width {
        s
    } else {
        s + Seq::new((width - s.len()) as nat, |i: int| ' ')
    }
}

/// `s` padded to `width`.
pub fn pad(s: &str, width: usize) -> (r: String)
    ensures
        r@ == pad_spec(s@, width as nat),
{
    let mut r = s.to_owned();
    let n = s.unicode_len();
    let mut k = n;
    while k < width
        invariant
            n == s@.len(),
            n <= k <= width || (k == n && n >= width),
            r@ == s@ + Seq::new((k - n) as nat, |i: int| ' '),
        decreases width - k,
    {
        push_char(&mut r, ' ');
        k += 1;
        assert(r@ =~= s@ + Seq::new((k - n) as nat, |i: int| ' '));
    }
    if n >= width {
        assert(r@ =~= s@);
    }
    r
}

/// One row of a table.
pub struct Row {
    pub cols: Vec<String>,
}

/// The contents of a table.
pub struct TableView {
    pub headers: Seq<Seq<char>>,
    pub rows: Seq<Seq<Seq<char>>>,
    pub widths: Seq<usize>,
}

/// A table with a header line and rows of the same number of columns.
pub struct Table {
    headers: Vec<String>,
    rows: Vec<Row>,
    widths: Vec<usize>,
}

pub open spec fn cells(v: Seq<String>) -> Seq<Seq<char>> {
    v.map_values(|c: String| c@)
}

pub open spec fn row_view(r: Row) -> Seq<Seq<char>> {
    cells(r.cols@)
}

/// The width used for column `i`: the table's width there, or 0 past the
/// last column.
pub open spec fn width_at(widths: Seq<usize>, i: int) -> nat {
    if 0 <= i < widths.len() {
        widths[i] as nat
    } else {
        0
    }
}

/// A row as one line: each cell padded to its column's width, separated by
/// two spaces.
pub open spec fn row_line(widths: Seq<usize>, row: Seq<Seq<char>>) -> Seq<char> {
    joined(Seq::new(row.len(), |i: int| pad_spec(row[i], width_at(widths, i))), "  "@)
}

/// The header line: each header padded to its column's width and shown in
/// bright black, separated by two spaces.
pub open spec fn header_line(widths: Seq<usize>, headers: Seq<Seq<char>>) -> Seq<char> {
    joined(
        Seq::new(headers.len(), |i: int| bright_black_spec(pad_spec(headers[i], width_at(widths, i)))),
        "  "@,
    )
}

/// One width per column, and one cell per column in every row.
pub open spec fn shaped(t: TableView) -> bool {
    &&& t.widths.len() == t.headers.len()
    &&& forall|k: int| 0 <= k < t.rows.len() ==> (#[trigger] t.rows[k]).len() == t.widths.len()
}

/// The widths a table gets from its headers and rows added in order: each
/// column as wide, in bytes, as its widest header or cell.
pub open spec fn fitted_widths(headers: Seq<Seq<char>>, rows: Seq<Seq<Seq<char>>>) -> Seq<usize>
    decreases rows.len(),
{
    if rows.len() == 0 {
        headers.map_values(|h: Seq<char>| byte_len(h))
    } else {
        let w = fitted_widths(headers, rows.drop_last());
        Seq::new(
            w.len(),
            |i: int| if w[i] >= byte_len(rows.last()[i]) {
                w[i]
            } else {
                byte_len(rows.last()[i])
            },
        )
    }
}

/// The fitted width of a column is the largest byte length among its header
/// and its cells.
pub proof fn lemma_fitted_widths_max(headers: Seq<Seq<char>>, rows: Seq<Seq<Seq<char>>>, i: int)
    requires
        0 <= i < headers.len(),
        forall|k: int| 0 <= k < rows.len() ==> (#[trigger] rows[k]).len() == headers.len(),
    ensures
        fitted_widths(headers, rows).len() == headers.len(),
        fitted_widths(headers, rows)[i] >= byte_len(headers[i]),
        forall|k: int| 0 <= k < rows.len() ==> fitted_widths(headers, rows)[i] >= byte_len(#[trigger] rows[k][i]),
        fitted_widths(headers, rows)[i] == byte_len(headers[i]) || exists|k: int|
            0 <= k < rows.len() && fitted_widths(headers, rows)[i] == byte_len(#[trigger] rows[k][i]),
    decreases rows.len(),
{
    if rows.len() > 0 {
        let prev = rows.drop_last();
        assert forall|k: int| 0 <= k < prev.len() implies (#[trigger] prev[k]).len() == headers.len() by {
            assert(prev[k] == rows[k]);
        }
        lemma_fitted_widths_max(headers, prev, i);
        let w = fitted_widths(headers, prev);
        let last = rows.len() - 1;
        assert(rows.last() == rows[last]);
        assert forall|k: int| 0 <= k < rows.len() implies fitted_widths(headers, rows)[i] >= byte_len(
            #[trigger] rows[k][i],
        ) by {
            if k < last {
                assert(rows[k] == prev[k]);
            }
        }
        if fitted_widths(headers, rows)[i] != byte_len(headers[i]) {
            if w[i] >= byte_len(rows.last()[i]) {
                let k = choose|k: int| 0 <= k < prev.len() && w[i] == byte_len(#[trigger] prev[k][i]);
                assert(rows[k] == prev[k]);
            } else {
                assert(fitted_widths(headers, rows)[i] == byte_len(rows[last][i]));
            }
        }
    }
}

/// The rows as lines, each ended by a newline.
pub open spec fn rows_text(widths: Seq<usize>, rows: Seq<Seq<Seq<char>>>) -> Seq<char>
    decreases rows.len(),
{
    if rows.len() == 0 {
        seq![]
    } else {
        rows_text(widths, rows.drop_last()) + row_line(widths, rows.last()) + "\n"@
    }
}

/// The whole table as shown: the header line, then each row, each line
/// ended by a newline.
pub open spec fn table_text(t: TableView) -> Seq<char> {
    header_line(t.widths, t.headers) + "\n"@ + rows_text(t.widths, t.rows)
}

impl View for Table {
    type V = TableView;

    closed spec fn view(&self) -> TableView {
        TableView {
            headers: cells(self.headers@),
            rows: self.rows@.map_values(|r: Row| row_view(r)),
            widths: self.widths@,
        }
    }
}

impl Table {
    #[verifier::type_invariant]
    closed spec fn wf(self) -> bool {
        &&& self.widths@.len() == self.headers@.len()
        &&& forall|k: int| 0 <= k < self.rows@.len() ==> (#[trigger] self.rows@[k]).cols@.len()
            == self.widths@.len()
    }

    /// An empty table with these headers; each column is as wide as its
    /// header.
    pub fn new(headers: &[&str]) -> (r: Table)
        ensures
            r@.headers == headers@.map_values(|h: &str| h@),
            r@.rows.len() == 0,
            r@.widths.len() == headers@.len(),
            forall|i: int| 0 <= i < headers@.len() ==> #[trigger] r@.widths[i] == byte_len(headers@[i]@),
            shaped(r@),
            r@.widths == fitted_widths(r@.headers, r@.rows),
    {
        let mut hs: Vec<String> = Vec::new();
        let mut widths: Vec<usize> = Vec::new();
        for i in 0..headers.len()
            invariant
                hs@.len() == i,
                widths@.len() == i,
                forall|j: int| 0 <= j < i ==> #[trigger] hs@[j]@ == headers@[j]@,
                forall|j: int| 0 <= j < i ==> #[trigger] widths@[j] == byte_len(headers@[j]@),
        {
            let h: &str = headers[i];
            widths.push(h.len());
            hs.push(h.to_owned());
        }
        let t = Table { headers: hs, rows: Vec::new(), widths };
        assert(t@.headers =~= headers@.map_values(|h: &str| h@));
        assert(t@.widths =~= fitted_widths(t@.headers, t@.rows));
        t
    }

    /// Adds a row with one cell per column, widening the columns it
    /// overflows; returns the row's index.
    pub fn add_row(&mut self, row: &[&str]) -> (r: usize)
        requires
            row@.len() == old(self)@.widths.len(),
        ensures
            r == old(self)@.rows.len(),
            final(self)@.headers == old(self)@.headers,
            final(self)@.rows == old(self)@.rows.push(row@.map_values(|c: &str| c@)),
            final(self)@.widths.len() == old(self)@.widths.len(),
            forall|i: int| 0 <= i < row@.len() ==> #[trigger] final(self)@.widths[i] == if old(
                self,
            )@.widths[i] >= byte_len(row@[i]@) {
                old(self)@.widths[i]
            } else {
                byte_len(row@[i]@)
            },
            shaped(final(self)@),
            old(self)@.widths == fitted_widths(old(self)@.headers, old(self)@.rows) ==> final(self)@.widths
                == fitted_widths(final(self)@.headers, final(self)@.rows),
    {
        proof {
            use_type_invariant(&*self);
        }
        let ghost old_view = self@;
        assert(shaped(old_view)) by {
            assert forall|k: int| 0 <= k < old_view.rows.len() implies (#[trigger] old_view.rows[k]).len()
                == old_view.widths.len() by {
                assert(old_view.rows[k] == row_view(self.rows@[k]));
            }
        }
        let mut widths = self.widths.clone();
        let mut cols: Vec<String> = Vec::new();
        let ghost old_widths = self.widths@;
        for i in 0..row.len()
            invariant
                row@.len() == old_widths.len(),
                widths@.len() == old_widths.len(),
                cols@.len() == i,
                forall|j: int| 0 <= j < i ==> #[trigger] cols@[j]@ == row@[j]@,
                forall|j: int| i <= j < widths@.len() ==> #[trigger] widths@[j] == old_widths[j],
                forall|j: int| 0 <= j < i ==> #[trigger] widths@[j] == if old_widths[j] >= byte_len(row@[j]@) {
                    old_widths[j]
                } else {
                    byte_len(row@[j]@)
                },
        {
            let c: &str = row[i];
            let n = c.len();
            if widths[i] < n {
                widths.set(i, n);
            }
            cols.push(c.to_owned());
        }
        let index = self.rows.len();
        let new_row = Row { cols };
        assert(row_view(new_row) =~= row@.map_values(|c: &str| c@));
        let mut rows: Vec<Row> = Vec::new();
        std::mem::swap(&mut rows, &mut self.rows);
        rows.push(new_row);
        self.widths = widths;
        std::mem::swap(&mut rows, &mut self.rows);
        proof {
            let v = self@;
            assert(v.rows.drop_last() =~= old_view.rows);
            assert forall|k: int| 0 <= k < v.rows.len() implies (#[trigger] v.rows[k]).len() == v.widths.len() by {
                if k < old_view.rows.len() {
                    assert(v.rows[k] == old_view.rows[k]);
                }
            }
            if old_view.widths == fitted_widths(old_view.headers, old_view.rows) {
                assert(v.widths =~= fitted_widths(v.headers, v.rows));
            }
        }
        index
    }

    /// A table with these headers and these rows added in order: every
    /// column is as wide as its widest header or cell.
    pub fn with_rows(headers: &[&str], rows: &Vec<Vec<String>>) -> (r: Table)
        requires
            forall|k: int| 0 <= k < rows@.len() ==> (#[trigger] rows@[k])@.len() == headers@.len(),
        ensures
            r@.headers == headers@.map_values(|h: &str| h@),
            r@.rows == rows@.map_values(|row: Vec<String>| cells(row@)),
            shaped(r@),
            r@.widths == fitted_widths(r@.headers, r@.rows),
            r@.widths.len() == headers@.len(),
            forall|i: int| 0 <= i < headers@.len() ==> #[trigger] r@.widths[i] >= byte_len(headers@[i]@),
            forall|i: int, k: int|
                0 <= i < headers@.len() && 0 <= k < rows@.len() ==> r@.widths[i] >= byte_len(
                    #[trigger] rows@[k]@[i]@,
                ),
            forall|i: int|
                0 <= i < headers@.len() ==> #[trigger] r@.widths[i] == byte_len(headers@[i]@) || exists|k: int|
                    0 <= k < rows@.len() && r@.widths[i] == byte_len(#[trigger] rows@[k]@[i]@),
    {
        let mut t = Table::new(headers);
        let ghost hv = headers@.map_values(|h: &str| h@);
        let ghost all = rows@.map_values(|row: Vec<String>| cells(row@));
        for k in 0..rows.len()
            invariant
                forall|j: int| 0 <= j < rows@.len() ==> (#[trigger] rows@[j])@.len() == headers@.len(),
                hv == headers@.map_values(|h: &str| h@),
                all == rows@.map_values(|row: Vec<String>| cells(row@)),
                t@.headers == hv,
                t@.rows == all.subrange(0, k as int),
                t@.widths.len() == headers@.len(),
                shaped(t@),
                t@.widths == fitted_widths(t@.headers, t@.rows),
        {
            let row = &rows[k];
            let mut refs: Vec<&str> = Vec::new();
            for c in 0..row.len()
                invariant
                    refs@.len() == c,
                    forall|j: int| 0 <= j < c ==> (#[trigger] refs@[j])@ == row@[j]@,
            {
                refs.push(row[c].as_str());
            }
            assert(rows@[k as int]@.len() == headers@.len());
            t.add_row(refs.as_slice());
            assert(refs@.map_values(|c: &str| c@) =~= cells(row@));
            assert(all.subrange(0, k + 1) =~= all.subrange(0, k as int).push(all[k as int]));
        }
        assert(all.subrange(0, rows@.len() as int) =~= all);
        proof {
            assert forall|k: int| 0 <= k < all.len() implies (#[trigger] all[k]).len() == hv.len() by {
                assert(all[k] == cells(rows@[k]@));
            }
            assert forall|i: int| 0 <= i < headers@.len() implies {
                &&& t@.widths[i] >= byte_len(headers@[i]@)
                &&& forall|k: int| 0 <= k < rows@.len() ==> t@.widths[i] >= byte_len(#[trigger] rows@[k]@[i]@)
                &&& (t@.widths[i] == byte_len(headers@[i]@) || exists|k: int|
                    0 <= k < rows@.len() && t@.widths[i] == byte_len(#[trigger] rows@[k]@[i]@))
            } by {
                lemma_fitted_widths_max(hv, all, i);
                assert(hv[i] == headers@[i]@);
                assert forall|k: int| 0 <= k < rows@.len() implies all[k][i] == #[trigger] rows@[k]@[i]@ by {
                    assert(all[k] == cells(rows@[k]@));
                }
                if t@.widths[i] != byte_len(headers@[i]@) {
                    let k = choose|k: int| 0 <= k < all.len() && t@.widths[i] == byte_len(#[trigger] all[k][i]);
                    assert(all[k][i] == rows@[k]@[i]@);
                }
            }
        }
        t
    }

    /// The number of rows.
    pub fn len(&self) -> (r: usize)
        ensures
            r == self@.rows.len(),
    {
        self.rows.len()
    }

    /// The header line, without its newline.
    pub fn headers_text(&self) -> (r: String)
        ensures
            r@ == header_line(self@.widths, self@.headers),
    {
        proof {
            use_type_invariant(self);
        }
        let ghost hv = cells(self.headers@);
        let ghost parts = Seq::new(
            hv.len(),
            |i: int| bright_black_spec(pad_spec(hv[i], width_at(self.widths@, i))),
        );
        let mut r = String::new();
        for i in 0..self.headers.len()
            invariant
                self.widths@.len() == self.headers@.len(),
                hv == cells(self.headers@),
                parts == Seq::new(
                    hv.len(),
                    |i: int| bright_black_spec(pad_spec(hv[i], width_at(self.widths@, i))),
                ),
                r@ == joined(parts.subrange(0, i as int), "  "@),
        {
            let padded = pad(self.headers[i].as_str(), self.widths[i]);
            let piece = bright_black(padded.as_str());
            assert(piece@ == parts[i as int]);
            assert(parts.subrange(0, i + 1).drop_last() =~= parts.subrange(0, i as int));
            if i > 0 {
                r.append("  ");
            }
            r.append(piece.as_str());
            proof {
                if i == 0 {
                    assert(r@ =~= parts.subrange(0, 1)[0]);
                }
            }
        }
        assert(parts.subrange(0, parts.len() as int) =~= parts);
        r
    }

    /// The line for `row`, without its newline.
    pub fn row_text(&self, row: &Row) -> (r: String)
        ensures
            r@ == row_line(self@.widths, row_view(*row)),
    {
        let ghost rv = row_view(*row);
        let ghost parts = Seq::new(rv.len(), |i: int| pad_spec(rv[i], width_at(self.widths@, i)));
        let mut r = String::new();
        for i in 0..row.cols.len()
            invariant
                rv == row_view(*row),
                parts == Seq::new(rv.len(), |i: int| pad_spec(rv[i], width_at(self.widths@, i))),
                r@ == joined(parts.subrange(0, i as int), "  "@),
        {
            let width = if i < self.widths.len() {
                self.widths[i]
            } else {
                0
            };
            let piece = pad(row.cols[i].as_str(), width);
            assert(piece@ == parts[i as int]);
            assert(parts.subrange(0, i + 1).drop_last() =~= parts.subrange(0, i as int));
            if i > 0 {
                r.append("  ");
            }
            r.append(piece.as_str());
            proof {
                if i == 0 {
                    assert(r@ =~= parts.subrange(0, 1)[0]);
                }
            }
        }
        assert(parts.subrange(0, parts.len() as int) =~= parts);
        r
    }

    /// The line of row `index`, without its newline.
    pub fn row_text_at(&self, index: usize) -> (r: String)
        requires
            index < self@.rows.len(),
        ensures
            r@ == row_line(self@.widths, self@.rows[index as int]),
    {
        self.row_text(&self.rows[index])
    }

    /// The whole table as it is displayed.
    pub fn display(&self) -> (r: String)
        ensures
            r@ == table_text(self@),
    {
        let mut r = self.headers_text();
        r.append("\n");
        let ghost rows = self@.rows;
        let ghost start = r@;
        for i in 0..self.rows.len()
            invariant
                rows == self@.rows,
                r@ == start + rows_text(self@.widths, rows.subrange(0, i as int)),
        {
            let line = self.row_text(&self.rows[i]);
            assert(rows.subrange(0, i + 1).drop_last() =~= rows.subrange(0, i as int));
            r.append(line.as_str());
            r.append("\n");
        }
        assert(rows.subrange(0, rows.len() as int) =~= rows);
        r
    }

    /// Sets column `col` of row `index` to `value`, leaving the widths as
    /// they are; returns that row's new line.
    pub fn update_row(&mut self, index: usize, col: usize, value: String) -> (r: String)
        requires
            index < old(self)@.rows.len(),
            col < old(self)@.widths.len(),
        ensures
            final(self)@.headers == old(self)@.headers,
            final(self)@.widths == old(self)@.widths,
            final(self)@.rows == old(self)@.rows.update(
                index as int,
                old(self)@.rows[index as int].update(col as int, value@),
            ),
            r@ == row_line(final(self)@.widths, final(self)@.rows[index as int]),
            shaped(final(self)@),
    {
        proof {
            use_type_invariant(&*self);
        }
        let ghost old_view = self@;
        assert(shaped(old_view)) by {
            assert forall|k: int| 0 <= k < old_view.rows.len() implies (#[trigger] old_view.rows[k]).len()
                == old_view.widths.len() by {
                assert(old_view.rows[k] == row_view(self.rows@[k]));
            }
        }
        let mut rows: Vec<Row> = Vec::new();
        std::mem::swap(&mut rows, &mut self.rows);
        let ghost old_rows = rows@;
        let ghost vv = value@;
        let mut row = rows.remove(index);
        let ghost old_row = row;
        assert(old_row == old_rows[index as int]);
        row.cols.set(col, value);
        assert(row_view(row) =~= row_view(old_row).update(col as int, vv));
        let ghost new_row = row;
        rows.insert(index, row);
        assert(rows@ =~= old_rows.update(index as int, new_row));
        assert(rows@.map_values(|r: Row| row_view(r)) =~= old_rows.map_values(|r: Row| row_view(r)).update(
            index as int,
            old_rows.map_values(|r: Row| row_view(r))[index as int].update(col as int, vv),
        ));
        std::mem::swap(&mut rows, &mut self.rows);
        proof {
            let v = self@;
            assert forall|k: int| 0 <= k < v.rows.len() implies (#[trigger] v.rows[k]).len() == v.widths.len() by {
                if k != index {
                    assert(v.rows[k] == old_view.rows[k]);
                }
            }
        }
        self.row_text_at(index)
    }

    /// How many rows come after row `index`.
    pub fn rows_below(&self, index: usize) -> (r: usize)
        requires
            index < self@.rows.len(),
        ensures
            r == self@.rows.len() - index - 1,
    {
        self.rows.len() - index - 1
    }
}

} // verus!
