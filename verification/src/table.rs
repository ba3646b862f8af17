//! The table layout engine: a rectangular model built from header, alignment
//! and row data, a two-pass column-width negotiation against a width budget,
//! and a box-drawn renderer with per-cell wrapping and alignment padding.

use vstd::prelude::*;
use vstd::arithmetic::div_mod::{
    lemma_fundamental_div_mod, lemma_div_is_ordered, lemma_div_by_multiple, lemma_div_pos_is_pos,
    lemma_div_multiples_vanish, lemma_mod_division_less_than_divisor,
};
use vstd::arithmetic::mul::{lemma_mul_is_distributive_add_other_way, lemma_mul_inequality};
use crate::chars::{chars_of_str, string_of_chars, views, repeat_char, push_repeat, extend_chars};
use crate::wrap::{visible_len_spec, visible_len, wrap_text_spec, wrap_text};

verus! {

/// Per-column text justification, taken from the header separator row.
/// `Unset` is rendered like `Left` but draws a plain border glyph.
#[derive(Clone, Copy, Debug, PartialEq, Eq, Structural)]
pub enum Align {
    Left,
    Right,
    Center,
    Unset,
}

pub struct TableCell {
    pub content: Vec<char>,
    pub alignment: Align,
}

pub struct TableRow {
    pub cells: Vec<TableCell>,
}

pub struct Table {
    pub headers: TableRow,
    pub rows: Vec<TableRow>,
    pub column_widths: Vec<usize>,
}

/// The smallest width a column may be scaled to.
pub const MIN_COL_WIDTH: usize = 3;

pub open spec fn cell_contents(cells: Seq<TableCell>) -> Seq<Seq<char>> {
    cells.map_values(|c: TableCell| c.content@)
}

pub open spec fn cell_aligns(cells: Seq<TableCell>) -> Seq<Align> {
    cells.map_values(|c: TableCell| c.alignment)
}

pub open spec fn max2(a: int, b: int) -> int {
    if a >= b {
        a
    } else {
        b
    }
}

pub open spec fn sum_seq(s: Seq<int>) -> int
    decreases s.len(),
{
    if s.len() == 0 {
        0
    } else {
        sum_seq(s.drop_last()) + s.last()
    }
}

impl Table {
    /// Column count, header cell alignments mirrored into every row, and a
    /// width entry for every column.
    pub open spec fn well_formed(self) -> bool {
        let n = self.headers.cells@.len();
        (forall|r: int|
            0 <= r < self.rows@.len() ==> (#[trigger] self.rows@[r]).cells@.len() == n)
            && (forall|r: int, i: int|
            0 <= r < self.rows@.len() && 0 <= i < n
                ==> (#[trigger] self.rows@[r].cells@[i]).alignment
                == self.headers.cells@[i].alignment)
    }

    pub open spec fn num_columns(self) -> int {
        self.headers.cells@.len() as int
    }

    pub open spec fn header_contents(self) -> Seq<Seq<char>> {
        cell_contents(self.headers.cells@)
    }

    pub open spec fn header_aligns(self) -> Seq<Align> {
        cell_aligns(self.headers.cells@)
    }

    pub open spec fn rows_contents(self) -> Seq<Seq<Seq<char>>> {
        self.rows@.map_values(|r: TableRow| cell_contents(r.cells@))
    }

    pub fn new(headers: Vec<(String, Align)>) -> (t: Table)
        ensures
            t.well_formed(),
            t.num_columns() == headers@.len(),
            t.header_contents() == headers@.map_values(|h: (String, Align)| h.0@),
            t.header_aligns() == headers@.map_values(|h: (String, Align)| h.1),
            t.rows_contents() == Seq::<Seq<Seq<char>>>::empty(),
            t.column_widths@ == Seq::new(headers@.len() as nat, |i: int| 0usize),
    {
        let n = headers.len();
        let mut cells: Vec<TableCell> = Vec::new();
        let mut i: usize = 0;
        while i < n
            invariant
                0 <= i <= n,
                n == headers.len(),
                cells@.len() == i,
                forall|j: int|
                    0 <= j < i ==> (#[trigger] cells@[j]).content@ == headers@[j].0@
                        && cells@[j].alignment == headers@[j].1,
            decreases n - i,
        {
            let content = chars_of_str(headers[i].0.as_str());
            let alignment = headers[i].1;
            cells.push(TableCell { content, alignment });
            i = i + 1;
        }
        let mut column_widths: Vec<usize> = Vec::new();
        let mut k: usize = 0;
        while k < n
            invariant
                0 <= k <= n,
                column_widths@.len() == k,
                forall|j: int| 0 <= j < k ==> column_widths@[j] == 0usize,
            decreases n - k,
        {
            column_widths.push(0);
            k = k + 1;
        }
        let t = Table { headers: TableRow { cells }, rows: Vec::new(), column_widths };
        proof {
            assert(t.header_contents() =~= headers@.map_values(
                |h: (String, Align)| h.0@,
            ));
            assert(t.header_aligns() =~= headers@.map_values(|h: (String, Align)| h.1));
            assert(t.rows_contents() =~= Seq::<Seq<Seq<char>>>::empty());
            assert(t.column_widths@ =~= Seq::new(headers@.len() as nat, |i: int| 0usize));
        }
        t
    }

    /// A row padded with empty cells, or truncated, to the column count.
    pub open spec fn padded_row(cs: Seq<Seq<char>>, n: int) -> Seq<Seq<char>>
        recommends
            n >= 0,
    {
        Seq::new(n as nat, |i: int| if i < cs.len() { cs[i] } else { Seq::<char>::empty() })
    }

    /// Adds one data row, padded or truncated to the header's column count;
    /// each cell inherits the alignment of its column's header.
    pub fn add_row(&mut self, cells: Vec<String>)
        requires
            old(self).well_formed(),
        ensures
            final(self).well_formed(),
            final(self).headers == old(self).headers,
            final(self).column_widths == old(self).column_widths,
            final(self).rows_contents() == old(self).rows_contents().push(
                Table::padded_row(
                    cells@.map_values(|s: String| s@),
                    old(self).num_columns(),
                ),
            ),
    {
        let n = self.headers.cells.len();
        let mut row_cells: Vec<TableCell> = Vec::new();
        let mut i: usize = 0;
        while i < n
            invariant
                0 <= i <= n,
                n == self.headers.cells@.len(),
                *self == *old(self),
                row_cells@.len() == i,
                forall|j: int|
                    0 <= j < i ==> (#[trigger] row_cells@[j]).content@ == (if j < cells@.len() {
                        cells@[j]@
                    } else {
                        Seq::<char>::empty()
                    }) && row_cells@[j].alignment == self.headers.cells@[j].alignment,
            decreases n - i,
        {
            let content: Vec<char> = if i < cells.len() {
                chars_of_str(cells[i].as_str())
            } else {
                Vec::new()
            };
            let alignment = self.headers.cells[i].alignment;
            row_cells.push(TableCell { content, alignment });
            i = i + 1;
        }
        self.rows.push(TableRow { cells: row_cells });
        proof {
            assert(self.rows_contents() =~~= old(self).rows_contents().push(
                Table::padded_row(
                    cells@.map_values(|s: String| s@),
                    old(self).num_columns(),
                ),
            ));
        }
    }
}

/// Width overhead of borders and padding: one border glyph left of each
/// column plus the right border, and two padding spaces per side per column.
pub open spec fn table_overhead(n: int) -> int {
    5 * n + 2
}

/// The width budget left for cell content.
pub open spec fn avail_width(max_width: int, n: int) -> int {
    if max_width > table_overhead(n) {
        max_width - table_overhead(n)
    } else {
        0
    }
}

/// Widest content of column `i` over the given rows, by visible length.
pub open spec fn rows_col_max(rows: Seq<Seq<Seq<char>>>, i: int) -> int
    decreases rows.len(),
{
    if rows.len() == 0 {
        0
    } else {
        max2(
            rows_col_max(rows.drop_last(), i),
            if i < rows.last().len() {
                visible_len_spec(rows.last()[i])
            } else {
                0
            },
        )
    }
}

/// First pass: a per-column base share of the budget, widened to the widest
/// header or cell content of the column.
pub open spec fn natural_widths(
    max_width: int,
    headers: Seq<Seq<char>>,
    rows: Seq<Seq<Seq<char>>>,
) -> Seq<int> {
    let n = headers.len() as int;
    let avail = avail_width(max_width, n);
    let base = max2(avail / n, MIN_COL_WIDTH as int);
    Seq::new(
        n as nat,
        |i: int| max2(base, max2(visible_len_spec(headers[i]), rows_col_max(rows, i))),
    )
}

/// Second pass: when the natural widths exceed the budget every column is
/// scaled down proportionally, but never below the minimum floor.
pub open spec fn widths_spec(
    max_width: int,
    headers: Seq<Seq<char>>,
    rows: Seq<Seq<Seq<char>>>,
) -> Seq<int> {
    let n = headers.len() as int;
    if n == 0 {
        Seq::empty()
    } else {
        let natw = natural_widths(max_width, headers, rows);
        let avail = avail_width(max_width, n);
        let total = sum_seq(natw);
        if total > avail {
            Seq::new(n as nat, |i: int| max2(natw[i] * avail / total, MIN_COL_WIDTH as int))
        } else {
            natw
        }
    }
}

proof fn lemma_sum_take_push(s: Seq<int>, i: int)
    requires
        0 <= i < s.len(),
    ensures
        sum_seq(s.take(i + 1)) == sum_seq(s.take(i)) + s[i],
{
    assert(s.take(i + 1).drop_last() =~= s.take(i));
    assert(s.take(i + 1).last() == s[i]);
}

pub proof fn lemma_sum_ge_elem(s: Seq<int>, i: int)
    requires
        0 <= i < s.len(),
        forall|j: int| 0 <= j < s.len() ==> s[j] >= 0,
    ensures
        sum_seq(s) >= s[i],
        sum_seq(s) >= 0,
    decreases s.len(),
{
    if s.len() == 1 {
    } else {
        assert(forall|j: int| 0 <= j < s.drop_last().len() ==> s.drop_last()[j] == s[j]);
        if i < s.len() - 1 {
            lemma_sum_ge_elem(s.drop_last(), i);
        } else {
            lemma_sum_ge_elem(s.drop_last(), 0);
        }
    }
}

pub proof fn lemma_sum_nonneg(s: Seq<int>)
    requires
        forall|j: int| 0 <= j < s.len() ==> s[j] >= 0,
    ensures
        sum_seq(s) >= 0,
    decreases s.len(),
{
    if s.len() > 0 {
        assert(forall|j: int| 0 <= j < s.drop_last().len() ==> s.drop_last()[j] == s[j]);
        lemma_sum_nonneg(s.drop_last());
    }
}

/// Division is superadditive on nonnegative numerators: the sum of two
/// floored quotients never exceeds the floored quotient of the sum.
proof fn lemma_div_superadd(a: int, b: int, d: int)
    requires
        a >= 0,
        b >= 0,
        d > 0,
    ensures
        a / d + b / d <= (a + b) / d,
{
    lemma_fundamental_div_mod(a, d);
    lemma_fundamental_div_mod(b, d);
    lemma_div_pos_is_pos(a, d);
    lemma_div_pos_is_pos(b, d);
    lemma_mod_division_less_than_divisor(a, d);
    lemma_mod_division_less_than_divisor(b, d);
    let q = a / d + b / d;
    assert(a + b >= q * d) by {
        lemma_mul_is_distributive_add_other_way(d, a / d, b / d);
        assert(q * d == (a / d) * d + (b / d) * d);
        assert(a == d * (a / d) + a % d);
        assert(d * (a / d) == (a / d) * d) by {
            vstd::arithmetic::mul::lemma_mul_is_commutative(d, a / d);
        }
        assert(d * (b / d) == (b / d) * d) by {
            vstd::arithmetic::mul::lemma_mul_is_commutative(d, b / d);
        }
    }
    lemma_div_is_ordered(q * d, a + b, d);
    lemma_div_by_multiple(q, d);
}

/// Proportional scaling respects the budget: if the natural widths sum past
/// the budget, the scaled (pre-floor) widths sum to at most the budget.
pub proof fn lemma_scaled_sum_le(ws: Seq<int>, avail: int, total: int)
    requires
        forall|j: int| 0 <= j < ws.len() ==> ws[j] >= 0,
        total == sum_seq(ws),
        total > 0,
        avail >= 0,
    ensures
        sum_seq(ws.map_values(|w: int| w * avail / total)) <= avail,
{
    lemma_scaled_sum_le_aux(ws, avail, total);
    assert(sum_seq(ws) * avail == total * avail);
    lemma_div_multiples_vanish(avail, total);
    assert(total * avail == avail * total) by {
        vstd::arithmetic::mul::lemma_mul_is_commutative(total, avail);
    }
}

proof fn lemma_scaled_sum_le_aux(ws: Seq<int>, avail: int, total: int)
    requires
        forall|j: int| 0 <= j < ws.len() ==> ws[j] >= 0,
        total > 0,
        avail >= 0,
    ensures
        sum_seq(ws.map_values(|w: int| w * avail / total)) <= sum_seq(ws) * avail / total,
    decreases ws.len(),
{
    let f = |w: int| w * avail / total;
    if ws.len() == 0 {
        assert(ws.map_values(f).len() == 0);
        assert(sum_seq(ws) == 0);
    } else {
        let pre = ws.drop_last();
        assert(forall|j: int| 0 <= j < pre.len() ==> pre[j] == ws[j]);
        lemma_scaled_sum_le_aux(pre, avail, total);
        assert(ws.map_values(f).drop_last() =~= pre.map_values(f));
        assert(ws.map_values(f).last() == f(ws.last()));
        lemma_sum_nonneg(pre);
        assert(sum_seq(pre) * avail >= 0) by {
            lemma_mul_inequality(0, sum_seq(pre), avail);
        }
        assert(ws.last() * avail >= 0) by {
            lemma_mul_inequality(0, ws.last(), avail);
        }
        lemma_div_superadd(sum_seq(pre) * avail, ws.last() * avail, total);
        assert(sum_seq(pre) * avail + ws.last() * avail == sum_seq(ws) * avail) by {
            lemma_mul_is_distributive_add_other_way(avail, sum_seq(pre), ws.last());
        }
    }
}

/// If the natural widths overrun the budget, the proportionally scaled
/// widths sum to at most the budget; when no column needed the floor
/// protection, the final widths therefore respect the budget too.
pub proof fn lemma_widths_within_budget(
    max_width: int,
    headers: Seq<Seq<char>>,
    rows: Seq<Seq<Seq<char>>>,
)
    requires
        headers.len() > 0,
        sum_seq(natural_widths(max_width, headers, rows)) > avail_width(
            max_width,
            headers.len() as int,
        ),
    ensures
        ({
            let n = headers.len() as int;
            let avail = avail_width(max_width, n);
            let natw = natural_widths(max_width, headers, rows);
            let total = sum_seq(natw);
            let scaled = natw.map_values(|w: int| w * avail / total);
            sum_seq(scaled) <= avail && ((forall|i: int|
                0 <= i < n ==> #[trigger] scaled[i] >= MIN_COL_WIDTH as int) ==> sum_seq(
                widths_spec(max_width, headers, rows),
            ) <= avail)
        }),
{
    let n = headers.len() as int;
    let avail = avail_width(max_width, n);
    let natw = natural_widths(max_width, headers, rows);
    let total = sum_seq(natw);
    let scaled = natw.map_values(|w: int| w * avail / total);
    assert(forall|j: int| 0 <= j < natw.len() ==> #[trigger] natw[j] >= 0);
    lemma_sum_nonneg(natw);
    lemma_scaled_sum_le(natw, avail, total);
    if forall|i: int| 0 <= i < n ==> #[trigger] scaled[i] >= MIN_COL_WIDTH as int {
        assert(widths_spec(max_width, headers, rows) =~= scaled);
    }
}

impl Table {
    /// Computes the column widths for a total budget of `max_width` columns:
    /// a proportional share widened to the widest content, then scaled down
    /// (never below the floor) when the total exceeds the budget.
    pub fn calculate_column_widths(&mut self, max_width: usize)
        requires
            old(self).well_formed(),
        ensures
            final(self).well_formed(),
            final(self).headers == old(self).headers,
            final(self).rows == old(self).rows,
            final(self).column_widths@.map_values(|w: usize| w as int) == widths_spec(
                max_width as int,
                old(self).header_contents(),
                old(self).rows_contents(),
            ),
            final(self).column_widths@.len() == old(self).num_columns(),
            forall|i: int|
                0 <= i < final(self).column_widths@.len()
                    ==> #[trigger] final(self).column_widths@[i] >= MIN_COL_WIDTH,
    {
        let ghost hv = self.header_contents();
        let ghost rv = self.rows_contents();
        let n = self.headers.cells.len();
        proof {
            assert(hv.len() == n as int);
            assert(rv.len() == self.rows@.len());
        }
        if n == 0 {
            self.column_widths = Vec::new();
            proof {
                assert(final(self).column_widths@.map_values(|w: usize| w as int)
                    =~= widths_spec(max_width as int, hv, rv));
            }
            return ;
        }
        let ghost avail_g = avail_width(max_width as int, n as int);
        let overhead_128: u128 = 5u128 * (n as u128) + 2u128;
        let avail: usize = if (max_width as u128) > overhead_128 {
            (max_width as u128 - overhead_128) as usize
        } else {
            0
        };
        proof {
            assert(avail as int == avail_g);
        }
        let base_div = avail / n;
        let base: usize = if base_div >= MIN_COL_WIDTH {
            base_div
        } else {
            MIN_COL_WIDTH
        };
        let ghost natw = natural_widths(max_width as int, hv, rv);
        let nrows = self.rows.len();
        let mut widths: Vec<usize> = Vec::new();
        let mut i: usize = 0;
        while i < n
            invariant
                0 <= i <= n,
                *self == *old(self),
                self.well_formed(),
                n == self.headers.cells@.len(),
                nrows == self.rows@.len(),
                hv == self.header_contents(),
                rv == self.rows_contents(),
                natw == natural_widths(max_width as int, hv, rv),
                avail_g == avail_width(max_width as int, n as int),
                base as int == max2(avail_g / (n as int), MIN_COL_WIDTH as int),
                widths@.len() == i,
                forall|j: int| 0 <= j < i ==> #[trigger] widths@[j] as int == natw[j],
            decreases n - i,
        {
            let mut w: usize = base;
            let hl = visible_len(&self.headers.cells[i].content);
            if hl > w {
                w = hl;
            }
            proof {
                assert(hv[i as int] == self.headers.cells@[i as int].content@);
                assert(w as int == max2(base as int, visible_len_spec(hv[i as int])));
                assert(rv.take(0).len() == 0);
            }
            let mut r: usize = 0;
            while r < nrows
                invariant
                    0 <= r <= nrows,
                    *self == *old(self),
                    self.well_formed(),
                    n == self.headers.cells@.len(),
                    0 <= i < n,
                    nrows == self.rows@.len(),
                    hv == self.header_contents(),
                    rv == self.rows_contents(),
                    w as int == max2(
                        max2(base as int, visible_len_spec(hv[i as int])),
                        rows_col_max(rv.take(r as int), i as int),
                    ),
                decreases nrows - r,
            {
                let cl = visible_len(&self.rows[r].cells[i].content);
                proof {
                    assert(rv[r as int] == cell_contents(self.rows@[r as int].cells@));
                    assert(rv[r as int][i as int] == self.rows@[r as int].cells@[i as int].content@);
                    assert(rv.take(r + 1).drop_last() =~= rv.take(r as int));
                    assert(rv.take(r + 1).last() == rv[r as int]);
                    assert((i as int) < rv[r as int].len());
                }
                if cl > w {
                    w = cl;
                }
                r = r + 1;
            }
            proof {
                assert(rv.take(nrows as int) =~= rv);
                assert(hv.len() == n as int);
                assert(natw[i as int] == max2(
                    max2(
                        avail_width(max_width as int, hv.len() as int) / (hv.len() as int),
                        MIN_COL_WIDTH as int,
                    ),
                    max2(visible_len_spec(hv[i as int]), rows_col_max(rv, i as int)),
                ));
                assert(avail_width(max_width as int, hv.len() as int) == avail_g);
                assert(w as int == natw[i as int]);
            }
            widths.push(w);
            i = i + 1;
        }
        proof {
            assert(widths@.map_values(|w: usize| w as int) =~= natw);
        }
        let mut total: u128 = 0;
        let mut k: usize = 0;
        proof {
            assert(natw.take(0).len() == 0);
        }
        while k < n
            invariant
                0 <= k <= n,
                n == widths@.len(),
                natw == widths@.map_values(|w: usize| w as int),
                total as int == sum_seq(natw.take(k as int)),
                total as int <= (k as int) * 0xffff_ffff_ffff_ffffu64 as int,
            decreases n - k,
        {
            proof {
                lemma_sum_take_push(natw, k as int);
                let m = 0xffff_ffff_ffff_ffffu64 as int;
                assert((k as int) * m + m == ((k as int) + 1) * m) by {
                    lemma_mul_is_distributive_add_other_way(m, k as int, 1);
                }
                assert(((k as int) + 1) * m < 0x1_0000_0000_0000_0000_0000_0000_0000_0000) by {
                    lemma_mul_inequality((k as int) + 1, m + 1, m);
                }
            }
            total = total + (widths[k] as u128);
            k = k + 1;
        }
        proof {
            assert(natw.take(n as int) =~= natw);
        }
        let ghost total_g = sum_seq(natw);
        if total > (avail as u128) {
            let ghost scaled = Seq::new(
                n as nat,
                |i: int| max2(natw[i] * avail_g / total_g, MIN_COL_WIDTH as int),
            );
            let mut widths2: Vec<usize> = Vec::new();
            let mut j: usize = 0;
            while j < n
                invariant
                    0 <= j <= n,
                    n == widths@.len(),
                    natw == widths@.map_values(|w: usize| w as int),
                    total as int == total_g,
                    total_g == sum_seq(natw),
                    total_g > avail as int,
                    avail as int == avail_g,
                    avail_g >= 0,
                    scaled == Seq::new(
                        n as nat,
                        |i: int| max2(natw[i] * avail_g / total_g, MIN_COL_WIDTH as int),
                    ),
                    widths2@.len() == j,
                    forall|t: int| 0 <= t < j ==> #[trigger] widths2@[t] as int == scaled[t],
                decreases n - j,
            {
                proof {
                    assert(forall|t: int| 0 <= t < natw.len() ==> #[trigger] natw[t] >= 0);
                    lemma_sum_ge_elem(natw, j as int);
                    let m = 0xffff_ffff_ffff_ffffu64 as int;
                    assert(natw[j as int] * (avail as int) <= m * m) by {
                        lemma_mul_inequality(natw[j as int], m, avail as int);
                        lemma_mul_inequality(avail as int, m, m);
                        assert(m * (avail as int) == (avail as int) * m) by {
                            vstd::arithmetic::mul::lemma_mul_is_commutative(m, avail as int);
                        }
                    }
                    assert(natw[j as int] * (avail as int) >= 0) by {
                        lemma_mul_inequality(0, natw[j as int], avail as int);
                    }
                }
                let prod: u128 = (widths[j] as u128) * (avail as u128);
                let q: u128 = prod / total;
                proof {
                    assert(q as int == natw[j as int] * avail_g / total_g);
                    assert(q as int <= avail_g) by {
                        lemma_mul_inequality(natw[j as int], total_g, avail_g);
                        assert(total_g * avail_g == avail_g * total_g) by {
                            vstd::arithmetic::mul::lemma_mul_is_commutative(total_g, avail_g);
                        }
                        lemma_div_is_ordered(
                            natw[j as int] * avail_g,
                            total_g * avail_g,
                            total_g,
                        );
                        lemma_div_multiples_vanish(avail_g, total_g);
                    }
                }
                let qu: usize = q as usize;
                let w2: usize = if qu >= MIN_COL_WIDTH {
                    qu
                } else {
                    MIN_COL_WIDTH
                };
                widths2.push(w2);
                j = j + 1;
            }
            self.column_widths = widths2;
            proof {
                assert(final(self).column_widths@.map_values(|w: usize| w as int) =~= scaled);
                assert(scaled =~= widths_spec(max_width as int, hv, rv));
            }
        } else {
            self.column_widths = widths;
            proof {
                assert(final(self).column_widths@.map_values(|w: usize| w as int) =~= natw);
                assert(natw =~= widths_spec(max_width as int, hv, rv));
            }
        }
    }
}

/// A dashed segment spanning one column and its padding.
pub open spec fn dash_seg(w: int) -> Seq<char> {
    repeat_char('\u{2500}', w + 2)
}

/// Column segments joined by `mid` glyphs.
pub open spec fn border_segs(ws: Seq<int>, mid: char) -> Seq<char>
    decreases ws.len(),
{
    if ws.len() == 0 {
        Seq::empty()
    } else if ws.len() == 1 {
        dash_seg(ws[0])
    } else {
        dash_seg(ws[0]) + seq![mid] + border_segs(ws.drop_first(), mid)
    }
}

/// A full border line: two-space indent, corner, segments, corner, newline.
pub open spec fn border_line(ws: Seq<int>, left: char, mid: char, right: char) -> Seq<char> {
    seq![' ', ' ', left] + border_segs(ws, mid) + seq![right, '\n']
}

proof fn lemma_border_segs_push(ws: Seq<int>, x: int, mid: char)
    ensures
        border_segs(ws.push(x), mid) == if ws.len() == 0 {
            dash_seg(x)
        } else {
            border_segs(ws, mid) + seq![mid] + dash_seg(x)
        },
    decreases ws.len(),
{
    if ws.len() == 0 {
        assert(ws.push(x).len() == 1);
        assert(ws.push(x)[0] == x);
    } else {
        assert(ws.push(x)[0] == ws[0]);
        assert(ws.push(x).drop_first() =~= ws.drop_first().push(x));
        lemma_border_segs_push(ws.drop_first(), x, mid);
        if ws.len() == 1 {
            assert(ws.drop_first().len() == 0);
            assert(border_segs(ws.push(x), mid) == dash_seg(ws[0]) + seq![mid] + dash_seg(x));
            assert(dash_seg(ws[0]) + seq![mid] + dash_seg(x) =~= border_segs(ws, mid) + seq![mid]
                + dash_seg(x));
        } else {
            assert(dash_seg(ws[0]) + seq![mid] + (border_segs(ws.drop_first(), mid) + seq![mid]
                + dash_seg(x)) =~= border_segs(ws, mid) + seq![mid] + dash_seg(x));
        }
    }
}

/// The glyphs of the header separator for one column, encoding its alignment.
pub open spec fn align_seg(w: int, a: Align) -> Seq<char> {
    match a {
        Align::Left => seq![':'] + repeat_char('\u{2500}', w + 1),
        Align::Right => repeat_char('\u{2500}', w + 1) + seq![':'],
        Align::Center => seq![':'] + repeat_char('\u{2500}', w) + seq![':'],
        Align::Unset => repeat_char('\u{2500}', w + 2),
    }
}

pub open spec fn align_segs(ws: Seq<int>, als: Seq<Align>) -> Seq<char>
    decreases ws.len(),
{
    if ws.len() == 0 || als.len() == 0 {
        Seq::empty()
    } else if ws.len() == 1 {
        align_seg(ws[0], als[0])
    } else {
        align_seg(ws[0], als[0]) + seq!['\u{253c}'] + align_segs(
            ws.drop_first(),
            als.drop_first(),
        )
    }
}

/// The separator under the header row, with alignment-encoding glyphs.
pub open spec fn align_border(ws: Seq<int>, als: Seq<Align>) -> Seq<char> {
    seq![' ', ' ', '\u{251c}'] + align_segs(ws, als) + seq!['\u{2524}', '\n']
}

proof fn lemma_align_segs_push(ws: Seq<int>, als: Seq<Align>, x: int, a: Align)
    requires
        ws.len() == als.len(),
    ensures
        align_segs(ws.push(x), als.push(a)) == if ws.len() == 0 {
            align_seg(x, a)
        } else {
            align_segs(ws, als) + seq!['\u{253c}'] + align_seg(x, a)
        },
    decreases ws.len(),
{
    if ws.len() == 0 {
        assert(ws.push(x)[0] == x);
        assert(als.push(a)[0] == a);
    } else {
        assert(ws.push(x)[0] == ws[0]);
        assert(als.push(a)[0] == als[0]);
        assert(ws.push(x).drop_first() =~= ws.drop_first().push(x));
        assert(als.push(a).drop_first() =~= als.drop_first().push(a));
        lemma_align_segs_push(ws.drop_first(), als.drop_first(), x, a);
        if ws.len() == 1 {
            assert(align_segs(ws.push(x), als.push(a)) == align_seg(ws[0], als[0]) + seq![
                '\u{253c}',
            ] + align_seg(x, a));
            assert(align_seg(ws[0], als[0]) + seq!['\u{253c}'] + align_seg(x, a) =~= align_segs(
                ws,
                als,
            ) + seq!['\u{253c}'] + align_seg(x, a));
        } else {
            assert(align_seg(ws[0], als[0]) + seq!['\u{253c}'] + (align_segs(
                ws.drop_first(),
                als.drop_first(),
            ) + seq!['\u{253c}'] + align_seg(x, a)) =~= align_segs(ws, als) + seq!['\u{253c}']
                + align_seg(x, a));
        }
    }
}

/// A cell's wrapped lines; an empty cell still occupies one blank line.
pub open spec fn wrap_cell(content: Seq<char>, w: int) -> Seq<Seq<char>> {
    let ls = wrap_text_spec(content, w);
    if ls.len() == 0 {
        seq![Seq::<char>::empty()]
    } else {
        ls
    }
}

/// One physical cell line padded to the column width with alignment-specific
/// spacing; centring gives the extra space to the right.
pub open spec fn pad_cell(c: Seq<char>, w: int, a: Align) -> Seq<char> {
    let sp = max2(w - visible_len_spec(c), 0);
    match a {
        Align::Left => c + repeat_char(' ', sp),
        Align::Unset => c + repeat_char(' ', sp),
        Align::Right => repeat_char(' ', sp) + c,
        Align::Center => repeat_char(' ', sp / 2) + c + repeat_char(' ', sp - sp / 2),
    }
}

/// Line `k` of a cell: its `k`-th wrapped line, or blank past the end.
pub open spec fn cell_line(content: Seq<char>, w: int, a: Align, k: int) -> Seq<char> {
    let ls = wrap_cell(content, w);
    pad_cell(
        if 0 <= k < ls.len() {
            ls[k]
        } else {
            Seq::empty()
        },
        w,
        a,
    )
}

pub open spec fn row_line_segs(
    contents: Seq<Seq<char>>,
    als: Seq<Align>,
    ws: Seq<int>,
    k: int,
) -> Seq<char>
    decreases contents.len(),
{
    if contents.len() == 0 || als.len() == 0 || ws.len() == 0 {
        Seq::empty()
    } else if contents.len() == 1 {
        cell_line(contents[0], ws[0], als[0], k)
    } else {
        cell_line(contents[0], ws[0], als[0], k) + seq![' ', '\u{2502}', ' '] + row_line_segs(
            contents.drop_first(),
            als.drop_first(),
            ws.drop_first(),
            k,
        )
    }
}

proof fn lemma_row_line_segs_push(
    contents: Seq<Seq<char>>,
    als: Seq<Align>,
    ws: Seq<int>,
    c: Seq<char>,
    a: Align,
    w: int,
    k: int,
)
    requires
        contents.len() == als.len(),
        contents.len() == ws.len(),
    ensures
        row_line_segs(contents.push(c), als.push(a), ws.push(w), k) == if contents.len() == 0 {
            cell_line(c, w, a, k)
        } else {
            row_line_segs(contents, als, ws, k) + seq![' ', '\u{2502}', ' '] + cell_line(
                c,
                w,
                a,
                k,
            )
        },
    decreases contents.len(),
{
    if contents.len() == 0 {
        assert(contents.push(c)[0] == c);
        assert(als.push(a)[0] == a);
        assert(ws.push(w)[0] == w);
    } else {
        assert(contents.push(c)[0] == contents[0]);
        assert(als.push(a)[0] == als[0]);
        assert(ws.push(w)[0] == ws[0]);
        assert(contents.push(c).drop_first() =~= contents.drop_first().push(c));
        assert(als.push(a).drop_first() =~= als.drop_first().push(a));
        assert(ws.push(w).drop_first() =~= ws.drop_first().push(w));
        lemma_row_line_segs_push(
            contents.drop_first(),
            als.drop_first(),
            ws.drop_first(),
            c,
            a,
            w,
            k,
        );
        if contents.len() == 1 {
            assert(row_line_segs(contents.push(c), als.push(a), ws.push(w), k) == cell_line(
                contents[0],
                ws[0],
                als[0],
                k,
            ) + seq![' ', '\u{2502}', ' '] + cell_line(c, w, a, k));
            assert(cell_line(contents[0], ws[0], als[0], k) + seq![' ', '\u{2502}', ' ']
                + cell_line(c, w, a, k) =~= row_line_segs(contents, als, ws, k) + seq![
                ' ',
                '\u{2502}',
                ' ',
            ] + cell_line(c, w, a, k));
        } else {
            assert(cell_line(contents[0], ws[0], als[0], k) + seq![' ', '\u{2502}', ' ']
                + (row_line_segs(contents.drop_first(), als.drop_first(), ws.drop_first(), k)
                + seq![' ', '\u{2502}', ' '] + cell_line(c, w, a, k)) =~= row_line_segs(
                contents,
                als,
                ws,
                k,
            ) + seq![' ', '\u{2502}', ' '] + cell_line(c, w, a, k));
        }
    }
}

pub open spec fn row_line(
    contents: Seq<Seq<char>>,
    als: Seq<Align>,
    ws: Seq<int>,
    k: int,
) -> Seq<char> {
    seq![' ', ' ', '\u{2502}', ' '] + row_line_segs(contents, als, ws, k) + seq![
        ' ',
        '\u{2502}',
        '\n',
    ]
}

/// The tallest cell of the row decides how many physical lines it spans;
/// a row with no cells still spans one.
pub open spec fn row_height(contents: Seq<Seq<char>>, ws: Seq<int>) -> int
    decreases contents.len(),
{
    if contents.len() == 0 {
        1
    } else {
        max2(
            row_height(contents.drop_last(), ws),
            wrap_cell(contents.last(), if contents.len() - 1 < ws.len() {
                ws[contents.len() - 1]
            } else {
                0
            }).len() as int,
        )
    }
}

pub open spec fn row_lines_from(
    contents: Seq<Seq<char>>,
    als: Seq<Align>,
    ws: Seq<int>,
    k: int,
    m: int,
) -> Seq<char>
    decreases m - k,
{
    if k >= m {
        Seq::empty()
    } else {
        row_line(contents, als, ws, k) + row_lines_from(contents, als, ws, k + 1, m)
    }
}

proof fn lemma_row_lines_snoc(
    contents: Seq<Seq<char>>,
    als: Seq<Align>,
    ws: Seq<int>,
    s: int,
    e: int,
)
    requires
        s <= e,
    ensures
        row_lines_from(contents, als, ws, s, e + 1) == row_lines_from(contents, als, ws, s, e)
            + row_line(contents, als, ws, e),
    decreases e - s,
{
    if s == e {
        assert(row_lines_from(contents, als, ws, e + 1, e + 1) =~= Seq::<char>::empty());
        assert(row_lines_from(contents, als, ws, s, e) =~= Seq::<char>::empty());
        assert(row_line(contents, als, ws, e) + Seq::<char>::empty() =~= Seq::<char>::empty()
            + row_line(contents, als, ws, e));
        assert(Seq::<char>::empty() + row_line(contents, als, ws, e) =~= row_line(
            contents,
            als,
            ws,
            e,
        ));
    } else {
        lemma_row_lines_snoc(contents, als, ws, s + 1, e);
        assert(row_line(contents, als, ws, s) + (row_lines_from(contents, als, ws, s + 1, e)
            + row_line(contents, als, ws, e)) =~= row_lines_from(contents, als, ws, s, e)
            + row_line(contents, als, ws, e));
    }
}

/// One rendered table row: every cell wrapped to its column width, stacked to
/// the row's height, each physical line padded by its column's alignment.
pub open spec fn row_text(
    contents: Seq<Seq<char>>,
    als: Seq<Align>,
    ws: Seq<int>,
) -> Seq<char> {
    row_lines_from(contents, als, ws, 0, row_height(contents, ws))
}

pub open spec fn rows_text(
    rows: Seq<Seq<Seq<char>>>,
    als: Seq<Align>,
    ws: Seq<int>,
) -> Seq<char>
    decreases rows.len(),
{
    if rows.len() == 0 {
        Seq::empty()
    } else if rows.len() == 1 {
        row_text(rows[0], als, ws)
    } else {
        row_text(rows[0], als, ws) + border_line(ws, '\u{251c}', '\u{253c}', '\u{2524}')
            + rows_text(rows.drop_first(), als, ws)
    }
}

proof fn lemma_rows_text_push(
    rows: Seq<Seq<Seq<char>>>,
    x: Seq<Seq<char>>,
    als: Seq<Align>,
    ws: Seq<int>,
)
    ensures
        rows_text(rows.push(x), als, ws) == if rows.len() == 0 {
            row_text(x, als, ws)
        } else {
            rows_text(rows, als, ws) + border_line(ws, '\u{251c}', '\u{253c}', '\u{2524}')
                + row_text(x, als, ws)
        },
    decreases rows.len(),
{
    let sep = border_line(ws, '\u{251c}', '\u{253c}', '\u{2524}');
    if rows.len() == 0 {
        assert(rows.push(x)[0] == x);
    } else {
        assert(rows.push(x)[0] == rows[0]);
        assert(rows.push(x).drop_first() =~= rows.drop_first().push(x));
        lemma_rows_text_push(rows.drop_first(), x, als, ws);
        if rows.len() == 1 {
            assert(rows_text(rows.push(x), als, ws) == row_text(rows[0], als, ws) + sep
                + row_text(x, als, ws));
            assert(row_text(rows[0], als, ws) + sep + row_text(x, als, ws) =~= rows_text(
                rows,
                als,
                ws,
            ) + sep + row_text(x, als, ws));
        } else {
            assert(row_text(rows[0], als, ws) + sep + (rows_text(rows.drop_first(), als, ws) + sep
                + row_text(x, als, ws)) =~= rows_text(rows, als, ws) + sep + row_text(
                x,
                als,
                ws,
            ));
        }
    }
}

/// The full rendered table: top border, header row, alignment separator,
/// data rows with separators between them, bottom border.
pub open spec fn table_text(
    headers: Seq<Seq<char>>,
    als: Seq<Align>,
    rows: Seq<Seq<Seq<char>>>,
    ws: Seq<int>,
) -> Seq<char> {
    border_line(ws, '\u{250c}', '\u{252c}', '\u{2510}') + row_text(headers, als, ws)
        + align_border(ws, als) + rows_text(rows, als, ws) + border_line(
        ws,
        '\u{2514}',
        '\u{2534}',
        '\u{2518}',
    )
}

fn push_border_into(out: &mut Vec<char>, ws: &Vec<usize>, left: char, mid: char, right: char)
    ensures
        final(out)@ == old(out)@ + border_line(
            ws@.map_values(|w: usize| w as int),
            left,
            mid,
            right,
        ),
{
    let ghost wsi = ws@.map_values(|w: usize| w as int);
    out.push(' ');
    out.push(' ');
    out.push(left);
    let n = ws.len();
    let mut i: usize = 0;
    let ghost mark = out@;
    while i < n
        invariant
            0 <= i <= n,
            n == ws.len(),
            wsi == ws@.map_values(|w: usize| w as int),
            out@ == mark + (if i == 0 {
                Seq::<char>::empty()
            } else if i == n {
                border_segs(wsi, mid)
            } else {
                border_segs(wsi.take(i as int), mid) + seq![mid]
            }),
        decreases n - i,
    {
        let ghost pre = out@;
        let w = ws[i];
        push_repeat(out, '\u{2500}', w);
        out.push('\u{2500}');
        out.push('\u{2500}');
        proof {
            assert(out@ =~= pre + dash_seg(wsi[i as int])) by {
                assert(repeat_char('\u{2500}', wsi[i as int] + 2) == repeat_char(
                    '\u{2500}',
                    wsi[i as int] + 1,
                ).push('\u{2500}'));
                assert(repeat_char('\u{2500}', wsi[i as int] + 1) == repeat_char(
                    '\u{2500}',
                    wsi[i as int],
                ).push('\u{2500}'));
            }
            lemma_border_segs_push(wsi.take(i as int), wsi[i as int], mid);
            assert(wsi.take(i + 1) =~= wsi.take(i as int).push(wsi[i as int]));
            if i == 0 {
                assert(out@ =~= mark + border_segs(wsi.take(1), mid));
            } else {
                assert(out@ =~= mark + border_segs(wsi.take(i + 1), mid));
            }
            if i + 1 == n {
                assert(wsi.take(n as int) =~= wsi);
            }
        }
        if i < n - 1 {
            out.push(mid);
            proof {
                assert(out@ =~= mark + (border_segs(wsi.take(i + 1), mid) + seq![mid]));
            }
        }
        i = i + 1;
    }
    out.push(right);
    out.push('\n');
    proof {
        if n == 0 {
            assert(border_segs(wsi, mid) =~= Seq::<char>::empty());
        }
        assert(out@ =~= old(out)@ + border_line(wsi, left, mid, right));
    }
}

fn push_align_border_into(out: &mut Vec<char>, ws: &Vec<usize>, headers: &TableRow)
    requires
        ws@.len() == headers.cells@.len(),
    ensures
        final(out)@ == old(out)@ + align_border(
            ws@.map_values(|w: usize| w as int),
            cell_aligns(headers.cells@),
        ),
{
    let ghost wsi = ws@.map_values(|w: usize| w as int);
    let ghost als = cell_aligns(headers.cells@);
    out.push(' ');
    out.push(' ');
    out.push('\u{251c}');
    let n = ws.len();
    let mut i: usize = 0;
    let ghost mark = out@;
    while i < n
        invariant
            0 <= i <= n,
            n == ws.len(),
            n == headers.cells@.len(),
            wsi == ws@.map_values(|w: usize| w as int),
            als == cell_aligns(headers.cells@),
            out@ == mark + (if i == 0 {
                Seq::<char>::empty()
            } else if i == n {
                align_segs(wsi, als)
            } else {
                align_segs(wsi.take(i as int), als.take(i as int)) + seq!['\u{253c}']
            }),
        decreases n - i,
    {
        let ghost pre = out@;
        let w = ws[i];
        let a = headers.cells[i].alignment;
        match a {
            Align::Left => {
                out.push(':');
                push_repeat(out, '\u{2500}', w);
                out.push('\u{2500}');
            },
            Align::Right => {
                push_repeat(out, '\u{2500}', w);
                out.push('\u{2500}');
                out.push(':');
            },
            Align::Center => {
                out.push(':');
                push_repeat(out, '\u{2500}', w);
                out.push(':');
            },
            Align::Unset => {
                push_repeat(out, '\u{2500}', w);
                out.push('\u{2500}');
                out.push('\u{2500}');
            },
        }
        proof {
            assert(als[i as int] == a);
            assert(out@ =~= pre + align_seg(wsi[i as int], a)) by {
                assert(repeat_char('\u{2500}', wsi[i as int] + 1) == repeat_char(
                    '\u{2500}',
                    wsi[i as int],
                ).push('\u{2500}'));
                assert(repeat_char('\u{2500}', wsi[i as int] + 2) == repeat_char(
                    '\u{2500}',
                    wsi[i as int] + 1,
                ).push('\u{2500}'));
            }
            lemma_align_segs_push(wsi.take(i as int), als.take(i as int), wsi[i as int], a);
            assert(wsi.take(i + 1) =~= wsi.take(i as int).push(wsi[i as int]));
            assert(als.take(i + 1) =~= als.take(i as int).push(als[i as int]));
            if i == 0 {
                assert(out@ =~= mark + align_segs(wsi.take(1), als.take(1)));
            } else {
                assert(out@ =~= mark + align_segs(wsi.take(i + 1), als.take(i + 1)));
            }
            if i + 1 == n {
                assert(wsi.take(n as int) =~= wsi);
                assert(als.take(n as int) =~= als);
            }
        }
        if i < n - 1 {
            out.push('\u{253c}');
            proof {
                assert(out@ =~= mark + (align_segs(wsi.take(i + 1), als.take(i + 1)) + seq![
                    '\u{253c}',
                ]));
            }
        }
        i = i + 1;
    }
    out.push('\u{2524}');
    out.push('\n');
    proof {
        if n == 0 {
            assert(align_segs(wsi, als) =~= Seq::<char>::empty());
        }
        assert(out@ =~= old(out)@ + align_border(wsi, als));
    }
}

fn push_padded(out: &mut Vec<char>, content: &Vec<char>, w: usize, a: Align)
    ensures
        final(out)@ == old(out)@ + pad_cell(content@, w as int, a),
{
    let vl = visible_len(content);
    proof {
        crate::wrap::lemma_visible_le_len(content@);
    }
    let sp: usize = if w > vl {
        w - vl
    } else {
        0
    };
    proof {
        assert(sp as int == max2(w as int - visible_len_spec(content@), 0));
    }
    match a {
        Align::Left => {
            extend_chars(out, content);
            push_repeat(out, ' ', sp);
            proof {
                assert(out@ =~= old(out)@ + (content@ + repeat_char(' ', sp as int)));
            }
        },
        Align::Unset => {
            extend_chars(out, content);
            push_repeat(out, ' ', sp);
            proof {
                assert(out@ =~= old(out)@ + (content@ + repeat_char(' ', sp as int)));
            }
        },
        Align::Right => {
            push_repeat(out, ' ', sp);
            extend_chars(out, content);
            proof {
                assert(out@ =~= old(out)@ + (repeat_char(' ', sp as int) + content@));
            }
        },
        Align::Center => {
            let l = sp / 2;
            push_repeat(out, ' ', l);
            extend_chars(out, content);
            push_repeat(out, ' ', sp - l);
            proof {
                assert(out@ =~= old(out)@ + (repeat_char(' ', sp as int / 2) + content@
                    + repeat_char(' ', sp as int - sp as int / 2)));
            }
        },
    }
}

#[verifier::rlimit(80)]
fn push_row_into(out: &mut Vec<char>, row: &TableRow, ws: &Vec<usize>)
    requires
        row.cells@.len() == ws@.len(),
    ensures
        final(out)@ == old(out)@ + row_text(
            cell_contents(row.cells@),
            cell_aligns(row.cells@),
            ws@.map_values(|w: usize| w as int),
        ),
{
    let ghost cs = cell_contents(row.cells@);
    let ghost als = cell_aligns(row.cells@);
    let ghost wsi = ws@.map_values(|w: usize| w as int);
    let n = row.cells.len();
    let mut wrapped: Vec<Vec<Vec<char>>> = Vec::new();
    let mut i: usize = 0;
    while i < n
        invariant
            0 <= i <= n,
            n == row.cells@.len(),
            n == ws@.len(),
            cs == cell_contents(row.cells@),
            wsi == ws@.map_values(|w: usize| w as int),
            wrapped@.len() == i,
            forall|j: int|
                0 <= j < i ==> views((#[trigger] wrapped@[j])@) == wrap_cell(cs[j], wsi[j]),
        decreases n - i,
    {
        let ls = wrap_text(&row.cells[i].content, ws[i]);
        proof {
            assert(cs[i as int] == row.cells@[i as int].content@);
        }
        if ls.len() == 0 {
            let mut one: Vec<Vec<char>> = Vec::new();
            one.push(Vec::new());
            proof {
                assert(views(one@) =~= seq![Seq::<char>::empty()]);
            }
            wrapped.push(one);
        } else {
            wrapped.push(ls);
        }
        i = i + 1;
    }
    let mut m: usize = 1;
    let mut h: usize = 0;
    proof {
        assert(cs.take(0).len() == 0);
    }
    while h < n
        invariant
            0 <= h <= n,
            n == row.cells@.len(),
            n == ws@.len(),
            cs == cell_contents(row.cells@),
            wsi == ws@.map_values(|w: usize| w as int),
            wrapped@.len() == n,
            forall|j: int|
                0 <= j < n ==> views((#[trigger] wrapped@[j])@) == wrap_cell(cs[j], wsi[j]),
            m as int == row_height(cs.take(h as int), wsi),
            m >= 1,
        decreases n - h,
    {
        proof {
            assert(cs.take(h + 1).drop_last() =~= cs.take(h as int));
            assert(cs.take(h + 1).last() == cs[h as int]);
            assert(views(wrapped@[h as int]@).len() == wrap_cell(cs[h as int], wsi[h as int]).len());
        }
        if wrapped[h].len() > m {
            m = wrapped[h].len();
        }
        h = h + 1;
    }
    proof {
        assert(cs.take(n as int) =~= cs);
    }
    let empty_line: Vec<char> = Vec::new();
    let ghost mark = out@;
    let mut k: usize = 0;
    while k < m
        invariant
            0 <= k <= m,
            n == row.cells@.len(),
            n == ws@.len(),
            cs == cell_contents(row.cells@),
            als == cell_aligns(row.cells@),
            wsi == ws@.map_values(|w: usize| w as int),
            wrapped@.len() == n,
            forall|j: int|
                0 <= j < n ==> views((#[trigger] wrapped@[j])@) == wrap_cell(cs[j], wsi[j]),
            empty_line@.len() == 0,
            m as int == row_height(cs, wsi),
            out@ == mark + row_lines_from(cs, als, wsi, 0, k as int),
        decreases m - k,
    {
        out.push(' ');
        out.push(' ');
        out.push('\u{2502}');
        out.push(' ');
        let ghost linemark = out@;
        let mut i: usize = 0;
        while i < n
            invariant
                0 <= i <= n,
                0 <= k < m,
                n == row.cells@.len(),
                n == ws@.len(),
                cs == cell_contents(row.cells@),
                als == cell_aligns(row.cells@),
                wsi == ws@.map_values(|w: usize| w as int),
                wrapped@.len() == n,
                forall|j: int|
                    0 <= j < n ==> views((#[trigger] wrapped@[j])@) == wrap_cell(cs[j], wsi[j]),
                empty_line@.len() == 0,
                out@ == linemark + (if i == 0 {
                    Seq::<char>::empty()
                } else if i == n {
                    row_line_segs(cs, als, wsi, k as int)
                } else {
                    row_line_segs(cs.take(i as int), als.take(i as int), wsi.take(i as int), k as int)
                        + seq![' ', '\u{2502}', ' ']
                }),
            decreases n - i,
        {
            let ghost pre = out@;
            let cell_wrapped = &wrapped[i];
            let line: &Vec<char> = if k < cell_wrapped.len() {
                &cell_wrapped[k]
            } else {
                &empty_line
            };
            proof {
                let ls = wrap_cell(cs[i as int], wsi[i as int]);
                if (k as int) < ls.len() {
                    assert(line@ == views(wrapped@[i as int]@)[k as int]);
                    assert(line@ == ls[k as int]);
                } else {
                    assert(line@.len() == 0);
                    assert(line@ =~= Seq::<char>::empty());
                }
            }
            push_padded(out, line, ws[i], row.cells[i].alignment);
            proof {
                assert(als[i as int] == row.cells@[i as int].alignment);
                assert(pad_cell(line@, wsi[i as int], als[i as int]) == cell_line(
                    cs[i as int],
                    wsi[i as int],
                    als[i as int],
                    k as int,
                ));
                lemma_row_line_segs_push(
                    cs.take(i as int),
                    als.take(i as int),
                    wsi.take(i as int),
                    cs[i as int],
                    als[i as int],
                    wsi[i as int],
                    k as int,
                );
                assert(cs.take(i + 1) =~= cs.take(i as int).push(cs[i as int]));
                assert(als.take(i + 1) =~= als.take(i as int).push(als[i as int]));
                assert(wsi.take(i + 1) =~= wsi.take(i as int).push(wsi[i as int]));
                if i == 0 {
                    assert(out@ =~= linemark + row_line_segs(
                        cs.take(1),
                        als.take(1),
                        wsi.take(1),
                        k as int,
                    ));
                } else {
                    assert(out@ =~= linemark + row_line_segs(
                        cs.take(i + 1),
                        als.take(i + 1),
                        wsi.take(i + 1),
                        k as int,
                    ));
                }
                if i + 1 == n {
                    assert(cs.take(n as int) =~= cs);
                    assert(als.take(n as int) =~= als);
                    assert(wsi.take(n as int) =~= wsi);
                }
            }
            if i < n - 1 {
                out.push(' ');
                out.push('\u{2502}');
                out.push(' ');
                proof {
                    assert(out@ =~= linemark + (row_line_segs(
                        cs.take(i + 1),
                        als.take(i + 1),
                        wsi.take(i + 1),
                        k as int,
                    ) + seq![' ', '\u{2502}', ' ']));
                }
            }
            i = i + 1;
        }
        proof {
            if n == 0 {
                assert(row_line_segs(cs, als, wsi, k as int) =~= Seq::<char>::empty());
            }
        }
        out.push(' ');
        out.push('\u{2502}');
        out.push('\n');
        proof {
            assert(out@ =~= mark + row_lines_from(cs, als, wsi, 0, k as int) + row_line(
                cs,
                als,
                wsi,
                k as int,
            ));
            lemma_row_lines_snoc(cs, als, wsi, 0, k as int);
            assert(out@ =~= mark + row_lines_from(cs, als, wsi, 0, k + 1));
        }
        k = k + 1;
    }
}

impl Table {
    /// Renders the table as box-drawn text: top border, header row, a
    /// separator whose glyphs encode each column's alignment, the data rows
    /// separated from one another, and a bottom border.
    pub fn render(&self) -> (r: String)
        requires
            self.well_formed(),
            self.column_widths@.len() == self.num_columns(),
        ensures
            r@ == table_text(
                self.header_contents(),
                self.header_aligns(),
                self.rows_contents(),
                self.column_widths@.map_values(|w: usize| w as int),
            ),
    {
        let ghost hv = self.header_contents();
        let ghost als = self.header_aligns();
        let ghost rv = self.rows_contents();
        let ghost wsi = self.column_widths@.map_values(|w: usize| w as int);
        let mut out: Vec<char> = Vec::new();
        push_border_into(&mut out, &self.column_widths, '\u{250c}', '\u{252c}', '\u{2510}');
        push_row_into(&mut out, &self.headers, &self.column_widths);
        push_align_border_into(&mut out, &self.column_widths, &self.headers);
        let ghost mark = out@;
        let nr = self.rows.len();
        let mut r: usize = 0;
        proof {
            assert(rv.take(0).len() == 0);
            assert(rows_text(rv.take(0), als, wsi) =~= Seq::<char>::empty());
            assert(out@ =~= mark + rows_text(rv.take(0), als, wsi));
        }
        while r < nr
            invariant
                0 <= r <= nr,
                nr == self.rows@.len(),
                self.well_formed(),
                self.column_widths@.len() == self.num_columns(),
                hv == self.header_contents(),
                als == self.header_aligns(),
                rv == self.rows_contents(),
                wsi == self.column_widths@.map_values(|w: usize| w as int),
                out@ == mark + rows_text(rv.take(r as int), als, wsi),
            decreases nr - r,
        {
            if r > 0 {
                push_border_into(&mut out, &self.column_widths, '\u{251c}', '\u{253c}', '\u{2524}');
            }
            proof {
                assert(rv[r as int] == cell_contents(self.rows@[r as int].cells@));
                assert(self.rows@[r as int].cells@.len() == self.column_widths@.len());
                assert(cell_aligns(self.rows@[r as int].cells@) =~= als);
            }
            push_row_into(&mut out, &self.rows[r], &self.column_widths);
            proof {
                lemma_rows_text_push(rv.take(r as int), rv[r as int], als, wsi);
                assert(rv.take(r + 1) =~= rv.take(r as int).push(rv[r as int]));
                if r == 0 {
                    assert(out@ =~= mark + rows_text(rv.take(1), als, wsi));
                } else {
                    assert(out@ =~= mark + rows_text(rv.take(r + 1), als, wsi));
                }
            }
            r = r + 1;
        }
        proof {
            assert(rv.take(nr as int) =~= rv);
        }
        push_border_into(&mut out, &self.column_widths, '\u{2514}', '\u{2534}', '\u{2518}');
        proof {
            assert(out@ =~= table_text(hv, als, rv, wsi));
        }
        string_of_chars(&out)
    }
}

} // verus!
