//! Flat-buffer storage: one addressing formula over a single buffer supports
//! the two physical layouts (row-major and column-major), and the
//! materialized relation type `Data` is built on it.

use vstd::prelude::*;
use crate::scalars::{Scalar, ScalarV, DataType, views_of, hash_scalar, hash_row_spec, FNV_OFFSET};
use crate::schema::{Schema, Field, ColumnName, FieldV};

verus! {

/// An ordered buffer of scalars: one row, one column, or a whole relation.
pub type Col = Vec<Scalar>;

/// A list of column positions.
pub type Pos = Vec<usize>;

/// Physical arrangement of a relation's buffer.
#[derive(Clone, Copy, Debug, PartialEq, Eq, Structural)]
pub enum Layout {
    Col,
    Row,
}

/// The flat offset of logical cell `(row, col)` in a buffer of shape
/// `row_count x col_count` under the given layout.
pub open spec fn spec_index(
    layout: Layout,
    col_count: int,
    row_count: int,
    row: int,
    col: int,
) -> int {
    match layout {
        Layout::Col => col * row_count + row,
        Layout::Row => row * col_count + col,
    }
}

/// Every valid cell lands inside the buffer.
pub proof fn lemma_index_bounds(layout: Layout, cols: int, rows: int, r: int, c: int)
    requires
        0 <= r < rows,
        0 <= c < cols,
    ensures
        0 <= spec_index(layout, cols, rows, r, c) < cols * rows,
{
    match layout {
        Layout::Col => {
            assert(c * rows + r < cols * rows) by (nonlinear_arith)
                requires
                    0 <= r < rows,
                    0 <= c < cols,
            ;
            assert(c * rows + r >= 0) by (nonlinear_arith)
                requires
                    0 <= r,
                    0 <= c,
                    0 <= rows,
            ;
        },
        Layout::Row => {
            assert(r * cols + c < cols * rows) by (nonlinear_arith)
                requires
                    0 <= r < rows,
                    0 <= c < cols,
            ;
            assert(r * cols + c >= 0) by (nonlinear_arith)
                requires
                    0 <= r,
                    0 <= c,
                    0 <= cols,
            ;
        },
    }
}

/// Distinct valid cells land on distinct offsets: the formula is injective
/// on the rectangle `[0, rows) x [0, cols)`.
pub proof fn lemma_index_injective(
    layout: Layout,
    cols: int,
    rows: int,
    r1: int,
    c1: int,
    r2: int,
    c2: int,
)
    requires
        0 <= r1 < rows,
        0 <= c1 < cols,
        0 <= r2 < rows,
        0 <= c2 < cols,
        spec_index(layout, cols, rows, r1, c1) == spec_index(layout, cols, rows, r2, c2),
    ensures
        r1 == r2,
        c1 == c2,
{
    match layout {
        Layout::Col => {
            assert(c1 * rows + r1 == c2 * rows + r2 && 0 <= r1 < rows && 0 <= r2 < rows ==> c1 == c2
                && r1 == r2) by (nonlinear_arith);
        },
        Layout::Row => {
            assert(r1 * cols + c1 == r2 * cols + c2 && 0 <= c1 < cols && 0 <= c2 < cols ==> r1 == r2
                && c1 == c2) by (nonlinear_arith);
        },
    }
}

/// The logical grid (a sequence of rows) a flat buffer holds under the given
/// layout and shape.
pub open spec fn grid_of(layout: Layout, cols: nat, rows: nat, buf: Seq<ScalarV>) -> Seq<
    Seq<ScalarV>,
> {
    Seq::new(
        rows,
        |r: int|
            Seq::new(cols, |c: int| buf[spec_index(layout, cols as int, rows as int, r, c)]),
    )
}

/// The flat buffer that holds a logical grid under the given layout: the
/// inverse of `grid_of`.
pub open spec fn flat_of(layout: Layout, cols: nat, rows: nat, grid: Seq<Seq<ScalarV>>) -> Seq<
    ScalarV,
> {
    match layout {
        Layout::Row => Seq::new(cols * rows, |i: int| grid[i / cols as int][i % cols as int]),
        Layout::Col => Seq::new(cols * rows, |i: int| grid[i % rows as int][i / rows as int]),
    }
}

/// Indexing invariant, round-trip direction: projecting a well-shaped grid
/// to a flat buffer under any layout and reading it back through the
/// addressing formula reproduces the original values at every cell.
pub proof fn lemma_grid_flat_round_trip(layout: Layout, cols: nat, rows: nat, g: Seq<Seq<ScalarV>>)
    requires
        g.len() == rows,
        forall|r: int| 0 <= r < rows ==> (#[trigger] g[r]).len() == cols,
    ensures
        grid_of(layout, cols, rows, flat_of(layout, cols, rows, g)) == g,
{
    let buf = flat_of(layout, cols, rows, g);
    let g2 = grid_of(layout, cols, rows, buf);
    assert forall|r: int, c: int| 0 <= r < rows && 0 <= c < cols implies g2[r][c] == g[r][c] by {
        let i = spec_index(layout, cols as int, rows as int, r, c);
        lemma_index_bounds(layout, cols as int, rows as int, r, c);
        match layout {
            Layout::Row => {
                vstd::arithmetic::div_mod::lemma_fundamental_div_mod_converse(
                    i,
                    cols as int,
                    r,
                    c,
                );
            },
            Layout::Col => {
                vstd::arithmetic::div_mod::lemma_fundamental_div_mod_converse(
                    i,
                    rows as int,
                    c,
                    r,
                );
            },
        }
    }
    assert(g2 =~~= g);
}

/// The flat offset of logical cell `(row, col)`.
pub fn index(layout: &Layout, col_count: usize, row_count: usize, row: usize, col: usize) -> (i:
    usize)
    requires
        row < row_count,
        col < col_count,
        col_count * row_count <= usize::MAX,
    ensures
        i == spec_index(*layout, col_count as int, row_count as int, row as int, col as int),
        i < col_count * row_count,
{
    proof {
        lemma_index_bounds(
            *layout,
            col_count as int,
            row_count as int,
            row as int,
            col as int,
        );
    }
    match layout {
        Layout::Col => col * row_count + row,
        Layout::Row => row * col_count + col,
    }
}

/// Store one scalar at logical cell `(row, col)` of a flat buffer.
fn set_cell(to: &mut Col, layout: &Layout, cols: usize, rows: usize, r: usize, c: usize, v: Scalar)
    requires
        old(to)@.len() == cols * rows,
        cols * rows <= usize::MAX,
        r < rows,
        c < cols,
    ensures
        final(to)@.len() == cols * rows,
        views_of(final(to)@) == views_of(old(to)@).update(
            spec_index(*layout, cols as int, rows as int, r as int, c as int),
            v@,
        ),
{
    let i = index(layout, cols, rows, r, c);
    to.set(i, v);
    proof {
        assert(views_of(to@) =~= views_of(old(to)@).update(i as int, to@[i as int]@));
    }
}

/// Write one whole row of `col_count` scalars into a flat buffer of shape
/// `row_count x col_count`, leaving every other row untouched.
#[verifier::loop_isolation(false)]
pub fn write_row(
    to: &mut Col,
    layout: &Layout,
    col_count: usize,
    row_count: usize,
    row: usize,
    data: Col,
)
    requires
        old(to)@.len() == col_count * row_count,
        row < row_count,
        data@.len() == col_count,
    ensures
        final(to)@.len() == col_count * row_count,
        forall|c: int|
            0 <= c < col_count ==> views_of(final(to)@)[spec_index(
                *layout,
                col_count as int,
                row_count as int,
                row as int,
                c,
            )] == views_of(data@)[c],
        forall|r2: int, c: int|
            0 <= r2 < row_count && 0 <= c < col_count && r2 != row ==> views_of(final(to)@)[spec_index(
                *layout,
                col_count as int,
                row_count as int,
                r2,
                c,
            )] == views_of(old(to)@)[spec_index(
                *layout,
                col_count as int,
                row_count as int,
                r2,
                c,
            )],
{
    let ghost cols_i = col_count as int;
    let ghost rows_i = row_count as int;
    let buf_len = to.len();
    proof {
        assert(buf_len == col_count * row_count);
    }
    let mut c: usize = 0;
    while c < col_count
        invariant
            c <= col_count,
            to@.len() == col_count * row_count,
            forall|k: int|
                0 <= k < c ==> views_of(to@)[spec_index(*layout, cols_i, rows_i, row as int, k)]
                    == views_of(data@)[k],
            forall|r2: int, k: int|
                0 <= r2 < row_count && 0 <= k < col_count && r2 != row ==> views_of(to@)[spec_index(
                    *layout,
                    cols_i,
                    rows_i,
                    r2,
                    k,
                )] == views_of(old(to)@)[spec_index(*layout, cols_i, rows_i, r2, k)],
        decreases col_count - c,
    {
        let v = data[c].clone();
        set_cell(to, layout, col_count, row_count, row, c, v);
        proof {
            let i = spec_index(*layout, cols_i, rows_i, row as int, c as int);
            lemma_index_bounds(*layout, cols_i, rows_i, row as int, c as int);
            assert forall|k: int|
                0 <= k < c + 1 implies views_of(to@)[spec_index(
                *layout,
                cols_i,
                rows_i,
                row as int,
                k,
            )] == views_of(data@)[k] by {
                lemma_index_bounds(*layout, cols_i, rows_i, row as int, k);
                if k < c && spec_index(*layout, cols_i, rows_i, row as int, k) == spec_index(
                    *layout,
                    cols_i,
                    rows_i,
                    row as int,
                    c as int,
                ) {
                    lemma_index_injective(*layout, cols_i, rows_i, row as int, k, row as int, c as int);
                }
            }
            assert forall|r2: int, k: int|
                0 <= r2 < row_count && 0 <= k < col_count && r2 != row implies views_of(
                to@,
            )[spec_index(*layout, cols_i, rows_i, r2, k)] == views_of(old(to)@)[spec_index(
                *layout,
                cols_i,
                rows_i,
                r2,
                k,
            )] by {
                lemma_index_bounds(*layout, cols_i, rows_i, r2, k);
                if spec_index(*layout, cols_i, rows_i, r2, k) == spec_index(
                    *layout,
                    cols_i,
                    rows_i,
                    row as int,
                    c as int,
                ) {
                    lemma_index_injective(*layout, cols_i, rows_i, r2, k, row as int, c as int);
                }
            }
        }
        c = c + 1;
    }
}

/// A buffer of `n` absence markers.
#[verifier::loop_isolation(false)]
pub(crate) fn nulls(n: usize) -> (r: Col)
    ensures
        r@.len() == n,
        forall|i: int| 0 <= i < n ==> views_of(r@)[i] == ScalarV::Null,
{
    let mut out: Vec<Scalar> = Vec::new();
    let mut i: usize = 0;
    while i < n
        invariant
            i <= n,
            out@.len() == i,
            forall|j: int| 0 <= j < i ==> (#[trigger] out@[j])@ == ScalarV::Null,
        decreases n - i,
    {
        out.push(Scalar::Null);
        i = i + 1;
    }
    proof {
        assert forall|j: int| 0 <= j < n implies views_of(out@)[j] == ScalarV::Null by {
            assert(out@[j]@ == ScalarV::Null);
        }
    }
    out
}

/// A cell-by-cell copy of a scalar buffer.
#[verifier::loop_isolation(false)]
pub fn clone_col(v: &Col) -> (r: Col)
    ensures
        r@.len() == v@.len(),
        views_of(r@) == views_of(v@),
{
    let mut out: Vec<Scalar> = Vec::new();
    let mut i: usize = 0;
    while i < v.len()
        invariant
            i <= v@.len(),
            out@.len() == i,
            forall|j: int| 0 <= j < i ==> (#[trigger] out@[j])@ == v@[j]@,
        decreases v@.len() - i,
    {
        out.push(v[i].clone());
        i = i + 1;
    }
    proof {
        assert forall|j: int| 0 <= j < v@.len() implies views_of(out@)[j] == views_of(v@)[j] by {
            assert(out@[j]@ == v@[j]@);
        }
        assert(views_of(out@) =~= views_of(v@));
    }
    out
}

/// The `(column count, row count)` shape a list of buffers describes: under
/// `Layout::Col` each buffer is one column, under `Layout::Row` one row.
fn size_rel(of: &[Col], layout: Layout) -> (shape: (usize, usize))
    ensures
        layout == Layout::Col ==> shape.0 == of@.len() && shape.1 == (if of@.len() > 0 {
            of@[0]@.len() as int
        } else {
            0
        }),
        layout == Layout::Row ==> shape.1 == of@.len() && shape.0 == (if of@.len() > 0 {
            of@[0]@.len() as int
        } else {
            0
        }),
{
    if layout == Layout::Col {
        let cols = of.len();
        if cols > 0 {
            (cols, of[0].len())
        } else {
            (0, 0)
        }
    } else {
        let rows = of.len();
        if rows > 0 {
            (of[0].len(), rows)
        } else {
            (0, 0)
        }
    }
}

/// The views of a list of row buffers, row by row.
pub open spec fn rows_view(of: Seq<Col>) -> Seq<Seq<ScalarV>> {
    Seq::new(of.len(), |i: int| views_of(of[i]@))
}

/// A flat buffer holding the given rows under the given layout.
#[verifier::loop_isolation(false)]
pub(crate) fn raw_from_rows(layout: Layout, cols: usize, rows: usize, of: &[Col]) -> (r: Col)
    requires
        of@.len() == rows,
        forall|i: int| 0 <= i < rows ==> (#[trigger] of@[i])@.len() == cols,
        cols * rows <= usize::MAX,
    ensures
        r@.len() == cols * rows,
        grid_of(layout, cols as nat, rows as nat, views_of(r@)) == rows_view(of@),
{
    let ghost cols_i = cols as int;
    let ghost rows_i = rows as int;
    let mut buf = nulls(cols * rows);
    let mut r: usize = 0;
    while r < rows
        invariant
            r <= rows,
            buf@.len() == cols * rows,
            forall|r2: int, c: int|
                0 <= r2 < r && 0 <= c < cols ==> views_of(buf@)[spec_index(
                    layout,
                    cols_i,
                    rows_i,
                    r2,
                    c,
                )] == views_of(of@[r2]@)[c],
        decreases rows - r,
    {
        let one = clone_col(&of[r]);
        proof {
            assert(one@.len() == of@[r as int]@.len());
        }
        write_row(&mut buf, &layout, cols, rows, r, one);
        r = r + 1;
    }
    proof {
        assert forall|r2: int, c: int| 0 <= r2 < rows && 0 <= c < cols implies grid_of(
            layout,
            cols as nat,
            rows as nat,
            views_of(buf@),
        )[r2][c] == rows_view(of@)[r2][c] by {
            lemma_index_bounds(layout, cols_i, rows_i, r2, c);
        }
        assert(grid_of(layout, cols as nat, rows as nat, views_of(buf@)) =~~= rows_view(of@));
    }
    buf
}

/// A materialized relation: a schema, a layout, the shape, and one flat
/// buffer holding every cell. Immutable once constructed: every operator
/// returns a new relation.
#[derive(Debug, PartialEq)]
pub struct Data {
    pub layout: Layout,
    pub cols: usize,
    pub rows: usize,
    pub names: Schema,
    pub ds: Col,
}

impl Data {
    /// The logical grid this relation holds: a sequence of rows.
    pub open spec fn grid(&self) -> Seq<Seq<ScalarV>> {
        grid_of(self.layout, self.cols as nat, self.rows as nat, views_of(self.ds@))
    }

    /// The structural invariant: the buffer holds exactly
    /// `column_count * row_count` cells, a relation without columns has no
    /// rows, and a nonzero column count equals the schema's width.
    pub open spec fn wf(&self) -> bool {
        &&& self.ds@.len() == self.cols * self.rows
        &&& (self.cols == 0 ==> self.rows == 0)
        &&& (self.cols != 0 ==> self.names@.len() == self.cols)
    }

    /// Construct from raw parts. The shape must describe the buffer, and a
    /// nonzero column count must equal the schema width.
    pub fn new(names: Schema, layout: Layout, cols: usize, rows: usize, data: Col) -> (r: Data)
        requires
            cols == 0 || cols == names@.len(),
            cols == 0 ==> rows == 0,
            data@.len() == cols * rows,
        ensures
            r.wf(),
            r.layout == layout,
            r.cols == cols,
            r.rows == rows,
            r.names@ == names@,
            r.ds == data,
            r.grid() == grid_of(layout, cols as nat, rows as nat, views_of(data@)),
    {
        Data { layout, cols, rows, names, ds: data }
    }

    /// The empty relation of a schema: no columns materialized, no rows.
    pub fn empty(names: Schema, layout: Layout) -> (r: Data)
        ensures
            r.wf(),
            r.layout == layout,
            r.cols == 0,
            r.rows == 0,
            r.names@ == names@,
            r.grid() == Seq::<Seq<ScalarV>>::empty(),
    {
        let data: Vec<Scalar> = Vec::new();
        let r = Data::new(names, layout, 0, 0, data);
        proof {
            assert(r.grid() =~~= Seq::<Seq<ScalarV>>::empty());
        }
        r
    }

    /// A 1x1 relation holding one scalar, under the single-column schema of
    /// the scalar's kind.
    pub fn new_scalar(data: Scalar) -> (r: Data)
        ensures
            r.wf(),
            r.layout == Layout::Col,
            r.cols == 1,
            r.rows == 1,
            r.names@.len() == 1,
            r.names@[0].kind == data.kind_spec(),
            r.grid() == seq![seq![data@]],
    {
        let kind = data.kind();
        let ghost dv = data@;
        let mut buf: Vec<Scalar> = Vec::new();
        buf.push(data);
        let r = Data::new(Schema::scalar_field(kind), Layout::Col, 1, 1, buf);
        proof {
            assert(r.grid() =~~= seq![seq![dv]]);
        }
        r
    }

    /// Build a column-major relation from a list of columns, all of one
    /// length.
    pub fn new_cols(names: Schema, of: &[Col]) -> (r: Data)
        requires
            forall|i: int| 0 <= i < of@.len() ==> (#[trigger] of@[i])@.len() == (of@[0])@.len(),
            of@.len() == 0 || of@.len() == names@.len(),
            of@.len() > 0 ==> of@.len() * of@[0]@.len() <= usize::MAX,
        ensures
            r.wf(),
            r.layout == Layout::Col,
            r.names@ == names@,
            r.cols == of@.len(),
            r.rows == (if of@.len() > 0 {
                of@[0]@.len() as int
            } else {
                0
            }),
            r.grid() == Seq::new(
                r.rows as nat,
                |rr: int| Seq::new(of@.len(), |cc: int| views_of(of@[cc]@)[rr]),
            ),
    {
        let (cols, rows) = size_rel(of, Layout::Col);
        // transpose the columns into rows, then fill one flat buffer
        let mut rows_data: Vec<Col> = Vec::new();
        let mut rr: usize = 0;
        while rr < rows
            invariant
                rr <= rows,
                cols == of@.len(),
                forall|i: int| 0 <= i < of@.len() ==> (#[trigger] of@[i])@.len() == rows,
                rows_data@.len() == rr,
                forall|i: int, c: int|
                    0 <= i < rr && 0 <= c < cols ==> (#[trigger] rows_data@[i]@[c])@
                        == of@[c]@[i]@,
                forall|i: int| 0 <= i < rr ==> (#[trigger] rows_data@[i])@.len() == cols,
            decreases rows - rr,
        {
            let mut one: Vec<Scalar> = Vec::new();
            let mut c: usize = 0;
            while c < cols
                invariant
                    c <= cols,
                    rr < rows,
                    cols == of@.len(),
                    forall|i: int| 0 <= i < of@.len() ==> (#[trigger] of@[i])@.len() == rows,
                    one@.len() == c,
                    forall|k: int| 0 <= k < c ==> (#[trigger] one@[k])@ == of@[k]@[rr as int]@,
                decreases cols - c,
            {
                one.push(of[c][rr].clone());
                c = c + 1;
            }
            rows_data.push(one);
            rr = rr + 1;
        }
        let buf = raw_from_rows(Layout::Col, cols, rows, rows_data.as_slice());
        let r = Data::new(names, Layout::Col, cols, rows, buf);
        proof {
            assert forall|i: int, c: int| 0 <= i < rows && 0 <= c < cols implies rows_view(
                rows_data@,
            )[i][c] == views_of(of@[c]@)[i] by {
                assert(rows_data@[i]@[c]@ == of@[c]@[i]@);
            }
            assert forall|i: int| 0 <= i < rows implies (#[trigger] rows_view(rows_data@)[i]).len()
                == cols by {
                assert(rows_data@[i]@.len() == cols);
            }
            assert(r.grid() =~~= Seq::new(
                rows as nat,
                |rr: int| Seq::new(of@.len(), |cc: int| views_of(of@[cc]@)[rr]),
            ));
        }
        r
    }

    /// Build a row-major relation from a list of rows, all of one length.
    pub fn new_rows(names: Schema, of: &[Col]) -> (r: Data)
        requires
            forall|i: int| 0 <= i < of@.len() ==> (#[trigger] of@[i])@.len() == (of@[0])@.len(),
            of@.len() > 0 ==> of@[0]@.len() == names@.len(),
            of@.len() > 0 ==> of@[0]@.len() > 0,
            of@.len() > 0 ==> of@[0]@.len() * of@.len() <= usize::MAX,
        ensures
            r.wf(),
            r.layout == Layout::Row,
            r.names@ == names@,
            r.rows == of@.len(),
            r.cols == (if of@.len() > 0 {
                of@[0]@.len() as int
            } else {
                0
            }),
            r.grid() == rows_view(of@),
    {
        let (cols, rows) = size_rel(of, Layout::Row);
        let buf = raw_from_rows(Layout::Row, cols, rows, of);
        let r = Data::new(names, Layout::Row, cols, rows, buf);
        proof {
            assert(r.grid() =~~= rows_view(of@));
        }
        r
    }

    /// The flat offset of logical cell `(row, col)` in this relation.
    pub fn index(&self, row: usize, col: usize) -> (i: usize)
        requires
            self.wf(),
            row < self.rows,
            col < self.cols,
        ensures
            i == spec_index(
                self.layout,
                self.cols as int,
                self.rows as int,
                row as int,
                col as int,
            ),
            i < self.ds@.len(),
    {
        let n = self.ds.len();
        proof {
            assert(n == self.cols * self.rows);
        }
        index(&self.layout, self.cols, self.rows, row, col)
    }

    /// A copy of one row, cell by cell.
    #[verifier::loop_isolation(false)]
    pub fn row_copy(&self, pos: usize) -> (r: Col)
        requires
            self.wf(),
            pos < self.rows,
        ensures
            views_of(r@) == self.grid()[pos as int],
    {
        let mut out: Vec<Scalar> = Vec::new();
        let mut c: usize = 0;
        while c < self.cols
            invariant
                c <= self.cols,
                out@.len() == c,
                forall|k: int| 0 <= k < c ==> (#[trigger] out@[k])@ == self.grid()[pos as int][k],
            decreases self.cols - c,
        {
            let i = self.index(pos, c);
            out.push(self.ds[i].clone());
            c = c + 1;
        }
        proof {
            let ghost grow = self.grid()[pos as int];
            assert forall|k: int| 0 <= k < self.cols implies views_of(out@)[k] == grow[k] by {
                assert(out@[k]@ == self.grid()[pos as int][k]);
            }
            assert(views_of(out@) =~= self.grid()[pos as int]);
        }
        out
    }

    /// A copy of one column, cell by cell.
    #[verifier::loop_isolation(false)]
    pub fn col_copy(&self, pos: usize) -> (r: Col)
        requires
            self.wf(),
            pos < self.cols,
        ensures
            views_of(r@) == Seq::new(
                self.rows as nat,
                |rr: int| self.grid()[rr][pos as int],
            ),
    {
        let mut out: Vec<Scalar> = Vec::new();
        let mut rr: usize = 0;
        while rr < self.rows
            invariant
                rr <= self.rows,
                out@.len() == rr,
                forall|k: int| 0 <= k < rr ==> (#[trigger] out@[k])@ == self.grid()[k][pos as int],
            decreases self.rows - rr,
        {
            let v = self.value_owned(rr, pos);
            let c = v.clone();
            out.push(c);
            rr = rr + 1;
        }
        proof {
            assert forall|k: int| 0 <= k < self.rows implies views_of(out@)[k] == self.grid()[k][pos as int] by {
                assert(out@[k]@ == self.grid()[k][pos as int]);
            }
            assert(views_of(out@) =~= Seq::new(
                self.rows as nat,
                |k: int| self.grid()[k][pos as int],
            ));
        }
        out
    }

    /// One column of a column-major relation as a contiguous slice of the
    /// buffer.
    pub fn col_slice(&self, pos: usize) -> (r: &[Scalar])
        requires
            self.wf(),
            self.layout == Layout::Col,
            pos < self.cols,
        ensures
            views_of(r@) == Seq::new(self.rows as nat, |rr: int| self.grid()[rr][pos as int]),
    {
        let n = self.ds.len();
        proof {
            assert(n == self.cols * self.rows);
            assert((pos + 1) * self.rows <= self.cols * self.rows) by (nonlinear_arith)
                requires
                    pos < self.cols,
                    0 <= self.rows,
            ;
            assert(pos * self.rows + self.rows == (pos + 1) * self.rows) by (nonlinear_arith);
            assert(pos * self.rows >= 0) by (nonlinear_arith)
                requires
                    0 <= pos,
                    0 <= self.rows,
            ;
        }
        let start = pos * self.rows;
        let end = start + self.rows;
        let r = vstd::slice::slice_subrange(self.ds.as_slice(), start, end);
        proof {
            assert forall|rr: int| 0 <= rr < self.rows implies views_of(r@)[rr] == self.grid()[rr][pos as int] by {
                assert(r@[rr] == self.ds@[pos * self.rows + rr]);
            }
            assert(views_of(r@) =~= Seq::new(
                self.rows as nat,
                |rr: int| self.grid()[rr][pos as int],
            ));
        }
        r
    }

    /// A reference to the cell at `(row, col)`.
    pub fn value_owned(&self, row: usize, col: usize) -> (v: &Scalar)
        requires
            self.wf(),
            row < self.rows,
            col < self.cols,
        ensures
            v@ == self.grid()[row as int][col as int],
    {
        let i = self.index(row, col);
        &self.ds[i]
    }
}

impl Clone for Data {
    fn clone(&self) -> (r: Self)
        ensures
            r.layout == self.layout,
            r.cols == self.cols,
            r.rows == self.rows,
            r.names@ == self.names@,
            views_of(r.ds@) == views_of(self.ds@),
            r.grid() == self.grid(),
            self.wf() ==> r.wf(),
    {
        Data {
            layout: self.layout,
            cols: self.cols,
            rows: self.rows,
            names: self.names.clone(),
            ds: clone_col(&self.ds),
        }
    }
}

/// 64-bit hash of a sequence of scalars; a pure function of the views.
#[verifier::loop_isolation(false)]
pub fn hash_column(vec: Col) -> (r: u64)
    ensures
        r == hash_row_spec(views_of(vec@)),
{
    let ghost vv = views_of(vec@);
    let mut acc: u64 = FNV_OFFSET;
    let mut i: usize = 0;
    proof {
        assert(vv.skip(0) =~= vv);
    }
    while i < vec.len()
        invariant
            i <= vec@.len(),
            crate::scalars::hash_tuple_v(FNV_OFFSET, vv) == crate::scalars::hash_tuple_v(
                acc,
                vv.skip(i as int),
            ),
        decreases vec@.len() - i,
    {
        proof {
            assert(vv.skip(i as int)[0] == vv[i as int]);
            assert(vv.skip(i as int).drop_first() =~= vv.skip(i as int + 1));
        }
        acc = hash_scalar(acc, &vec[i]);
        i = i + 1;
    }
    proof {
        assert(vv.skip(vec@.len() as int) =~= Seq::<ScalarV>::empty());
    }
    acc
}

/// A native value that lifts into the engine's scalar union.
pub trait ToScalar: Sized {
    /// The scalar value this lifts to.
    spec fn to_scalar_spec(&self) -> ScalarV;

    /// Lift into a scalar.
    fn to_scalar(&self) -> (r: Scalar)
        ensures
            r@ == self.to_scalar_spec(),
    ;
}

impl ToScalar for i32 {
    open spec fn to_scalar_spec(&self) -> ScalarV {
        ScalarV::I32(*self)
    }

    fn to_scalar(&self) -> (r: Scalar)
        ensures
            r@ == self.to_scalar_spec(),
    {
        Scalar::I32(*self)
    }
}

impl ToScalar for i64 {
    open spec fn to_scalar_spec(&self) -> ScalarV {
        ScalarV::I64(*self)
    }

    fn to_scalar(&self) -> (r: Scalar)
        ensures
            r@ == self.to_scalar_spec(),
    {
        Scalar::I64(*self)
    }
}

impl ToScalar for isize {
    open spec fn to_scalar_spec(&self) -> ScalarV {
        ScalarV::ISize(*self)
    }

    fn to_scalar(&self) -> (r: Scalar)
        ensures
            r@ == self.to_scalar_spec(),
    {
        Scalar::ISize(*self)
    }
}

impl ToScalar for bool {
    open spec fn to_scalar_spec(&self) -> ScalarV {
        ScalarV::Bool(*self)
    }

    fn to_scalar(&self) -> (r: Scalar)
        ensures
            r@ == self.to_scalar_spec(),
    {
        Scalar::Bool(*self)
    }
}

impl ToScalar for String {
    open spec fn to_scalar_spec(&self) -> ScalarV {
        ScalarV::Text(self@)
    }

    fn to_scalar(&self) -> (r: Scalar)
        ensures
            r@ == self.to_scalar_spec(),
    {
        Scalar::UTF8(self.clone())
    }
}

impl ToScalar for Scalar {
    open spec fn to_scalar_spec(&self) -> ScalarV {
        self@
    }

    fn to_scalar(&self) -> (r: Scalar)
        ensures
            r@ == self.to_scalar_spec(),
    {
        self.clone()
    }
}

/// Lift one native value into a scalar.
pub fn value<T: ToScalar>(x: T) -> (r: Scalar)
    ensures
        r@ == x.to_scalar_spec(),
{
    x.to_scalar()
}

/// The absence marker: the relational null.
pub fn none() -> (r: Scalar)
    ensures
        r@ == ScalarV::Null,
{
    Scalar::Null
}

/// A column reference by position.
pub fn colp(pos: usize) -> (r: ColumnName)
    ensures
        r@ == crate::schema::ColumnNameV::Pos(pos),
{
    ColumnName::Pos(pos)
}

/// A column reference by name.
pub fn coln(name: &str) -> (r: ColumnName)
    ensures
        r@ == crate::schema::ColumnNameV::Name(name@),
{
    ColumnName::Name(name.to_owned())
}

/// The kind of a buffer's first scalar; the null kind for an empty buffer.
pub fn infer_type(of: &[Scalar]) -> (k: DataType)
    ensures
        of@.len() > 0 ==> k == of@[0].kind_spec(),
        of@.len() == 0 ==> k == DataType::Null,
{
    if of.len() > 0 {
        of[0].kind()
    } else {
        DataType::Null
    }
}

/// The kind of each scalar in a buffer.
#[verifier::loop_isolation(false)]
pub fn infer_types(of: &[Scalar]) -> (r: Vec<DataType>)
    ensures
        r@.len() == of@.len(),
        forall|i: int| 0 <= i < of@.len() ==> (#[trigger] r@[i]) == of@[i].kind_spec(),
{
    let mut out: Vec<DataType> = Vec::new();
    let mut i: usize = 0;
    while i < of.len()
        invariant
            i <= of@.len(),
            out@.len() == i,
            forall|j: int| 0 <= j < i ==> (#[trigger] out@[j]) == of@[j].kind_spec(),
        decreases of@.len() - i,
    {
        out.push(of[i].kind());
        i = i + 1;
    }
    out
}

/// Lift a slice of native values into a column of scalars.
#[verifier::loop_isolation(false)]
pub fn col<T: ToScalar>(x: &[T]) -> (r: Vec<Scalar>)
    ensures
        r@.len() == x@.len(),
        forall|i: int| 0 <= i < x@.len() ==> views_of(r@)[i] == x@[i].to_scalar_spec(),
{
    let mut out: Vec<Scalar> = Vec::new();
    let mut i: usize = 0;
    while i < x.len()
        invariant
            i <= x@.len(),
            out@.len() == i,
            forall|j: int| 0 <= j < i ==> (#[trigger] out@[j])@ == x@[j].to_scalar_spec(),
        decreases x@.len() - i,
    {
        out.push(x[i].to_scalar());
        i = i + 1;
    }
    proof {
        assert forall|i: int| 0 <= i < x@.len() implies views_of(out@)[i]
            == x@[i].to_scalar_spec() by {
            assert(out@[i]@ == x@[i].to_scalar_spec());
        }
    }
    out
}

/// One schema field.
pub fn field(name: &str, kind: DataType) -> (f: Field)
    ensures
        f@.name == name@,
        f@.kind == kind,
{
    Field::new(name, kind)
}

/// A schema of one field.
pub fn schema_single(name: &str, kind: DataType) -> (s: Schema)
    ensures
        s@.len() == 1,
        s@[0].name == name@,
        s@[0].kind == kind,
{
    Schema::new_single(name, kind)
}

/// A schema from `(name, kind)` pairs.
#[verifier::loop_isolation(false)]
pub fn schema(names: &[(&str, DataType)]) -> (s: Schema)
    ensures
        s@.len() == names@.len(),
        forall|i: int|
            0 <= i < names@.len() ==> (#[trigger] s@[i]).name == names@[i].0@ && s@[i].kind
                == names@[i].1,
{
    let mut fields: Vec<Field> = Vec::new();
    let mut i: usize = 0;
    while i < names.len()
        invariant
            i <= names@.len(),
            fields@.len() == i,
            forall|j: int|
                0 <= j < i ==> (#[trigger] fields@[j])@.name == names@[j].0@ && fields@[j]@.kind
                    == names@[j].1,
        decreases names@.len() - i,
    {
        let (name, kind) = names[i];
        fields.push(Field::new(name, kind));
        i = i + 1;
    }
    Schema::new(fields)
}

/// A one-column relation of the given name, kind and values.
pub fn rcol_t<T: ToScalar>(name: &str, kind: DataType, of: &[T]) -> (r: Data)
    ensures
        r.wf(),
        r.layout == Layout::Col,
        r.names@.len() == 1,
        r.names@[0].name == name@,
        r.names@[0].kind == kind,
        r.rows == of@.len(),
        r.cols == 1,
        r.grid() == Seq::new(of@.len(), |i: int| seq![x_spec::<T>(of@, i)]),
{
    let data = col(of);
    let dn = data.len();
    let mut cols_v: Vec<Col> = Vec::new();
    cols_v.push(data);
    proof {
        assert(1 * (dn as int) == dn as int);
    }
    let r = Data::new_cols(schema_single(name, kind), cols_v.as_slice());
    proof {
        assert(r.grid() =~~= Seq::new(of@.len(), |i: int| seq![x_spec::<T>(of@, i)]));
    }
    r
}

/// The scalar value of the `i`-th element of a native slice.
pub open spec fn x_spec<T: ToScalar>(of: Seq<T>, i: int) -> ScalarV {
    of[i].to_scalar_spec()
}

/// A one-column relation whose kind is inferred from the first value.
pub fn rcol<T: ToScalar>(name: &str, of: &[T]) -> (r: Data)
    ensures
        r.wf(),
        r.layout == Layout::Col,
        r.names@.len() == 1,
        r.names@[0].name == name@,
        r.rows == of@.len(),
        r.cols == 1,
        r.grid() == Seq::new(of@.len(), |i: int| seq![x_spec::<T>(of@, i)]),
{
    let data = col(of);
    let kind = infer_type(data.as_slice());
    let dn = data.len();
    let mut cols_v: Vec<Col> = Vec::new();
    cols_v.push(data);
    proof {
        assert(1 * (dn as int) == dn as int);
    }
    let r = Data::new_cols(schema_single(name, kind), cols_v.as_slice());
    proof {
        assert(r.grid() =~~= Seq::new(of@.len(), |i: int| seq![x_spec::<T>(of@, i)]));
    }
    r
}

/// A one-column relation under the default column name.
pub fn array<T: ToScalar>(of: &[T]) -> (r: Data)
    ensures
        r.wf(),
        r.layout == Layout::Col,
        r.names@.len() == 1,
        r.names@[0].name == "it"@,
        r.rows == of@.len(),
        r.cols == 1,
        r.grid() == Seq::new(of@.len(), |i: int| seq![x_spec::<T>(of@, i)]),
{
    rcol("it", of)
}

/// A one-column relation of the given kind under the default column name.
pub fn array_t<T: ToScalar>(kind: DataType, of: &[T]) -> (r: Data)
    ensures
        r.wf(),
        r.layout == Layout::Col,
        r.names@.len() == 1,
        r.names@[0].name == "it"@,
        r.names@[0].kind == kind,
        r.rows == of@.len(),
        r.cols == 1,
        r.grid() == Seq::new(of@.len(), |i: int| seq![x_spec::<T>(of@, i)]),
{
    rcol_t("it", kind, of)
}

/// The empty one-kind array relation.
pub fn array_empty(kind: DataType) -> (r: Data)
    ensures
        r.wf(),
        r.rows == 0,
        r.grid() == Seq::<Seq<ScalarV>>::empty(),
        r.names@.len() == 1,
        r.names@[0].kind == kind,
{
    Data::empty(Schema::scalar_field(kind), Layout::Col)
}

/// A one-row relation over the given schema.
pub fn row<T: ToScalar>(names: Schema, of: &[T]) -> (r: Data)
    requires
        of@.len() == names@.len(),
        of@.len() > 0,
    ensures
        r.wf(),
        r.layout == Layout::Row,
        r.names@ == names@,
        r.rows == 1,
        r.cols == of@.len(),
        r.grid() == seq![Seq::new(of@.len(), |i: int| x_spec::<T>(of@, i))],
{
    let data = col(of);
    let dn = data.len();
    let mut rows_v: Vec<Col> = Vec::new();
    rows_v.push(data);
    proof {
        assert((dn as int) * 1 == dn as int);
    }
    let r = Data::new_rows(names, rows_v.as_slice());
    proof {
        assert(r.grid() =~~= seq![Seq::new(of@.len(), |i: int| x_spec::<T>(of@, i))]);
    }
    r
}

/// A one-row relation whose schema is inferred from the values.
pub fn row_infer<T: ToScalar>(of: &[T]) -> (r: Data)
    requires
        of@.len() > 0,
    ensures
        r.wf(),
        r.layout == Layout::Row,
        r.rows == 1,
        r.cols == of@.len(),
        r.names@.len() == of@.len(),
        r.grid() == seq![Seq::new(of@.len(), |i: int| x_spec::<T>(of@, i))],
{
    let data = col(of);
    let types = infer_types(data.as_slice());
    let names = Schema::generate(types.as_slice());
    let dn = data.len();
    let mut rows_v: Vec<Col> = Vec::new();
    rows_v.push(data);
    proof {
        assert((dn as int) * 1 == dn as int);
    }
    let r = Data::new_rows(names, rows_v.as_slice());
    proof {
        assert(r.grid() =~~= seq![Seq::new(of@.len(), |i: int| x_spec::<T>(of@, i))]);
    }
    r
}

/// A column-major relation from columns, with a schema inferred from each
/// column's first value.
#[verifier::loop_isolation(false)]
pub fn table_cols_infer(of: &[Col]) -> (r: Data)
    requires
        forall|i: int| 0 <= i < of@.len() ==> (#[trigger] of@[i])@.len() == (of@[0])@.len(),
        of@.len() > 0 ==> of@.len() * of@[0]@.len() <= usize::MAX,
    ensures
        r.wf(),
        r.layout == Layout::Col,
        r.names@.len() == of@.len(),
        r.cols == of@.len(),
        r.rows == (if of@.len() > 0 {
            of@[0]@.len() as int
        } else {
            0
        }),
        r.grid() == Seq::new(
            r.rows as nat,
            |rr: int| Seq::new(of@.len(), |cc: int| views_of(of@[cc]@)[rr]),
        ),
{
    let mut types: Vec<DataType> = Vec::new();
    let mut i: usize = 0;
    while i < of.len()
        invariant
            i <= of@.len(),
            types@.len() == i,
        decreases of@.len() - i,
    {
        types.push(infer_type(of[i].as_slice()));
        i = i + 1;
    }
    let names = Schema::generate(types.as_slice());
    Data::new_cols(names, of)
}

/// Each scalar of a buffer as its own one-cell column.
#[verifier::loop_isolation(false)]
pub fn vec_to_cols(of: &[Scalar]) -> (r: Vec<Col>)
    ensures
        r@.len() == of@.len(),
        forall|i: int| 0 <= i < of@.len() ==> (#[trigger] r@[i])@.len() == 1,
        forall|i: int| 0 <= i < of@.len() ==> (#[trigger] r@[i])@[0]@ == of@[i]@,
{
    let mut out: Vec<Col> = Vec::new();
    let mut i: usize = 0;
    while i < of.len()
        invariant
            i <= of@.len(),
            out@.len() == i,
            forall|j: int| 0 <= j < i ==> (#[trigger] out@[j])@.len() == 1,
            forall|j: int| 0 <= j < i ==> (#[trigger] out@[j])@[0]@ == of@[j]@,
        decreases of@.len() - i,
    {
        let mut one: Vec<Scalar> = Vec::new();
        one.push(of[i].clone());
        out.push(one);
        i = i + 1;
    }
    out
}

/// A column-major relation from a schema and columns.
pub fn table_cols(names: Schema, of: &[Col]) -> (r: Data)
    requires
        forall|i: int| 0 <= i < of@.len() ==> (#[trigger] of@[i])@.len() == (of@[0])@.len(),
        of@.len() == 0 || of@.len() == names@.len(),
        of@.len() > 0 ==> of@.len() * of@[0]@.len() <= usize::MAX,
    ensures
        r.wf(),
        r.layout == Layout::Col,
        r.names@ == names@,
        r.cols == of@.len(),
        r.rows == (if of@.len() > 0 {
            of@[0]@.len() as int
        } else {
            0
        }),
        r.grid() == Seq::new(
            r.rows as nat,
            |rr: int| Seq::new(of@.len(), |cc: int| views_of(of@[cc]@)[rr]),
        ),
{
    Data::new_cols(names, of)
}

/// A sequential row iterator over a materialized relation: yields each row
/// in order, as a copy.
pub struct RowIter {
    pub pos: usize,
    pub data: Data,
}

impl RowIter {
    pub fn new(data: Data) -> (r: RowIter)
        ensures
            r.pos == 0,
            r.data == data,
    {
        RowIter { pos: 0, data }
    }

    /// The next row, or nothing once every row has been yielded.
    pub fn next(&mut self) -> (r: Option<Col>)
        requires
            old(self).data.wf(),
        ensures
            final(self).data == old(self).data,
            old(self).pos < old(self).data.rows ==> final(self).pos == old(self).pos + 1
                && r is Some && views_of(r->0@) == old(self).data.grid()[old(self).pos as int],
            old(self).pos >= old(self).data.rows ==> final(self).pos == old(self).pos
                && r is None,
    {
        if self.pos < self.data.rows {
            let row = self.data.row_copy(self.pos);
            self.pos = self.pos + 1;
            Some(row)
        } else {
            None
        }
    }
}

} // verus!
