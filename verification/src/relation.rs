//! The relation capability contract: any relation kind that supplies the
//! primitive accessors gains the whole derived algebra — projection,
//! renaming, filtering, set operations, joins, concatenation and cross
//! product — through the generic operators of this module.

use vstd::prelude::*;
use std::collections::HashMap;
use crate::scalars::{
    Scalar,
    ScalarV,
    CmpOp,
    spec_cmp,
    apply_cmp,
    views_of,
    hash_row_spec,
    DataType,
};
use crate::schema::{Schema, ColumnName, ColumnNameV, FieldV, resolves, resolve_spec, contains_name};
use crate::types::{
    Col,
    Pos,
    Layout,
    Data,
    grid_of,
    rows_view,
    clone_col,
    raw_from_rows,
    hash_column,
};

verus! {

/// A half-open scan window `[start, last)` over row positions.
pub struct Cursor {
    start: usize,
    last: usize,
}

impl Cursor {
    /// The next position this cursor will yield.
    pub closed spec fn start_spec(&self) -> usize {
        self.start
    }

    /// The exclusive upper bound of the scan.
    pub closed spec fn last_spec(&self) -> usize {
        self.last
    }

    pub fn new(start: usize, last: usize) -> (c: Cursor)
        ensures
            c.start_spec() == start,
            c.last_spec() == last,
    {
        Cursor { last, start }
    }

    pub fn set(&mut self, pos: usize)
        ensures
            final(self).start_spec() == pos,
            final(self).last_spec() == old(self).last_spec(),
    {
        self.start = pos;
    }

    /// Step past the current position.
    pub fn next(&mut self)
        requires
            old(self).start_spec() < usize::MAX,
        ensures
            final(self).start_spec() == old(self).start_spec() + 1,
            final(self).last_spec() == old(self).last_spec(),
    {
        let pos = self.start;
        self.set(pos + 1)
    }

    /// Whether the window is exhausted.
    pub fn eof(&self) -> (b: bool)
        ensures
            b == (self.start_spec() >= self.last_spec()),
    {
        self.start >= self.last
    }
}

/// The kind of a generalized join, by which unmatched sides survive.
#[derive(Clone, Copy, Debug, PartialEq, Eq, Structural)]
pub enum Join {
    Inner,
    Left,
    Right,
    Full,
}

impl Join {
    /// Whether unmatched rows of the given side (`true` for the left
    /// operand) appear in the result, padded with nulls on the other side.
    pub open spec fn produce_null_spec(&self, left: bool) -> bool {
        match self {
            Join::Inner => false,
            Join::Left => left,
            Join::Right => !left,
            Join::Full => true,
        }
    }

    pub fn produce_null(&self, left: bool) -> (b: bool)
        ensures
            b == self.produce_null_spec(left),
    {
        match self {
            Join::Inner => false,
            Join::Left => left,
            Join::Right => !left,
            Join::Full => true,
        }
    }
}

/// A projected join key: one side's join-column scalars and their kind.
#[derive(Debug)]
pub struct JoinClause<'a> {
    pub rel: &'a [Scalar],
    pub kind: DataType,
}

/// The capability contract's read side: the primitive accessors every
/// relation kind supplies, together with its mathematical model — a schema,
/// a layout, a column count and a grid of rows. Every derived operator of
/// this module is written against these primitives alone.
pub trait Relation: Sized {
    /// The schema of this relation.
    spec fn sch(&self) -> Seq<FieldV>;

    /// The rows this relation holds, each a sequence of scalar values.
    spec fn grid(&self) -> Seq<Seq<ScalarV>>;

    /// The physical layout the relation reports.
    spec fn layout_spec(&self) -> Layout;

    /// The number of materialized columns.
    spec fn width(&self) -> nat;

    /// The structural invariant of this relation kind.
    spec fn wf(&self) -> bool;

    /// What the invariant guarantees of the model: a relation without
    /// columns has no rows, a nonzero column count equals the schema width,
    /// every row has exactly `width` cells, and the shape fits in memory.
    proof fn wf_facts(&self)
        requires
            self.wf(),
        ensures
            self.width() == 0 ==> self.grid().len() == 0,
            self.width() != 0 ==> self.width() == self.sch().len(),
            forall|r: int|
                0 <= r < self.grid().len() ==> (#[trigger] self.grid()[r]).len() == self.width(),
            self.grid().len() * self.width() <= usize::MAX,
            self.grid().len() <= usize::MAX,
            self.sch().len() <= usize::MAX,
    ;

    fn layout(&self) -> (l: Layout)
        requires
            self.wf(),
        ensures
            l == self.layout_spec(),
    ;

    fn names(&self) -> (s: &Schema)
        requires
            self.wf(),
        ensures
            s@ == self.sch(),
    ;

    fn row_count(&self) -> (n: usize)
        requires
            self.wf(),
        ensures
            n == self.grid().len(),
    ;

    fn col_count(&self) -> (n: usize)
        requires
            self.wf(),
        ensures
            n == self.width(),
    ;

    fn row(&self, pos: usize) -> (r: Col)
        requires
            self.wf(),
            pos < self.grid().len(),
        ensures
            views_of(r@) == self.grid()[pos as int],
            r@.len() == self.grid()[pos as int].len(),
    ;

    fn col(&self, pos: usize) -> (c: Col)
        requires
            self.wf(),
            pos < self.width(),
        ensures
            views_of(c@) == Seq::new(self.grid().len(), |rr: int| self.grid()[rr][pos as int]),
    ;

    fn value(&self, row: usize, col: usize) -> (v: Scalar)
        requires
            self.wf(),
            row < self.grid().len(),
            col < self.width(),
        ensures
            v@ == self.grid()[row as int][col as int],
    ;
}

/// The capability contract's construction side: how a materializable
/// relation kind is built. The generated kind reads through `Relation` but
/// does not construct arbitrary contents, so construction stands apart.
pub trait RelationBuilder: Relation {
    fn empty(names: Schema) -> (r: Self)
        ensures
            r.wf(),
            r.sch() == names@,
            r.grid() == Seq::<Seq<ScalarV>>::empty(),
            r.width() == 0,
    ;

    fn from_raw(names: Schema, layout: Layout, cols: usize, rows: usize, of: Col) -> (r: Self)
        requires
            cols == 0 || cols == names@.len(),
            cols == 0 ==> rows == 0,
            of@.len() == cols * rows,
        ensures
            r.wf(),
            r.sch() == names@,
            r.layout_spec() == layout,
            r.width() == cols,
            r.grid() == grid_of(layout, cols as nat, rows as nat, views_of(of@)),
    ;

    fn new(names: Schema, of: &[Col]) -> (r: Self)
        requires
            forall|i: int| 0 <= i < of@.len() ==> (#[trigger] of@[i])@.len() == (of@[0])@.len(),
            of@.len() > 0 ==> of@[0]@.len() == names@.len(),
            of@.len() > 0 ==> of@[0]@.len() > 0,
            of@.len() > 0 ==> of@[0]@.len() * of@.len() <= usize::MAX,
        ensures
            r.wf(),
            r.sch() == names@,
            r.grid() == rows_view(of@),
    ;
}

impl Relation for Data {
    open spec fn sch(&self) -> Seq<FieldV> {
        self.names@
    }

    open spec fn grid(&self) -> Seq<Seq<ScalarV>> {
        Data::grid(self)
    }

    open spec fn layout_spec(&self) -> Layout {
        self.layout
    }

    open spec fn width(&self) -> nat {
        self.cols as nat
    }

    open spec fn wf(&self) -> bool {
        Data::wf(self)
    }

    proof fn wf_facts(&self) {
        assert(vstd::std_specs::vec::spec_vec_len(&self.ds) == self.ds@.len()) by {
            broadcast use vstd::std_specs::vec::axiom_spec_len;

        }
        assert(vstd::std_specs::vec::spec_vec_len(&self.names.columns) == self.names.columns@.len())
            by {
            broadcast use vstd::std_specs::vec::axiom_spec_len;

        }
        if self.rows > 0 {
            assert(self.grid().len() * self.width() == self.cols * self.rows) by (nonlinear_arith)
                requires
                    self.grid().len() == self.rows,
                    self.width() == self.cols,
            ;
        } else {
            assert(self.grid().len() * self.width() == 0) by (nonlinear_arith)
                requires
                    self.grid().len() == 0,
            ;
        }
    }

    fn layout(&self) -> Layout {
        self.layout
    }

    fn names(&self) -> &Schema {
        &self.names
    }

    fn row_count(&self) -> usize {
        self.rows
    }

    fn col_count(&self) -> usize {
        self.cols
    }

    fn row(&self, pos: usize) -> Col {
        self.row_copy(pos)
    }

    fn col(&self, pos: usize) -> Col {
        if self.layout == Layout::Col {
            let s = self.col_slice(pos);
            let r = clone_col_slice(s);
            r
        } else {
            self.col_copy(pos)
        }
    }

    fn value(&self, row: usize, col: usize) -> Scalar {
        let v = self.value_owned(row, col);
        v.clone()
    }
}

impl RelationBuilder for Data {
    fn empty(names: Schema) -> Data {
        Data::empty(names, Layout::Col)
    }

    fn from_raw(names: Schema, layout: Layout, cols: usize, rows: usize, of: Col) -> Data {
        Data::new(names, layout, cols, rows, of)
    }

    fn new(names: Schema, of: &[Col]) -> Data {
        let r = Data::new_rows(names, of);
        proof {
            assert(Relation::grid(&r) =~~= rows_view(of@));
        }
        r
    }
}

/// A cell-by-cell copy of a borrowed slice of scalars.
#[verifier::loop_isolation(false)]
fn clone_col_slice(v: &[Scalar]) -> (r: Col)
    ensures
        r@.len() == v@.len(),
        views_of(r@) == views_of(v@),
{
    let mut out: Vec<Scalar> = Vec::new();
    let mut i: usize = 0;
    while i < v.len()
        invariant
            i <= v@.len(),
            out@.len() == i,
            forall|j: int| 0 <= j < i ==> (#[trigger] out@[j])@ == v@[j]@,
        decreases v@.len() - i,
    {
        let c = v[i].clone();
        out.push(c);
        i = i + 1;
    }
    proof {
        assert forall|j: int| 0 <= j < v@.len() implies views_of(out@)[j] == views_of(v@)[j] by {
            assert(out@[j]@ == v@[j]@);
        }
        assert(views_of(out@) =~= views_of(v@));
    }
    out
}

/// Every row of a relation, in order.
#[verifier::loop_isolation(false)]
pub fn rows<T: Relation>(of: &T) -> (r: Vec<Col>)
    requires
        of.wf(),
    ensures
        r@.len() == of.grid().len(),
        rows_view(r@) == of.grid(),
        forall|i: int| 0 <= i < r@.len() ==> (#[trigger] r@[i])@.len() == of.width(),
{
    proof {
        of.wf_facts();
    }
    let total = of.row_count();
    let mut out: Vec<Col> = Vec::new();
    let mut i: usize = 0;
    while i < total
        invariant
            i <= total,
            out@.len() == i,
            forall|j: int| 0 <= j < i ==> views_of((#[trigger] out@[j])@) == of.grid()[j],
            forall|j: int| 0 <= j < i ==> (#[trigger] out@[j])@.len() == of.width(),
        decreases total - i,
    {
        let one = of.row(i);
        proof {
            assert(one@.len() == of.grid()[i as int].len());
        }
        out.push(one);
        i = i + 1;
    }
    proof {
        assert forall|j: int| 0 <= j < total implies rows_view(out@)[j] == of.grid()[j] by {
            assert(views_of(out@[j]@) == of.grid()[j]);
        }
        assert(rows_view(out@) =~= of.grid());
    }
    out
}

/// Re-project the whole relation into one flat buffer under the requested
/// layout. Reading the buffer back through the addressing formula under that
/// layout reproduces the relation's grid: the layout round-trip.
pub fn flat_raw<T: Relation>(of: &T, layout: &Layout) -> (r: Col)
    requires
        of.wf(),
    ensures
        r@.len() == of.width() * of.grid().len(),
        grid_of(*layout, of.width(), of.grid().len() as nat, views_of(r@)) == of.grid(),
{
    proof {
        of.wf_facts();
        assert(of.width() * of.grid().len() == of.grid().len() * of.width()) by (nonlinear_arith);
    }
    let rows_data = rows(of);
    let cols = of.col_count();
    let n = of.row_count();
    let buf = raw_from_rows(*layout, cols, n, rows_data.as_slice());
    proof {
        assert(grid_of(*layout, of.width(), of.grid().len() as nat, views_of(buf@)) == rows_view(
            rows_data@,
        ));
    }
    buf
}

/// The rows of a grid projected to the given column positions, in request
/// order.
pub open spec fn project(g: Seq<Seq<ScalarV>>, pick: Seq<usize>) -> Seq<Seq<ScalarV>> {
    Seq::new(g.len(), |i: int| project_row(g[i], pick))
}

/// One row projected to the given column positions.
pub open spec fn project_row(row: Seq<ScalarV>, pick: Seq<usize>) -> Seq<ScalarV> {
    Seq::new(pick.len(), |k: int| row[pick[k] as int])
}

/// Every row re-packed to only the picked column positions, in request order.
#[verifier::loop_isolation(false)]
pub fn rows_pos<T: Relation>(of: &T, pick: Pos) -> (r: Vec<Col>)
    requires
        of.wf(),
        of.grid().len() > 0 ==> forall|k: int|
            0 <= k < pick@.len() ==> (#[trigger] pick@[k]) < of.width(),
    ensures
        r@.len() == of.grid().len(),
        rows_view(r@) == project(of.grid(), pick@),
        forall|i: int| 0 <= i < r@.len() ==> (#[trigger] r@[i])@.len() == pick@.len(),
{
    proof {
        of.wf_facts();
    }
    let total = of.row_count();
    let row_size = pick.len();
    let mut out: Vec<Col> = Vec::new();
    let mut pos: usize = 0;
    while pos < total
        invariant
            pos <= total,
            out@.len() == pos,
            forall|j: int|
                0 <= j < pos ==> views_of((#[trigger] out@[j])@) == project_row(
                    of.grid()[j],
                    pick@,
                ),
            forall|j: int| 0 <= j < pos ==> (#[trigger] out@[j])@.len() == pick@.len(),
        decreases total - pos,
    {
        let old_row = of.row(pos);
        let mut one: Vec<Scalar> = Vec::new();
        let mut k: usize = 0;
        while k < row_size
            invariant
                k <= row_size,
                pos < total,
                row_size == pick@.len(),
                old_row@.len() == of.grid()[pos as int].len(),
                views_of(old_row@) == of.grid()[pos as int],
                one@.len() == k,
                forall|j: int|
                    0 <= j < k ==> (#[trigger] one@[j])@ == of.grid()[pos as int][pick@[j] as int],
            decreases row_size - k,
        {
            let p = pick[k];
            let c = old_row[p].clone();
            proof {
                assert(old_row@[p as int]@ == views_of(old_row@)[p as int]);
            }
            one.push(c);
            k = k + 1;
        }
        proof {
            assert forall|j: int| 0 <= j < row_size implies views_of(one@)[j] == project_row(
                of.grid()[pos as int],
                pick@,
            )[j] by {
                assert(one@[j]@ == of.grid()[pos as int][pick@[j] as int]);
            }
            assert(views_of(one@) =~= project_row(of.grid()[pos as int], pick@));
        }
        out.push(one);
        pos = pos + 1;
    }
    proof {
        assert forall|j: int| 0 <= j < total implies rows_view(out@)[j] == project(
            of.grid(),
            pick@,
        )[j] by {
            assert(views_of(out@[j]@) == project_row(of.grid()[j], pick@));
        }
        assert(rows_view(out@) =~= project(of.grid(), pick@));
    }
    out
}

/// The cells of one row at the given column positions.
#[verifier::loop_isolation(false)]
pub fn row_only<T: Relation>(of: &T, row: usize, cols: &[usize]) -> (r: Col)
    requires
        of.wf(),
        row < of.grid().len(),
        forall|k: int| 0 <= k < cols@.len() ==> (#[trigger] cols@[k]) < of.width(),
    ensures
        r@.len() == cols@.len(),
        views_of(r@) == project_row(of.grid()[row as int], cols@),
{
    proof {
        of.wf_facts();
    }
    let mut out: Vec<Scalar> = Vec::new();
    let mut k: usize = 0;
    while k < cols.len()
        invariant
            k <= cols@.len(),
            out@.len() == k,
            forall|j: int|
                0 <= j < k ==> (#[trigger] out@[j])@ == of.grid()[row as int][cols@[j] as int],
        decreases cols@.len() - k,
    {
        let v = of.value(row, cols[k]);
        out.push(v);
        k = k + 1;
    }
    proof {
        assert forall|j: int| 0 <= j < cols@.len() implies views_of(out@)[j] == project_row(
            of.grid()[row as int],
            cols@,
        )[j] by {
            assert(out@[j]@ == of.grid()[row as int][cols@[j] as int]);
        }
        assert(views_of(out@) =~= project_row(of.grid()[row as int], cols@));
    }
    out
}

/// One row's join-key cells as a composite tuple scalar.
pub fn tuple<T: Relation>(of: &T, row: usize, cols: &[usize]) -> (r: Scalar)
    requires
        of.wf(),
        row < of.grid().len(),
        forall|k: int| 0 <= k < cols@.len() ==> (#[trigger] cols@[k]) < of.width(),
    ensures
        r@ == ScalarV::Tuple(project_row(of.grid()[row as int], cols@)),
{
    broadcast use crate::scalars::lemma_tuple_view;

    let data = row_only(of, row, cols);
    proof {
        assert(crate::scalars::tuple_view(data@) == views_of(data@));
    }
    Scalar::Tuple(data)
}

/// Apply the comparison to one cell and a probe value.
pub fn cmp<T: Relation>(of: &T, row: usize, col: usize, value: &Scalar, apply: CmpOp) -> (r: bool)
    requires
        of.wf(),
        row < of.grid().len(),
        col < of.width(),
    ensures
        r == spec_cmp(apply, of.grid()[row as int][col as int], value@),
{
    let old = of.value(row, col);
    apply_cmp(apply, &old, value)
}

/// Whether a row's cells at `cols` all satisfy the comparison against the
/// corresponding cells of a key tuple.
pub open spec fn cols_match(
    row: Seq<ScalarV>,
    cols: Seq<usize>,
    tup: Seq<ScalarV>,
    op: CmpOp,
) -> bool {
    forall|k: int| 0 <= k < cols.len() ==> spec_cmp(op, row[cols[k] as int], tup[k])
}

/// Test one row against a key tuple, column-pair by column-pair.
#[verifier::loop_isolation(false)]
pub fn cmp_cols<T: Relation>(
    of: &T,
    row: usize,
    cols: &[usize],
    tuple: &[Scalar],
    apply: CmpOp,
) -> (r: bool)
    requires
        of.wf(),
        row < of.grid().len(),
        forall|k: int| 0 <= k < cols@.len() ==> (#[trigger] cols@[k]) < of.width(),
        tuple@.len() == cols@.len(),
    ensures
        r == cols_match(of.grid()[row as int], cols@, views_of(tuple@), apply),
{
    proof {
        of.wf_facts();
    }
    let mut k: usize = 0;
    while k < cols.len()
        invariant
            k <= cols@.len(),
            forall|j: int|
                0 <= j < k ==> spec_cmp(
                    apply,
                    of.grid()[row as int][cols@[j] as int],
                    views_of(tuple@)[j],
                ),
        decreases cols@.len() - k,
    {
        let old = of.value(row, cols[k]);
        if !apply_cmp(apply, &old, &tuple[k]) {
            proof {
                assert(views_of(tuple@)[k as int] == tuple@[k as int]@);
            }
            return false;
        }
        proof {
            assert(views_of(tuple@)[k as int] == tuple@[k as int]@);
        }
        k = k + 1;
    }
    true
}

/// Yield the cursor's current row position and step past it; nothing once
/// the window is exhausted.
pub fn next<T: Relation>(of: &T, cursor: &mut Cursor) -> (r: Option<usize>)
    requires
        of.wf(),
        old(cursor).last_spec() <= of.grid().len(),
    ensures
        final(cursor).last_spec() == old(cursor).last_spec(),
        old(cursor).start_spec() < old(cursor).last_spec() ==> r == Some(
            old(cursor).start_spec(),
        ) && final(cursor).start_spec() == old(cursor).start_spec() + 1,
        old(cursor).start_spec() >= old(cursor).last_spec() ==> r is None && final(cursor).start_spec() == old(cursor).start_spec(),
{
    if !cursor.eof() {
        let row = cursor.start;
        cursor.next();
        return Some(row);
    }
    None
}

/// The row positions in `[from, to)` whose cell at `col` satisfies the
/// comparison against `v`, in increasing order.
pub open spec fn matches_in(
    g: Seq<Seq<ScalarV>>,
    col: int,
    v: ScalarV,
    op: CmpOp,
    from: int,
    to: int,
) -> Seq<usize>
    decreases to - from,
{
    if from >= to {
        Seq::empty()
    } else {
        (if spec_cmp(op, g[from][col], v) {
            seq![from as usize]
        } else {
            Seq::empty()
        }) + matches_in(g, col, v, op, from + 1, to)
    }
}

/// `matches_in` splits at any midpoint.
pub proof fn lemma_matches_in_split(
    g: Seq<Seq<ScalarV>>,
    col: int,
    v: ScalarV,
    op: CmpOp,
    a: int,
    b: int,
    c: int,
)
    requires
        a <= b <= c,
    ensures
        matches_in(g, col, v, op, a, c) == matches_in(g, col, v, op, a, b) + matches_in(
            g,
            col,
            v,
            op,
            b,
            c,
        ),
    decreases b - a,
{
    if a >= b {
        assert(matches_in(g, col, v, op, a, b) == Seq::<usize>::empty());
        assert(matches_in(g, col, v, op, a, c) =~= matches_in(g, col, v, op, a, b) + matches_in(
            g,
            col,
            v,
            op,
            b,
            c,
        ));
    } else {
        lemma_matches_in_split(g, col, v, op, a + 1, b, c);
        assert(matches_in(g, col, v, op, a, c) =~= matches_in(g, col, v, op, a, b) + matches_in(
            g,
            col,
            v,
            op,
            b,
            c,
        ));
    }
}

/// A window with no matching row contributes nothing.
pub proof fn lemma_matches_in_empty(
    g: Seq<Seq<ScalarV>>,
    col: int,
    v: ScalarV,
    op: CmpOp,
    a: int,
    b: int,
)
    requires
        forall|j: int| a <= j < b ==> !spec_cmp(op, (#[trigger] g[j])[col], v),
    ensures
        matches_in(g, col, v, op, a, b) == Seq::<usize>::empty(),
    decreases b - a,
{
    if a < b {
        lemma_matches_in_empty(g, col, v, op, a + 1, b);
        assert(matches_in(g, col, v, op, a, b) =~= Seq::<usize>::empty());
    }
}

/// Advance the cursor until the cell at `col` satisfies the comparison
/// against `value`, yielding the matching row position, or nothing when the
/// window is exhausted.
#[verifier::loop_isolation(false)]
pub fn find<T: Relation>(
    of: &T,
    cursor: &mut Cursor,
    col: usize,
    value: &Scalar,
    apply: CmpOp,
) -> (r: Option<usize>)
    requires
        of.wf(),
        old(cursor).last_spec() <= of.grid().len(),
        col < of.width(),
    ensures
        final(cursor).last_spec() == old(cursor).last_spec(),
        match r {
            Some(i) => {
                &&& old(cursor).start_spec() <= i < old(cursor).last_spec()
                &&& spec_cmp(apply, of.grid()[i as int][col as int], value@)
                &&& forall|j: int|
                    old(cursor).start_spec() <= j < i ==> !spec_cmp(
                        apply,
                        (#[trigger] of.grid()[j])[col as int],
                        value@,
                    )
                &&& final(cursor).start_spec() == i + 1
            },
            None => {
                &&& forall|j: int|
                    old(cursor).start_spec() <= j < old(cursor).last_spec() ==> !spec_cmp(
                        apply,
                        (#[trigger] of.grid()[j])[col as int],
                        value@,
                    )
                &&& final(cursor).start_spec() == (if old(cursor).start_spec() >= old(cursor).last_spec() {
                    old(cursor).start_spec() as int
                } else {
                    old(cursor).last_spec() as int
                })
            },
        },
{
    proof {
        of.wf_facts();
    }
    while !cursor.eof()
        invariant
            cursor.last_spec() == old(cursor).last_spec(),
            old(cursor).start_spec() <= cursor.start_spec(),
            cursor.start_spec() > old(cursor).start_spec() ==> cursor.start_spec() <= cursor.last_spec(),
            forall|j: int|
                old(cursor).start_spec() <= j < cursor.start_spec() ==> !spec_cmp(
                    apply,
                    (#[trigger] of.grid()[j])[col as int],
                    value@,
                ),
        decreases cursor.last_spec() - cursor.start_spec(),
    {
        let row = cursor.start;
        cursor.next();
        if cmp(of, row, col, value, apply) {
            return Some(row);
        }
    }
    None
}

/// All row positions from `start` on whose cell at `col` satisfies the
/// comparison, in increasing order.
#[verifier::loop_isolation(false)]
pub fn find_all<T: Relation>(of: &T, start: usize, col: usize, value: &Scalar, apply: CmpOp) -> (r:
    Vec<usize>)
    requires
        of.wf(),
        col < of.width(),
    ensures
        r@ == matches_in(
            of.grid(),
            col as int,
            value@,
            apply,
            start as int,
            of.grid().len() as int,
        ),
{
    proof {
        of.wf_facts();
    }
    let ghost g = of.grid();
    let ghost last = of.grid().len() as int;
    let mut pos: Vec<usize> = Vec::new();
    let mut cursor = Cursor::new(start, of.row_count());
    proof {
        if start as int >= last {
            assert(matches_in(g, col as int, value@, apply, start as int, last) == Seq::<
                usize,
            >::empty());
        }
    }
    loop
        invariant
            of.wf(),
            col < of.width(),
            cursor.last_spec() == last,
            start <= cursor.start_spec() || (start as int >= last && pos@ == Seq::<usize>::empty()),
            cursor.start_spec() >= start,
            pos@ + matches_in(g, col as int, value@, apply, cursor.start_spec() as int, last)
                == matches_in(g, col as int, value@, apply, start as int, last),
            cursor.start_spec() as int > last ==> cursor.start_spec() == start,
        decreases last - cursor.start_spec() + 1,
    {
        let ghost before = cursor.start_spec() as int;
        let found = find(of, &mut cursor, col, value, apply);
        match found {
            Some(next_pos) => {
                proof {
                    lemma_matches_in_split(g, col as int, value@, apply, before, next_pos as int, last);
                    lemma_matches_in_empty(g, col as int, value@, apply, before, next_pos as int);
                    assert(matches_in(g, col as int, value@, apply, next_pos as int, last)
                        =~= seq![next_pos] + matches_in(
                        g,
                        col as int,
                        value@,
                        apply,
                        next_pos as int + 1,
                        last,
                    ));
                    assert((pos@ + seq![next_pos]) + matches_in(
                        g,
                        col as int,
                        value@,
                        apply,
                        next_pos as int + 1,
                        last,
                    ) =~= pos@ + (seq![next_pos] + matches_in(
                        g,
                        col as int,
                        value@,
                        apply,
                        next_pos as int + 1,
                        last,
                    )));
                }
                pos.push(next_pos);
            },
            None => {
                proof {
                    if before < last {
                        lemma_matches_in_empty(g, col as int, value@, apply, before, last);
                    } else {
                        assert(matches_in(g, col as int, value@, apply, before, last) == Seq::<
                            usize,
                        >::empty());
                    }
                    assert(pos@ =~= pos@ + Seq::<usize>::empty());
                }
                return pos;
            },
        }
    }
}

/// All rows from `start` on whose cell at `col` satisfies the comparison,
/// in scan order.
#[verifier::loop_isolation(false)]
pub fn find_all_rows<T: Relation>(
    of: &T,
    start: usize,
    col: usize,
    value: &Scalar,
    apply: CmpOp,
) -> (r: Vec<Col>)
    requires
        of.wf(),
        col < of.width(),
    ensures
        rows_view(r@) == matches_in(
            of.grid(),
            col as int,
            value@,
            apply,
            start as int,
            of.grid().len() as int,
        ).map_values(|p: usize| of.grid()[p as int]),
        r@.len() <= of.grid().len(),
        forall|i: int| 0 <= i < r@.len() ==> (#[trigger] r@[i])@.len() == of.width(),
{
    proof {
        of.wf_facts();
    }
    let ghost g = of.grid();
    let positions = find_all(of, start, col, value, apply);
    proof {
        lemma_matches_in_bounds(
            g,
            col as int,
            value@,
            apply,
            start as int,
            g.len() as int,
        );
        lemma_matches_in_count(g, col as int, value@, apply, start as int, g.len() as int);
    }
    let mut out: Vec<Col> = Vec::new();
    let mut i: usize = 0;
    while i < positions.len()
        invariant
            i <= positions@.len(),
            out@.len() == i,
            forall|k: int| 0 <= k < positions@.len() ==> (#[trigger] positions@[k]) < g.len(),
            forall|j: int|
                0 <= j < i ==> views_of((#[trigger] out@[j])@) == g[positions@[j] as int],
            forall|j: int| 0 <= j < i ==> (#[trigger] out@[j])@.len() == of.width(),
        decreases positions@.len() - i,
    {
        let p = positions[i];
        let one = of.row(p);
        proof {
            assert(one@.len() == g[p as int].len());
        }
        out.push(one);
        i = i + 1;
    }
    proof {
        let m = matches_in(g, col as int, value@, apply, start as int, g.len() as int);
        assert forall|j: int| 0 <= j < m.len() implies rows_view(out@)[j] == m.map_values(
            |p: usize| g[p as int],
        )[j] by {
            assert(views_of(out@[j]@) == g[positions@[j] as int]);
        }
        assert(rows_view(out@) =~= m.map_values(|p: usize| g[p as int]));
    }
    out
}

/// Every position `matches_in` yields lies inside the window and the grid.
pub proof fn lemma_matches_in_bounds(
    g: Seq<Seq<ScalarV>>,
    col: int,
    v: ScalarV,
    op: CmpOp,
    from: int,
    to: int,
)
    requires
        to <= g.len(),
        to <= usize::MAX,
        0 <= from,
    ensures
        forall|k: int|
            0 <= k < matches_in(g, col, v, op, from, to).len() ==> from <= (
            #[trigger] matches_in(g, col, v, op, from, to)[k]) < to,
    decreases to - from,
{
    if from < to {
        lemma_matches_in_bounds(g, col, v, op, from + 1, to);
        let m = matches_in(g, col, v, op, from, to);
        let head: Seq<usize> = if spec_cmp(op, g[from][col], v) {
            seq![from as usize]
        } else {
            Seq::empty()
        };
        let tail = matches_in(g, col, v, op, from + 1, to);
        assert(m == head + tail);
        assert(m.len() == head.len() + tail.len());
        assert forall|k: int| 0 <= k < m.len() implies from <= m[k] && m[k] < to by {
            if k < head.len() {
                assert(m[k] == from as usize);
            } else {
                assert(m[k] == tail[k - head.len()]);
                assert(from + 1 <= tail[k - head.len()] < to);
            }
        }
    }
}

/// A scan yields at most one position per row of the window.
pub proof fn lemma_matches_in_count(
    g: Seq<Seq<ScalarV>>,
    col: int,
    v: ScalarV,
    op: CmpOp,
    from: int,
    to: int,
)
    ensures
        matches_in(g, col, v, op, from, to).len() <= (if to >= from {
            to - from
        } else {
            0
        }),
    decreases to - from,
{
    if from < to {
        lemma_matches_in_count(g, col, v, op, from + 1, to);
    }
}

/// Whether some row of the grid hashes to `h`.
pub open spec fn contains_hash(g: Seq<Seq<ScalarV>>, h: u64) -> bool {
    exists|i: int| 0 <= i < g.len() && hash_row_spec(g[i]) == h
}

/// The 64-bit hash of each row, in row order.
pub open spec fn hashes_of(g: Seq<Seq<ScalarV>>) -> Seq<u64> {
    g.map_values(|row: Seq<ScalarV>| hash_row_spec(row))
}

/// How many marks of a marker set are clear.
pub open spec fn num_false(s: Seq<bool>) -> int {
    s.filter(|b: bool| !b).len() as int
}

/// How many marks of a marker set are set.
pub open spec fn num_true(s: Seq<bool>) -> int {
    s.filter(|b: bool| b).len() as int
}

/// A row of `w` absence markers.
pub open spec fn null_row(w: nat) -> Seq<ScalarV> {
    Seq::new(w, |_i: int| ScalarV::Null)
}

/// The rows whose marker is set, packed in row order.
pub open spec fn masked_rows(g: Seq<Seq<ScalarV>>, mask: Seq<bool>) -> Seq<Seq<ScalarV>>
    decreases g.len(),
{
    if g.len() == 0 {
        Seq::empty()
    } else {
        masked_rows(g.drop_last(), mask.take(g.len() - 1)) + (if mask[g.len() - 1] {
            seq![g.last()]
        } else {
            Seq::empty()
        })
    }
}

/// Taking one more row extends the masked selection by that row when its
/// marker is set.
pub proof fn lemma_masked_rows_step(g: Seq<Seq<ScalarV>>, mask: Seq<bool>, i: int)
    requires
        0 <= i < g.len(),
        i < mask.len(),
    ensures
        masked_rows(g.take(i + 1), mask.take(i + 1)) == masked_rows(g.take(i), mask.take(i)) + (
        if mask[i] {
            seq![g[i]]
        } else {
            Seq::<Seq<ScalarV>>::empty()
        }),
{
    let gt = g.take(i + 1);
    assert(gt.drop_last() =~= g.take(i));
    assert(mask.take(i + 1).take(gt.len() - 1) =~= mask.take(i));
    assert(gt.last() == g[i]);
    assert(mask.take(i + 1)[gt.len() - 1] == mask[i]);
}

/// When the marker of each row is exactly a predicate of that row, the
/// masked selection is the filtered grid.
pub proof fn lemma_masked_is_filter(
    g: Seq<Seq<ScalarV>>,
    mask: Seq<bool>,
    pred: spec_fn(Seq<ScalarV>) -> bool,
)
    requires
        mask.len() == g.len(),
        forall|i: int| 0 <= i < g.len() ==> mask[i] == pred(#[trigger] g[i]),
    ensures
        masked_rows(g, mask) == g.filter(pred),
    decreases g.len(),
{
    reveal(Seq::filter);
    if g.len() > 0 {
        lemma_masked_is_filter(g.drop_last(), mask.take(g.len() - 1), pred);
        assert(mask.take(g.len() - 1) =~= mask.drop_last());
        assert forall|i: int| 0 <= i < g.drop_last().len() implies mask.take(g.len() - 1)[i]
            == pred(#[trigger] g.drop_last()[i]) by {
            assert(g.drop_last()[i] == g[i]);
        }
        if mask[g.len() - 1] {
            assert(masked_rows(g, mask) =~= g.drop_last().filter(pred).push(g.last()));
            assert(g.filter(pred) =~= g.drop_last().filter(pred).push(g.last()));
        } else {
            assert(masked_rows(g, mask) =~= g.drop_last().filter(pred));
        }
    }
}

/// The masked selection keeps one row per set marker.
pub proof fn lemma_masked_rows_len(g: Seq<Seq<ScalarV>>, mask: Seq<bool>)
    requires
        mask.len() == g.len(),
    ensures
        masked_rows(g, mask).len() == num_true(mask),
    decreases g.len(),
{
    reveal(Seq::filter);
    if g.len() == 0 {
        assert(mask =~= Seq::<bool>::empty());
    } else {
        lemma_masked_rows_len(g.drop_last(), mask.take(g.len() - 1));
        assert(mask.take(g.len() - 1) =~= mask.drop_last());
        Seq::lemma_filter_push(mask.drop_last(), mask.last(), |b: bool| b);
        assert(mask =~= mask.drop_last().push(mask.last()));
    }
}

/// Every row, the unmarked ones replaced by all-null rows of width `w`.
pub open spec fn padded_rows(g: Seq<Seq<ScalarV>>, mask: Seq<bool>, w: nat) -> Seq<Seq<ScalarV>> {
    Seq::new(
        g.len(),
        |i: int|
            if mask[i] {
                g[i]
            } else {
                null_row(w)
            },
    )
}

/// 64-bit hash of one row's scalar sequence.
pub fn hash_row<T: Relation>(of: &T, row: usize) -> (r: u64)
    requires
        of.wf(),
        row < of.grid().len(),
    ensures
        r == hash_row_spec(of.grid()[row as int]),
{
    hash_column(of.row(row))
}

/// An ephemeral hash index: a map from each row's 64-bit hash to a
/// representative row position carrying that hash. An approximate row
/// identity: two distinct rows with one hash are treated as one.
#[verifier::loop_isolation(false)]
pub fn hash_rows<T: Relation>(of: &T) -> (m: HashMap<u64, usize>)
    requires
        of.wf(),
    ensures
        forall|r: int|
            0 <= r < of.grid().len() ==> m@.contains_key(hash_row_spec(#[trigger] of.grid()[r])),
        forall|h: u64| #[trigger] m@.contains_key(h) ==> contains_hash(of.grid(), h),
        forall|h: u64|
            #[trigger] m@.contains_key(h) ==> 0 <= m@[h] < of.grid().len() && hash_row_spec(
                of.grid()[m@[h] as int],
            ) == h,
        (forall|r1: int, r2: int|
            0 <= r1 < r2 < of.grid().len() ==> hash_row_spec(#[trigger] of.grid()[r1])
                != hash_row_spec(#[trigger] of.grid()[r2])) ==> m@.dom().len()
            == of.grid().len(),
{
    broadcast use vstd::std_specs::hash::group_hash_axioms;

    proof {
        of.wf_facts();
    }
    let ghost g = of.grid();
    let ghost inj = forall|r1: int, r2: int|
        0 <= r1 < r2 < g.len() ==> hash_row_spec(#[trigger] g[r1]) != hash_row_spec(
            #[trigger] g[r2],
        );
    let total = of.row_count();
    let mut rows_map: HashMap<u64, usize> = HashMap::new();
    let mut cursor = Cursor::new(0, total);
    loop
        invariant
            of.wf(),
            g == of.grid(),
            cursor.last_spec() == total,
            cursor.start_spec() <= total,
            forall|r: int|
                0 <= r < cursor.start_spec() ==> rows_map@.contains_key(
                    hash_row_spec(#[trigger] g[r]),
                ),
            forall|h: u64| #[trigger] rows_map@.contains_key(h) ==> exists|r: int|
                0 <= r < cursor.start_spec() && hash_row_spec(g[r]) == h,
            forall|h: u64|
                #[trigger] rows_map@.contains_key(h) ==> 0 <= rows_map@[h] < cursor.start_spec()
                    && hash_row_spec(g[rows_map@[h] as int]) == h,
            inj ==> rows_map@.dom().len() == cursor.start_spec(),
            rows_map@.dom().finite(),
        decreases total - cursor.start_spec(),
    {
        let n = next(of, &mut cursor);
        match n {
            Some(next_pos) => {
                let h = hash_row(of, next_pos);
                proof {
                    if inj && rows_map@.contains_key(h) {
                        let r0 = choose|r: int|
                            0 <= r < next_pos && hash_row_spec(g[r]) == h;
                        assert(hash_row_spec(g[r0]) == hash_row_spec(g[next_pos as int]));
                        assert(false);
                    }
                }
                rows_map.insert(h, next_pos);
            },
            None => {
                return rows_map;
            },
        }
    }
}

/// Whether a probe hash is absent from the index.
pub fn _check_not_found(cmp: &HashMap<u64, usize>, row: u64) -> (b: bool)
    ensures
        b == !cmp@.contains_key(row),
{
    broadcast use vstd::std_specs::hash::group_hash_axioms;

    !cmp.contains_key(&row)
}

/// Whether a probe hash is present in the index.
pub fn _check_found(cmp: &HashMap<u64, usize>, row: u64) -> (b: bool)
    ensures
        b == cmp@.contains_key(row),
{
    broadcast use vstd::std_specs::hash::group_hash_axioms;

    cmp.contains_key(&row)
}

/// How many marks of a marker set are set, and how many are clear.
#[verifier::loop_isolation(false)]
pub fn _bitvector_count(of: &Vec<bool>) -> (r: (usize, usize))
    ensures
        r.0 == num_true(of@),
        r.1 == num_false(of@),
        r.0 + r.1 == of@.len(),
{
    let mut trues: usize = 0;
    let mut i: usize = 0;
    proof {
        assert(of@.take(0) =~= Seq::<bool>::empty());
        reveal(Seq::filter);
    }
    while i < of.len()
        invariant
            i <= of@.len(),
            trues == num_true(of@.take(i as int)),
            num_true(of@.take(i as int)) + num_false(of@.take(i as int)) == i,
        decreases of@.len() - i,
    {
        proof {
            assert(of@.take(i + 1) =~= of@.take(i as int).push(of@[i as int]));
            Seq::lemma_filter_push(of@.take(i as int), of@[i as int], |b: bool| b);
            Seq::lemma_filter_push(of@.take(i as int), of@[i as int], |b: bool| !b);
        }
        if of[i] {
            trues = trues + 1;
        }
        i = i + 1;
    }
    proof {
        assert(of@.take(of@.len() as int) =~= of@);
    }
    (trues, of.len() - trues)
}

/// The clear-marker count a join side passes to materialization: the number
/// of unmatched rows when they survive null-padded, nothing otherwise.
pub fn _count_join(of: &Vec<bool>, keep_nulls: bool) -> (r: usize)
    ensures
        keep_nulls ==> r == num_false(of@),
        !keep_nulls ==> r == 0,
{
    if keep_nulls {
        let (_trues, total) = _bitvector_count(of);
        total
    } else {
        0
    }
}

/// Each marked position as itself, each unmarked one as `-1`.
#[verifier::loop_isolation(false)]
pub fn _bitvector_to_pos(of: &Vec<bool>) -> (r: Vec<isize>)
    requires
        of@.len() <= isize::MAX,
    ensures
        r@.len() == of@.len(),
        forall|i: int|
            0 <= i < of@.len() ==> (#[trigger] r@[i]) == (if of@[i] {
                i as isize
            } else {
                (-1) as isize
            }),
{
    let mut pos: Vec<isize> = Vec::new();
    let mut i: usize = 0;
    while i < of.len()
        invariant
            i <= of@.len(),
            of@.len() <= isize::MAX,
            pos@.len() == i,
            forall|j: int|
                0 <= j < i ==> (#[trigger] pos@[j]) == (if of@[j] {
                    j as isize
                } else {
                    (-1) as isize
                }),
        decreases of@.len() - i,
    {
        if of[i] {
            pos.push(i as isize);
        } else {
            pos.push(-1);
        }
        i = i + 1;
    }
    pos
}

/// Mark each row of `right` by whether its hash is found (or, when
/// `mark_found` is false, not found) among `left`'s row hashes; the second
/// component counts the unmarked rows.
#[verifier::loop_isolation(false)]
pub fn _compare_hash<T: Relation, U: Relation>(left: &T, right: &U, mark_found: bool) -> (r: (
    Vec<bool>,
    usize,
))
    requires
        left.wf(),
        right.wf(),
    ensures
        r.0@.len() == right.grid().len(),
        forall|i: int|
            0 <= i < right.grid().len() ==> (#[trigger] r.0@[i]) == (contains_hash(
                left.grid(),
                hash_row_spec(right.grid()[i]),
            ) == mark_found),
        r.1 == num_false(r.0@),
{
    proof {
        left.wf_facts();
        right.wf_facts();
    }
    let ghost gl = left.grid();
    let ghost gr = right.grid();
    let cmp = hash_rows(left);
    let total = right.row_count();
    let mut results: Vec<bool> = Vec::new();
    let mut not_found: usize = 0;
    let mut cursor = Cursor::new(0, total);
    proof {
        reveal(Seq::filter);
    }
    loop
        invariant
            left.wf(),
            right.wf(),
            gl == left.grid(),
            gr == right.grid(),
            cursor.last_spec() == total,
            cursor.start_spec() <= total,
            results@.len() == cursor.start_spec(),
            forall|h: u64| #[trigger] cmp@.contains_key(h) == contains_hash(gl, h),
            forall|i: int|
                0 <= i < cursor.start_spec() ==> (#[trigger] results@[i]) == (contains_hash(
                    gl,
                    hash_row_spec(gr[i]),
                ) == mark_found),
            not_found == num_false(results@),
        decreases total - cursor.start_spec(),
    {
        let n = next(right, &mut cursor);
        match n {
            Some(next_pos) => {
                let h = hash_row(right, next_pos);
                let hit = if mark_found {
                    _check_found(&cmp, h)
                } else {
                    _check_not_found(&cmp, h)
                };
                proof {
                    Seq::lemma_filter_push(results@, hit, |b: bool| !b);
                }
                if hit {
                    results.push(true);
                } else {
                    results.push(false);
                    not_found = not_found + 1;
                }
                proof {
                    assert(results@ =~= results@.drop_last().push(results@.last()));
                }
            },
            None => {
                return (results, not_found);
            },
        }
    }
}

/// Build a new flat buffer under `layout` containing only the rows whose
/// marker is set — or, when `keep_null` is asked, every row, the unmarked
/// ones filled entirely with the absence marker. `null_count` must count the
/// clear markers.
#[verifier::loop_isolation(false)]
pub fn materialize_raw<T: Relation>(
    of: &T,
    pos: &Vec<bool>,
    null_count: usize,
    layout: &Layout,
    keep_null: bool,
) -> (r: Col)
    requires
        of.wf(),
        pos@.len() == of.grid().len(),
        null_count == num_false(pos@),
    ensures
        keep_null ==> r@.len() == of.width() * pos@.len() && grid_of(
            *layout,
            of.width(),
            pos@.len() as nat,
            views_of(r@),
        ) == padded_rows(of.grid(), pos@, of.width()),
        !keep_null ==> r@.len() == of.width() * (pos@.len() - null_count) && grid_of(
            *layout,
            of.width(),
            (pos@.len() - null_count) as nat,
            views_of(r@),
        ) == masked_rows(of.grid(), pos@),
{
    proof {
        of.wf_facts();
        lemma_num_false_bound(pos@);
    }
    let ghost g = of.grid();
    let total = of.row_count();
    let cols = of.col_count();
    let mut picked: Vec<Col> = Vec::new();
    let mut i: usize = 0;
    proof {
        reveal(Seq::filter);
        assert(pos@.take(0) =~= Seq::<bool>::empty());
        assert(g.take(0) =~= Seq::<Seq<ScalarV>>::empty());
    }
    while i < total
        invariant
            of.wf(),
            g == of.grid(),
            total == g.len(),
            cols == of.width(),
            pos@.len() == total,
            i <= total,
            keep_null ==> picked@.len() == i,
            keep_null ==> rows_view(picked@) =~= padded_rows(g, pos@, of.width()).take(i as int),
            !keep_null ==> picked@.len() == i - num_false(pos@.take(i as int)),
            !keep_null ==> rows_view(picked@) =~= masked_rows(g.take(i as int), pos@.take(i as int)),
            forall|j: int| 0 <= j < picked@.len() ==> (#[trigger] picked@[j])@.len() == cols,
            num_false(pos@.take(i as int)) <= i,
        decreases total - i,
    {
        proof {
            assert(pos@.take(i + 1) =~= pos@.take(i as int).push(pos@[i as int]));
            Seq::lemma_filter_push(pos@.take(i as int), pos@[i as int], |b: bool| !b);
            lemma_masked_rows_step(g, pos@, i as int);
        }
        if pos[i] {
            let one = of.row(i);
            proof {
                assert(one@.len() == g[i as int].len());
            }
            picked.push(one);
        } else if keep_null {
            let one = crate::types::nulls(cols);
            proof {
                assert(views_of(one@) =~= null_row(of.width()));
            }
            picked.push(one);
        }
        proof {
            if keep_null {
                assert(rows_view(picked@) =~= padded_rows(g, pos@, of.width()).take(i + 1));
            } else {
                if pos@[i as int] {
                    assert(rows_view(picked@) =~= masked_rows(g.take(i as int), pos@.take(
                        i as int,
                    )).push(g[i as int]));
                    assert(masked_rows(g.take(i + 1), pos@.take(i + 1)) =~= masked_rows(
                        g.take(i as int),
                        pos@.take(i as int),
                    ).push(g[i as int]));
                } else {
                    assert(rows_view(picked@) =~= masked_rows(g.take(i + 1), pos@.take(i + 1)));
                }
            }
        }
        i = i + 1;
    }
    proof {
        assert(pos@.take(total as int) =~= pos@);
        assert(g.take(total as int) =~= g);
        if keep_null {
            assert(rows_view(picked@) =~= padded_rows(g, pos@, of.width()));
        } else {
            assert(rows_view(picked@) =~= masked_rows(g, pos@));
        }
        assert(picked@.len() <= total);
        assert(cols * picked@.len() <= cols * total) by (nonlinear_arith)
            requires
                picked@.len() <= total,
                0 <= cols,
        ;
        assert(cols * total == total * cols) by (nonlinear_arith);
    }
    let buf = raw_from_rows(*layout, cols, picked.len(), picked.as_slice());
    buf
}

/// At most every marker is clear.
pub proof fn lemma_num_false_bound(s: Seq<bool>)
    ensures
        0 <= num_false(s) <= s.len(),
        0 <= num_true(s) <= s.len(),
{
    Seq::lemma_filter_len(s, |b: bool| !b);
    Seq::lemma_filter_len(s, |b: bool| b);
}

/// The predicate a scan tests on each row: its cell at `col` against `v`.
pub open spec fn row_pred(col: int, v: ScalarV, op: CmpOp) -> spec_fn(Seq<ScalarV>) -> bool {
    |row: Seq<ScalarV>| spec_cmp(op, row[col], v)
}

/// The rows at the positions a scan yields are exactly the rows that pass
/// the scan's predicate, in order.
pub proof fn lemma_matches_map_is_filter(
    g: Seq<Seq<ScalarV>>,
    col: int,
    v: ScalarV,
    op: CmpOp,
    a: int,
)
    requires
        0 <= a <= g.len(),
        g.len() <= usize::MAX,
    ensures
        matches_in(g, col, v, op, a, g.len() as int).map_values(|p: usize| g[p as int]) == g.skip(
            a,
        ).filter(row_pred(col, v, op)),
    decreases g.len() - a,
{
    reveal(Seq::filter);
    let fm = |p: usize| g[p as int];
    let pred = row_pred(col, v, op);
    if a == g.len() {
        assert(g.skip(a) =~= Seq::<Seq<ScalarV>>::empty());
        assert(matches_in(g, col, v, op, a, g.len() as int).map_values(fm) =~= g.skip(a).filter(
            pred,
        ));
    } else {
        lemma_matches_map_is_filter(g, col, v, op, a + 1);
        let head: Seq<usize> = if spec_cmp(op, g[a][col], v) {
            seq![a as usize]
        } else {
            Seq::empty()
        };
        let tail = matches_in(g, col, v, op, a + 1, g.len() as int);
        assert(matches_in(g, col, v, op, a, g.len() as int) == head + tail);
        assert((head + tail).map_values(fm) =~= head.map_values(fm) + tail.map_values(fm));
        assert(g.skip(a) =~= seq![g[a]] + g.skip(a + 1));
        Seq::filter_distributes_over_add(seq![g[a]], g.skip(a + 1), pred);
        assert(seq![g[a]] =~= Seq::<Seq<ScalarV>>::empty().push(g[a]));
        Seq::lemma_filter_push(Seq::<Seq<ScalarV>>::empty(), g[a], pred);
        assert(Seq::<Seq<ScalarV>>::empty().filter(pred) =~= Seq::<Seq<ScalarV>>::empty());
        if spec_cmp(op, g[a][col], v) {
            assert(head.map_values(fm) =~= seq![g[a]]);
            assert(seq![g[a]].filter(pred) =~= seq![g[a]]);
        } else {
            assert(head.map_values(fm) =~= Seq::<Seq<ScalarV>>::empty());
            assert(seq![g[a]].filter(pred) =~= Seq::<Seq<ScalarV>>::empty());
        }
        assert(matches_in(g, col, v, op, a, g.len() as int).map_values(fm) =~= g.skip(a).filter(
            pred,
        ));
    }
}

/// The views of a list of column references.
pub open spec fn col_refs(s: Seq<ColumnName>) -> Seq<ColumnNameV> {
    Seq::new(s.len(), |k: int| s[k]@)
}

/// The position each reference of a list resolves to.
pub open spec fn resolve_many(sch: Seq<FieldV>, picks: Seq<ColumnNameV>) -> Seq<usize> {
    Seq::new(picks.len(), |k: int| resolve_spec(sch, picks[k]) as usize)
}

/// Pure schema rewrite: the same grid under renamed fields. Every reference
/// resolves against the schema as it stands before any renaming.
pub fn rename<T: RelationBuilder>(of: &T, change: &[(ColumnName, &str)]) -> (r: T)
    requires
        of.wf(),
        forall|k: int|
            0 <= k < change@.len() ==> resolves(of.sch(), (#[trigger] change@[k]).0@),
    ensures
        r.wf(),
        r.sch() == crate::schema::rename_all(
            of.sch(),
            Seq::new(change@.len(), |k: int| (change@[k].0@, change@[k].1@)),
        ),
        r.grid() == of.grid(),
        r.layout_spec() == of.layout_spec(),
{
    proof {
        of.wf_facts();
        lemma_rename_all_shape(
            of.sch(),
            Seq::new(change@.len(), |k: int| (change@[k].0@, change@[k].1@)),
        );
    }
    let schema = of.names().rename(change);
    let layout = of.layout();
    let cols = of.col_count();
    let n = of.row_count();
    let buf = flat_raw(of, &layout);
    proof {
        assert(of.width() * of.grid().len() == cols * n) by (nonlinear_arith)
            requires
                of.width() == cols,
                of.grid().len() == n,
        ;
    }
    T::from_raw(schema, layout, cols, n, buf)
}

/// Renaming changes no field count and no field kind.
pub proof fn lemma_rename_all_shape(
    base: Seq<FieldV>,
    changes: Seq<(ColumnNameV, Seq<char>)>,
)
    requires
        forall|k: int| 0 <= k < changes.len() ==> resolves(base, (#[trigger] changes[k]).0),
    ensures
        crate::schema::rename_all(base, changes).len() == base.len(),
    decreases changes.len(),
{
    broadcast use crate::schema::lemma_name_index;

    if changes.len() > 0 {
        lemma_rename_all_shape(base, changes.drop_last());
        let prev = crate::schema::rename_all(base, changes.drop_last());
        let c = changes.last();
        let p = resolve_spec(base, c.0);
        assert(0 <= p < base.len());
        assert(prev.update(p, FieldV { name: c.1, kind: prev[p].kind }).len() == prev.len());
    }
}

/// Projection: only the referenced columns, in request order, under their
/// fields.
pub fn select<T: RelationBuilder>(of: &T, pick: &[ColumnName]) -> (r: T)
    requires
        of.wf(),
        forall|k: int| 0 <= k < pick@.len() ==> resolves(of.sch(), (#[trigger] pick@[k])@),
        of.grid().len() > 0 ==> pick@.len() > 0,
        pick@.len() * of.grid().len() <= usize::MAX,
    ensures
        r.wf(),
        r.sch() == resolve_many(of.sch(), col_refs(pick@)).map_values(
            |p: usize| of.sch()[p as int],
        ),
        r.grid() == project(of.grid(), resolve_many(of.sch(), col_refs(pick@))),
{
    proof {
        of.wf_facts();
    }
    let old = of.names();
    let pos = old.resolve_pos_many(pick);
    proof {
        assert(pos@ =~= resolve_many(of.sch(), col_refs(pick@)));
    }
    let names = old.only(pos.as_slice());
    proof {
        assert(names@ =~= resolve_many(of.sch(), col_refs(pick@)).map_values(
            |p: usize| of.sch()[p as int],
        ));
        if of.grid().len() > 0 {
            assert forall|k: int| 0 <= k < pos@.len() implies (#[trigger] pos@[k])
                < of.width() by {
                assert(of.width() == of.sch().len());
            }
        }
    }
    let data = rows_pos(of, pos);
    let r = T::new(names, data.as_slice());
    r
}

/// Projection by exclusion: every column but the referenced ones, in
/// schema order.
pub fn deselect<T: RelationBuilder>(of: &T, pick: &[ColumnName]) -> (r: T)
    requires
        of.wf(),
        forall|k: int| 0 <= k < pick@.len() ==> resolves(of.sch(), (#[trigger] pick@[k])@),
        of.grid().len() > 0 ==> Seq::new(of.sch().len(), |i: int| i as usize).filter(
            |p: usize| !resolve_many(of.sch(), col_refs(pick@)).contains(p),
        ).len() > 0,
        of.sch().len() * of.grid().len() <= usize::MAX,
    ensures
        r.wf(),
        r.sch() == Seq::new(of.sch().len(), |i: int| i as usize).filter(
            |p: usize| !resolve_many(of.sch(), col_refs(pick@)).contains(p),
        ).map_values(|p: usize| of.sch()[p as int]),
        r.grid() == project(
            of.grid(),
            Seq::new(of.sch().len(), |i: int| i as usize).filter(
                |p: usize| !resolve_many(of.sch(), col_refs(pick@)).contains(p),
            ),
        ),
{
    proof {
        of.wf_facts();
    }
    let old = of.names();
    let pos = old.resolve_pos_many(pick);
    proof {
        assert(pos@ =~= resolve_many(of.sch(), col_refs(pick@)));
    }
    let keep = old.except(pos.as_slice());
    let names = old.only(keep.as_slice());
    proof {
        assert(names@ =~= keep@.map_values(|p: usize| of.sch()[p as int]));
        if of.grid().len() > 0 {
            assert forall|k: int| 0 <= k < keep@.len() implies (#[trigger] keep@[k])
                < of.width() by {
                assert(of.width() == of.sch().len());
            }
        }
        assert(keep@.len() <= of.sch().len()) by {
            lemma_index_filter_len(
                of.sch().len() as int,
                |p: usize| !resolve_many(of.sch(), col_refs(pick@)).contains(p),
            );
        }
        assert(keep@.len() * of.grid().len() <= of.sch().len() * of.grid().len())
            by (nonlinear_arith)
            requires
                keep@.len() <= of.sch().len(),
                0 <= of.grid().len(),
        ;
    }
    let data = rows_pos(of, keep);
    let r = T::new(names, data.as_slice());
    r
}

/// An index filter keeps at most every position.
pub proof fn lemma_index_filter_len(n: int, pred: spec_fn(usize) -> bool)
    requires
        0 <= n,
    ensures
        Seq::new(n as nat, |i: int| i as usize).filter(pred).len() <= n,
{
    Seq::lemma_filter_len(Seq::new(n as nat, |i: int| i as usize), pred);
}

/// Predicate-driven filter: only the rows whose cell at `col` satisfies the
/// comparison against `value`, schema unchanged.
pub fn where_value_late<T: RelationBuilder>(of: &T, col: usize, value: &Scalar, apply: CmpOp) -> (r:
    T)
    requires
        of.wf(),
        col < of.width(),
    ensures
        r.wf(),
        r.sch() == of.sch(),
        r.grid() == of.grid().filter(row_pred(col as int, value@, apply)),
{
    proof {
        of.wf_facts();
        lemma_matches_map_is_filter(of.grid(), col as int, value@, apply, 0);
        assert(of.grid().skip(0) =~= of.grid());
        Seq::lemma_filter_len(of.grid(), row_pred(col as int, value@, apply));
        assert(
            of.width() * of.grid().filter(row_pred(col as int, value@, apply)).len() <= of.width()
                * of.grid().len()) by (nonlinear_arith)
            requires
                of.grid().filter(row_pred(col as int, value@, apply)).len() <= of.grid().len(),
                0 <= of.width(),
        ;
        assert(of.width() * of.grid().len() == of.grid().len() * of.width()) by (nonlinear_arith);
    }
    let data = find_all_rows(of, 0, col, value, apply);
    let names = of.names().clone();
    let r = T::new(names, data.as_slice());
    r
}

/// Bag union: the left operand's rows followed by the right's, under the
/// left relation's layout. No duplicate is removed. The operands' schemas
/// must be equal.
pub fn union<T: RelationBuilder, U: Relation>(from: &T, to: &U) -> (r: T)
    requires
        from.wf(),
        to.wf(),
        from.sch() == to.sch(),
        from.sch().len() * (from.grid().len() + to.grid().len()) <= usize::MAX,
    ensures
        r.wf(),
        r.sch() == from.sch(),
        r.layout_spec() == from.layout_spec(),
        r.grid() == from.grid() + to.grid(),
        r.grid().len() == from.grid().len() + to.grid().len(),
{
    let layout = from.layout();
    concat_under::<T, U>(from, to, layout)
}

/// Row-wise concatenation forcing the row-major layout, whatever either
/// operand's native layout. The operands' schemas must be equal.
pub fn append<T: RelationBuilder, U: Relation>(to: &T, from: &U) -> (r: T)
    requires
        to.wf(),
        from.wf(),
        to.sch() == from.sch(),
        to.sch().len() * (to.grid().len() + from.grid().len()) <= usize::MAX,
    ensures
        r.wf(),
        r.sch() == to.sch(),
        r.layout_spec() == Layout::Row,
        r.grid() == to.grid() + from.grid(),
{
    concat_under::<T, U>(to, from, Layout::Row)
}

/// Concatenate two same-schema relations under the given layout.
#[verifier::loop_isolation(false)]
fn concat_under<T: RelationBuilder, U: Relation>(a: &T, b: &U, layout: Layout) -> (r: T)
    requires
        a.wf(),
        b.wf(),
        a.sch() == b.sch(),
        a.sch().len() * (a.grid().len() + b.grid().len()) <= usize::MAX,
    ensures
        r.wf(),
        r.sch() == a.sch(),
        r.layout_spec() == layout,
        r.grid() == a.grid() + b.grid(),
{
    proof {
        a.wf_facts();
        b.wf_facts();
    }
    let names = a.names().clone();
    let cols = names.len();
    let mut left = rows(a);
    let mut right = rows(b);
    let ghost l0 = left@;
    let ghost r0 = right@;
    proof {
        if cols > 0 {
            assert(a.grid().len() + b.grid().len() <= cols * (a.grid().len() + b.grid().len()))
                by (nonlinear_arith)
                requires
                    cols >= 1,
                    0 <= a.grid().len() + b.grid().len(),
            ;
        }
    }
    let total = a.row_count() + b.row_count();
    left.append(&mut right);
    proof {
        assert(left@ =~= l0 + r0);
        assert forall|i: int| 0 <= i < left@.len() implies (#[trigger] left@[i])@.len()
            == cols by {
            if i < l0.len() {
                assert(left@[i] == l0[i]);
                assert(l0[i]@.len() == a.width());
            } else {
                assert(left@[i] == r0[i - l0.len()]);
                assert(r0[i - l0.len()]@.len() == b.width());
            }
        }
        assert forall|i: int| 0 <= i < left@.len() implies rows_view(left@)[i] == (a.grid()
            + b.grid())[i] by {
            if i < l0.len() {
                assert(left@[i] == l0[i]);
                assert(views_of(l0[i]@) == a.grid()[i]);
            } else {
                assert(left@[i] == r0[i - l0.len()]);
                assert(views_of(r0[i - l0.len()]@) == b.grid()[i - l0.len()]);
            }
        }
        assert(rows_view(left@) =~= a.grid() + b.grid());
    }
    let buf = raw_from_rows(layout, cols, total, left.as_slice());
    let r = T::from_raw(names, layout, cols, total, buf);
    r
}

/// The marker of each right row for an intersection: whether its hash is
/// among the left rows' hashes.
pub open spec fn found_pred(gl: Seq<Seq<ScalarV>>) -> spec_fn(Seq<ScalarV>) -> bool {
    |row: Seq<ScalarV>| contains_hash(gl, hash_row_spec(row))
}

/// The complementary marker: whether the row's hash is absent.
pub open spec fn not_found_pred(gl: Seq<Seq<ScalarV>>) -> spec_fn(Seq<ScalarV>) -> bool {
    |row: Seq<ScalarV>| !contains_hash(gl, hash_row_spec(row))
}

/// Bag intersection by hash: the rows of the right operand whose hash is
/// present among the left operand's row hashes, weighted toward the right
/// operand. A hash collision treats two distinct rows as equal. The
/// operands' schemas must be equal.
pub fn intersection<T: RelationBuilder, U: Relation>(from: &T, to: &U) -> (r: T)
    requires
        from.wf(),
        to.wf(),
        from.sch() == to.sch(),
    ensures
        r.wf(),
        r.sch() == from.sch(),
        r.layout_spec() == to.layout_spec(),
        r.grid() == to.grid().filter(found_pred(from.grid())),
{
    proof {
        from.wf_facts();
        to.wf_facts();
    }
    let names = from.names().clone();
    let layout = to.layout();
    let (pos, null_count) = _compare_hash(from, to, true);
    let data = materialize_raw(to, &pos, null_count, &layout, false);
    proof {
        lemma_masked_is_filter(to.grid(), pos@, found_pred(from.grid()));
        lemma_masked_rows_len(to.grid(), pos@);
        lemma_num_false_bound(pos@);
        lemma_num_true_false(pos@);
    }
    let kept = pos.len() - null_count;
    let cols = names.len();
    proof {
        if to.grid().len() > 0 && masked_rows(to.grid(), pos@).len() > 0 {
            assert(to.width() == to.sch().len());
        }
        if cols > 0 && kept > 0 {
            assert(to.width() == cols);
        }
        if cols == 0 {
            assert(to.grid().len() == 0);
            assert(pos@.len() == 0);
            assert(pos@.filter(|b: bool| !b) =~= Seq::<bool>::empty()) by {
                reveal(Seq::filter);
            }
        }
        if kept == 0 {
            assert(data@.len() == to.width() * 0);
            assert(to.width() * 0 == 0) by (nonlinear_arith);
        } else {
            assert(data@.len() == to.width() * kept);
            assert(to.width() == cols);
        }
    }
    let r = T::from_raw(names, layout, if kept > 0 { cols } else { 0 }, kept, data);
    proof {
        if kept > 0 {
            assert(r.grid() == grid_of(layout, to.width(), kept as nat, views_of(data@)));
        } else {
            assert(r.grid() =~= to.grid().filter(found_pred(from.grid()))) by {
                assert(r.grid().len() == 0);
                assert(masked_rows(to.grid(), pos@).len() == 0);
            }
        }
    }
    r
}

/// The marks that are set and the marks that are clear exhaust the set.
pub proof fn lemma_num_true_false(s: Seq<bool>)
    ensures
        num_true(s) + num_false(s) == s.len(),
    decreases s.len(),
{
    reveal(Seq::filter);
    if s.len() > 0 {
        lemma_num_true_false(s.drop_last());
        Seq::lemma_filter_push(s.drop_last(), s.last(), |b: bool| b);
        Seq::lemma_filter_push(s.drop_last(), s.last(), |b: bool| !b);
        assert(s =~= s.drop_last().push(s.last()));
    }
}

/// Symmetric difference by hash: the rows of the right operand absent from
/// the left, followed by the rows of the left operand absent from the
/// right — both one-sided differences concatenated, not a one-sided
/// subtraction. A hash collision treats two distinct rows as equal. The
/// operands' schemas must be equal.
pub fn difference<T: RelationBuilder, U: Relation>(from: &T, to: &U) -> (r: T)
    requires
        from.wf(),
        to.wf(),
        from.sch() == to.sch(),
        from.sch().len() * (from.grid().len() + to.grid().len()) <= usize::MAX,
    ensures
        r.wf(),
        r.sch() == from.sch(),
        r.layout_spec() == to.layout_spec(),
        r.grid() == to.grid().filter(not_found_pred(from.grid())) + from.grid().filter(
            not_found_pred(to.grid()),
        ),
{
    proof {
        from.wf_facts();
        to.wf_facts();
    }
    let names = from.names().clone();
    let layout = to.layout();
    let (pos1, null_count1) = _compare_hash(from, to, false);
    let (pos2, null_count2) = _compare_hash(to, from, false);
    let data1 = materialize_raw(to, &pos1, null_count1, &layout, false);
    let data2 = materialize_raw(from, &pos2, null_count2, &layout, false);
    proof {
        lemma_masked_is_filter(to.grid(), pos1@, not_found_pred(from.grid()));
        lemma_masked_is_filter(from.grid(), pos2@, not_found_pred(to.grid()));
        lemma_masked_rows_len(to.grid(), pos1@);
        lemma_masked_rows_len(from.grid(), pos2@);
        lemma_num_true_false(pos1@);
        lemma_num_true_false(pos2@);
        lemma_num_false_bound(pos1@);
        lemma_num_false_bound(pos2@);
    }
    let kept1 = pos1.len() - null_count1;
    let kept2 = pos2.len() - null_count2;
    let cols = names.len();
    proof {
        if kept1 > 0 {
            assert(to.grid().len() > 0);
            assert(to.width() == cols);
        }
        if kept2 > 0 {
            assert(from.grid().len() > 0);
            assert(from.width() == cols);
        }
        if cols == 0 {
            assert(to.grid().len() == 0 && from.grid().len() == 0);
        }
        if kept1 == 0 {
            assert(data1@.len() == to.width() * 0);
            assert(to.width() * 0 == 0) by (nonlinear_arith);
        } else {
            assert(data1@.len() == to.width() * kept1);
        }
        if kept2 == 0 {
            assert(data2@.len() == from.width() * 0);
            assert(from.width() * 0 == 0) by (nonlinear_arith);
        } else {
            assert(data2@.len() == from.width() * kept2);
        }
    }
    let t1 = T::from_raw(
        names.clone(),
        layout,
        if kept1 > 0 {
            cols
        } else {
            0
        },
        kept1,
        data1,
    );
    let t2 = T::from_raw(
        names,
        layout,
        if kept2 > 0 {
            cols
        } else {
            0
        },
        kept2,
        data2,
    );
    proof {
        if kept1 > 0 {
            assert(t1.grid() == masked_rows(to.grid(), pos1@));
        } else {
            assert(t1.grid() =~= masked_rows(to.grid(), pos1@));
        }
        if kept2 > 0 {
            assert(t2.grid() == masked_rows(from.grid(), pos2@));
        } else {
            assert(t2.grid() =~= masked_rows(from.grid(), pos2@));
        }
        assert(t1.grid().len() + t2.grid().len() <= to.grid().len() + from.grid().len());
        assert(cols * (t1.grid().len() + t2.grid().len()) <= cols * (from.grid().len()
            + to.grid().len())) by (nonlinear_arith)
            requires
                t1.grid().len() + t2.grid().len() <= from.grid().len() + to.grid().len(),
                0 <= cols,
        ;
    }
    let r = union::<T, T>(&t1, &t2);
    proof {
        assert(r.layout_spec() == t1.layout_spec());
    }
    r
}

/// The positions in the right schema of the columns a product takes from
/// it: those whose names the left schema does not already hold.
pub open spec fn others_of(sa: Seq<FieldV>, sb: Seq<FieldV>) -> Seq<usize> {
    Seq::new(sb.len(), |i: int| i as usize).filter(
        |p: usize| !contains_name(sa, sb[p as int].name),
    )
}

/// The rows of a Cartesian product: for every left row, every right row
/// projected to the non-duplicate columns, appended to it.
pub open spec fn cross_rows(
    ga: Seq<Seq<ScalarV>>,
    gb: Seq<Seq<ScalarV>>,
    others: Seq<usize>,
) -> Seq<Seq<ScalarV>> {
    Seq::new(
        ga.len() * gb.len(),
        |k: int| ga[k / gb.len() as int] + project_row(gb[k % gb.len() as int], others),
    )
}

/// Full Cartesian product: the output schema is the left schema extended
/// with the right's non-duplicate columns; the output row count is the
/// product of the operands' row counts.
#[verifier::loop_isolation(false)]
pub fn cross<T: RelationBuilder, U: Relation>(from: &T, to: &U) -> (r: T)
    requires
        from.wf(),
        to.wf(),
        from.grid().len() * to.grid().len() <= usize::MAX,
        (from.sch().len() + others_of(from.sch(), to.sch()).len()) * (from.grid().len()
            * to.grid().len()) <= usize::MAX,
        from.sch().len() + others_of(from.sch(), to.sch()).len() <= usize::MAX,
    ensures
        r.wf(),
        r.sch() == from.sch() + others_of(from.sch(), to.sch()).map_values(
            |p: usize| to.sch()[p as int],
        ),
        r.layout_spec() == to.layout_spec(),
        r.grid() == cross_rows(from.grid(), to.grid(), others_of(from.sch(), to.sch())),
        r.grid().len() == from.grid().len() * to.grid().len(),
{
    proof {
        from.wf_facts();
        to.wf_facts();
    }
    let ghost ga = from.grid();
    let ghost gb = to.grid();
    let ghost oth = others_of(from.sch(), to.sch());
    let others = from.names().join(to.names());
    proof {
        assert(others@ == oth);
    }
    let names2 = to.names().only(others.as_slice());
    let schema2 = from.names().extend(names2);
    let layout = to.layout();
    let n_a = from.row_count();
    let n_b = to.row_count();
    let wo = others.len();
    let cols = from.names().len() + wo;
    let total = n_a * n_b;
    let mut acc: Vec<Col> = Vec::new();
    let mut x: usize = 0;
    while x < n_a
        invariant
            from.wf(),
            to.wf(),
            ga == from.grid(),
            gb == to.grid(),
            oth == others@,
            x <= n_a,
            acc@.len() == x * n_b,
            forall|k: int|
                0 <= k < acc@.len() ==> views_of((#[trigger] acc@[k])@) == ga[k / n_b as int]
                    + project_row(gb[k % n_b as int], oth),
            forall|k: int|
                0 <= k < acc@.len() ==> (#[trigger] acc@[k])@.len() == from.width() + oth.len(),
        decreases n_a - x,
    {
        let row_x = from.row(x);
        let mut y: usize = 0;
        proof {
            assert(x * n_b + n_b == (x + 1) * n_b) by (nonlinear_arith);
            assert((x + 1) * n_b <= n_a * n_b) by (nonlinear_arith)
                requires
                    x + 1 <= n_a,
                    0 <= n_b,
            ;
        }
        while y < n_b
            invariant
                from.wf(),
                to.wf(),
                ga == from.grid(),
                gb == to.grid(),
                oth == others@,
                x < n_a,
                y <= n_b,
                x * n_b + n_b <= n_a * n_b,
                views_of(row_x@) == ga[x as int],
                row_x@.len() == ga[x as int].len(),
                acc@.len() == x * n_b + y,
                forall|k: int|
                    0 <= k < acc@.len() ==> views_of((#[trigger] acc@[k])@) == ga[k / n_b as int]
                        + project_row(gb[k % n_b as int], oth),
                forall|k: int|
                    0 <= k < acc@.len() ==> (#[trigger] acc@[k])@.len() == from.width()
                        + oth.len(),
            decreases n_b - y,
        {
            let mut combined = clone_col(&row_x);
            let mut extra = row_only(to, y, others.as_slice());
            let ghost c0 = combined@;
            let ghost e0 = extra@;
            combined.append(&mut extra);
            proof {
                assert(combined@ =~= c0 + e0);
                assert forall|j: int| 0 <= j < combined@.len() implies views_of(combined@)[j] == (
                views_of(c0) + views_of(e0))[j] by {
                    if j < c0.len() {
                        assert(combined@[j] == c0[j]);
                    } else {
                        assert(combined@[j] == e0[j - c0.len()]);
                    }
                }
                assert(views_of(combined@) =~= views_of(c0) + views_of(e0));
                assert(views_of(combined@) =~= ga[x as int] + project_row(gb[y as int], oth));
                let k0 = x * n_b + y;
                vstd::arithmetic::div_mod::lemma_fundamental_div_mod_converse(
                    k0 as int,
                    n_b as int,
                    x as int,
                    y as int,
                );
            }
            acc.push(combined);
            y = y + 1;
        }
        x = x + 1;
    }
    proof {
        assert(acc@.len() == n_a * n_b);
        assert forall|i: int| 0 <= i < acc@.len() implies rows_view(acc@)[i] == cross_rows(
            ga,
            gb,
            oth,
        )[i] by {
            assert(views_of(acc@[i]@) == ga[i / n_b as int] + project_row(gb[i % n_b as int], oth));
        }
        assert(rows_view(acc@) =~= cross_rows(ga, gb, oth));
        if acc@.len() > 0 {
            assert(from.grid().len() > 0);
            assert(from.width() == from.sch().len());
        }
        assert(schema2@ =~= from.sch() + oth.map_values(|p: usize| to.sch()[p as int]));
        assert(schema2@.len() == cols);
        assert(cols * total <= usize::MAX);
        if cols == 0 {
            assert(from.sch().len() == 0);
            assert(from.width() == 0);
            assert(ga.len() == 0);
            assert(n_a * n_b == 0) by (nonlinear_arith)
                requires
                    n_a == 0,
            ;
        }
    }
    let buf = raw_from_rows(layout, cols, total, acc.as_slice());
    let r = T::from_raw(schema2, layout, cols, total, buf);
    proof {
        assert(r.grid() =~~= cross_rows(ga, gb, oth));
    }
    r
}

/// Whether a left row's join-key cells match a right row's: every right
/// cell at `ct` satisfies the comparison against the corresponding left
/// cell at `cf`.
pub open spec fn pair_match(
    ga_row: Seq<ScalarV>,
    gb_row: Seq<ScalarV>,
    cf: Seq<usize>,
    ct: Seq<usize>,
    op: CmpOp,
) -> bool {
    cols_match(gb_row, ct, project_row(ga_row, cf), op)
}

/// Whether left row `x` matches any right row.
pub open spec fn matched_left(
    ga: Seq<Seq<ScalarV>>,
    gb: Seq<Seq<ScalarV>>,
    x: int,
    cf: Seq<usize>,
    ct: Seq<usize>,
    op: CmpOp,
) -> bool {
    exists|y: int| 0 <= y < gb.len() && pair_match(ga[x], gb[y], cf, ct, op)
}

/// Whether right row `y` matches any left row.
pub open spec fn matched_right(
    ga: Seq<Seq<ScalarV>>,
    gb: Seq<Seq<ScalarV>>,
    y: int,
    cf: Seq<usize>,
    ct: Seq<usize>,
    op: CmpOp,
) -> bool {
    exists|x: int| 0 <= x < ga.len() && pair_match(ga[x], gb[y], cf, ct, op)
}

/// Whether right row `y` matches any left row before `xb`.
pub open spec fn matched_right_upto(
    ga: Seq<Seq<ScalarV>>,
    gb: Seq<Seq<ScalarV>>,
    y: int,
    xb: int,
    cf: Seq<usize>,
    ct: Seq<usize>,
    op: CmpOp,
) -> bool {
    exists|x: int| 0 <= x < xb && x < ga.len() && pair_match(ga[x], gb[y], cf, ct, op)
}

/// The joined rows left row `x` produces against the first `y` right rows:
/// one combined row per matching right row, in scan order.
pub open spec fn pairs_upto(
    ga: Seq<Seq<ScalarV>>,
    gb: Seq<Seq<ScalarV>>,
    x: int,
    y: int,
    others: Seq<usize>,
    cf: Seq<usize>,
    ct: Seq<usize>,
    op: CmpOp,
) -> Seq<Seq<ScalarV>>
    decreases y,
{
    if y <= 0 {
        Seq::empty()
    } else {
        pairs_upto(ga, gb, x, y - 1, others, cf, ct, op) + (if pair_match(
            ga[x],
            gb[y - 1],
            cf,
            ct,
            op,
        ) {
            seq![ga[x] + project_row(gb[y - 1], others)]
        } else {
            Seq::empty()
        })
    }
}

/// What left row `x` contributes to the join: its matching pairs; or, when
/// it matches nothing and the join keeps unmatched left rows, itself padded
/// with nulls on the right columns; or nothing.
pub open spec fn left_block(
    ga: Seq<Seq<ScalarV>>,
    gb: Seq<Seq<ScalarV>>,
    x: int,
    others: Seq<usize>,
    cf: Seq<usize>,
    ct: Seq<usize>,
    op: CmpOp,
    null_left: bool,
    wo: nat,
) -> Seq<Seq<ScalarV>> {
    if matched_left(ga, gb, x, cf, ct, op) {
        pairs_upto(ga, gb, x, gb.len() as int, others, cf, ct, op)
    } else if null_left {
        seq![ga[x] + null_row(wo)]
    } else {
        Seq::empty()
    }
}

/// The contributions of the first `x` left rows, concatenated.
pub open spec fn left_upto(
    ga: Seq<Seq<ScalarV>>,
    gb: Seq<Seq<ScalarV>>,
    x: int,
    others: Seq<usize>,
    cf: Seq<usize>,
    ct: Seq<usize>,
    op: CmpOp,
    null_left: bool,
    wo: nat,
) -> Seq<Seq<ScalarV>>
    decreases x,
{
    if x <= 0 {
        Seq::empty()
    } else {
        left_upto(ga, gb, x - 1, others, cf, ct, op, null_left, wo) + left_block(
            ga,
            gb,
            x - 1,
            others,
            cf,
            ct,
            op,
            null_left,
            wo,
        )
    }
}

/// The unmatched rows among the first `y` right rows, each padded with
/// nulls on the left columns, concatenated.
pub open spec fn right_upto(
    ga: Seq<Seq<ScalarV>>,
    gb: Seq<Seq<ScalarV>>,
    y: int,
    others: Seq<usize>,
    cf: Seq<usize>,
    ct: Seq<usize>,
    op: CmpOp,
    wa: nat,
) -> Seq<Seq<ScalarV>>
    decreases y,
{
    if y <= 0 {
        Seq::empty()
    } else {
        right_upto(ga, gb, y - 1, others, cf, ct, op, wa) + (if !matched_right(
            ga,
            gb,
            y - 1,
            cf,
            ct,
            op,
        ) {
            seq![null_row(wa) + project_row(gb[y - 1], others)]
        } else {
            Seq::empty()
        })
    }
}

/// The rows of a generalized theta-join: every left row's matching pairs in
/// scan order, unmatched left rows null-padded when the join kind keeps
/// them, and finally the unmatched right rows null-padded when the kind
/// keeps those.
pub open spec fn join_grid(
    ga: Seq<Seq<ScalarV>>,
    gb: Seq<Seq<ScalarV>>,
    others: Seq<usize>,
    cf: Seq<usize>,
    ct: Seq<usize>,
    op: CmpOp,
    kind: Join,
    wa: nat,
    wo: nat,
) -> Seq<Seq<ScalarV>> {
    left_upto(ga, gb, ga.len() as int, others, cf, ct, op, kind.produce_null_spec(true), wo) + (
    if kind.produce_null_spec(false) {
        right_upto(ga, gb, gb.len() as int, others, cf, ct, op, wa)
    } else {
        Seq::<Seq<ScalarV>>::empty()
    })
}

/// Mark, for each side, which rows found a match on the other: the
/// bit-marker bookkeeping of the join engine, as two explicit
/// boolean-per-row marker arrays.
#[verifier::loop_isolation(false)]
pub fn _join_late<T: Relation, U: Relation>(
    from: &T,
    to: &U,
    cols_from: &[usize],
    cols_to: &[usize],
    apply: CmpOp,
) -> (r: (Vec<bool>, Vec<bool>))
    requires
        from.wf(),
        to.wf(),
        cols_from@.len() == cols_to@.len(),
        forall|k: int| 0 <= k < cols_from@.len() ==> (#[trigger] cols_from@[k]) < from.sch().len(),
        forall|k: int| 0 <= k < cols_to@.len() ==> (#[trigger] cols_to@[k]) < to.sch().len(),
    ensures
        r.0@.len() == from.grid().len(),
        r.1@.len() == to.grid().len(),
        forall|x: int|
            0 <= x < from.grid().len() ==> (#[trigger] r.0@[x]) == matched_left(
                from.grid(),
                to.grid(),
                x,
                cols_from@,
                cols_to@,
                apply,
            ),
        forall|y: int|
            0 <= y < to.grid().len() ==> (#[trigger] r.1@[y]) == matched_right(
                from.grid(),
                to.grid(),
                y,
                cols_from@,
                cols_to@,
                apply,
            ),
{
    proof {
        from.wf_facts();
        to.wf_facts();
    }
    let ghost ga = from.grid();
    let ghost gb = to.grid();
    let n_a = from.row_count();
    let n_b = to.row_count();
    let mut left_m = falses(n_a);
    let mut right_m = falses(n_b);
    let mut x: usize = 0;
    while x < n_a
        invariant
            from.wf(),
            to.wf(),
            ga == from.grid(),
            gb == to.grid(),
            x <= n_a,
            left_m@.len() == n_a,
            right_m@.len() == n_b,
            forall|j: int|
                0 <= j < n_a ==> (#[trigger] left_m@[j]) == (j < x && matched_left(
                    ga,
                    gb,
                    j,
                    cols_from@,
                    cols_to@,
                    apply,
                )),
            forall|j: int|
                0 <= j < n_b ==> (#[trigger] right_m@[j]) == matched_right_upto(
                    ga,
                    gb,
                    j,
                    x as int,
                    cols_from@,
                    cols_to@,
                    apply,
                ),
        decreases n_a - x,
    {
        let l = row_only(from, x, cols_from);
        let mut found = false;
        let mut y: usize = 0;
        while y < n_b
            invariant
                from.wf(),
                to.wf(),
                ga == from.grid(),
                gb == to.grid(),
                x < n_a,
                y <= n_b,
                right_m@.len() == n_b,
                l@.len() == cols_from@.len(),
                views_of(l@) == project_row(ga[x as int], cols_from@),
                found == exists|y2: int|
                    0 <= y2 < y && pair_match(ga[x as int], gb[y2], cols_from@, cols_to@, apply),
                forall|j: int|
                    0 <= j < n_b ==> (#[trigger] right_m@[j]) == (matched_right_upto(
                        ga,
                        gb,
                        j,
                        x as int,
                        cols_from@,
                        cols_to@,
                        apply,
                    ) || (j < y && pair_match(
                        ga[x as int],
                        gb[j],
                        cols_from@,
                        cols_to@,
                        apply,
                    ))),
            decreases n_b - y,
        {
            if cmp_cols(to, y, cols_to, l.as_slice(), apply) {
                proof {
                    assert(pair_match(ga[x as int], gb[y as int], cols_from@, cols_to@, apply));
                }
                found = true;
                right_m.set(y, true);
            }
            y = y + 1;
        }
        proof {
            if found {
                assert(matched_left(ga, gb, x as int, cols_from@, cols_to@, apply));
            }
            assert forall|j: int| 0 <= j < n_b implies (#[trigger] right_m@[j])
                == matched_right_upto(
                ga,
                gb,
                j,
                x as int + 1,
                cols_from@,
                cols_to@,
                apply,
            ) by {
                if right_m@[j] {
                    if matched_right_upto(ga, gb, j, x as int, cols_from@, cols_to@, apply) {
                        let w = choose|x2: int|
                            0 <= x2 < x && x2 < ga.len() && pair_match(
                                ga[x2],
                                gb[j],
                                cols_from@,
                                cols_to@,
                                apply,
                            );
                        assert(0 <= w < x as int + 1 && w < ga.len() && pair_match(
                            ga[w],
                            gb[j],
                            cols_from@,
                            cols_to@,
                            apply,
                        ));
                    } else {
                        assert(pair_match(ga[x as int], gb[j], cols_from@, cols_to@, apply));
                    }
                }
            }
        }
        left_m.set(x, found);
        x = x + 1;
    }
    proof {
        assert forall|j: int| 0 <= j < n_b implies matched_right_upto(
            ga,
            gb,
            j,
            n_a as int,
            cols_from@,
            cols_to@,
            apply,
        ) == matched_right(ga, gb, j, cols_from@, cols_to@, apply) by {
            if matched_right(ga, gb, j, cols_from@, cols_to@, apply) {
                let w = choose|x2: int|
                    0 <= x2 < ga.len() && pair_match(ga[x2], gb[j], cols_from@, cols_to@, apply);
                assert(0 <= w < n_a as int && w < ga.len() && pair_match(
                    ga[w],
                    gb[j],
                    cols_from@,
                    cols_to@,
                    apply,
                ));
            }
        }
    }
    (left_m, right_m)
}

/// A marker array of `n` clear marks.
#[verifier::loop_isolation(false)]
pub(crate) fn falses(n: usize) -> (r: Vec<bool>)
    ensures
        r@.len() == n,
        forall|i: int| 0 <= i < n ==> !(#[trigger] r@[i]),
{
    let mut out: Vec<bool> = Vec::new();
    let mut i: usize = 0;
    while i < n
        invariant
            i <= n,
            out@.len() == i,
            forall|j: int| 0 <= j < i ==> !(#[trigger] out@[j]),
        decreases n - i,
    {
        out.push(false);
        i = i + 1;
    }
    out
}

/// Generalized theta-join: nested-loop comparison of the projected
/// join-column tuples under an arbitrary comparison operator. Matching
/// pairs are emitted in scan order; unmatched rows of either side survive
/// null-padded exactly when the join kind keeps that side. The output
/// schema is the left schema extended with the right's non-duplicate
/// columns.
#[verifier::rlimit(60)]
#[verifier::loop_isolation(false)]
pub fn join<T: RelationBuilder, U: Relation>(
    from: &T,
    to: &U,
    join_kind: Join,
    cols_from: &[usize],
    cols_to: &[usize],
    apply: CmpOp,
) -> (r: T)
    requires
        from.wf(),
        to.wf(),
        cols_from@.len() == cols_to@.len(),
        forall|k: int| 0 <= k < cols_from@.len() ==> (#[trigger] cols_from@[k]) < from.sch().len(),
        forall|k: int| 0 <= k < cols_to@.len() ==> (#[trigger] cols_to@[k]) < to.sch().len(),
        from.sch().len() + others_of(from.sch(), to.sch()).len() <= usize::MAX,
        (from.sch().len() + others_of(from.sch(), to.sch()).len()) * join_grid(
            from.grid(),
            to.grid(),
            others_of(from.sch(), to.sch()),
            cols_from@,
            cols_to@,
            apply,
            join_kind,
            from.sch().len(),
            others_of(from.sch(), to.sch()).len(),
        ).len() <= usize::MAX,
        join_grid(
            from.grid(),
            to.grid(),
            others_of(from.sch(), to.sch()),
            cols_from@,
            cols_to@,
            apply,
            join_kind,
            from.sch().len(),
            others_of(from.sch(), to.sch()).len(),
        ).len() <= usize::MAX,
        from.sch().len() + others_of(from.sch(), to.sch()).len() == 0 ==> join_grid(
            from.grid(),
            to.grid(),
            others_of(from.sch(), to.sch()),
            cols_from@,
            cols_to@,
            apply,
            join_kind,
            from.sch().len(),
            others_of(from.sch(), to.sch()).len(),
        ).len() == 0,
    ensures
        r.wf(),
        r.sch() == from.sch() + others_of(from.sch(), to.sch()).map_values(
            |p: usize| to.sch()[p as int],
        ),
        r.layout_spec() == from.layout_spec(),
        r.grid() == join_grid(
            from.grid(),
            to.grid(),
            others_of(from.sch(), to.sch()),
            cols_from@,
            cols_to@,
            apply,
            join_kind,
            from.sch().len(),
            others_of(from.sch(), to.sch()).len(),
        ),
{
    proof {
        from.wf_facts();
        to.wf_facts();
    }
    let ghost ga = from.grid();
    let ghost gb = to.grid();
    let ghost cf = cols_from@;
    let ghost ct = cols_to@;
    let others = from.names().join(to.names());
    let ghost oth = others@;
    let names2 = to.names().only(others.as_slice());
    let schema2 = from.names().extend(names2);
    let layout = from.layout();
    let n_a = from.row_count();
    let n_b = to.row_count();
    let wa = from.names().len();
    let wo = others.len();
    let cols = wa + wo;
    let null_left = join_kind.produce_null(true);
    let null_right = join_kind.produce_null(false);
    let mut right_m = falses(n_b);
    let mut acc: Vec<Col> = Vec::new();
    let mut x: usize = 0;
    while x < n_a
        invariant
            from.wf(),
            to.wf(),
            ga == from.grid(),
            gb == to.grid(),
            oth == others@,
            cf == cols_from@,
            ct == cols_to@,
            null_left == join_kind.produce_null_spec(true),
            x <= n_a,
            wa == from.sch().len(),
            wo == oth.len(),
            right_m@.len() == n_b,
            forall|j: int|
                0 <= j < n_b ==> (#[trigger] right_m@[j]) == matched_right_upto(
                    ga,
                    gb,
                    j,
                    x as int,
                    cf,
                    ct,
                    apply,
                ),
            rows_view(acc@) =~= left_upto(ga, gb, x as int, oth, cf, ct, apply, null_left, wo as nat),
            forall|k: int| 0 <= k < acc@.len() ==> (#[trigger] acc@[k])@.len() == wa + wo,
        decreases n_a - x,
    {
        proof {
            assert(from.width() == wa);
        }
        let row_x = from.row(x);
        let l = row_only(from, x, cols_from);
        let mut found = false;
        let mut y: usize = 0;
        while y < n_b
            invariant
                from.wf(),
                to.wf(),
                ga == from.grid(),
                gb == to.grid(),
                oth == others@,
                cf == cols_from@,
                ct == cols_to@,
                null_left == join_kind.produce_null_spec(true),
                x < n_a,
                y <= n_b,
                wa == from.sch().len(),
                wo == oth.len(),
                right_m@.len() == n_b,
                views_of(row_x@) == ga[x as int],
                row_x@.len() == ga[x as int].len(),
                l@.len() == cf.len(),
                views_of(l@) == project_row(ga[x as int], cf),
                found == exists|y2: int|
                    0 <= y2 < y && pair_match(ga[x as int], gb[y2], cf, ct, apply),
                !found ==> pairs_upto(ga, gb, x as int, y as int, oth, cf, ct, apply) == Seq::<
                    Seq<ScalarV>,
                >::empty(),
                forall|j: int|
                    0 <= j < n_b ==> (#[trigger] right_m@[j]) == (matched_right_upto(
                        ga,
                        gb,
                        j,
                        x as int,
                        cf,
                        ct,
                        apply,
                    ) || (j < y && pair_match(ga[x as int], gb[j], cf, ct, apply))),
                rows_view(acc@) =~= left_upto(ga, gb, x as int, oth, cf, ct, apply, null_left, (
                wo) as nat) + pairs_upto(ga, gb, x as int, y as int, oth, cf, ct, apply),
                forall|k: int| 0 <= k < acc@.len() ==> (#[trigger] acc@[k])@.len() == wa + wo,
            decreases n_b - y,
        {
            if cmp_cols(to, y, cols_to, l.as_slice(), apply) {
                proof {
                    assert(pair_match(ga[x as int], gb[y as int], cf, ct, apply));
                }
                found = true;
                right_m.set(y, true);
                let mut combined = clone_col(&row_x);
                let mut extra = row_only(to, y, others.as_slice());
                let ghost c0 = combined@;
                let ghost e0 = extra@;
                combined.append(&mut extra);
                proof {
                    assert(combined@ =~= c0 + e0);
                    assert forall|j: int| 0 <= j < combined@.len() implies views_of(combined@)[j]
                        == (views_of(c0) + views_of(e0))[j] by {
                        if j < c0.len() {
                            assert(combined@[j] == c0[j]);
                        } else {
                            assert(combined@[j] == e0[j - c0.len()]);
                        }
                    }
                    assert(views_of(combined@) =~= ga[x as int] + project_row(gb[y as int], oth));
                }
                let ghost acc0 = acc@;
                let ghost newrow = views_of(combined@);
                acc.push(combined);
                proof {
                    assert(rows_view(acc@) =~= rows_view(acc0).push(newrow));
                    assert(pairs_upto(ga, gb, x as int, y as int + 1, oth, cf, ct, apply)
                        =~= pairs_upto(ga, gb, x as int, y as int, oth, cf, ct, apply).push(
                        ga[x as int] + project_row(gb[y as int], oth),
                    ));
                    assert(left_upto(ga, gb, x as int, oth, cf, ct, apply, null_left, wo as nat)
                        + pairs_upto(ga, gb, x as int, y as int + 1, oth, cf, ct, apply)
                        =~= (left_upto(ga, gb, x as int, oth, cf, ct, apply, null_left, wo as nat)
                        + pairs_upto(ga, gb, x as int, y as int, oth, cf, ct, apply)).push(
                        ga[x as int] + project_row(gb[y as int], oth),
                    ));
                    assert(rows_view(acc@) =~= left_upto(
                        ga,
                        gb,
                        x as int,
                        oth,
                        cf,
                        ct,
                        apply,
                        null_left,
                        wo as nat,
                    ) + pairs_upto(ga, gb, x as int, y as int + 1, oth, cf, ct, apply));
                }
            } else {
                proof {
                    assert(!pair_match(ga[x as int], gb[y as int], cf, ct, apply));
                    assert(pairs_upto(ga, gb, x as int, y as int + 1, oth, cf, ct, apply)
                        =~= pairs_upto(ga, gb, x as int, y as int, oth, cf, ct, apply));
                }
            }
            y = y + 1;
        }
        proof {
            if found {
                assert(matched_left(ga, gb, x as int, cf, ct, apply));
                assert(left_block(ga, gb, x as int, oth, cf, ct, apply, null_left, wo as nat)
                    == pairs_upto(ga, gb, x as int, n_b as int, oth, cf, ct, apply));
            } else {
                assert(!matched_left(ga, gb, x as int, cf, ct, apply)) by {
                    if matched_left(ga, gb, x as int, cf, ct, apply) {
                        let w = choose|y2: int|
                            0 <= y2 < gb.len() && pair_match(ga[x as int], gb[y2], cf, ct, apply);
                        assert(0 <= w < n_b && pair_match(ga[x as int], gb[w], cf, ct, apply));
                    }
                }
            }
        }
        if !found && null_left {
            let mut combined = clone_col(&row_x);
            let mut pad = crate::types::nulls(wo);
            let ghost c0 = combined@;
            let ghost e0 = pad@;
            combined.append(&mut pad);
            proof {
                assert(combined@ =~= c0 + e0);
                assert forall|j: int| 0 <= j < combined@.len() implies views_of(combined@)[j] == (
                views_of(c0) + views_of(e0))[j] by {
                    if j < c0.len() {
                        assert(combined@[j] == c0[j]);
                    } else {
                        assert(combined@[j] == e0[j - c0.len()]);
                    }
                }
                assert(views_of(e0) =~= null_row(wo as nat));
                assert(views_of(combined@) =~= ga[x as int] + null_row(wo as nat));
            }
            acc.push(combined);
        }
        proof {
            assert(rows_view(acc@) =~= left_upto(
                ga,
                gb,
                x as int + 1,
                oth,
                cf,
                ct,
                apply,
                null_left,
                wo as nat,
            ));
        }
        x = x + 1;
    }
    proof {
        assert forall|j: int| 0 <= j < n_b implies matched_right_upto(
            ga,
            gb,
            j,
            n_a as int,
            cf,
            ct,
            apply,
        ) == matched_right(ga, gb, j, cf, ct, apply) by {
            if matched_right(ga, gb, j, cf, ct, apply) {
                let w = choose|x2: int|
                    0 <= x2 < ga.len() && pair_match(ga[x2], gb[j], cf, ct, apply);
                assert(0 <= w < n_a as int && w < ga.len() && pair_match(
                    ga[w],
                    gb[j],
                    cf,
                    ct,
                    apply,
                ));
            }
        }
    }
    if null_right {
        let mut y: usize = 0;
        while y < n_b
            invariant
                from.wf(),
                to.wf(),
                ga == from.grid(),
                gb == to.grid(),
                oth == others@,
                cf == cols_from@,
                ct == cols_to@,
                null_left == join_kind.produce_null_spec(true),
                y <= n_b,
                wa == from.sch().len(),
                wo == oth.len(),
                right_m@.len() == n_b,
                forall|j: int|
                    0 <= j < n_b ==> (#[trigger] right_m@[j]) == matched_right(
                        ga,
                        gb,
                        j,
                        cf,
                        ct,
                        apply,
                    ),
                rows_view(acc@) =~= left_upto(
                    ga,
                    gb,
                    n_a as int,
                    oth,
                    cf,
                    ct,
                    apply,
                    null_left,
                    wo as nat,
                ) + right_upto(ga, gb, y as int, oth, cf, ct, apply, wa as nat),
                forall|k: int| 0 <= k < acc@.len() ==> (#[trigger] acc@[k])@.len() == wa + wo,
            decreases n_b - y,
        {
            if !right_m[y] {
                let mut combined = crate::types::nulls(wa);
                let mut extra = row_only(to, y, others.as_slice());
                let ghost c0 = combined@;
                let ghost e0 = extra@;
                combined.append(&mut extra);
                proof {
                    assert(combined@ =~= c0 + e0);
                    assert forall|j: int| 0 <= j < combined@.len() implies views_of(combined@)[j]
                        == (views_of(c0) + views_of(e0))[j] by {
                        if j < c0.len() {
                            assert(combined@[j] == c0[j]);
                        } else {
                            assert(combined@[j] == e0[j - c0.len()]);
                        }
                    }
                    assert(views_of(c0) =~= null_row(wa as nat));
                    assert(views_of(combined@) =~= null_row(wa as nat) + project_row(
                        gb[y as int],
                        oth,
                    ));
                }
                let ghost acc0 = acc@;
                let ghost newrow = views_of(combined@);
                acc.push(combined);
                proof {
                    assert(rows_view(acc@) =~= rows_view(acc0).push(newrow));
                    assert(right_upto(ga, gb, y as int + 1, oth, cf, ct, apply, wa as nat)
                        =~= right_upto(ga, gb, y as int, oth, cf, ct, apply, wa as nat).push(
                        null_row(wa as nat) + project_row(gb[y as int], oth),
                    ));
                    assert(left_upto(ga, gb, n_a as int, oth, cf, ct, apply, null_left, wo as nat)
                        + right_upto(ga, gb, y as int + 1, oth, cf, ct, apply, wa as nat) =~= (
                    left_upto(ga, gb, n_a as int, oth, cf, ct, apply, null_left, wo as nat)
                        + right_upto(ga, gb, y as int, oth, cf, ct, apply, wa as nat)).push(
                        null_row(wa as nat) + project_row(gb[y as int], oth),
                    ));
                }
            } else {
                proof {
                    assert(right_upto(ga, gb, y as int + 1, oth, cf, ct, apply, wa as nat)
                        =~= right_upto(ga, gb, y as int, oth, cf, ct, apply, wa as nat));
                }
            }
            proof {
                assert(rows_view(acc@) =~= left_upto(
                    ga,
                    gb,
                    n_a as int,
                    oth,
                    cf,
                    ct,
                    apply,
                    null_left,
                    wo as nat,
                ) + right_upto(ga, gb, y as int + 1, oth, cf, ct, apply, wa as nat));
            }
            y = y + 1;
        }
    }
    let total = acc.len();
    proof {
        assert(rows_view(acc@) =~= join_grid(
            ga,
            gb,
            oth,
            cf,
            ct,
            apply,
            join_kind,
            wa as nat,
            wo as nat,
        ));
        assert(acc@.len() == rows_view(acc@).len());
        assert(schema2@ =~= from.sch() + oth.map_values(|p: usize| to.sch()[p as int]));
        assert(schema2@.len() == cols);
        if cols == 0 {
            assert(total == 0);
        }
        assert(cols * total <= usize::MAX);
    }
    let buf = raw_from_rows(layout, cols, total, acc.as_slice());
    let r = T::from_raw(schema2, layout, cols, total, buf);
    proof {
        assert(r.grid() =~~= join_grid(
            ga,
            gb,
            oth,
            cf,
            ct,
            apply,
            join_kind,
            wa as nat,
            wo as nat,
        ));
    }
    r
}

/// A left row pairs with at most every right row it is scanned against.
pub proof fn lemma_pairs_upto_len(
    ga: Seq<Seq<ScalarV>>,
    gb: Seq<Seq<ScalarV>>,
    x: int,
    y: int,
    others: Seq<usize>,
    cf: Seq<usize>,
    ct: Seq<usize>,
    op: CmpOp,
)
    requires
        0 <= y,
    ensures
        pairs_upto(ga, gb, x, y, others, cf, ct, op).len() <= y,
    decreases y,
{
    if y > 0 {
        lemma_pairs_upto_len(ga, gb, x, y - 1, others, cf, ct, op);
    }
}

/// Join cardinality bound: an inner join yields at most one row per pair of
/// operand rows — never more than the product of the operands' row counts.
pub proof fn lemma_inner_join_card(
    ga: Seq<Seq<ScalarV>>,
    gb: Seq<Seq<ScalarV>>,
    others: Seq<usize>,
    cf: Seq<usize>,
    ct: Seq<usize>,
    op: CmpOp,
    wa: nat,
    wo: nat,
)
    ensures
        join_grid(ga, gb, others, cf, ct, op, Join::Inner, wa, wo).len() <= ga.len() * gb.len(),
{
    lemma_left_upto_inner_len(ga, gb, ga.len() as int, others, cf, ct, op, wo);
}

/// Without null padding of unmatched left rows, the first `x` left rows
/// contribute at most `x` times the right operand's row count.
pub proof fn lemma_left_upto_inner_len(
    ga: Seq<Seq<ScalarV>>,
    gb: Seq<Seq<ScalarV>>,
    x: int,
    others: Seq<usize>,
    cf: Seq<usize>,
    ct: Seq<usize>,
    op: CmpOp,
    wo: nat,
)
    requires
        0 <= x,
    ensures
        left_upto(ga, gb, x, others, cf, ct, op, false, wo).len() <= x * gb.len(),
    decreases x,
{
    if x > 0 {
        lemma_left_upto_inner_len(ga, gb, x - 1, others, cf, ct, op, wo);
        lemma_pairs_upto_len(ga, gb, x - 1, gb.len() as int, others, cf, ct, op);
        assert(left_block(ga, gb, x - 1, others, cf, ct, op, false, wo).len() <= gb.len());
        assert((x - 1) * gb.len() + gb.len() == x * gb.len()) by (nonlinear_arith);
    } else {
        assert(x * gb.len() == 0) by (nonlinear_arith)
            requires
                x == 0,
        ;
    }
}

/// Every pair row a left row produces starts with that left row, and a
/// matched left row produces at least one.
pub proof fn lemma_pairs_shape(
    ga: Seq<Seq<ScalarV>>,
    gb: Seq<Seq<ScalarV>>,
    x: int,
    y: int,
    others: Seq<usize>,
    cf: Seq<usize>,
    ct: Seq<usize>,
    op: CmpOp,
    wa: nat,
)
    requires
        0 <= x < ga.len(),
        0 <= y,
        ga[x].len() == wa,
    ensures
        forall|i: int|
            0 <= i < pairs_upto(ga, gb, x, y, others, cf, ct, op).len() ==> (
            #[trigger] pairs_upto(ga, gb, x, y, others, cf, ct, op)[i]).subrange(0, wa as int)
                == ga[x],
        (exists|y2: int| 0 <= y2 < y && pair_match(ga[x], gb[y2], cf, ct, op)) ==> pairs_upto(
            ga,
            gb,
            x,
            y,
            others,
            cf,
            ct,
            op,
        ).len() >= 1,
    decreases y,
{
    if y > 0 {
        lemma_pairs_shape(ga, gb, x, y - 1, others, cf, ct, op, wa);
        let prev = pairs_upto(ga, gb, x, y - 1, others, cf, ct, op);
        let cur = pairs_upto(ga, gb, x, y, others, cf, ct, op);
        if pair_match(ga[x], gb[y - 1], cf, ct, op) {
            assert(cur =~= prev.push(ga[x] + project_row(gb[y - 1], others)));
            assert((ga[x] + project_row(gb[y - 1], others)).subrange(0, wa as int) =~= ga[x]);
        } else {
            assert(cur =~= prev);
        }
        assert forall|i: int| 0 <= i < cur.len() implies (#[trigger] cur[i]).subrange(
            0,
            wa as int,
        ) == ga[x] by {
            if i < prev.len() {
                assert(cur[i] == prev[i]);
            }
        }
        if exists|y2: int| 0 <= y2 < y && pair_match(ga[x], gb[y2], cf, ct, op) {
            let w = choose|y2: int| 0 <= y2 < y && pair_match(ga[x], gb[y2], cf, ct, op);
            if w < y - 1 {
                assert(prev.len() >= 1);
            }
        }
    }
}

/// Join totality on the kept side: when the join kind keeps unmatched left
/// rows, every left row appears at least once in the result — as the left
/// columns of some output row, padded with nulls if it matched nothing.
pub proof fn lemma_left_join_total(
    ga: Seq<Seq<ScalarV>>,
    gb: Seq<Seq<ScalarV>>,
    others: Seq<usize>,
    cf: Seq<usize>,
    ct: Seq<usize>,
    op: CmpOp,
    kind: Join,
    wa: nat,
    wo: nat,
)
    requires
        kind.produce_null_spec(true),
        forall|x: int| 0 <= x < ga.len() ==> (#[trigger] ga[x]).len() == wa,
    ensures
        forall|x: int|
            0 <= x < ga.len() ==> exists|i: int|
                0 <= i < join_grid(ga, gb, others, cf, ct, op, kind, wa, wo).len() && (
                #[trigger] join_grid(ga, gb, others, cf, ct, op, kind, wa, wo)[i]).subrange(
                    0,
                    wa as int,
                ) == #[trigger] ga[x],
{
    lemma_left_total(ga, gb, ga.len() as int, others, cf, ct, op, wa, wo);
    let lp = left_upto(ga, gb, ga.len() as int, others, cf, ct, op, true, wo);
    let jg = join_grid(ga, gb, others, cf, ct, op, kind, wa, wo);
    assert forall|x: int| 0 <= x < ga.len() implies exists|i: int|
        0 <= i < jg.len() && (#[trigger] jg[i]).subrange(0, wa as int) == #[trigger] ga[x] by {
        let w = choose|i: int|
            0 <= i < lp.len() && (#[trigger] lp[i]).subrange(0, wa as int) == ga[x];
        assert(jg[w] == lp[w]);
        assert(0 <= w < jg.len() && jg[w].subrange(0, wa as int) == ga[x]);
    }
}

/// Within the first `n` left rows, each contributes some output row that
/// starts with it when unmatched rows are kept null-padded.
pub proof fn lemma_left_total(
    ga: Seq<Seq<ScalarV>>,
    gb: Seq<Seq<ScalarV>>,
    n: int,
    others: Seq<usize>,
    cf: Seq<usize>,
    ct: Seq<usize>,
    op: CmpOp,
    wa: nat,
    wo: nat,
)
    requires
        0 <= n <= ga.len(),
        forall|x: int| 0 <= x < ga.len() ==> (#[trigger] ga[x]).len() == wa,
    ensures
        forall|x: int|
            0 <= x < n ==> exists|i: int|
                0 <= i < left_upto(ga, gb, n, others, cf, ct, op, true, wo).len() && (
                #[trigger] left_upto(ga, gb, n, others, cf, ct, op, true, wo)[i]).subrange(
                    0,
                    wa as int,
                ) == #[trigger] ga[x],
    decreases n,
{
    if n > 0 {
        lemma_left_total(ga, gb, n - 1, others, cf, ct, op, wa, wo);
        let prev = left_upto(ga, gb, n - 1, others, cf, ct, op, true, wo);
        let blk = left_block(ga, gb, n - 1, others, cf, ct, op, true, wo);
        let cur = left_upto(ga, gb, n, others, cf, ct, op, true, wo);
        assert(cur == prev + blk);
        lemma_pairs_shape(ga, gb, n - 1, gb.len() as int, others, cf, ct, op, wa);
        assert(blk.len() >= 1) by {
            if matched_left(ga, gb, n - 1, cf, ct, op) {
                let w = choose|y: int|
                    0 <= y < gb.len() && pair_match(ga[n - 1], gb[y], cf, ct, op);
                assert(exists|y2: int|
                    0 <= y2 < gb.len() && pair_match(ga[n - 1], gb[y2], cf, ct, op));
            }
        }
        assert(blk[0].subrange(0, wa as int) == ga[n - 1]) by {
            if matched_left(ga, gb, n - 1, cf, ct, op) {
            } else {
                assert(blk[0] == ga[n - 1] + null_row(wo));
                assert((ga[n - 1] + null_row(wo)).subrange(0, wa as int) =~= ga[n - 1]);
            }
        }
        assert forall|x: int| 0 <= x < n implies exists|i: int|
            0 <= i < cur.len() && (#[trigger] cur[i]).subrange(0, wa as int)
                == #[trigger] ga[x] by {
            if x < n - 1 {
                let w = choose|i: int|
                    0 <= i < prev.len() && (#[trigger] prev[i]).subrange(0, wa as int) == ga[x];
                assert(cur[w] == prev[w]);
                assert(0 <= w < cur.len() && cur[w].subrange(0, wa as int) == ga[x]);
            } else {
                let w = prev.len() as int;
                assert(cur[w] == blk[0]);
                assert(0 <= w < cur.len() && cur[w].subrange(0, wa as int) == ga[x]);
            }
        }
    }
}

/// Materialize any relation as the flat-buffer kind, reading every row
/// through the primitive accessors: the same schema and the same grid,
/// whatever the source kind computes its rows from.
pub fn to_data<T: Relation>(of: &T) -> (r: Data)
    requires
        of.wf(),
    ensures
        Relation::wf(&r),
        Relation::sch(&r) == of.sch(),
        Relation::grid(&r) == of.grid(),
        Relation::layout_spec(&r) == of.layout_spec(),
{
    proof {
        of.wf_facts();
        assert(of.width() * of.grid().len() == of.grid().len() * of.width()) by (nonlinear_arith);
    }
    let names = of.names().clone();
    let layout = of.layout();
    let cols = of.col_count();
    let n = of.row_count();
    let rows_data = rows(of);
    let buf = raw_from_rows(layout, cols, n, rows_data.as_slice());
    let r = Data::new(names, layout, cols, n, buf);
    proof {
        assert(Relation::grid(&r) =~~= of.grid());
    }
    r
}

/// Projection composition: re-projecting a projection equals projecting
/// once through the composed position list.
pub proof fn lemma_project_compose(g: Seq<Seq<ScalarV>>, q: Seq<usize>, r: Seq<usize>)
    requires
        forall|k: int| 0 <= k < r.len() ==> (#[trigger] r[k]) < q.len(),
    ensures
        project(project(g, q), r) == project(g, Seq::new(r.len(), |k: int| q[r[k] as int])),
{
    assert(project(project(g, q), r) =~~= project(g, Seq::new(r.len(), |k: int| q[r[k] as int])));
}

/// Projection round-trip: selecting, from a deselection's result, all of
/// its columns in order reproduces that result exactly — projecting twice
/// adds and loses nothing beyond the first projection.
pub proof fn lemma_projection_round_trip(g: Seq<Seq<ScalarV>>, keep: Seq<usize>)
    requires
        keep.len() <= usize::MAX,
    ensures
        project(project(g, keep), Seq::new(keep.len(), |k: int| k as usize)) == project(g, keep),
{
    assert(project(project(g, keep), Seq::new(keep.len(), |k: int| k as usize))
        =~~= project(g, keep));
}

} // verus!
