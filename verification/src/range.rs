//! The lazily generated relation kind: a half-open arithmetic sequence
//! `[start, end)` stepped by `step`, exposed as a single-column relation of
//! position values. It satisfies the capability contract's read side
//! without ever materializing its rows, which demonstrates that algorithms
//! written against the primitives are correct for computed relations too.

use vstd::prelude::*;
use vstd::arithmetic::div_mod::lemma_fundamental_div_mod;
use crate::scalars::{Scalar, ScalarV, DataType, views_of};
use crate::schema::{Schema, FieldV};
use crate::types::{Col, Layout, Data};
use crate::relation::{Relation, RelationBuilder};

verus! {

/// A generated relation: the arithmetic sequence `start, start + step, ...`
/// strictly below `end`.
#[derive(Debug)]
pub struct Range {
    pub schema: Schema,
    pub start: usize,
    pub end: usize,
    pub step: usize,
}

impl Range {
    /// How many positions the sequence holds.
    pub open spec fn count_spec(&self) -> nat {
        if self.start >= self.end || self.step == 0 {
            0
        } else {
            (((self.end - self.start) + self.step - 1) / (self.step as int)) as nat
        }
    }

    /// The sequence value at index `i`.
    pub open spec fn value_spec(&self, i: int) -> int {
        self.start + i * self.step
    }

    /// The `i`-th value lies strictly below `end`.
    pub proof fn lemma_value_in_range(&self, i: int)
        requires
            self.wf(),
            0 <= i < self.count_spec(),
        ensures
            self.start <= self.value_spec(i) < self.end,
    {
        let d = self.end - self.start;
        let st = self.step as int;
        let c = self.count_spec() as int;
        lemma_fundamental_div_mod(d + st - 1, st);
        let r = (d + st - 1) % st;
        assert(d + st - 1 == st * c + r);
        assert((c - 1) * st == d - 1 - r) by (nonlinear_arith)
            requires
                d + st - 1 == st * c + r,
        ;
        assert(i * st <= (c - 1) * st) by (nonlinear_arith)
            requires
                i <= c - 1,
                st >= 1,
        ;
        assert(i * st >= 0) by (nonlinear_arith)
            requires
                i >= 0,
                st >= 0,
        ;
    }

    /// Build the sequence `[start, end)` stepped by `step`, under the
    /// single-column schema of position values.
    pub fn new(start: usize, end: usize, step: usize) -> (r: Range)
        requires
            step >= 1,
            step <= isize::MAX,
            end <= isize::MAX,
        ensures
            r.wf(),
            r.start == start,
            r.end == end,
            r.step == step,
            r.sch().len() == 1,
            r.sch()[0].kind == DataType::ISize,
    {
        let schema = Schema::scalar_field(DataType::ISize);
        Range { schema, start, end, step }
    }

    /// A position, given back when it lies inside the closed bounds of the
    /// sequence.
    pub fn get(&self, pos: usize) -> (r: Option<usize>)
        ensures
            r == (if self.start <= pos <= self.end {
                Some(pos)
            } else {
                Option::<usize>::None
            }),
    {
        if pos >= self.start && pos <= self.end {
            Some(pos)
        } else {
            None
        }
    }

    /// Closed-form union of two generated relations, without materializing
    /// either: the widest bounds under the finest step.
    pub fn union(&self, other: &Range) -> (r: Range)
        requires
            self.wf(),
            other.wf(),
        ensures
            r.wf(),
            r.start == (if self.start <= other.start {
                self.start as int
            } else {
                other.start as int
            }),
            r.end == (if self.end >= other.end {
                self.end as int
            } else {
                other.end as int
            }),
            r.step == (if self.step <= other.step {
                self.step as int
            } else {
                other.step as int
            }),
    {
        let start = if self.start <= other.start {
            self.start
        } else {
            other.start
        };
        let end = if self.end >= other.end {
            self.end
        } else {
            other.end
        };
        let step = if self.step <= other.step {
            self.step
        } else {
            other.step
        };
        Range::new(start, end, step)
    }

    /// Materialize the sequence as a flat-buffer relation holding the same
    /// grid under the same schema.
    pub fn materialize(&self) -> (r: Data)
        requires
            self.wf(),
        ensures
            r.wf(),
            crate::relation::Relation::sch(&r) == self.sch(),
            crate::relation::Relation::grid(&r) == self.grid(),
    {
        crate::relation::to_data::<Range>(self)
    }
}

impl Relation for Range {
    open spec fn sch(&self) -> Seq<FieldV> {
        self.schema@
    }

    open spec fn grid(&self) -> Seq<Seq<ScalarV>> {
        Seq::new(self.count_spec(), |i: int| seq![ScalarV::ISize(self.value_spec(i) as isize)])
    }

    open spec fn layout_spec(&self) -> Layout {
        Layout::Col
    }

    open spec fn width(&self) -> nat {
        1
    }

    open spec fn wf(&self) -> bool {
        &&& self.step >= 1
        &&& self.step <= isize::MAX
        &&& self.end <= isize::MAX
        &&& self.schema@.len() == 1
    }

    proof fn wf_facts(&self) {
        if self.start < self.end {
            let d = self.end - self.start;
            let st = self.step as int;
            lemma_fundamental_div_mod(d + st - 1, st);
            let c = (d + st - 1) / st;
            let r = (d + st - 1) % st;
            assert(c <= d) by (nonlinear_arith)
                requires
                    d + st - 1 == st * c + r,
                    0 <= r < st,
                    st >= 1,
                    d >= 1,
            ;
        }
        assert(self.count_spec() <= self.end);
        assert(self.grid().len() * 1 == self.grid().len()) by (nonlinear_arith);
    }

    fn layout(&self) -> Layout {
        Layout::Col
    }

    fn names(&self) -> &Schema {
        &self.schema
    }

    fn row_count(&self) -> (n: usize) {
        if self.start >= self.end {
            0
        } else {
            ((self.end - self.start) + (self.step - 1)) / self.step
        }
    }

    fn col_count(&self) -> usize {
        1
    }

    fn row(&self, pos: usize) -> (r: Col) {
        proof {
            self.lemma_value_in_range(pos as int);
            assert(pos * self.step == (pos as int) * (self.step as int)) by (nonlinear_arith);
        }
        let v: usize = self.start + pos * self.step;
        let mut out: Vec<Scalar> = Vec::new();
        out.push(Scalar::ISize(v as isize));
        proof {
            assert(views_of(out@) =~= self.grid()[pos as int]);
        }
        out
    }

    fn col(&self, pos: usize) -> (c: Col) {
        let n = self.row_count();
        let mut out: Vec<Scalar> = Vec::new();
        let mut i: usize = 0;
        while i < n
            invariant
                self.wf(),
                i <= n,
                n == self.count_spec(),
                out@.len() == i,
                forall|j: int|
                    0 <= j < i ==> (#[trigger] out@[j])@ == ScalarV::ISize(
                        self.value_spec(j) as isize,
                    ),
            decreases n - i,
        {
            proof {
                self.lemma_value_in_range(i as int);
                assert(i * self.step == (i as int) * (self.step as int)) by (nonlinear_arith);
            }
            let v: usize = self.start + i * self.step;
            out.push(Scalar::ISize(v as isize));
            i = i + 1;
        }
        proof {
            assert forall|j: int| 0 <= j < n implies views_of(out@)[j] == Seq::new(
                self.grid().len(),
                |rr: int| self.grid()[rr][0],
            )[j] by {
                assert(out@[j]@ == ScalarV::ISize(self.value_spec(j) as isize));
            }
            assert(views_of(out@) =~= Seq::new(self.grid().len(), |rr: int| self.grid()[rr][0]));
        }
        out
    }

    fn value(&self, row: usize, col: usize) -> (v: Scalar) {
        proof {
            self.lemma_value_in_range(row as int);
            assert(row * self.step == (row as int) * (self.step as int)) by (nonlinear_arith);
        }
        let v: usize = self.start + row * self.step;
        Scalar::ISize(v as isize)
    }
}

} // verus!
