//! Scalar arithmetic over the value model, and element-wise zipping of two
//! single-column relations under a binary scalar operation.

use vstd::prelude::*;
use crate::scalars::{Scalar, ScalarV, views_of};
use crate::types::{Data, rcol_t, Col};
use crate::relation::Relation;

verus! {

/// Whether two scalar values can be added: both 32-bit or both 64-bit
/// signed integers, with a sum that fits the width.
pub open spec fn can_add(a: ScalarV, b: ScalarV) -> bool {
    match (a, b) {
        (ScalarV::I32(x), ScalarV::I32(y)) => i32::MIN <= x + y <= i32::MAX,
        (ScalarV::I64(x), ScalarV::I64(y)) => i64::MIN <= x + y <= i64::MAX,
        _ => false,
    }
}

/// The sum of two addable scalar values, at their shared width.
pub open spec fn add_spec(a: ScalarV, b: ScalarV) -> ScalarV {
    match (a, b) {
        (ScalarV::I32(x), ScalarV::I32(y)) => ScalarV::I32((x + y) as i32),
        (ScalarV::I64(x), ScalarV::I64(y)) => ScalarV::I64((x + y) as i64),
        _ => ScalarV::Null,
    }
}

/// Add two scalars of one integer width. Any other pair of variants is a
/// caller error and is excluded.
pub fn math_add(x: &Scalar, y: &Scalar) -> (r: Scalar)
    requires
        can_add(x@, y@),
    ensures
        r@ == add_spec(x@, y@),
{
    match (x, y) {
        (Scalar::I32(a), Scalar::I32(b)) => Scalar::I32(*a + *b),
        (Scalar::I64(a), Scalar::I64(b)) => Scalar::I64(*a + *b),
        _ => Scalar::Null,
    }
}

/// A binary operation over scalars, with its mathematical meaning: the
/// element-wise operation `zip_scalar` maps over two columns.
pub trait BinExpr {
    /// On which value pairs the operation is defined.
    spec fn req_spec(&self, a: ScalarV, b: ScalarV) -> bool;

    /// What the operation yields.
    spec fn apply_spec(&self, a: ScalarV, b: ScalarV) -> ScalarV;

    fn apply(&self, a: &Scalar, b: &Scalar) -> (r: Scalar)
        requires
            self.req_spec(a@, b@),
        ensures
            r@ == self.apply_spec(a@, b@),
    ;
}

/// Scalar addition as a binary operation.
pub struct AddOp;

impl BinExpr for AddOp {
    open spec fn req_spec(&self, a: ScalarV, b: ScalarV) -> bool {
        can_add(a, b)
    }

    open spec fn apply_spec(&self, a: ScalarV, b: ScalarV) -> ScalarV {
        add_spec(a, b)
    }

    fn apply(&self, a: &Scalar, b: &Scalar) -> Scalar {
        math_add(a, b)
    }
}

/// Zip the first columns of two relations under a binary operation: a
/// single-column relation of the element-wise results, of the left
/// relation's declared kind, as long as the shorter column.
#[verifier::loop_isolation(false)]
pub fn zip_scalar<F: BinExpr>(x: Data, y: Data, op: &F) -> (r: Data)
    requires
        Relation::wf(&x),
        Relation::wf(&y),
        Relation::width(&x) >= 1,
        Relation::width(&y) >= 1,
        forall|i: int|
            0 <= i < Relation::grid(&x).len() && i < Relation::grid(&y).len() ==> op.req_spec(
                #[trigger] Relation::grid(&x)[i][0],
                Relation::grid(&y)[i][0],
            ),
    ensures
        Relation::wf(&r),
        Relation::sch(&r).len() == 1,
        Relation::sch(&r)[0].kind == Relation::sch(&x)[0].kind,
        Relation::grid(&r).len() == (if Relation::grid(&x).len() <= Relation::grid(&y).len() {
            Relation::grid(&x).len() as int
        } else {
            Relation::grid(&y).len() as int
        }),
        forall|i: int|
            0 <= i < Relation::grid(&r).len() ==> (#[trigger] Relation::grid(&r)[i]) == seq![
                op.apply_spec(Relation::grid(&x)[i][0], Relation::grid(&y)[i][0]),
            ],
{
    proof {
        Relation::wf_facts(&x);
        Relation::wf_facts(&y);
    }
    let a = Relation::col(&x, 0);
    let b = Relation::col(&y, 0);
    proof {
        assert(views_of(a@).len() == a@.len());
        assert(views_of(b@).len() == b@.len());
        assert(a@.len() == Relation::grid(&x).len());
        assert(b@.len() == Relation::grid(&y).len());
    }
    let n = if a.len() <= b.len() {
        a.len()
    } else {
        b.len()
    };
    let mut result: Col = Vec::new();
    let mut i: usize = 0;
    while i < n
        invariant
            i <= n,
            n <= a@.len(),
            n <= b@.len(),
            a@.len() == Relation::grid(&x).len(),
            b@.len() == Relation::grid(&y).len(),
            views_of(a@) == Seq::new(
                Relation::grid(&x).len(),
                |rr: int| Relation::grid(&x)[rr][0],
            ),
            views_of(b@) == Seq::new(
                Relation::grid(&y).len(),
                |rr: int| Relation::grid(&y)[rr][0],
            ),
            forall|j: int|
                0 <= j < Relation::grid(&x).len() && j < Relation::grid(&y).len()
                    ==> op.req_spec(
                    #[trigger] Relation::grid(&x)[j][0],
                    Relation::grid(&y)[j][0],
                ),
            result@.len() == i,
            forall|j: int|
                0 <= j < i ==> (#[trigger] result@[j])@ == op.apply_spec(
                    Relation::grid(&x)[j][0],
                    Relation::grid(&y)[j][0],
                ),
        decreases n - i,
    {
        proof {
            assert(a@[i as int]@ == views_of(a@)[i as int]);
            assert(b@[i as int]@ == views_of(b@)[i as int]);
        }
        let v = op.apply(&a[i], &b[i]);
        result.push(v);
        i = i + 1;
    }
    let kind = x.names.columns[0].kind;
    proof {
        assert(Relation::sch(&x)[0].kind == kind);
    }
    let r = rcol_t("it", kind, result.as_slice());
    proof {
        assert forall|i: int| 0 <= i < Relation::grid(&r).len() implies (
        #[trigger] Relation::grid(&r)[i]) == seq![
            op.apply_spec(Relation::grid(&x)[i][0], Relation::grid(&y)[i][0]),
        ] by {
            assert(Relation::grid(&r)[i] == seq![
                crate::types::x_spec::<Scalar>(result@, i),
            ]);
            assert(result@[i]@ == op.apply_spec(
                Relation::grid(&x)[i][0],
                Relation::grid(&y)[i][0],
            ));
        }
    }
    r
}

} // verus!
