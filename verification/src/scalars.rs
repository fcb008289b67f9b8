//! The scalar value model: a closed tagged union of the engine's cell values,
//! its mathematical view, and total equality / ordering / hashing over it.

use vstd::prelude::*;
use vstd::string::StrSliceExecFns;

verus! {

/// Tag of a scalar variant; schemas declare column types with these.
#[derive(Clone, Copy, Debug, PartialEq, Eq, Structural)]
pub enum DataType {
    I32,
    I64,
    ISize,
    Bool,
    UTF8,
    Tuple,
    Null,
}

/// Mathematical value of a scalar: text as a character sequence, composite
/// tuples as sequences of scalar values.
pub ghost enum ScalarV {
    I32(i32),
    I64(i64),
    ISize(isize),
    Bool(bool),
    Text(Seq<char>),
    Tuple(Seq<ScalarV>),
    Null,
}

/// One cell value: signed integers of three widths, boolean, UTF-8 text, the
/// absence marker (the relational null), or a composite tuple of scalars
/// (used for multi-column join keys).
#[derive(Debug, PartialEq)]
pub enum Scalar {
    I32(i32),
    I64(i64),
    ISize(isize),
    Bool(bool),
    UTF8(String),
    Tuple(Vec<Scalar>),
    Null,
}

/// Mathematical value of a scalar.
pub open spec fn scalar_view(s: Scalar) -> ScalarV
    decreases s,
{
    match s {
        Scalar::I32(x) => ScalarV::I32(x),
        Scalar::I64(x) => ScalarV::I64(x),
        Scalar::ISize(x) => ScalarV::ISize(x),
        Scalar::Bool(x) => ScalarV::Bool(x),
        Scalar::UTF8(t) => ScalarV::Text(t@),
        Scalar::Tuple(v) => ScalarV::Tuple(tuple_view(v@)),
        Scalar::Null => ScalarV::Null,
    }
}

/// Views of the elements of a tuple, defined recursively so that
/// `scalar_view` has a decreasing measure.
pub open spec fn tuple_view(v: Seq<Scalar>) -> Seq<ScalarV>
    decreases v,
{
    if v.len() <= 0 {
        Seq::empty()
    } else {
        tuple_view(v.drop_last()).push(scalar_view(v.last()))
    }
}

/// Views of a sequence of scalars, cell by cell.
pub open spec fn views_of(s: Seq<Scalar>) -> Seq<ScalarV> {
    s.map_values(|x: Scalar| scalar_view(x))
}

/// `tuple_view` is exactly the cell-by-cell view of the sequence.
pub broadcast proof fn lemma_tuple_view(v: Seq<Scalar>)
    ensures
        #[trigger] tuple_view(v) == views_of(v),
        tuple_view(v).len() == v.len(),
        forall|i: int| 0 <= i < v.len() ==> tuple_view(v)[i] == scalar_view(v[i]),
    decreases v.len(),
{
    if v.len() > 0 {
        lemma_tuple_view(v.drop_last());
    }
    assert(tuple_view(v) =~= views_of(v));
}

impl View for Scalar {
    type V = ScalarV;

    open spec fn view(&self) -> ScalarV {
        scalar_view(*self)
    }
}

impl Scalar {
    /// The variant tag of this scalar.
    pub open spec fn kind_spec(&self) -> DataType {
        match self {
            Scalar::I32(_) => DataType::I32,
            Scalar::I64(_) => DataType::I64,
            Scalar::ISize(_) => DataType::ISize,
            Scalar::Bool(_) => DataType::Bool,
            Scalar::UTF8(_) => DataType::UTF8,
            Scalar::Tuple(_) => DataType::Tuple,
            Scalar::Null => DataType::Null,
        }
    }

    pub fn kind(&self) -> (k: DataType)
        ensures
            k == self.kind_spec(),
    {
        match self {
            Scalar::I32(_) => DataType::I32,
            Scalar::I64(_) => DataType::I64,
            Scalar::ISize(_) => DataType::ISize,
            Scalar::Bool(_) => DataType::Bool,
            Scalar::UTF8(_) => DataType::UTF8,
            Scalar::Tuple(_) => DataType::Tuple,
            Scalar::Null => DataType::Null,
        }
    }
}

impl Clone for Scalar {
    #[verifier::loop_isolation(false)]
    fn clone(&self) -> (r: Self)
        ensures
            r@ == self@,
        decreases *self,
    {
        broadcast use lemma_tuple_view;

        match self {
            Scalar::I32(x) => Scalar::I32(*x),
            Scalar::I64(x) => Scalar::I64(*x),
            Scalar::ISize(x) => Scalar::ISize(*x),
            Scalar::Bool(x) => Scalar::Bool(*x),
            Scalar::UTF8(s) => Scalar::UTF8(s.clone()),
            Scalar::Tuple(v) => {
                let mut out: Vec<Scalar> = Vec::new();
                let mut i: usize = 0;
                while i < v.len()
                    invariant
                        i <= v.len(),
                        *self == Scalar::Tuple(*v),
                        out@.len() == i,
                        forall|j: int| 0 <= j < i ==> (#[trigger] out@[j])@ == v@[j]@,
                    decreases v.len() - i,
                {
                    proof {
                        assert(decreases_to!(*self => self->Tuple_0));
                        assert(decreases_to!(*v => v@));
                        assert(decreases_to!(v@ => v@[i as int]));
                        assert(decreases_to!(*self => v@[i as int]));
                    }
                    let c = v[i].clone();
                    out.push(c);
                    i = i + 1;
                }
                proof {
                    assert(tuple_view(out@) =~= tuple_view(v@));
                }
                Scalar::Tuple(out)
            },
            Scalar::Null => Scalar::Null,
        }
    }
}

/// Structural equality of two scalars: equality of their mathematical views.
#[verifier::loop_isolation(false)]
pub fn scalar_eq(a: &Scalar, b: &Scalar) -> (r: bool)
    ensures
        r == (a@ == b@),
    decreases *a,
{
    broadcast use lemma_tuple_view;

    match (a, b) {
        (Scalar::I32(x), Scalar::I32(y)) => x == y,
        (Scalar::I64(x), Scalar::I64(y)) => x == y,
        (Scalar::ISize(x), Scalar::ISize(y)) => x == y,
        (Scalar::Bool(x), Scalar::Bool(y)) => (*x && *y) || (!*x && !*y),
        (Scalar::UTF8(x), Scalar::UTF8(y)) => *x == *y,
        (Scalar::Tuple(x), Scalar::Tuple(y)) => {
            if x.len() != y.len() {
                proof {
                    assert(tuple_view(x@).len() != tuple_view(y@).len());
                }
                false
            } else {
                let mut i: usize = 0;
                while i < x.len()
                    invariant
                        i <= x.len(),
                        x@.len() == y@.len(),
                        *a == Scalar::Tuple(*x),
                        *b == Scalar::Tuple(*y),
                        forall|j: int| 0 <= j < i ==> scalar_view(x@[j]) == scalar_view(y@[j]),
                    decreases x.len() - i,
                {
                    proof {
                        assert(decreases_to!(*a => a->Tuple_0));
                        assert(decreases_to!(*x => x@));
                        assert(decreases_to!(x@ => x@[i as int]));
                        assert(decreases_to!(*a => x@[i as int]));
                    }
                    if !scalar_eq(&x[i], &y[i]) {
                        proof {
                            assert(tuple_view(x@)[i as int] != tuple_view(y@)[i as int]);
                        }
                        return false;
                    }
                    i = i + 1;
                }
                proof {
                    assert(tuple_view(x@) =~= tuple_view(y@));
                }
                true
            }
        },
        (Scalar::Null, Scalar::Null) => true,
        _ => false,
    }
}

/// Lexicographic order on character sequences, by code point.
pub open spec fn chars_lt(a: Seq<char>, b: Seq<char>) -> bool
    decreases a.len(),
{
    if b.len() == 0 {
        false
    } else if a.len() == 0 {
        true
    } else if a[0] != b[0] {
        (a[0] as u32) < (b[0] as u32)
    } else {
        chars_lt(a.drop_first(), b.drop_first())
    }
}

/// Strict order on scalar values. It is meaningful only between values of the
/// same variant: integers and booleans by magnitude, text and tuples
/// lexicographically; comparing across variants yields `false`.
pub open spec fn scalar_v_lt(a: ScalarV, b: ScalarV) -> bool
    decreases a,
{
    match (a, b) {
        (ScalarV::I32(x), ScalarV::I32(y)) => x < y,
        (ScalarV::I64(x), ScalarV::I64(y)) => x < y,
        (ScalarV::ISize(x), ScalarV::ISize(y)) => x < y,
        (ScalarV::Bool(x), ScalarV::Bool(y)) => !x && y,
        (ScalarV::Text(x), ScalarV::Text(y)) => chars_lt(x, y),
        (ScalarV::Tuple(x), ScalarV::Tuple(y)) => tuple_lt(x, y),
        _ => false,
    }
}

/// Lexicographic order on tuples of scalar values.
pub open spec fn tuple_lt(x: Seq<ScalarV>, y: Seq<ScalarV>) -> bool
    decreases x,
{
    if y.len() == 0 {
        false
    } else if x.len() == 0 {
        true
    } else if x[0] != y[0] {
        scalar_v_lt(x[0], y[0])
    } else {
        tuple_lt(x.drop_first(), y.drop_first())
    }
}

/// Lexicographic comparison of two strings, by code point.
#[verifier::loop_isolation(false)]
fn str_lt(x: &String, y: &String) -> (r: bool)
    ensures
        r == chars_lt(x@, y@),
{
    let xs = x.as_str();
    let ys = y.as_str();
    let xlen = xs.unicode_len();
    let ylen = ys.unicode_len();
    let mut i: usize = 0;
    proof {
        assert(x@.skip(0) =~= x@);
        assert(y@.skip(0) =~= y@);
    }
    loop
        invariant
            i <= xlen,
            i <= ylen,
            xlen == x@.len(),
            ylen == y@.len(),
            xs@ == x@,
            ys@ == y@,
            chars_lt(x@, y@) == chars_lt(x@.skip(i as int), y@.skip(i as int)),
        decreases xlen - i,
    {
        if i >= ylen {
            proof {
                assert(y@.skip(i as int).len() == 0);
            }
            return false;
        }
        if i >= xlen {
            proof {
                assert(x@.skip(i as int).len() == 0);
            }
            return true;
        }
        let cx = xs.get_char(i);
        let cy = ys.get_char(i);
        proof {
            assert(x@.skip(i as int)[0] == x@[i as int]);
            assert(y@.skip(i as int)[0] == y@[i as int]);
        }
        if cx != cy {
            return (cx as u32) < (cy as u32);
        }
        proof {
            assert(x@.skip(i as int).drop_first() =~= x@.skip(i as int + 1));
            assert(y@.skip(i as int).drop_first() =~= y@.skip(i as int + 1));
        }
        i = i + 1;
    }
}

/// Strict order on scalars: `scalar_v_lt` over the views.
#[verifier::loop_isolation(false)]
pub fn scalar_lt(a: &Scalar, b: &Scalar) -> (r: bool)
    ensures
        r == scalar_v_lt(a@, b@),
    decreases *a,
{
    broadcast use lemma_tuple_view;

    match (a, b) {
        (Scalar::I32(x), Scalar::I32(y)) => x < y,
        (Scalar::I64(x), Scalar::I64(y)) => x < y,
        (Scalar::ISize(x), Scalar::ISize(y)) => x < y,
        (Scalar::Bool(x), Scalar::Bool(y)) => !*x && *y,
        (Scalar::UTF8(x), Scalar::UTF8(y)) => str_lt(x, y),
        (Scalar::Tuple(x), Scalar::Tuple(y)) => {
            let ghost xv = tuple_view(x@);
            let ghost yv = tuple_view(y@);
            let mut i: usize = 0;
            proof {
                assert(xv.skip(0) =~= xv);
                assert(yv.skip(0) =~= yv);
            }
            loop
                invariant
                    i <= x@.len(),
                    i <= y@.len(),
                    *a == Scalar::Tuple(*x),
                    *b == Scalar::Tuple(*y),
                    xv == tuple_view(x@),
                    yv == tuple_view(y@),
                    tuple_lt(xv, yv) == tuple_lt(xv.skip(i as int), yv.skip(i as int)),
                decreases x@.len() - i,
            {
                if i >= y.len() {
                    proof {
                        assert(yv.skip(i as int).len() == 0);
                    }
                    return false;
                }
                if i >= x.len() {
                    proof {
                        assert(xv.skip(i as int).len() == 0);
                    }
                    return true;
                }
                proof {
                    assert(xv.skip(i as int)[0] == xv[i as int]);
                    assert(yv.skip(i as int)[0] == yv[i as int]);
                    assert(decreases_to!(*a => a->Tuple_0));
                    assert(decreases_to!(*x => x@));
                    assert(decreases_to!(x@ => x@[i as int]));
                    assert(decreases_to!(*a => x@[i as int]));
                }
                if !scalar_eq(&x[i], &y[i]) {
                    return scalar_lt(&x[i], &y[i]);
                }
                proof {
                    assert(xv.skip(i as int).drop_first() =~= xv.skip(i as int + 1));
                    assert(yv.skip(i as int).drop_first() =~= yv.skip(i as int + 1));
                }
                i = i + 1;
            }
        },
        _ => false,
    }
}

/// A comparison operator for predicate-driven scans and joins.
#[derive(Clone, Copy, Debug, PartialEq, Eq, Structural)]
pub enum CmpOp {
    Eq,
    NotEq,
    Less,
    LessEq,
    Greater,
    GreaterEq,
}

/// What a comparison operator means over scalar values.
pub open spec fn spec_cmp(op: CmpOp, a: ScalarV, b: ScalarV) -> bool {
    match op {
        CmpOp::Eq => a == b,
        CmpOp::NotEq => a != b,
        CmpOp::Less => scalar_v_lt(a, b),
        CmpOp::LessEq => scalar_v_lt(a, b) || a == b,
        CmpOp::Greater => scalar_v_lt(b, a),
        CmpOp::GreaterEq => scalar_v_lt(b, a) || a == b,
    }
}

/// Apply a comparison operator to two scalars.
pub fn apply_cmp(op: CmpOp, a: &Scalar, b: &Scalar) -> (r: bool)
    ensures
        r == spec_cmp(op, a@, b@),
{
    match op {
        CmpOp::Eq => scalar_eq(a, b),
        CmpOp::NotEq => !scalar_eq(a, b),
        CmpOp::Less => scalar_lt(a, b),
        CmpOp::LessEq => scalar_lt(a, b) || scalar_eq(a, b),
        CmpOp::Greater => scalar_lt(b, a),
        CmpOp::GreaterEq => scalar_lt(b, a) || scalar_eq(a, b),
    }
}

/// Seed of the 64-bit FNV-1a hash.
pub const FNV_OFFSET: u64 = 0xcbf29ce484222325;

/// Multiplier of the 64-bit FNV-1a hash.
pub const FNV_PRIME: u64 = 0x100000001b3;

/// One FNV-1a mixing step: fold a 64-bit chunk into the running hash.
pub open spec fn mix(h: u64, v: u64) -> u64 {
    vstd::wrapping::u64_specs::wrapping_mul(h ^ v, FNV_PRIME)
}

/// The 64-bit image of a signed 64-bit value, two's complement.
pub open spec fn u64_of_i64(x: i64) -> u64 {
    if x >= 0 {
        x as u64
    } else {
        (x + 0x10000000000000000) as u64
    }
}

fn u64_image(x: i64) -> (r: u64)
    ensures
        r == u64_of_i64(x),
{
    if x >= 0 {
        x as u64
    } else {
        ((x as i128) + 0x10000000000000000i128) as u64
    }
}

/// Hash of a character sequence folded into a running hash.
pub open spec fn hash_chars(h: u64, t: Seq<char>) -> u64
    decreases t.len(),
{
    if t.len() == 0 {
        h
    } else {
        hash_chars(mix(h, t[0] as u64), t.drop_first())
    }
}

/// Hash of one scalar value folded into a running hash: a variant tag, then
/// the payload. Defined over every variant, the absence marker included.
pub open spec fn hash_scalar_v(h: u64, s: ScalarV) -> u64
    decreases s,
{
    match s {
        ScalarV::I32(x) => mix(mix(h, 1), u64_of_i64(x as i64)),
        ScalarV::I64(x) => mix(mix(h, 2), u64_of_i64(x)),
        ScalarV::ISize(x) => mix(mix(h, 3), u64_of_i64(x as i64)),
        ScalarV::Bool(x) => mix(
            mix(h, 4),
            if x {
                1
            } else {
                0
            },
        ),
        ScalarV::Text(t) => mix(hash_chars(mix(h, 5), t), 8),
        ScalarV::Tuple(v) => mix(hash_tuple_v(mix(h, 6), v), 9),
        ScalarV::Null => mix(h, 7),
    }
}

/// Hash of a sequence of scalar values folded into a running hash.
pub open spec fn hash_tuple_v(h: u64, v: Seq<ScalarV>) -> u64
    decreases v,
{
    if v.len() == 0 {
        h
    } else {
        hash_tuple_v(hash_scalar_v(h, v[0]), v.drop_first())
    }
}

/// 64-bit hash of a row's scalar sequence: a pure function of the views.
pub open spec fn hash_row_spec(row: Seq<ScalarV>) -> u64 {
    hash_tuple_v(FNV_OFFSET, row)
}

/// Equal scalar sequences always hash identically: the hash is a pure
/// function of a row's mathematical value.
pub proof fn lemma_hash_row_stable(a: Seq<ScalarV>, b: Seq<ScalarV>)
    requires
        a == b,
    ensures
        hash_row_spec(a) == hash_row_spec(b),
{
}

fn mix_hash(h: u64, v: u64) -> (r: u64)
    ensures
        r == mix(h, v),
{
    (h ^ v).wrapping_mul(FNV_PRIME)
}

#[verifier::loop_isolation(false)]
fn hash_str(h: u64, s: &String) -> (r: u64)
    ensures
        r == hash_chars(h, s@),
{
    let st = s.as_str();
    let n = st.unicode_len();
    let mut acc = h;
    let mut i: usize = 0;
    proof {
        assert(s@.skip(0) =~= s@);
    }
    while i < n
        invariant
            i <= n,
            n == s@.len(),
            st@ == s@,
            hash_chars(h, s@) == hash_chars(acc, s@.skip(i as int)),
        decreases n - i,
    {
        let c = st.get_char(i);
        proof {
            assert(s@.skip(i as int)[0] == s@[i as int]);
            assert(s@.skip(i as int).drop_first() =~= s@.skip(i as int + 1));
        }
        acc = mix_hash(acc, c as u64);
        i = i + 1;
    }
    proof {
        assert(s@.skip(n as int) =~= Seq::<char>::empty());
    }
    acc
}

/// Fold one scalar into a running 64-bit hash.
#[verifier::loop_isolation(false)]
pub fn hash_scalar(h: u64, s: &Scalar) -> (r: u64)
    ensures
        r == hash_scalar_v(h, s@),
    decreases *s,
{
    broadcast use lemma_tuple_view;

    match s {
        Scalar::I32(x) => mix_hash(mix_hash(h, 1), u64_image(*x as i64)),
        Scalar::I64(x) => mix_hash(mix_hash(h, 2), u64_image(*x)),
        Scalar::ISize(x) => mix_hash(mix_hash(h, 3), u64_image(*x as i64)),
        Scalar::Bool(x) => mix_hash(mix_hash(h, 4), if *x { 1 } else { 0 }),
        Scalar::UTF8(t) => mix_hash(hash_str(mix_hash(h, 5), t), 8),
        Scalar::Tuple(v) => {
            let ghost vv = tuple_view(v@);
            let mut acc = mix_hash(h, 6);
            let ghost h0 = acc;
            let mut i: usize = 0;
            proof {
                assert(vv.skip(0) =~= vv);
            }
            while i < v.len()
                invariant
                    i <= v.len(),
                    *s == Scalar::Tuple(*v),
                    vv == tuple_view(v@),
                    hash_tuple_v(h0, vv) == hash_tuple_v(acc, vv.skip(i as int)),
                decreases v.len() - i,
            {
                proof {
                    assert(vv.skip(i as int)[0] == vv[i as int]);
                    assert(vv.skip(i as int).drop_first() =~= vv.skip(i as int + 1));
                    assert(decreases_to!(*s => s->Tuple_0));
                    assert(decreases_to!(*v => v@));
                    assert(decreases_to!(v@ => v@[i as int]));
                    assert(decreases_to!(*s => v@[i as int]));
                }
                acc = hash_scalar(acc, &v[i]);
                i = i + 1;
            }
            proof {
                assert(vv.skip(v@.len() as int) =~= Seq::<ScalarV>::empty());
            }
            mix_hash(acc, 9)
        },
        Scalar::Null => mix_hash(h, 7),
    }
}

} // verus!
