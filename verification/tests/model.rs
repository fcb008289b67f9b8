//! The value model, schemas, storage layout and the generated relation
//! kind, exercised on concrete values.

use tablam_core::operations::{math_add, zip_scalar, AddOp};
use tablam_core::range::Range;
use tablam_core::relation::Relation;
use tablam_core::scalars::{apply_cmp, scalar_eq, scalar_lt, CmpOp, DataType, Scalar};
use tablam_core::schema::Schema;
use tablam_core::types::{
    array, array_empty, array_t, coln, field, hash_column, index, infer_type, infer_types, none,
    rcol, rcol_t, row, row_infer, schema, schema_single, table_cols_infer, value, vec_to_cols,
    write_row, Data, Layout, RowIter,
};

#[test]
fn scalar_equality_and_order() {
    assert!(scalar_eq(&Scalar::I32(3), &Scalar::I32(3)));
    assert!(!scalar_eq(&Scalar::I32(3), &Scalar::I64(3)));
    assert!(scalar_eq(&Scalar::Null, &Scalar::Null));
    assert!(scalar_eq(
        &Scalar::UTF8("ab".to_string()),
        &Scalar::UTF8("ab".to_string())
    ));
    assert!(scalar_lt(&Scalar::I32(2), &Scalar::I32(5)));
    assert!(scalar_lt(
        &Scalar::UTF8("abc".to_string()),
        &Scalar::UTF8("abd".to_string())
    ));
    assert!(scalar_lt(
        &Scalar::UTF8("ab".to_string()),
        &Scalar::UTF8("abc".to_string())
    ));
    assert!(!scalar_lt(&Scalar::I32(5), &Scalar::I32(5)));
    // comparing across variants yields false, never a panic
    assert!(!scalar_lt(&Scalar::I32(1), &Scalar::Bool(true)));
    assert!(apply_cmp(CmpOp::NotEq, &Scalar::I32(1), &Scalar::I32(2)));
    assert!(apply_cmp(CmpOp::LessEq, &Scalar::I32(2), &Scalar::I32(2)));
    assert!(apply_cmp(CmpOp::Greater, &Scalar::I64(9), &Scalar::I64(2)));
    assert!(apply_cmp(CmpOp::GreaterEq, &Scalar::Bool(true), &Scalar::Bool(true)));
    let t1 = Scalar::Tuple(vec![Scalar::I32(1), Scalar::I32(2)]);
    let t2 = Scalar::Tuple(vec![Scalar::I32(1), Scalar::I32(3)]);
    assert!(scalar_lt(&t1, &t2));
    assert!(!scalar_eq(&t1, &t2));
}

#[test]
fn hashing_is_pure() {
    let a = vec![Scalar::I32(1), Scalar::UTF8("x".to_string())];
    let b = vec![Scalar::I32(1), Scalar::UTF8("x".to_string())];
    assert_eq!(hash_column(a), hash_column(b));
    let c = vec![Scalar::I32(1), Scalar::UTF8("y".to_string())];
    let d = vec![Scalar::I32(1), Scalar::UTF8("x".to_string())];
    assert_ne!(hash_column(c), hash_column(d));
    assert_ne!(
        hash_column(vec![Scalar::Null]),
        hash_column(vec![Scalar::Bool(false)])
    );
}

#[test]
fn index_formula_round_trip() {
    // a 2x3 relation in both layouts reads back the same cells
    let cells = vec![
        vec![Scalar::I32(1), Scalar::I32(2), Scalar::I32(3)],
        vec![Scalar::I32(4), Scalar::I32(5), Scalar::I32(6)],
    ];
    let names = schema(&[
        ("a", DataType::I32),
        ("b", DataType::I32),
        ("c", DataType::I32),
    ]);
    let by_rows = Data::new_rows(names.clone(), &cells);
    // offsets are unique and in range
    let mut seen = vec![false; 6];
    for r in 0..2 {
        for c in 0..3 {
            let i = index(&Layout::Row, 3, 2, r, c);
            assert!(i < 6);
            assert!(!seen[i]);
            seen[i] = true;
        }
    }
    // re-project to the other layout and back
    let flat = tablam_core::relation::flat_raw(&by_rows, &Layout::Col);
    let by_cols = Data::new(names.clone(), Layout::Col, 3, 2, flat);
    for r in 0..2 {
        for c in 0..3 {
            assert_eq!(by_rows.value_owned(r, c), by_cols.value_owned(r, c));
        }
    }
    let flat_back = tablam_core::relation::flat_raw(&by_cols, &Layout::Row);
    let again = Data::new(names, Layout::Row, 3, 2, flat_back);
    assert_eq!(by_rows, again);
}

#[test]
fn write_row_places_cells() {
    let mut buf = vec![Scalar::Null; 4];
    write_row(
        &mut buf,
        &Layout::Row,
        2,
        2,
        1,
        vec![Scalar::I32(7), Scalar::I32(8)],
    );
    assert_eq!(buf[2], Scalar::I32(7));
    assert_eq!(buf[3], Scalar::I32(8));
    assert_eq!(buf[0], Scalar::Null);
}

#[test]
fn data_accessors() {
    let names = schema(&[("a", DataType::I32), ("b", DataType::I32)]);
    let d = Data::new_cols(
        names,
        &[
            vec![Scalar::I32(1), Scalar::I32(2)],
            vec![Scalar::I32(10), Scalar::I32(20)],
        ],
    );
    assert_eq!(d.layout, Layout::Col);
    assert_eq!(d.rows, 2);
    assert_eq!(d.cols, 2);
    assert_eq!(d.row_copy(0), vec![Scalar::I32(1), Scalar::I32(10)]);
    assert_eq!(d.col_copy(1), vec![Scalar::I32(10), Scalar::I32(20)]);
    assert_eq!(d.col_slice(0), &[Scalar::I32(1), Scalar::I32(2)]);
    assert_eq!(d.index(1, 1), 3);
    assert_eq!(*d.value_owned(1, 1), Scalar::I32(20));
    let mut it = RowIter::new(d.clone());
    assert_eq!(it.next(), Some(vec![Scalar::I32(1), Scalar::I32(10)]));
    assert_eq!(it.next(), Some(vec![Scalar::I32(2), Scalar::I32(20)]));
    assert_eq!(it.next(), None);
}

#[test]
fn scalar_relation() {
    let d = Data::new_scalar(Scalar::I32(42));
    assert_eq!(d.rows, 1);
    assert_eq!(d.cols, 1);
    assert_eq!(d.names.columns[0].kind, DataType::I32);
    assert_eq!(*d.value_owned(0, 0), Scalar::I32(42));
}

#[test]
fn builders_and_inference() {
    assert_eq!(value(5i64), Scalar::I64(5));
    assert_eq!(value(true), Scalar::Bool(true));
    assert_eq!(value("t".to_string()), Scalar::UTF8("t".to_string()));
    assert_eq!(none(), Scalar::Null);
    assert_eq!(infer_type(&[Scalar::Bool(true)]), DataType::Bool);
    assert_eq!(infer_type(&[]), DataType::Null);
    assert_eq!(
        infer_types(&[Scalar::I32(1), Scalar::Null]),
        vec![DataType::I32, DataType::Null]
    );
    let f = field("n", DataType::I64);
    assert_eq!(f.name, "n");
    let s1 = schema_single("n", DataType::I64);
    assert_eq!(s1.len(), 1);
    let r1 = rcol("n", &[1i32, 2, 3]);
    assert_eq!(r1.rows, 3);
    assert_eq!(r1.names.columns[0].kind, DataType::I32);
    let r2 = rcol_t("n", DataType::I32, &[7i32]);
    assert_eq!(*r2.value_owned(0, 0), Scalar::I32(7));
    let a1 = array(&[1i32, 2]);
    assert_eq!(a1.names.columns[0].name, "it");
    let a2 = array_t(DataType::I64, &[5i64]);
    assert_eq!(a2.names.columns[0].kind, DataType::I64);
    let a3 = array_empty(DataType::Bool);
    assert_eq!(a3.rows, 0);
    let names = schema(&[("x", DataType::I32), ("y", DataType::Bool)]);
    let rw = row(names, &[Scalar::I32(1), Scalar::Bool(false)]);
    assert_eq!(rw.rows, 1);
    assert_eq!(rw.cols, 2);
    let ri = row_infer(&[Scalar::I32(1), Scalar::Bool(false)]);
    assert_eq!(ri.names.columns[0].kind, DataType::I32);
    assert_eq!(ri.names.columns[0].name, "0");
    assert_eq!(ri.names.columns[1].name, "1");
    let cols2 = vec_to_cols(&[Scalar::I32(1), Scalar::I32(2)]);
    assert_eq!(cols2.len(), 2);
    assert_eq!(cols2[0], vec![Scalar::I32(1)]);
    let t = table_cols_infer(&[vec![Scalar::I32(1)], vec![Scalar::Bool(true)]]);
    assert_eq!(t.cols, 2);
    assert_eq!(t.names.columns[1].kind, DataType::Bool);
}

#[test]
fn schema_resolution() {
    let s = schema(&[("a", DataType::I32), ("b", DataType::I64)]);
    assert_eq!(s.resolve_pos(&coln("b")), 1);
    assert_eq!(s.resolve_pos(&tablam_core::types::colp(0)), 0);
    let many = s.resolve_pos_many(&[coln("b"), coln("a")]);
    assert_eq!(many, vec![1, 0]);
    let only = s.only(&[1]);
    assert_eq!(only.columns[0].name, "b");
    let kept = s.except(&[0]);
    assert_eq!(kept, vec![1]);
    let joined = s.join(&schema(&[("b", DataType::I64), ("c", DataType::Bool)]));
    assert_eq!(joined, vec![1]);
    let renamed = s.rename(&[(coln("a"), "z")]);
    assert_eq!(renamed.columns[0].name, "z");
    let ext = s.extend(schema(&[("c", DataType::Bool)]));
    assert_eq!(ext.len(), 3);
    assert!(s.schema_eq(&schema(&[("a", DataType::I32), ("b", DataType::I64)])));
    assert!(!s.schema_eq(&schema(&[("a", DataType::I32)])));
    // duplicate names resolve to the first match
    let dup = schema(&[("a", DataType::I32), ("a", DataType::I64)]);
    assert_eq!(dup.resolve_pos(&coln("a")), 0);
    let gen = Schema::generate(&[DataType::I32, DataType::I64]);
    assert_eq!(gen.columns[0].name, "0");
    assert_eq!(gen.columns[1].name, "1");
}

#[test]
fn generated_relation_equivalence() {
    let r = Range::new(0, 10, 1);
    assert_eq!(r.row_count(), 10);
    assert_eq!(r.col_count(), 1);
    let d = r.materialize();
    assert_eq!(d.rows, 10);
    for i in 0..10usize {
        assert_eq!(*d.value_owned(i, 0), Scalar::ISize(i as isize));
        assert_eq!(Relation::row(&r, i), vec![Scalar::ISize(i as isize)]);
    }
    assert_eq!(d.names.columns.len(), 1);
    let stepped = Range::new(0, 10, 3);
    assert_eq!(stepped.row_count(), 4);
    assert_eq!(Relation::row(&stepped, 3), vec![Scalar::ISize(9)]);
    assert_eq!(Relation::col(&r, 0).len(), 10);
    assert_eq!(Relation::value(&r, 7, 0), Scalar::ISize(7));
    assert_eq!(r.get(5), Some(5));
    assert_eq!(r.get(11), None);
}

#[test]
fn range_union_closed_form() {
    let a = Range::new(0, 5, 1);
    let b = Range::new(3, 10, 1);
    let u = a.union(&b);
    assert_eq!((u.start, u.end, u.step), (0, 10, 1));
    let d = u.materialize();
    let expected = Range::new(0, 10, 1).materialize();
    assert_eq!(d.rows, expected.rows);
    for i in 0..10usize {
        assert_eq!(d.value_owned(i, 0), expected.value_owned(i, 0));
    }
}

#[test]
fn arithmetic_operations() {
    assert_eq!(
        math_add(&Scalar::I32(2), &Scalar::I32(3)),
        Scalar::I32(5)
    );
    assert_eq!(
        math_add(&Scalar::I64(-2), &Scalar::I64(3)),
        Scalar::I64(1)
    );
    let x = rcol_t("n", DataType::I32, &[1i32, 2, 3]);
    let y = rcol_t("n", DataType::I32, &[10i32, 20, 30]);
    let z = zip_scalar(x, y, &AddOp);
    assert_eq!(z.rows, 3);
    assert_eq!(*z.value_owned(0, 0), Scalar::I32(11));
    assert_eq!(*z.value_owned(2, 0), Scalar::I32(33));
    assert_eq!(z.names.columns[0].kind, DataType::I32);
}
