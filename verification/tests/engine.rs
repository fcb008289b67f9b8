//! The relational algebra operators, exercised end to end on concrete
//! relations.

use tablam_core::relation::{
    append, cross, deselect, difference, find, find_all, hash_row, hash_rows, intersection, join,
    next, rename, row_only, rows, select, to_data, tuple, union, where_value_late, Cursor, Join,
    RelationBuilder, _bitvector_count, _bitvector_to_pos, _compare_hash, _count_join, _join_late,
};
use tablam_core::scalars::{CmpOp, DataType, Scalar};
use tablam_core::schema::{ColumnName, Schema};
use tablam_core::types::{coln, colp, schema, table_cols, value, Data};

fn sample_ab() -> Data {
    // schema (id: I32, label: UTF8), rows [(1,"x"), (2,"y")]
    let names = schema(&[("id", DataType::I32), ("label", DataType::UTF8)]);
    let rows_data = vec![
        vec![Scalar::I32(1), Scalar::UTF8("x".to_string())],
        vec![Scalar::I32(2), Scalar::UTF8("y".to_string())],
    ];
    Data::new_rows(names, &rows_data)
}

#[test]
fn it_works() {
    assert_eq!(2 + 2, 4);
}

#[test]
fn select_single_column() {
    let a = sample_ab();
    let picked: Data = select(&a, &[coln("id")]);
    assert_eq!(picked.rows, 2);
    assert_eq!(picked.cols, 1);
    assert_eq!(picked.names.columns[0].name, "id");
    assert_eq!(picked.names.columns[0].kind, DataType::I32);
    assert_eq!(*picked.value_owned(0, 0), Scalar::I32(1));
    assert_eq!(*picked.value_owned(1, 0), Scalar::I32(2));
}

#[test]
fn where_value_late_equals() {
    let a = sample_ab();
    let filtered: Data = where_value_late(&a, 0, &Scalar::I32(1), CmpOp::Eq);
    assert_eq!(filtered.rows, 1);
    assert_eq!(filtered.cols, 2);
    assert_eq!(*filtered.value_owned(0, 0), Scalar::I32(1));
    assert_eq!(*filtered.value_owned(0, 1), Scalar::UTF8("x".to_string()));
}

#[test]
fn projection_round_trip() {
    let a = sample_ab();
    // deselect(id) keeps only label; selecting label from that result
    // equals selecting label from the original
    let dropped: Data = deselect(&a, &[coln("id")]);
    let reselected: Data = select(&dropped, &[coln("label")]);
    let direct: Data = select(&a, &[coln("label")]);
    assert_eq!(reselected, direct);
}

#[test]
fn union_cardinality() {
    let a = sample_ab();
    let b = sample_ab();
    let u: Data = union(&a, &b);
    assert_eq!(u.rows, a.rows + b.rows);
    assert_eq!(*u.value_owned(0, 0), Scalar::I32(1));
    assert_eq!(*u.value_owned(2, 0), Scalar::I32(1));
    assert_eq!(*u.value_owned(3, 1), Scalar::UTF8("y".to_string()));
}

fn single_i32_column(name: &str, values: &[i32]) -> Data {
    let names = schema(&[(name, DataType::I32)]);
    let rows_data: Vec<Vec<Scalar>> = values.iter().map(|v| vec![Scalar::I32(*v)]).collect();
    Data::new_rows(names, &rows_data)
}

#[test]
fn set_algebra_sanity() {
    let a = single_i32_column("n", &[1, 2, 3, 4]);
    let b = single_i32_column("n", &[2, 3]);
    let i: Data = intersection(&a, &b);
    assert_eq!(i.rows, 2);
    assert_eq!(*i.value_owned(0, 0), Scalar::I32(2));
    assert_eq!(*i.value_owned(1, 0), Scalar::I32(3));
    // the engine's difference is symmetric: (B \ A) then (A \ B)
    let d: Data = difference(&a, &b);
    assert_eq!(d.rows, 2);
    assert_eq!(*d.value_owned(0, 0), Scalar::I32(1));
    assert_eq!(*d.value_owned(1, 0), Scalar::I32(4));
}

#[test]
fn hash_stability() {
    let a = single_i32_column("n", &[1, 2, 3, 4]);
    let b = single_i32_column("n", &[1, 2, 3, 4]);
    for r in 0..4 {
        assert_eq!(hash_row(&a, r), hash_row(&b, r));
    }
    assert_ne!(hash_row(&a, 0), hash_row(&a, 1));
    let m = hash_rows(&a);
    assert_eq!(m.len(), 4);
}

#[test]
fn compare_hash_markers() {
    let a = single_i32_column("n", &[1, 2, 3, 4]);
    let b = single_i32_column("n", &[2, 3, 9]);
    let (found, not_found) = _compare_hash(&a, &b, true);
    assert_eq!(found, vec![true, true, false]);
    assert_eq!(not_found, 1);
    let (absent, present) = _compare_hash(&a, &b, false);
    assert_eq!(absent, vec![false, false, true]);
    assert_eq!(present, 2);
}

#[test]
fn bit_marker_helpers() {
    let marks = vec![true, false, true];
    let (trues, falses) = _bitvector_count(&marks);
    assert_eq!((trues, falses), (2, 1));
    assert_eq!(_count_join(&marks, true), 1);
    assert_eq!(_count_join(&marks, false), 0);
    assert_eq!(_bitvector_to_pos(&marks), vec![0isize, -1, 2]);
}

#[test]
fn inner_join_pairs() {
    let a = single_i32_column("id", &[1, 2, 2]);
    let b = sample_ab();
    // join on a.id == b.id; b's non-duplicate column is label
    let j: Data = join(&a, &b, Join::Inner, &[0], &[0], CmpOp::Eq);
    assert_eq!(j.cols, 2);
    assert_eq!(j.rows, 3);
    assert!(j.rows <= a.rows * b.rows);
    assert_eq!(*j.value_owned(0, 0), Scalar::I32(1));
    assert_eq!(*j.value_owned(0, 1), Scalar::UTF8("x".to_string()));
    assert_eq!(*j.value_owned(1, 0), Scalar::I32(2));
    assert_eq!(*j.value_owned(1, 1), Scalar::UTF8("y".to_string()));
    assert_eq!(*j.value_owned(2, 1), Scalar::UTF8("y".to_string()));
}

#[test]
fn left_join_keeps_unmatched() {
    let a = single_i32_column("id", &[1, 7]);
    let b = sample_ab();
    let j: Data = join(&a, &b, Join::Left, &[0], &[0], CmpOp::Eq);
    // every row of a appears: 1 matched, 7 padded with a null label
    assert_eq!(j.rows, 2);
    assert_eq!(*j.value_owned(0, 0), Scalar::I32(1));
    assert_eq!(*j.value_owned(0, 1), Scalar::UTF8("x".to_string()));
    assert_eq!(*j.value_owned(1, 0), Scalar::I32(7));
    assert_eq!(*j.value_owned(1, 1), Scalar::Null);
}

#[test]
fn full_join_pads_both_sides() {
    let a = single_i32_column("id", &[1, 7]);
    let b = sample_ab();
    let j: Data = join(&a, &b, Join::Full, &[0], &[0], CmpOp::Eq);
    // (1,"x"), (7, null), then unmatched right row 2 as (null, "y")
    assert_eq!(j.rows, 3);
    assert_eq!(*j.value_owned(2, 0), Scalar::Null);
    assert_eq!(*j.value_owned(2, 1), Scalar::UTF8("y".to_string()));
}

#[test]
fn join_late_markers() {
    let a = single_i32_column("id", &[1, 7]);
    let b = sample_ab();
    let (left_m, right_m) = _join_late(&a, &b, &[0], &[0], CmpOp::Eq);
    assert_eq!(left_m, vec![true, false]);
    assert_eq!(right_m, vec![true, false]);
}

#[test]
fn cross_product() {
    let a = single_i32_column("id", &[1, 2]);
    let b = single_i32_column("other", &[10, 20, 30]);
    let c: Data = cross(&a, &b);
    assert_eq!(c.rows, 6);
    assert_eq!(c.cols, 2);
    assert_eq!(*c.value_owned(0, 0), Scalar::I32(1));
    assert_eq!(*c.value_owned(0, 1), Scalar::I32(10));
    assert_eq!(*c.value_owned(5, 0), Scalar::I32(2));
    assert_eq!(*c.value_owned(5, 1), Scalar::I32(30));
}

#[test]
fn append_forces_row_major() {
    let a = single_i32_column("n", &[1]);
    let b = single_i32_column("n", &[2]);
    let r: Data = append(&a, &b);
    assert_eq!(r.layout, tablam_core::types::Layout::Row);
    assert_eq!(r.rows, 2);
    assert_eq!(*r.value_owned(0, 0), Scalar::I32(1));
    assert_eq!(*r.value_owned(1, 0), Scalar::I32(2));
}

#[test]
fn rename_changes_schema_only() {
    let a = sample_ab();
    let r: Data = rename(&a, &[(coln("id"), "key")]);
    assert_eq!(r.names.columns[0].name, "key");
    assert_eq!(r.names.columns[1].name, "label");
    assert_eq!(*r.value_owned(0, 0), Scalar::I32(1));
    let p: Data = rename(&a, &[(colp(1), "text")]);
    assert_eq!(p.names.columns[1].name, "text");
}

#[test]
fn cursor_and_scan() {
    let a = single_i32_column("n", &[5, 6, 5]);
    let mut cursor = Cursor::new(0, 3);
    assert!(!cursor.eof());
    assert_eq!(next(&a, &mut cursor), Some(0));
    let mut c2 = Cursor::new(0, 3);
    assert_eq!(find(&a, &mut c2, 0, &Scalar::I32(6), CmpOp::Eq), Some(1));
    assert_eq!(find(&a, &mut c2, 0, &Scalar::I32(6), CmpOp::Eq), None);
    assert_eq!(find_all(&a, 0, 0, &Scalar::I32(5), CmpOp::Eq), vec![0, 2]);
    let mut c3 = Cursor::new(1, 3);
    c3.set(2);
    c3.next();
    assert!(c3.eof());
}

#[test]
fn row_helpers() {
    let a = sample_ab();
    let all = rows(&a);
    assert_eq!(all.len(), 2);
    assert_eq!(all[0], vec![Scalar::I32(1), Scalar::UTF8("x".to_string())]);
    let only = row_only(&a, 1, &[1]);
    assert_eq!(only, vec![Scalar::UTF8("y".to_string())]);
    let t = tuple(&a, 0, &[0, 1]);
    assert_eq!(
        t,
        Scalar::Tuple(vec![Scalar::I32(1), Scalar::UTF8("x".to_string())])
    );
}

#[test]
fn generic_ops_work_on_generated_relations() {
    let r = tablam_core::range::Range::new(0, 4, 1);
    // a generated relation materialized through the same primitives
    let d: Data = to_data(&r);
    assert_eq!(d.rows, 4);
    let m = hash_rows(&r);
    assert_eq!(m.len(), 4);
    // closure under filtering goes through the materialized kind
    let filtered: Data = where_value_late(&d, 0, &Scalar::ISize(2), CmpOp::Eq);
    assert_eq!(filtered.rows, 1);
    assert_eq!(*filtered.value_owned(0, 0), Scalar::ISize(2));
}

#[test]
fn builder_surface() {
    let names = schema(&[("id", DataType::I32)]);
    let t: Data = table_cols(names, &[vec![Scalar::I32(3), Scalar::I32(4)]]);
    assert_eq!(t.rows, 2);
    assert_eq!(*t.value_owned(1, 0), Scalar::I32(4));
    let e: Data = RelationBuilder::empty(Schema::new(vec![]));
    assert_eq!(e.rows, 0);
    let v = value(9i32);
    assert_eq!(v, Scalar::I32(9));
    assert_eq!(coln("id"), ColumnName::Name("id".to_string()));
}

#[test]
fn ordering_filter() {
    let a = single_i32_column("n", &[5, 1, 9, 3]);
    let small: Data = where_value_late(&a, 0, &Scalar::I32(4), CmpOp::Less);
    assert_eq!(small.rows, 2);
    assert_eq!(*small.value_owned(0, 0), Scalar::I32(1));
    assert_eq!(*small.value_owned(1, 0), Scalar::I32(3));
}

#[test]
fn symmetric_difference_both_sides() {
    let a = single_i32_column("n", &[1, 2]);
    let b = single_i32_column("n", &[2, 5]);
    // right-not-in-left first, then left-not-in-right
    let d: Data = difference(&a, &b);
    assert_eq!(d.rows, 2);
    assert_eq!(*d.value_owned(0, 0), Scalar::I32(5));
    assert_eq!(*d.value_owned(1, 0), Scalar::I32(1));
}

#[test]
fn empty_operand_algebra() {
    let a = single_i32_column("n", &[1, 2]);
    let names = tablam_core::types::schema(&[("n", DataType::I32)]);
    let e: Data = Data::empty(names, tablam_core::types::Layout::Row);
    let u: Data = union(&a, &e);
    assert_eq!(u.rows, 2);
    let i: Data = intersection(&e, &a);
    assert_eq!(i.rows, 0);
    let c: Data = cross(&e, &a);
    assert_eq!(c.rows, 0);
}
