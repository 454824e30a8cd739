use py_polars::agg::Agg;
use py_polars::cell::{Cell, DataType};
use py_polars::error::TableError;
use py_polars::frame::PyDataFrame;
use py_polars::join::JoinType;
use py_polars::series::Series;

fn ints(name: &str, v: &[i64]) -> Series {
    Series::new(name.to_string(), DataType::Int64, v.iter().map(|x| Cell::Int(*x)).collect()).unwrap()
}

fn strs(name: &str, v: &[&str]) -> Series {
    Series::new(
        name.to_string(),
        DataType::Utf8,
        v.iter().map(|x| Cell::Str(x.to_string())).collect(),
    )
    .unwrap()
}

fn bools(name: &str, v: &[Option<bool>]) -> Series {
    Series::new(
        name.to_string(),
        DataType::Bool,
        v.iter().map(|x| match x { Some(b) => Cell::Bool(*b), None => Cell::Null }).collect(),
    )
    .unwrap()
}

fn names(v: &[&str]) -> Vec<String> {
    v.iter().map(|s| s.to_string()).collect()
}

fn col(t: &PyDataFrame, name: &str) -> Vec<Cell> {
    t.column(&name.to_string()).unwrap().to_cells()
}

fn icells(v: &[i64]) -> Vec<Cell> {
    v.iter().map(|x| Cell::Int(*x)).collect()
}

fn scells(v: &[&str]) -> Vec<Cell> {
    v.iter().map(|x| Cell::Str(x.to_string())).collect()
}

fn table_a() -> PyDataFrame {
    PyDataFrame::new(vec![ints("id", &[1, 2, 2, 3]), strs("val", &["a", "b", "c", "d"])]).unwrap()
}

#[test]
fn groupby_count_first_seen_order() {
    let a = table_a();
    let g = a.groupby(&names(&["id"]), None, "count").unwrap();
    assert_eq!(g.columns(), names(&["id", "val_count"]));
    assert_eq!(col(&g, "id"), icells(&[1, 2, 3]));
    assert_eq!(col(&g, "val_count"), icells(&[1, 2, 1]));
}

#[test]
fn groupby_count_sums_to_height() {
    let t = PyDataFrame::new(vec![
        ints("k", &[5, 1, 5, 5, 2, 1]),
        ints("v", &[1, 2, 3, 4, 5, 6]),
    ])
    .unwrap();
    let g = t.groupby(&names(&["k"]), None, "count").unwrap();
    let total: i64 = col(&g, "v_count")
        .iter()
        .map(|c| match c { Cell::Int(x) => *x, _ => 0 })
        .sum();
    assert_eq!(total, t.height() as i64);
    assert_eq!(col(&g, "k"), icells(&[5, 1, 2]));
}

#[test]
fn groupby_sum_min_max_first_last() {
    let t = PyDataFrame::new(vec![
        ints("k", &[1, 2, 1, 2, 1]),
        Series::new(
            "v".to_string(),
            DataType::Int64,
            vec![Cell::Int(4), Cell::Null, Cell::Int(-2), Cell::Null, Cell::Int(7)],
        )
        .unwrap(),
    ])
    .unwrap();
    let s = t.groupby(&names(&["k"]), None, "sum").unwrap();
    assert_eq!(col(&s, "v_sum"), vec![Cell::Int(9), Cell::Null]);
    let mn = t.groupby(&names(&["k"]), None, "min").unwrap();
    assert_eq!(col(&mn, "v_min"), vec![Cell::Int(-2), Cell::Null]);
    let mx = t.groupby(&names(&["k"]), None, "max").unwrap();
    assert_eq!(col(&mx, "v_max"), vec![Cell::Int(7), Cell::Null]);
    let f = t.groupby(&names(&["k"]), None, "first").unwrap();
    assert_eq!(col(&f, "v_first"), vec![Cell::Int(4), Cell::Null]);
    let l = t.groupby(&names(&["k"]), None, "last").unwrap();
    assert_eq!(col(&l, "v_last"), vec![Cell::Int(7), Cell::Null]);
}

#[test]
fn groupby_errors() {
    let a = table_a();
    assert!(matches!(a.groupby(&names(&["id"]), None, "mode"), Err(TableError::UnknownAggregation)));
    assert!(matches!(a.groupby(&names(&["nope"]), None, "count"), Err(TableError::ColumnNotFound(_))));
    assert!(matches!(a.groupby(&names(&["id"]), None, "sum"), Err(TableError::TypeMismatch)));
    let big = PyDataFrame::new(vec![ints("k", &[1, 1]), ints("v", &[i64::MAX, 1])]).unwrap();
    assert!(matches!(big.groupby(&names(&["k"]), None, "sum"), Err(TableError::InvalidArgument)));
    assert!(matches!(Agg::from_name("count"), Ok(Agg::Count)));
}

#[test]
fn groupby_nulls_form_their_own_group() {
    let t = PyDataFrame::new(vec![
        Series::new("k".to_string(), DataType::Int64, vec![Cell::Null, Cell::Int(1), Cell::Null])
            .unwrap(),
        ints("v", &[1, 2, 3]),
    ])
    .unwrap();
    let g = t.groupby_with(&names(&["k"]), Some(names(&["v"])), Agg::Sum).unwrap();
    assert_eq!(col(&g, "k"), vec![Cell::Null, Cell::Int(1)]);
    assert_eq!(col(&g, "v_sum"), icells(&[4, 2]));
}

#[test]
fn melt_single_value_column() {
    let a = table_a();
    let m = a.melt(&names(&["id"]), &names(&["val"])).unwrap();
    assert_eq!(m.height(), 4);
    assert_eq!(m.columns(), names(&["id", "variable", "value"]));
    assert_eq!(col(&m, "id"), icells(&[1, 2, 2, 3]));
    assert_eq!(col(&m, "variable"), scells(&["val", "val", "val", "val"]));
    assert_eq!(col(&m, "value"), scells(&["a", "b", "c", "d"]));
}

#[test]
fn melt_two_value_columns_and_errors() {
    let t = PyDataFrame::new(vec![ints("id", &[1, 2]), ints("x", &[10, 20]), ints("y", &[30, 40])])
        .unwrap();
    let m = t.melt(&names(&["id"]), &names(&["x", "y"])).unwrap();
    assert_eq!(m.height(), 4);
    assert_eq!(col(&m, "id"), icells(&[1, 2, 1, 2]));
    assert_eq!(col(&m, "variable"), scells(&["x", "x", "y", "y"]));
    assert_eq!(col(&m, "value"), icells(&[10, 20, 30, 40]));
    let none = t.melt(&names(&["id"]), &names(&[])).unwrap();
    assert_eq!(none.height(), 0);
    assert_eq!(none.columns(), names(&["id", "variable", "value"]));
    let a = table_a();
    let mixed = a.melt(&names(&[]), &names(&["id", "val"])).unwrap();
    assert_eq!(mixed.dtypes(), vec![DataType::Utf8, DataType::Utf8]);
    assert_eq!(col(&mixed, "value"), scells(&["1", "2", "2", "3", "a", "b", "c", "d"]));
    assert!(matches!(a.melt(&names(&["zz"]), &names(&["val"])), Err(TableError::ColumnNotFound(_))));
}

fn join_inputs() -> (PyDataFrame, PyDataFrame) {
    let l = PyDataFrame::new(vec![ints("k", &[1, 2]), ints("x", &[10, 20])]).unwrap();
    let r = PyDataFrame::new(vec![ints("k", &[2, 3]), ints("y", &[200, 300])]).unwrap();
    (l, r)
}

#[test]
fn inner_join_one_row() {
    let (l, r) = join_inputs();
    let j = l.join(&r, &names(&["k"]), &names(&["k"]), "inner").unwrap();
    assert_eq!(j.height(), 1);
    assert_eq!(j.columns(), names(&["k", "x", "y"]));
    assert_eq!(col(&j, "k"), icells(&[2]));
    assert_eq!(col(&j, "x"), icells(&[20]));
    assert_eq!(col(&j, "y"), icells(&[200]));
}

#[test]
fn left_and_outer_join() {
    let (l, r) = join_inputs();
    let j = l.join(&r, &names(&["k"]), &names(&["k"]), "left").unwrap();
    assert_eq!(col(&j, "k"), icells(&[1, 2]));
    assert_eq!(col(&j, "y"), vec![Cell::Null, Cell::Int(200)]);
    let o = l.join_with(&r, &names(&["k"]), &names(&["k"]), JoinType::Outer).unwrap();
    assert_eq!(col(&o, "k"), icells(&[1, 2, 3]));
    assert_eq!(col(&o, "x"), vec![Cell::Int(10), Cell::Int(20), Cell::Null]);
    assert_eq!(col(&o, "y"), vec![Cell::Null, Cell::Int(200), Cell::Int(300)]);
    let inner = l.join(&r, &names(&["k"]), &names(&["k"]), "inner").unwrap();
    assert!(inner.height() <= j.height() && j.height() <= o.height());
}

#[test]
fn join_duplicates_and_errors() {
    let l = PyDataFrame::new(vec![ints("k", &[1, 1]), ints("x", &[5, 6])]).unwrap();
    let r = PyDataFrame::new(vec![ints("key", &[1, 1, 2]), ints("y", &[7, 8, 9])]).unwrap();
    let j = l.join(&r, &names(&["k"]), &names(&["key"]), "inner").unwrap();
    assert_eq!(col(&j, "x"), icells(&[5, 5, 6, 6]));
    assert_eq!(col(&j, "y"), icells(&[7, 8, 7, 8]));
    assert_eq!(j.columns(), names(&["k", "x", "key", "y"]));
    assert_eq!(col(&j, "key"), icells(&[1, 1, 1, 1]));
    assert!(matches!(l.join(&r, &names(&["k"]), &names(&["key"]), "cross"), Err(TableError::InvalidArgument)));
    assert!(matches!(l.join(&r, &names(&["k"]), &names(&[]), "inner"), Err(TableError::InvalidArgument)));
    assert!(matches!(l.join(&r, &names(&["k"]), &names(&["zz"]), "inner"), Err(TableError::ColumnNotFound(_))));
    let s = PyDataFrame::new(vec![strs("key", &["1"])]).unwrap();
    assert!(matches!(l.join(&s, &names(&["k"]), &names(&["key"]), "left"), Err(TableError::TypeMismatch)));
}

#[test]
fn filter_keeps_true_rows_in_order() {
    let t = table_a();
    let m = bools("m", &[Some(true), Some(false), None, Some(true)]);
    let f = t.filter(&m).unwrap();
    assert_eq!(f.height(), 2);
    assert_eq!(col(&f, "id"), icells(&[1, 3]));
    assert_eq!(col(&f, "val"), scells(&["a", "d"]));
    assert!(matches!(t.filter(&ints("m", &[1, 0, 1, 0])), Err(TableError::TypeMismatch)));
    assert!(matches!(t.filter(&bools("m", &[Some(true)])), Err(TableError::LengthMismatch)));
}

#[test]
fn take_identity_and_repeats() {
    let t = table_a();
    let same = t.take(&vec![0, 1, 2, 3]).unwrap();
    assert!(same.frame_equal(&t, true));
    let r = t.take(&vec![3, 3, 0]).unwrap();
    assert_eq!(col(&r, "val"), scells(&["d", "d", "a"]));
    assert!(matches!(t.take(&vec![4]), Err(TableError::IndexOutOfBounds)));
}

#[test]
fn head_tail_round_trip() {
    let t = table_a();
    for k in 0..=4usize {
        let h = t.head(Some(k));
        let tl = t.tail(Some(4 - k));
        let back = h.vstack(&tl).unwrap();
        assert!(back.frame_equal(&t, true));
    }
    assert_eq!(t.head(None).height(), 4);
    assert_eq!(t.head(Some(9)).height(), 4);
}

#[test]
fn slice_rows() {
    let t = table_a();
    let s = t.slice(1, 2).unwrap();
    assert_eq!(col(&s, "id"), icells(&[2, 2]));
    assert_eq!(t.slice(3, 10).unwrap().height(), 1);
    assert!(matches!(t.slice(5, 1), Err(TableError::IndexOutOfBounds)));
}

#[test]
fn vstack_schema_and_chunks() {
    let t = table_a();
    let mut u = t.duplicate();
    u.vstack_mut(&t).unwrap();
    assert_eq!(u.height(), 8);
    assert_eq!(u.n_chunks(), vec![2, 2]);
    assert_eq!(u.rechunk().n_chunks(), vec![1, 1]);
    let other = PyDataFrame::new(vec![ints("id", &[1]), ints("val", &[1])]).unwrap();
    assert!(matches!(t.vstack(&other), Err(TableError::SchemaMismatch)));
}

#[test]
fn new_table_checks_lengths_and_types() {
    assert!(matches!(
        PyDataFrame::new(vec![ints("a", &[1, 2]), ints("b", &[1])]),
        Err(TableError::LengthMismatch)
    ));
    assert!(matches!(
        Series::new("a".to_string(), DataType::Int64, vec![Cell::Str("x".to_string())]),
        Err(TableError::TypeMismatch)
    ));
    let empty = PyDataFrame::new(vec![]).unwrap();
    assert_eq!(empty.shape(), (0, 0));
    let mut s = ints("a", &[1]);
    s.append(vec![Cell::Int(2), Cell::Null]).unwrap();
    assert_eq!(s.len(), 3);
    assert_eq!(s.n_chunks(), 2);
    assert!(matches!(s.append(vec![Cell::Bool(true)]), Err(TableError::TypeMismatch)));
    assert_eq!(s.to_cells(), vec![Cell::Int(1), Cell::Int(2), Cell::Null]);
}

#[test]
fn select_keeps_table_order() {
    let t = PyDataFrame::new(vec![ints("a", &[1]), ints("b", &[2]), ints("c", &[3])]).unwrap();
    let s = t.select(&names(&["c", "a"])).unwrap();
    assert_eq!(s.columns(), names(&["a", "c"]));
    assert!(matches!(t.select(&names(&["a", "z"])), Err(TableError::ColumnNotFound(_))));
}

#[test]
fn column_lookup_first_match() {
    let t = PyDataFrame::new(vec![ints("a", &[1]), ints("a", &[2])]).unwrap();
    assert_eq!(t.find_idx_by_name(&"a".to_string()), Some(0));
    assert_eq!(col(&t, "a"), icells(&[1]));
    assert_eq!(t.find_idx_by_name(&"q".to_string()), None);
    assert!(t.select_at_idx(1).is_some());
    assert!(t.select_at_idx(2).is_none());
    assert_eq!(t.dtypes(), vec![DataType::Int64, DataType::Int64]);
}

#[test]
fn hstack_and_column_edits() {
    let mut t = table_a();
    assert!(matches!(t.hstack(vec![ints("x", &[1])]), Err(TableError::LengthMismatch)));
    t.hstack_mut(vec![ints("x", &[9, 8, 7, 6])]).unwrap();
    assert_eq!(t.width(), 3);
    t.replace(&"x".to_string(), ints("y", &[0, 0, 0, 0])).unwrap();
    assert_eq!(t.columns(), names(&["id", "val", "y"]));
    assert!(matches!(t.replace_at_idx(5, ints("z", &[1, 2, 3, 4])), Err(TableError::IndexOutOfBounds)));
    assert!(matches!(t.insert_at_idx(0, ints("z", &[1])), Err(TableError::LengthMismatch)));
    t.insert_at_idx(0, ints("z", &[1, 2, 3, 4])).unwrap();
    assert_eq!(t.columns(), names(&["z", "id", "val", "y"]));
    let d = t.drop_in_place(&"val".to_string()).unwrap();
    assert_eq!(d.to_cells(), scells(&["a", "b", "c", "d"]));
    assert_eq!(t.drop(&"y".to_string()).unwrap().columns(), names(&["z", "id"]));
    assert!(matches!(t.drop(&"val".to_string()), Err(TableError::ColumnNotFound(_))));
    t.set_column_names(&names(&["p", "q", "r"])).unwrap();
    assert_eq!(t.columns(), names(&["p", "q", "r"]));
    assert!(matches!(t.set_column_names(&names(&["p"])), Err(TableError::LengthMismatch)));
}

#[test]
fn drop_nulls_subset_and_all() {
    let t = PyDataFrame::new(vec![
        Series::new("a".to_string(), DataType::Int64, vec![Cell::Int(1), Cell::Null, Cell::Int(3)])
            .unwrap(),
        Series::new("b".to_string(), DataType::Int64, vec![Cell::Null, Cell::Int(2), Cell::Int(3)])
            .unwrap(),
    ])
    .unwrap();
    assert_eq!(col(&t.drop_nulls(None).unwrap(), "a"), icells(&[3]));
    assert_eq!(col(&t.drop_nulls(Some(names(&["a"]))).unwrap(), "a"), icells(&[1, 3]));
    assert!(matches!(t.drop_nulls(Some(names(&["c"]))), Err(TableError::ColumnNotFound(_))));
}

#[test]
fn unique_and_duplicated_masks() {
    let t = PyDataFrame::new(vec![ints("a", &[1, 2, 1]), strs("b", &["x", "y", "x"])]).unwrap();
    let u = t.is_unique().to_cells();
    let d = t.is_duplicated().to_cells();
    assert_eq!(u, vec![Cell::Bool(false), Cell::Bool(true), Cell::Bool(false)]);
    assert_eq!(d, vec![Cell::Bool(true), Cell::Bool(false), Cell::Bool(true)]);
    let dd = t.drop_duplicates(true, None).unwrap();
    assert_eq!(col(&dd, "a"), icells(&[1, 2]));
    let by_b = t.drop_duplicates(true, Some(names(&["b"]))).unwrap();
    assert_eq!(by_b.height(), 2);
}

#[test]
fn shift_both_ways() {
    let t = PyDataFrame::new(vec![ints("a", &[1, 2, 3])]).unwrap();
    assert_eq!(col(&t.shift(1), "a"), vec![Cell::Null, Cell::Int(1), Cell::Int(2)]);
    assert_eq!(col(&t.shift(-2), "a"), vec![Cell::Int(3), Cell::Null, Cell::Null]);
    assert_eq!(col(&t.shift(5), "a"), vec![Cell::Null, Cell::Null, Cell::Null]);
}

#[test]
fn fill_none_strategies() {
    let t = PyDataFrame::new(vec![Series::new(
        "a".to_string(),
        DataType::Int64,
        vec![Cell::Null, Cell::Int(4), Cell::Null, Cell::Int(2), Cell::Null],
    )
    .unwrap()])
    .unwrap();
    assert_eq!(
        col(&t.fill_none("forward").unwrap(), "a"),
        vec![Cell::Null, Cell::Int(4), Cell::Int(4), Cell::Int(2), Cell::Int(2)]
    );
    assert_eq!(
        col(&t.fill_none("backward").unwrap(), "a"),
        vec![Cell::Int(4), Cell::Int(4), Cell::Int(2), Cell::Int(2), Cell::Null]
    );
    assert_eq!(col(&t.fill_none("min").unwrap(), "a"), icells(&[2, 4, 2, 2, 2]));
    assert_eq!(col(&t.fill_none("max").unwrap(), "a"), icells(&[4, 4, 4, 2, 4]));
    assert!(matches!(t.fill_none("sideways"), Err(TableError::InvalidArgument)));
}

#[test]
fn arithmetic_by_column_name() {
    let t = PyDataFrame::new(vec![ints("a", &[7, -7, 5, i64::MAX]), strs("s", &["p", "q", "r", "t"])])
        .unwrap();
    let by = ints("a", &[2, 2, 0, 1]);
    assert_eq!(col(&t.add(&by).unwrap(), "a"), vec![Cell::Int(9), Cell::Int(-5), Cell::Int(5), Cell::Null]);
    assert_eq!(col(&t.sub(&by).unwrap(), "a"), icells(&[5, -9, 5, i64::MAX - 1]));
    assert_eq!(col(&t.mul(&by).unwrap(), "a"), icells(&[14, -14, 0, i64::MAX]));
    assert_eq!(col(&t.div(&by).unwrap(), "a"), vec![Cell::Int(3), Cell::Int(-3), Cell::Null, Cell::Int(i64::MAX)]);
    assert_eq!(col(&t.rem(&by).unwrap(), "a"), vec![Cell::Int(1), Cell::Int(-1), Cell::Null, Cell::Int(0)]);
    assert!(matches!(t.add(&ints("b", &[1, 1, 1, 1])), Err(TableError::ColumnNotFound(_))));
    assert!(matches!(t.add(&strs("s", &["x", "x", "x", "x"])), Err(TableError::TypeMismatch)));
    assert!(matches!(t.add(&ints("a", &[1])), Err(TableError::LengthMismatch)));
}

#[test]
fn whole_table_reductions() {
    let t = PyDataFrame::new(vec![ints("a", &[3, -1, 8]), strs("s", &["p", "q", "r"])]).unwrap();
    assert_eq!(col(&t.max(), "a"), icells(&[8]));
    assert_eq!(col(&t.min(), "a"), icells(&[-1]));
    assert_eq!(col(&t.sum().unwrap(), "a"), icells(&[10]));
    assert_eq!(col(&t.max(), "s"), vec![Cell::Null]);
    let big = PyDataFrame::new(vec![ints("a", &[i64::MAX, 1])]).unwrap();
    assert!(matches!(big.sum(), Err(TableError::InvalidArgument)));
}

#[test]
fn groupby_agg_several_reductions() {
    let t = PyDataFrame::new(vec![ints("k", &[1, 2, 1]), ints("v", &[5, 6, 7]), strs("s", &["a", "b", "c"])])
        .unwrap();
    let req = vec![
        ("v".to_string(), names(&["sum", "max"])),
        ("s".to_string(), names(&["last"])),
    ];
    let g = t.groupby_agg(&names(&["k"]), &req).unwrap();
    assert_eq!(g.columns(), names(&["k", "v_sum", "v_max", "s_last"]));
    assert_eq!(col(&g, "v_sum"), icells(&[12, 6]));
    assert_eq!(col(&g, "v_max"), icells(&[7, 6]));
    assert_eq!(col(&g, "s_last"), scells(&["c", "b"]));
    let bad = vec![("v".to_string(), names(&["median"]))];
    assert!(matches!(t.groupby_agg(&names(&["k"]), &bad), Err(TableError::UnknownAggregation)));
}

#[test]
fn take_with_index_column() {
    let t = table_a();
    let r = t.take_with_series(&ints("i", &[2, 0])).unwrap();
    assert_eq!(col(&r, "val"), scells(&["c", "a"]));
    assert!(matches!(t.take_with_series(&ints("i", &[-1])), Err(TableError::IndexOutOfBounds)));
    assert!(matches!(t.take_with_series(&strs("i", &["0"])), Err(TableError::TypeMismatch)));
    let with_null =
        Series::new("i".to_string(), DataType::Int64, vec![Cell::Int(0), Cell::Null]).unwrap();
    assert!(matches!(t.take_with_series(&with_null), Err(TableError::TypeMismatch)));
}

#[test]
fn groupby_n_unique_counts_null_once() {
    let t = PyDataFrame::new(vec![
        ints("k", &[1, 1, 1, 2, 1]),
        Series::new(
            "v".to_string(),
            DataType::Utf8,
            vec![
                Cell::Str("a".to_string()),
                Cell::Null,
                Cell::Str("a".to_string()),
                Cell::Str("b".to_string()),
                Cell::Null,
            ],
        )
        .unwrap(),
    ])
    .unwrap();
    let g = t.groupby(&names(&["k"]), None, "n_unique").unwrap();
    assert_eq!(col(&g, "v_n_unique"), icells(&[2, 1]));
}

#[test]
fn groupby_agg_error_kinds() {
    let t = PyDataFrame::new(vec![ints("k", &[1, 2]), strs("s", &["a", "b"]), ints("v", &[i64::MAX, 1])])
        .unwrap();
    let missing = vec![("z".to_string(), names(&["sum"]))];
    assert!(matches!(t.groupby_agg(&names(&["k"]), &missing), Err(TableError::ColumnNotFound(_))));
    assert!(matches!(t.groupby_agg(&names(&["q"]), &vec![]), Err(TableError::ColumnNotFound(_))));
    let wrong = vec![("s".to_string(), names(&["sum"]))];
    assert!(matches!(t.groupby_agg(&names(&["k"]), &wrong), Err(TableError::TypeMismatch)));
    let empty = t.groupby_agg(&names(&["k"]), &vec![]).unwrap();
    assert_eq!(empty.columns(), names(&["k"]));
}
