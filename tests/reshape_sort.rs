use py_polars::cell::{Cell, DataType};
use py_polars::error::TableError;
use py_polars::frame::PyDataFrame;
use py_polars::series::Series;

fn ints(name: &str, v: &[i64]) -> Series {
    Series::new(name.to_string(), DataType::Int64, v.iter().map(|x| Cell::Int(*x)).collect()).unwrap()
}

fn strs(name: &str, v: &[&str]) -> Series {
    Series::new(name.to_string(), DataType::Utf8, v.iter().map(|x| Cell::Str(x.to_string())).collect())
        .unwrap()
}

fn col(t: &PyDataFrame, name: &str) -> Vec<Cell> {
    t.column(&name.to_string()).unwrap().to_cells()
}

fn icells(v: &[i64]) -> Vec<Cell> {
    v.iter().map(|x| Cell::Int(*x)).collect()
}

#[test]
fn pivot_sums_per_group_and_value() {
    let t = PyDataFrame::new(vec![
        ints("g", &[1, 1, 2, 1]),
        strs("p", &["x", "y", "x", "x"]),
        ints("v", &[1, 2, 3, 4]),
    ])
    .unwrap();
    let r = t.pivot(&vec!["g".to_string()], &"p".to_string(), &"v".to_string(), "sum").unwrap();
    assert_eq!(r.columns(), vec!["g".to_string(), "x".to_string(), "y".to_string()]);
    assert_eq!(col(&r, "g"), icells(&[1, 2]));
    assert_eq!(col(&r, "x"), icells(&[5, 3]));
    assert_eq!(col(&r, "y"), vec![Cell::Int(2), Cell::Null]);
    let c = t.pivot(&vec!["g".to_string()], &"p".to_string(), &"v".to_string(), "count").unwrap();
    assert_eq!(col(&c, "x"), icells(&[2, 1]));
    let by_int = t.pivot(&vec!["g".to_string()], &"v".to_string(), &"v".to_string(), "count").unwrap();
    assert_eq!(
        by_int.columns(),
        vec!["g".to_string(), "1".to_string(), "2".to_string(), "3".to_string(), "4".to_string()]
    );
    assert_eq!(col(&by_int, "2"), vec![Cell::Int(1), Cell::Null]);
    let neg = PyDataFrame::new(vec![ints("g", &[1]), ints("p", &[-120]), ints("v", &[5])]).unwrap();
    let np = neg.pivot(&vec!["g".to_string()], &"p".to_string(), &"v".to_string(), "sum").unwrap();
    assert_eq!(np.columns(), vec!["g".to_string(), "-120".to_string()]);
    assert!(matches!(
        t.pivot(&vec!["g".to_string()], &"v".to_string(), &"p".to_string(), "sum"),
        Err(TableError::TypeMismatch)
    ));
    assert!(matches!(
        t.pivot(&vec!["g".to_string()], &"p".to_string(), &"v".to_string(), "mode"),
        Err(TableError::UnknownAggregation)
    ));
    assert!(matches!(
        t.pivot(&vec!["g".to_string()], &"q".to_string(), &"v".to_string(), "sum"),
        Err(TableError::ColumnNotFound(_))
    ));
}

#[test]
fn sort_is_stable_with_nulls_last() {
    let t = PyDataFrame::new(vec![
        Series::new(
            "k".to_string(),
            DataType::Int64,
            vec![Cell::Int(2), Cell::Null, Cell::Int(1), Cell::Int(2), Cell::Int(1)],
        )
        .unwrap(),
        ints("id", &[0, 1, 2, 3, 4]),
    ])
    .unwrap();
    let asc = t.sort(&"k".to_string(), false).unwrap();
    assert_eq!(col(&asc, "id"), icells(&[2, 4, 0, 3, 1]));
    let desc = t.sort(&"k".to_string(), true).unwrap();
    assert_eq!(col(&desc, "id"), icells(&[0, 3, 2, 4, 1]));
    let mut m = t.clone();
    m.sort_in_place(&"k".to_string(), false).unwrap();
    assert!(m.frame_equal(&asc, true));
    let s = PyDataFrame::new(vec![strs("s", &["b", "ab", "a", "b"]), ints("id", &[0, 1, 2, 3])]).unwrap();
    let ss = s.sort(&"s".to_string(), false).unwrap();
    assert_eq!(col(&ss, "id"), icells(&[2, 1, 0, 3]));
    let sd = s.sort(&"s".to_string(), true).unwrap();
    assert_eq!(col(&sd, "id"), icells(&[0, 3, 1, 2]));
    assert!(matches!(t.sort(&"z".to_string(), false), Err(TableError::ColumnNotFound(_))));
}

#[test]
fn downsample_buckets_by_minute() {
    let t = PyDataFrame::new(vec![
        ints("time", &[125_000, 10_000, 61_000, 179_999, 0]),
        ints("v", &[1, 2, 3, 4, 5]),
    ])
    .unwrap();
    let r = t.downsample(&"time".to_string(), "minute", 1, "sum").unwrap();
    assert_eq!(col(&r, "time"), icells(&[0, 60_000, 120_000]));
    assert_eq!(col(&r, "v_sum"), icells(&[7, 3, 5]));
    let two = t.downsample(&"time".to_string(), "minute", 2, "count").unwrap();
    assert_eq!(col(&two, "time"), icells(&[0, 120_000]));
    assert_eq!(col(&two, "v_count"), icells(&[3, 2]));
    assert!(matches!(t.downsample(&"time".to_string(), "week", 1, "sum"), Err(TableError::InvalidArgument)));
    assert!(matches!(t.downsample(&"time".to_string(), "second", 0, "sum"), Err(TableError::InvalidArgument)));
    let neg = PyDataFrame::new(vec![ints("time", &[-1]), ints("v", &[1])]).unwrap();
    let nr = neg.downsample(&"time".to_string(), "second", 1, "first").unwrap();
    assert_eq!(col(&nr, "time"), icells(&[-1000]));
}

#[test]
fn dummies_for_non_numeric_columns() {
    let t = PyDataFrame::new(vec![ints("n", &[1, 2, 3]), strs("c", &["a", "b", "a"])]).unwrap();
    let d = t.to_dummies();
    assert_eq!(d.columns(), vec!["n".to_string(), "c_a".to_string(), "c_b".to_string()]);
    assert_eq!(col(&d, "c_a"), vec![Cell::Bool(true), Cell::Bool(false), Cell::Bool(true)]);
    assert_eq!(col(&d, "c_b"), vec![Cell::Bool(false), Cell::Bool(true), Cell::Bool(false)]);
    assert_eq!(col(&d, "n"), icells(&[1, 2, 3]));
}
