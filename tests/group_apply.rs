use py_polars::apply::{stack_results, GroupTransform};
use py_polars::cell::{Cell, DataType};
use py_polars::error::TableError;
use py_polars::frame::PyDataFrame;
use py_polars::series::Series;

fn ints(name: &str, v: &[i64]) -> Series {
    Series::new(name.to_string(), DataType::Int64, v.iter().map(|x| Cell::Int(*x)).collect()).unwrap()
}

fn table() -> PyDataFrame {
    PyDataFrame::new(vec![ints("k", &[1, 2, 1, 3, 2]), ints("v", &[10, 20, 30, 40, 50])]).unwrap()
}

fn by() -> Vec<String> {
    vec!["k".to_string()]
}

struct Identity {
    calls: usize,
}

impl GroupTransform for Identity {
    fn call(&mut self, group: PyDataFrame) -> Result<PyDataFrame, TableError> {
        self.calls += 1;
        Ok(group)
    }
}

struct FailOn {
    key: i64,
    calls: usize,
}

impl GroupTransform for FailOn {
    fn call(&mut self, group: PyDataFrame) -> Result<PyDataFrame, TableError> {
        self.calls += 1;
        let k = group.column(&"k".to_string()).unwrap().to_cells();
        if k[0] == Cell::Int(self.key) {
            Err(TableError::InvalidArgument)
        } else {
            Ok(group)
        }
    }
}

struct Widen;

impl GroupTransform for Widen {
    fn call(&mut self, group: PyDataFrame) -> Result<PyDataFrame, TableError> {
        let k = group.column(&"k".to_string()).unwrap().to_cells();
        if k[0] == Cell::Int(2) {
            group.select(&vec!["k".to_string()])
        } else {
            Ok(group)
        }
    }
}

#[test]
fn identity_transform_gives_rows_back_grouped() {
    let t = table();
    let mut f = Identity { calls: 0 };
    let r = t.groupby_apply(&by(), &mut f).unwrap();
    assert_eq!(f.calls, 3);
    assert_eq!(r.height(), t.height());
    let k = r.column(&"k".to_string()).unwrap().to_cells();
    let v = r.column(&"v".to_string()).unwrap().to_cells();
    let ki: Vec<i64> = k.iter().map(|c| match c { Cell::Int(x) => *x, _ => 0 }).collect();
    let vi: Vec<i64> = v.iter().map(|c| match c { Cell::Int(x) => *x, _ => 0 }).collect();
    assert_eq!(ki, vec![1, 1, 2, 2, 3]);
    assert_eq!(vi, vec![10, 30, 20, 50, 40]);
}

#[test]
fn failing_transform_fails_whole_call() {
    let t = table();
    let mut f = FailOn { key: 2, calls: 0 };
    match t.groupby_apply(&by(), &mut f) {
        Err(TableError::CallbackFailed(key, inner)) => {
            assert_eq!(key, vec![Cell::Int(2)]);
            assert!(matches!(*inner, TableError::InvalidArgument));
        },
        other => panic!("unexpected {:?}", other),
    }
    assert_eq!(f.calls, 2);
}

#[test]
fn mismatched_schemas_fail() {
    let t = table();
    assert!(matches!(t.groupby_apply(&by(), &mut Widen), Err(TableError::SchemaMismatch)));
    assert!(matches!(t.groupby_apply(&vec!["x".to_string()], &mut Widen), Err(TableError::ColumnNotFound(_))));
}

#[test]
fn group_frames_hold_group_rows() {
    let t = table();
    let frames = t.group_frames(&by()).unwrap();
    assert_eq!(frames.len(), 3);
    assert_eq!(frames[0].column(&"v".to_string()).unwrap().to_cells(), vec![Cell::Int(10), Cell::Int(30)]);
    assert_eq!(frames[2].height(), 1);
}

#[test]
fn stack_results_reports_first_failure() {
    let keys = vec![vec![Cell::Int(1)], vec![Cell::Int(2)]];
    let res = vec![Ok(table()), Err(TableError::ShapeMismatch)];
    assert!(matches!(stack_results(&keys, res), Err(TableError::CallbackFailed(_, _))));
    let empty = stack_results(&vec![], vec![]).unwrap();
    assert_eq!(empty.width(), 0);
    let two = stack_results(&keys, vec![Ok(table()), Ok(table())]).unwrap();
    assert_eq!(two.height(), 10);
}

#[test]
fn no_groups_give_an_empty_table() {
    let t = PyDataFrame::new(vec![ints("k", &[]), ints("v", &[])]).unwrap();
    let mut f = Identity { calls: 0 };
    let r = t.groupby_apply(&by(), &mut f).unwrap();
    assert_eq!(f.calls, 0);
    assert_eq!(r.width(), 0);
    assert_eq!(r.height(), 0);
}
