//! Element-wise work on tables: filling nulls, arithmetic against a column,
//! and whole-table reductions.

use vstd::prelude::*;

use crate::agg::{agg_accepts, agg_dtype, agg_fits, lemma_reduce_fits, reduce, reduce_rows, Agg};
use crate::cell::{cells_view, fits, lemma_cells_view_push, Cell, DataType, Value};
use crate::error::TableError;
use crate::frame::{height_of, idx_view, lookup, lemma_lookup, rectangular, PyDataFrame};
use crate::series::{all_fit, Series, SeriesV};

verus! {

/// How `fill_none` chooses the value that replaces a null.
#[derive(Clone, Copy, Debug, PartialEq, Eq, Structural)]
pub enum FillNoneStrategy {
    /// The nearest non-null value above.
    Forward,
    /// The nearest non-null value below.
    Backward,
    /// The least value of an integer column.
    Min,
    /// The greatest value of an integer column.
    Max,
}

/// The arithmetic operations that can be applied to a column by a series.
#[derive(Clone, Copy, Debug, PartialEq, Eq, Structural)]
pub enum ArithOp {
    Add,
    Sub,
    Mul,
    Div,
    Rem,
}

pub open spec fn strategy_name(s: FillNoneStrategy) -> Seq<char> {
    match s {
        FillNoneStrategy::Forward => "forward"@,
        FillNoneStrategy::Backward => "backward"@,
        FillNoneStrategy::Min => "min"@,
        FillNoneStrategy::Max => "max"@,
    }
}

/// The nearest non-null value at or above row `i`; null where none is.
pub open spec fn ffill(v: Seq<Value>, i: int) -> Value
    decreases i + 1,
{
    if i < 0 || i >= v.len() {
        Value::Null
    } else if !(v[i] is Null) {
        v[i]
    } else {
        ffill(v, i - 1)
    }
}

/// The nearest non-null value at or below row `i`; null where none is.
pub open spec fn bfill(v: Seq<Value>, i: int) -> Value
    decreases v.len() - i,
{
    if i < 0 || i >= v.len() {
        Value::Null
    } else if !(v[i] is Null) {
        v[i]
    } else {
        bfill(v, i + 1)
    }
}

/// All row positions of a column of `n` rows.
pub open spec fn all_rows(n: nat) -> Seq<int> {
    Seq::new(n, |i: int| i)
}

proof fn lemma_ffill_fits(v: Seq<Value>, i: int, t: DataType)
    requires
        all_fit(v, t),
    ensures
        fits(ffill(v, i), t),
    decreases i + 1,
{
    if 0 <= i < v.len() && v[i] is Null {
        lemma_ffill_fits(v, i - 1, t);
    }
}

proof fn lemma_bfill_fits(v: Seq<Value>, i: int, t: DataType)
    requires
        all_fit(v, t),
    ensures
        fits(bfill(v, i), t),
    decreases v.len() - i,
{
    if 0 <= i < v.len() && v[i] is Null {
        lemma_bfill_fits(v, i + 1, t);
    }
}

/// The value that replaces nulls under the `Min` and `Max` strategies: the
/// extreme of an integer column, else null.
pub open spec fn fill_extreme(s: FillNoneStrategy, c: SeriesV) -> Value {
    let a = if s == FillNoneStrategy::Min {
        Agg::Min
    } else {
        Agg::Max
    };
    if c.dtype == DataType::Int64 {
        reduce(a, c.values, all_rows(c.values.len()))
    } else {
        Value::Null
    }
}

/// Row `i` of column `c` once its nulls are filled.
pub open spec fn filled(s: FillNoneStrategy, c: SeriesV, i: int) -> Value {
    if !(c.values[i] is Null) {
        c.values[i]
    } else {
        match s {
            FillNoneStrategy::Forward => ffill(c.values, i),
            FillNoneStrategy::Backward => bfill(c.values, i),
            _ => fill_extreme(s, c),
        }
    }
}

/// `x / y` rounded toward zero, as integer division in Rust does.
pub open spec fn trunc_div(x: int, y: int) -> int {
    let q = (if x < 0 { -x } else { x }) / (if y < 0 { -y } else { y });
    if (x < 0) != (y < 0) {
        -q
    } else {
        q
    }
}

/// The remainder of `x / y` rounded toward zero; it has the sign of `x`.
pub open spec fn trunc_rem(x: int, y: int) -> int {
    let r = (if x < 0 { -x } else { x }) % (if y < 0 { -y } else { y });
    if x < 0 {
        -r
    } else {
        r
    }
}

/// The exact result of the operation, where it is defined.
pub open spec fn arith_exact(op: ArithOp, x: int, y: int) -> Option<int> {
    match op {
        ArithOp::Add => Some(x + y),
        ArithOp::Sub => Some(x - y),
        ArithOp::Mul => Some(x * y),
        ArithOp::Div => if y == 0 {
            None
        } else {
            Some(trunc_div(x, y))
        },
        ArithOp::Rem => if y == 0 {
            None
        } else {
            Some(trunc_rem(x, y))
        },
    }
}

/// One element of an arithmetic result: null where an operand is null,
/// where the divisor is zero, or where the result does not fit in 64 bits.
pub open spec fn arith_value(op: ArithOp, a: Value, b: Value) -> Value {
    match (a, b) {
        (Value::Int(x), Value::Int(y)) => match arith_exact(op, x as int, y as int) {
            Some(z) => if i64::MIN <= z <= i64::MAX {
                Value::Int(z as i64)
            } else {
                Value::Null
            },
            None => Value::Null,
        },
        _ => Value::Null,
    }
}

fn arith_cell(op: ArithOp, a: &Cell, b: &Cell) -> (r: Cell)
    ensures
        r@ == arith_value(op, a@, b@),
{
    match (a, b) {
        (Cell::Int(x), Cell::Int(y)) => {
            let x = *x as i128;
            let y = *y as i128;
            let z: Option<i128> = match op {
                ArithOp::Add => Some(x + y),
                ArithOp::Sub => Some(x - y),
                ArithOp::Mul => {
                    assert(-0x8000_0000_0000_0000 <= x <= 0x7fff_ffff_ffff_ffff);
                    assert(-0x8000_0000_0000_0000 <= y <= 0x7fff_ffff_ffff_ffff);
                    assert(-0x4000_0000_0000_0000_0000_0000_0000_0000 <= x * y
                        <= 0x4000_0000_0000_0000_0000_0000_0000_0000) by (nonlinear_arith)
                        requires
                            -0x8000_0000_0000_0000 <= x <= 0x7fff_ffff_ffff_ffff,
                            -0x8000_0000_0000_0000 <= y <= 0x7fff_ffff_ffff_ffff,
                    ;
                    Some(x * y)
                },
                ArithOp::Div | ArithOp::Rem => {
                    if y == 0 {
                        None
                    } else {
                        let ax: i128 = if x < 0 { -x } else { x };
                        let ay: i128 = if y < 0 { -y } else { y };
                        match op {
                            ArithOp::Div => {
                                let q = ax / ay;
                                Some(if (x < 0) != (y < 0) { -q } else { q })
                            },
                            _ => {
                                let r = ax % ay;
                                Some(if x < 0 { -r } else { r })
                            },
                        }
                    }
                },
            };
            match z {
                Some(z) => if i64::MIN as i128 <= z && z <= i64::MAX as i128 {
                    Cell::Int(z as i64)
                } else {
                    Cell::Null
                },
                None => Cell::Null,
            }
        },
        _ => Cell::Null,
    }
}

/// What applying `op` with column `c` to table `t` gives: see `arith`.
pub open spec fn arith_post(t: Seq<SeriesV>, c: SeriesV, op: ArithOp, r: Result<PyDataFrame, TableError>) -> bool {
    let j = lookup(t, c.name);
    match r {
        Ok(out) => j >= 0 && t[j].dtype == DataType::Int64 && c.dtype == DataType::Int64
            && c.values.len() == t[j].values.len() && out.wf() && out@ == t.update(
            j,
            SeriesV {
                values: Seq::new(
                    c.values.len(),
                    |i: int| arith_value(op, t[j].values[i], c.values[i]),
                ),
                ..t[j]
            },
        ),
        Err(e) => (j == -1 && e is ColumnNotFound) || (j >= 0 && (t[j].dtype != DataType::Int64
            || c.dtype != DataType::Int64) && e is TypeMismatch) || (j >= 0 && t[j].dtype
            == DataType::Int64 && c.dtype == DataType::Int64 && c.values.len() != t[j].values.len()
            && e is LengthMismatch),
    }
}

/// The whole-table reduction of one column: a single row holding the
/// reduction of all its elements, or null where the column's type does not
/// take the reduction.
pub open spec fn column_reduce(a: Agg, c: SeriesV) -> SeriesV {
    SeriesV {
        dtype: agg_dtype(a, c.dtype),
        values: seq![
            if agg_accepts(a, c.dtype) {
                reduce(a, c.values, all_rows(c.values.len()))
            } else {
                Value::Null
            },
        ],
        ..c
    }
}

/// Whether every integer column's reduction fits in 64 bits.
pub open spec fn table_reduce_fits(a: Agg, t: Seq<SeriesV>) -> bool {
    forall|j: int|
        0 <= j < t.len() ==> agg_accepts(a, (#[trigger] t[j]).dtype) ==> agg_fits(
            a,
            t[j].values,
            all_rows(t[j].values.len()),
        )
}

impl FillNoneStrategy {
    /// The strategy called `name`. Fails with `InvalidArgument` for any
    /// other name.
    pub fn from_name(name: &str) -> (r: Result<FillNoneStrategy, TableError>)
        ensures
            match r {
                Ok(s) => strategy_name(s) == name@,
                Err(e) => e is InvalidArgument && forall|s: FillNoneStrategy|
                    strategy_name(s) != name@,
            },
    {
        let s = name.to_owned();
        proof {
            reveal_strlit("forward");
            reveal_strlit("backward");
            reveal_strlit("min");
            reveal_strlit("max");
        }
        if s == "forward".to_owned() {
            Ok(FillNoneStrategy::Forward)
        } else if s == "backward".to_owned() {
            Ok(FillNoneStrategy::Backward)
        } else if s == "min".to_owned() {
            Ok(FillNoneStrategy::Min)
        } else if s == "max".to_owned() {
            Ok(FillNoneStrategy::Max)
        } else {
            Err(TableError::InvalidArgument)
        }
    }
}

/// The positions `0..n`.
fn row_positions(n: usize) -> (r: Vec<usize>)
    ensures
        idx_view(r@) == all_rows(n as nat),
        forall|k: int| 0 <= k < r@.len() ==> (#[trigger] r@[k]) < n,
{
    let mut out: Vec<usize> = Vec::new();
    let mut i: usize = 0;
    while i < n
        invariant
            i <= n,
            idx_view(out@) == all_rows(i as nat),
            forall|k: int| 0 <= k < out@.len() ==> (#[trigger] out@[k]) < i,
        decreases n - i,
    {
        let ghost before = out@;
        out.push(i);
        assert(idx_view(out@) =~= idx_view(before).push(i as int));
        assert(all_rows((i + 1) as nat) =~= all_rows(i as nat).push(i as int));
        i += 1;
    }
    out
}

/// The elements of a column with their nulls filled.
fn fill_column(s: FillNoneStrategy, col: &Series) -> (r: Series)
    requires
        col.wf(),
        col@.values.len() <= i64::MAX,
    ensures
        r.wf(),
        r@ == (SeriesV {
            values: Seq::new(col@.values.len(), |i: int| filled(s, col@, i)),
            ..col@
        }),
{
    let cells = col.to_cells();
    let ghost v = col@.values;
    let n = cells.len();
    let mut out: Vec<Cell> = Vec::new();
    match s {
        FillNoneStrategy::Forward => {
            let mut last = Cell::Null;
            let mut i: usize = 0;
            while i < n
                invariant
                    i <= n,
                    n == cells@.len(),
                    cells_view(cells@) == v,
                    v == col@.values,
                    s == FillNoneStrategy::Forward,
                    last@ == ffill(v, i - 1),
                    out@.len() == i,
                    forall|k: int| 0 <= k < i ==> (#[trigger] cells_view(out@)[k]) == filled(s, col@, k),
                decreases n - i,
            {
                if !cells[i].is_null() {
                    last = cells[i].duplicate();
                }
                let d = last.duplicate();
                proof { lemma_cells_view_push(out@, d); }
                assert(d@ == filled(s, col@, i as int));
                out.push(d);
                i += 1;
            }
        },
        FillNoneStrategy::Backward => {
            let mut rev: Vec<Cell> = Vec::new();
            let mut next = Cell::Null;
            let mut i: usize = n;
            while i > 0
                invariant
                    i <= n,
                    n == cells@.len(),
                    cells_view(cells@) == v,
                    v == col@.values,
                    s == FillNoneStrategy::Backward,
                    next@ == bfill(v, i as int),
                    rev@.len() == n - i,
                    forall|k: int| 0 <= k < n - i ==> (#[trigger] cells_view(rev@)[k]) == filled(s, col@, n - 1 - k),
                decreases i,
            {
                i -= 1;
                if !cells[i].is_null() {
                    next = cells[i].duplicate();
                }
                let d = next.duplicate();
                proof { lemma_cells_view_push(rev@, d); }
                rev.push(d);
            }
            let mut k: usize = 0;
            while k < n
                invariant
                    k <= n,
                    rev@.len() == n,
                    forall|q: int| 0 <= q < n ==> (#[trigger] cells_view(rev@)[q]) == filled(s, col@, n - 1 - q),
                    out@.len() == k,
                    forall|q: int| 0 <= q < k ==> (#[trigger] cells_view(out@)[q]) == filled(s, col@, q),
                decreases n - k,
            {
                assert(cells_view(rev@)[n - 1 - k] == filled(s, col@, k as int));
                let d = rev[n - 1 - k].duplicate();
                proof { lemma_cells_view_push(out@, d); }
                out.push(d);
                k += 1;
            }
        },
        _ => {
            let fill = if col.dtype() == DataType::Int64 {
                let rows = row_positions(n);
                let a = match s {
                    FillNoneStrategy::Min => Agg::Min,
                    _ => Agg::Max,
                };
                match reduce_rows(a, &cells, &rows) {
                    Some(c) => c,
                    None => Cell::Null,
                }
            } else {
                Cell::Null
            };
            assert(fill@ == fill_extreme(s, col@));
            let mut i: usize = 0;
            while i < n
                invariant
                    i <= n,
                    n == cells@.len(),
                    cells_view(cells@) == v,
                    v == col@.values,
                    fill@ == fill_extreme(s, col@),
                    s != FillNoneStrategy::Forward && s != FillNoneStrategy::Backward,
                    out@.len() == i,
                    forall|k: int| 0 <= k < i ==> (#[trigger] cells_view(out@)[k]) == filled(s, col@, k),
                decreases n - i,
            {
                let c = if cells[i].is_null() {
                    fill.duplicate()
                } else {
                    cells[i].duplicate()
                };
                proof { lemma_cells_view_push(out@, c); }
                out.push(c);
                i += 1;
            }
        },
    }
    proof { col.lemma_wf(); }
    assert forall|q: int| 0 <= q < cells_view(out@).len() implies fits(
        #[trigger] cells_view(out@)[q],
        col@.dtype,
    ) by {
        assert(cells_view(out@)[q] == filled(s, col@, q));
        if v[q] is Null {
            match s {
                FillNoneStrategy::Forward => lemma_ffill_fits(v, q, col@.dtype),
                FillNoneStrategy::Backward => lemma_bfill_fits(v, q, col@.dtype),
                _ => {
                    if col@.dtype == DataType::Int64 {
                        let a = if s == FillNoneStrategy::Min {
                            Agg::Min
                        } else {
                            Agg::Max
                        };
                        lemma_reduce_fits(a, v, all_rows(v.len()), col@.dtype);
                    }
                },
            }
        }
    }
    let r = Series::from_cells(col.name(), col.dtype(), out);
    assert(r@.values =~= Seq::new(col@.values.len(), |i: int| filled(s, col@, i)));
    r
}

impl PyDataFrame {
    /// Every column with its nulls filled by the strategy called
    /// `strategy`: see `filled`. Fails with `InvalidArgument` for an unknown
    /// strategy name.
    pub fn fill_none(&self, strategy: &str) -> (r: Result<PyDataFrame, TableError>)
        requires
            self.wf(),
            height_of(self@) <= i64::MAX,
        ensures
            match r {
                Ok(t) => exists|s: FillNoneStrategy|
                    strategy_name(s) == strategy@ && t.wf() && t@.len() == self@.len() && forall|j: int|
                        0 <= j < self@.len() ==> (#[trigger] t@[j]) == (SeriesV {
                            values: Seq::new(
                                self@[j].values.len(),
                                |i: int| filled(s, self@[j], i),
                            ),
                            ..self@[j]
                        }),
                Err(e) => e is InvalidArgument && forall|s: FillNoneStrategy|
                    strategy_name(s) != strategy@,
            },
    {
        let s = match FillNoneStrategy::from_name(strategy) {
            Ok(s) => s,
            Err(e) => return Err(e),
        };
        proof { self.lemma_wf(); }
        let ghost t = self@;
        let mut out: Vec<Series> = Vec::new();
        let mut j: usize = 0;
        while j < self.width()
            invariant
                j <= t.len(),
                self.wf(),
                rectangular(t),
                t == self@,
                height_of(t) <= i64::MAX,
                out@.len() == j,
                forall|q: int|
                    0 <= q < j ==> (#[trigger] out@[q]).wf() && out@[q]@ == (SeriesV {
                        values: Seq::new(t[q].values.len(), |i: int| filled(s, t[q], i)),
                        ..t[q]
                    }),
            decreases t.len() - j,
        {
            out.push(fill_column(s, self.series_at(j)));
            j += 1;
        }
        let ghost ov = out@.map_values(|c: Series| c@);
        assert(rectangular(ov)) by {
            assert forall|q: int| 0 <= q < ov.len() implies (#[trigger] ov[q]).values.len() == height_of(ov) by {
                assert(ov[q].values.len() == t[q].values.len());
                assert(ov[0].values.len() == t[0].values.len());
            }
        }
        Ok(PyDataFrame::from_series(out))
    }

    /// Applies `op` element by element to the first column named as `s`,
    /// with the elements of `s` as right operands: see `arith_value`. Fails
    /// with `ColumnNotFound` when no column has the name of `s`, else with
    /// `TypeMismatch` when either is not an integer column, else with
    /// `LengthMismatch` when their lengths differ.
    pub fn arith(&self, s: &Series, op: ArithOp) -> (r: Result<PyDataFrame, TableError>)
        requires
            self.wf(),
            s.wf(),
        ensures
            arith_post(self@, s@, op, r),
    {
        proof {
            lemma_lookup(self@, s@.name);
            self.lemma_wf();
        }
        let name = s.name();
        let j = match self.find_idx_by_name(&name) {
            Some(j) => j,
            None => return Err(TableError::ColumnNotFound(name)),
        };
        let col = self.series_at(j);
        if col.dtype() != DataType::Int64 || s.dtype() != DataType::Int64 {
            return Err(TableError::TypeMismatch);
        }
        if col.len() != s.len() {
            return Err(TableError::LengthMismatch);
        }
        let a = col.to_cells();
        let b = s.to_cells();
        let ghost goal = Seq::new(
            s@.values.len(),
            |i: int| arith_value(op, self@[j as int].values[i], s@.values[i]),
        );
        let mut vals: Vec<Cell> = Vec::new();
        let mut i: usize = 0;
        while i < a.len()
            invariant
                i <= a.len(),
                a@.len() == b@.len(),
                cells_view(a@) == self@[j as int].values,
                cells_view(b@) == s@.values,
                goal == Seq::new(
                    s@.values.len(),
                    |i: int| arith_value(op, self@[j as int].values[i], s@.values[i]),
                ),
                vals@.len() == i,
                forall|k: int| 0 <= k < i ==> (#[trigger] cells_view(vals@)[k]) == goal[k],
            decreases a.len() - i,
        {
            let c = arith_cell(op, &a[i], &b[i]);
            proof { lemma_cells_view_push(vals@, c); }
            vals.push(c);
            i += 1;
        }
        let c = Series::from_cells(col.name(), col.dtype(), vals);
        assert(c@.values =~= goal);
        let mut t = self.duplicate();
        match t.replace_at_idx(j, c) {
            Ok(()) => Ok(t),
            Err(e) => Err(e),
        }
    }

    /// Adds the elements of `s` to the column of the same name.
    pub fn add(&self, s: &Series) -> (r: Result<PyDataFrame, TableError>)
        requires
            self.wf(),
            s.wf(),
        ensures
            arith_post(self@, s@, ArithOp::Add, r),
    {
        self.arith(s, ArithOp::Add)
    }

    /// Subtracts the elements of `s` from the column of the same name.
    pub fn sub(&self, s: &Series) -> (r: Result<PyDataFrame, TableError>)
        requires
            self.wf(),
            s.wf(),
        ensures
            arith_post(self@, s@, ArithOp::Sub, r),
    {
        self.arith(s, ArithOp::Sub)
    }

    /// Multiplies the column of the same name by the elements of `s`.
    pub fn mul(&self, s: &Series) -> (r: Result<PyDataFrame, TableError>)
        requires
            self.wf(),
            s.wf(),
        ensures
            arith_post(self@, s@, ArithOp::Mul, r),
    {
        self.arith(s, ArithOp::Mul)
    }

    /// Divides the column of the same name by the elements of `s`.
    pub fn div(&self, s: &Series) -> (r: Result<PyDataFrame, TableError>)
        requires
            self.wf(),
            s.wf(),
        ensures
            arith_post(self@, s@, ArithOp::Div, r),
    {
        self.arith(s, ArithOp::Div)
    }

    /// The remainders of the column of the same name divided by `s`.
    pub fn rem(&self, s: &Series) -> (r: Result<PyDataFrame, TableError>)
        requires
            self.wf(),
            s.wf(),
        ensures
            arith_post(self@, s@, ArithOp::Rem, r),
    {
        self.arith(s, ArithOp::Rem)
    }

    /// One row: the reduction `a` of each column over all rows (null for a
    /// column whose type does not take it). Fails with `InvalidArgument`
    /// when a sum does not fit in 64 bits.
    pub fn reduce_columns(&self, a: Agg) -> (r: Result<PyDataFrame, TableError>)
        requires
            self.wf(),
            height_of(self@) <= i64::MAX,
        ensures
            match r {
                Ok(t) => table_reduce_fits(a, self@) && t.wf() && t@ == self@.map_values(
                    |c: SeriesV| column_reduce(a, c),
                ),
                Err(e) => !table_reduce_fits(a, self@) && e is InvalidArgument,
            },
    {
        proof { self.lemma_wf(); }
        let ghost t = self@;
        let h = self.height();
        let rows = row_positions(h);
        let mut out: Vec<Series> = Vec::new();
        let mut j: usize = 0;
        while j < self.width()
            invariant
                j <= t.len(),
                self.wf(),
                rectangular(t),
                t == self@,
                h == height_of(t),
                h <= i64::MAX,
                idx_view(rows@) == all_rows(h as nat),
                forall|k: int| 0 <= k < rows@.len() ==> (#[trigger] rows@[k]) < h,
                forall|q: int| 0 <= q < t.len() ==> all_fit((#[trigger] t[q]).values, t[q].dtype),
                out@.len() == j,
                forall|q: int|
                    0 <= q < j ==> (#[trigger] out@[q]).wf() && out@[q]@ == column_reduce(a, t[q]),
                forall|q: int|
                    0 <= q < j ==> agg_accepts(a, (#[trigger] t[q]).dtype) ==> agg_fits(
                        a,
                        t[q].values,
                        all_rows(t[q].values.len()),
                    ),
            decreases t.len() - j,
        {
            let col = self.series_at(j);
            let c = if a.accepts(col.dtype()) {
                let cells = col.to_cells();
                proof {
                    assert(cells_view(cells@) == t[j as int].values);
                    lemma_reduce_fits(a, cells_view(cells@), idx_view(rows@), t[j as int].dtype);
                }
                match reduce_rows(a, &cells, &rows) {
                    Some(c) => c,
                    None => {
                        assert(!table_reduce_fits(a, t)) by {
                            assert(t[j as int].values.len() == h);
                        }
                        return Err(TableError::InvalidArgument);
                    },
                }
            } else {
                Cell::Null
            };
            assert(t[j as int].values.len() == h);
            assert(fits(c@, agg_dtype(a, t[j as int].dtype)));
            let mut v: Vec<Cell> = Vec::new();
            v.push(c);
            assert(cells_view(v@) =~= seq![c@]);
            let s = Series::from_cells(col.name(), a.output_dtype(col.dtype()), v);
            assert(s@.values =~= column_reduce(a, t[j as int]).values);
            out.push(s);
            j += 1;
        }
        let ghost ov = out@.map_values(|c: Series| c@);
        assert(ov =~= t.map_values(|c: SeriesV| column_reduce(a, c)));
        Ok(PyDataFrame::from_series(out))
    }

    /// One row: the greatest value of each integer column (null for other
    /// columns, and for columns holding only nulls).
    pub fn max(&self) -> (r: PyDataFrame)
        requires
            self.wf(),
            height_of(self@) <= i64::MAX,
        ensures
            r.wf(),
            r@ == self@.map_values(|c: SeriesV| column_reduce(Agg::Max, c)),
    {
        match self.reduce_columns(Agg::Max) {
            Ok(t) => t,
            Err(_) => self.duplicate(),
        }
    }

    /// One row: the least value of each integer column (null for other
    /// columns, and for columns holding only nulls).
    pub fn min(&self) -> (r: PyDataFrame)
        requires
            self.wf(),
            height_of(self@) <= i64::MAX,
        ensures
            r.wf(),
            r@ == self@.map_values(|c: SeriesV| column_reduce(Agg::Min, c)),
    {
        match self.reduce_columns(Agg::Min) {
            Ok(t) => t,
            Err(_) => self.duplicate(),
        }
    }

    /// One row: the sum of each integer column (null for other columns, and
    /// for columns holding only nulls). Fails with `InvalidArgument` when a
    /// sum does not fit in 64 bits.
    pub fn sum(&self) -> (r: Result<PyDataFrame, TableError>)
        requires
            self.wf(),
            height_of(self@) <= i64::MAX,
        ensures
            match r {
                Ok(t) => table_reduce_fits(Agg::Sum, self@) && t.wf() && t@ == self@.map_values(
                    |c: SeriesV| column_reduce(Agg::Sum, c),
                ),
                Err(e) => !table_reduce_fits(Agg::Sum, self@) && e is InvalidArgument,
            },
    {
        self.reduce_columns(Agg::Sum)
    }
}

} // verus!
