//! Melt, pivot and dummy encoding.

use vstd::prelude::*;

use crate::cell::{cells_view, fits, lemma_cells_view_push, Cell, DataType, Value};
use crate::error::TableError;
use crate::frame::{height_of, idx_view, rectangular, PyDataFrame};
use crate::agg::{agg_accepts, agg_dtype, agg_fits, agg_name, lemma_reduce_fits, reduce, reduce_rows, Agg};
use crate::frame::{lemma_lookup, lookup, series_views};
use crate::groupby::{
    all_found, cols_view, group_index, group_members, grouping, key_cols, lemma_grouping_bounds,
    members, names_view, resolve,
};
use crate::series::{all_fit, Series, SeriesV};
use crate::text::{cell_text, concat, text_cell, value_name};

verus! {

/// `s` written `c` times, one copy after the other.
pub open spec fn repeat(s: Seq<Value>, c: nat) -> Seq<Value>
    decreases c,
{
    if c == 0 {
        Seq::empty()
    } else {
        repeat(s, (c - 1) as nat) + s
    }
}

/// The values of the first `c` value columns, one column after the other.
pub open spec fn melt_values(t: Seq<SeriesV>, vals: Seq<int>, c: nat, same: bool) -> Seq<Value>
    decreases c,
{
    if c == 0 {
        Seq::empty()
    } else {
        melt_values(t, vals, (c - 1) as nat, same) + melt_cast(t[vals[c - 1]].values, same)
    }
}

/// A value as text, null staying null.
pub open spec fn as_text(v: Value) -> Value {
    match v {
        Value::Null => Value::Null,
        _ => Value::Str(value_name(v)),
    }
}

/// The values of a value column as they stand in the melted column: as
/// they are when all value columns share a type, else as text.
pub open spec fn melt_cast(s: Seq<Value>, same: bool) -> Seq<Value> {
    if same {
        s
    } else {
        s.map_values(|v: Value| as_text(v))
    }
}

/// The type of the melted "value" column: that of the value columns when
/// they share one, else text.
pub open spec fn melt_dtype(t: Seq<SeriesV>, vals: Seq<int>) -> DataType {
    if vals.len() > 0 && same_dtypes(t, vals) {
        t[vals[0]].dtype
    } else {
        DataType::Utf8
    }
}

/// The name of each of the first `c` value columns, once per row.
pub open spec fn melt_names(t: Seq<SeriesV>, vals: Seq<int>, c: nat) -> Seq<Value>
    decreases c,
{
    if c == 0 {
        Seq::empty()
    } else {
        melt_names(t, vals, (c - 1) as nat) + Seq::new(
            height_of(t),
            |i: int| Value::Str(t[vals[c - 1]].name),
        )
    }
}

/// The melted table: the id columns repeated once per value column, a
/// column "variable" with the name of the value column of each row, and a
/// column "value" with its value (as text where the value columns differ in
/// type). Rows run value column by value column; no value columns give no
/// rows.
pub open spec fn melt_spec(t: Seq<SeriesV>, ids: Seq<int>, vals: Seq<int>) -> Seq<SeriesV> {
    ids.map_values(|j: int| SeriesV { values: repeat(t[j].values, vals.len()), ..t[j] }) + seq![
        SeriesV {
            name: "variable"@,
            dtype: DataType::Utf8,
            values: melt_names(t, vals, vals.len()),
        },
        SeriesV {
            name: "value"@,
            dtype: melt_dtype(t, vals),
            values: melt_values(t, vals, vals.len(), same_dtypes(t, vals)),
        },
    ]
}

/// The value columns all have the type of the first.
pub open spec fn same_dtypes(t: Seq<SeriesV>, vals: Seq<int>) -> bool {
    forall|p: int| 0 <= p < vals.len() ==> (#[trigger] t[vals[p]]).dtype == t[vals[0]].dtype
}

proof fn lemma_melt_lens(t: Seq<SeriesV>, vals: Seq<int>, s: Seq<Value>, c: nat, same: bool)
    requires
        rectangular(t),
        s.len() == height_of(t),
        c <= vals.len(),
        forall|p: int| 0 <= p < vals.len() ==> 0 <= #[trigger] vals[p] < t.len(),
    ensures
        melt_values(t, vals, c, same).len() == repeat(s, c).len(),
        melt_names(t, vals, c).len() == repeat(s, c).len(),
    decreases c,
{
    if c > 0 {
        lemma_melt_lens(t, vals, s, (c - 1) as nat, same);
        assert(t[vals[c - 1]].values.len() == height_of(t));
    }
}

proof fn lemma_repeat_fits(s: Seq<Value>, c: nat, t: DataType)
    requires
        all_fit(s, t),
    ensures
        all_fit(repeat(s, c), t),
    decreases c,
{
    if c > 0 {
        lemma_repeat_fits(s, (c - 1) as nat, t);
        let prev = repeat(s, (c - 1) as nat);
        assert forall|i: int| 0 <= i < repeat(s, c).len() implies fits(#[trigger] repeat(s, c)[i], t) by {
            if i >= prev.len() {
                assert(repeat(s, c)[i] == s[i - prev.len()]);
            } else {
                assert(repeat(s, c)[i] == prev[i]);
            }
        }
    }
}

proof fn lemma_melt_fits(t: Seq<SeriesV>, vals: Seq<int>, c: nat, same: bool, dt: DataType)
    requires
        c <= vals.len(),
        forall|p: int| 0 <= p < vals.len() ==> 0 <= #[trigger] vals[p] < t.len(),
        same ==> forall|p: int| 0 <= p < vals.len() ==> (#[trigger] t[vals[p]]).dtype == dt,
        !same ==> dt == DataType::Utf8,
        forall|q: int| 0 <= q < t.len() ==> all_fit((#[trigger] t[q]).values, t[q].dtype),
    ensures
        all_fit(melt_values(t, vals, c, same), dt),
        all_fit(melt_names(t, vals, c), DataType::Utf8),
    decreases c,
{
    if c > 0 {
        lemma_melt_fits(t, vals, (c - 1) as nat, same, dt);
        let pv = melt_values(t, vals, (c - 1) as nat, same);
        let pn = melt_names(t, vals, (c - 1) as nat);
        let col = t[vals[c - 1]];
        assert(all_fit(col.values, col.dtype));
        let mv = melt_values(t, vals, c, same);
        assert forall|i: int| 0 <= i < mv.len() implies fits(#[trigger] mv[i], dt) by {
            if i >= pv.len() {
                assert(mv[i] == melt_cast(col.values, same)[i - pv.len()]);
                assert(fits(col.values[i - pv.len()], col.dtype));
            } else {
                assert(mv[i] == pv[i]);
            }
        }
        assert forall|i: int| 0 <= i < melt_names(t, vals, c).len() implies fits(
            #[trigger] melt_names(t, vals, c)[i],
            DataType::Utf8,
        ) by {
            if i >= pn.len() {
                assert(melt_names(t, vals, c)[i] == Value::Str(col.name));
            } else {
                assert(melt_names(t, vals, c)[i] == pn[i]);
            }
        }
    }
}

impl PyDataFrame {
    /// Unpivots the columns named in `value_vars` into rows: see
    /// `melt_spec`. Fails with `ColumnNotFound` when a name is not found.
    pub fn melt(&self, id_vars: &Vec<String>, value_vars: &Vec<String>) -> (r: Result<
        PyDataFrame,
        TableError,
    >)
        requires
            self.wf(),
        ensures
            ({
                let ids = resolve(self@, names_view(id_vars@));
                let vals = resolve(self@, names_view(value_vars@));
                match r {
                    Ok(res) => all_found(ids) && all_found(vals) && res.wf() && res@ == melt_spec(
                        self@,
                        ids,
                        vals,
                    ),
                    Err(e) => e is ColumnNotFound && !(all_found(ids) && all_found(vals)),
                }
            }),
    {
        let ghost t = self@;
        proof { self.lemma_wf(); }
        let ids = match self.resolve_names(id_vars) {
            Ok(ks) => ks,
            Err(e) => return Err(e),
        };
        let vals = match self.resolve_names(value_vars) {
            Ok(ks) => ks,
            Err(e) => return Err(e),
        };
        let ghost iv = idx_view(ids@);
        let ghost vv = idx_view(vals@);
        let mut same = true;
        let mut d0 = DataType::Utf8;
        if vals.len() > 0 {
            d0 = self.series_at(vals[0]).dtype();
        }
        let mut p: usize = 0;
        while p < vals.len()
            invariant
                p <= vals.len(),
                self.wf(),
                t == self@,
                vv == idx_view(vals@),
                vals@.len() > 0 ==> d0 == t[vv[0]].dtype,
                forall|q: int| 0 <= q < vals@.len() ==> (#[trigger] vals@[q]) < t.len(),
                same ==> forall|q: int| 0 <= q < p ==> (#[trigger] t[vv[q]]).dtype == t[vv[0]].dtype,
                !same ==> !same_dtypes(t, vv),
            decreases vals.len() - p,
        {
            if self.series_at(vals[p]).dtype() != d0 {
                assert(t[vv[p as int]].dtype != t[vv[0]].dtype);
                same = false;
            }
            p += 1;
        }
        assert(same == same_dtypes(t, vv));
        let dt = if vals.len() > 0 && same {
            d0
        } else {
            DataType::Utf8
        };
        assert(dt == melt_dtype(t, vv));
        let h = self.height();
        let nv = vals.len();
        let ghost goal = melt_spec(t, iv, vv);
        let mut out: Vec<Series> = Vec::new();
        let mut p: usize = 0;
        while p < ids.len()
            invariant
                p <= ids.len(),
                self.wf(),
                rectangular(t),
                t == self@,
                h == height_of(t),
                nv == vv.len(),
                iv == idx_view(ids@),
                vv == idx_view(vals@),
                goal == melt_spec(t, iv, vv),
                forall|q: int| 0 <= q < t.len() ==> all_fit((#[trigger] t[q]).values, t[q].dtype),
                forall|q: int| 0 <= q < ids@.len() ==> (#[trigger] ids@[q]) < t.len(),
                out@.len() == p,
                forall|q: int|
                    0 <= q < p ==> (#[trigger] out@[q]).wf() && out@[q]@ == goal[q]
                        && out@[q]@.values.len() == repeat(t[iv[q]].values, nv as nat).len(),
            decreases ids.len() - p,
        {
            let col = self.series_at(ids[p]);
            let cells = col.to_cells();
            let ghost s = t[iv[p as int]].values;
            let mut acc: Vec<Cell> = Vec::new();
            let mut v: usize = 0;
            while v < nv
                invariant
                    v <= nv,
                    cells_view(cells@) == s,
                    cells_view(acc@) == repeat(s, v as nat),
                decreases nv - v,
            {
                let mut i: usize = 0;
                let ghost base = cells_view(acc@);
                while i < cells.len()
                    invariant
                        i <= cells.len(),
                        cells_view(cells@) == s,
                        cells_view(acc@) == base + s.take(i as int),
                    decreases cells.len() - i,
                {
                    proof { lemma_cells_view_push(acc@, cells@[i as int]); }
                    acc.push(cells[i].duplicate());
                    assert(s.take(i + 1) == s.take(i as int).push(cells@[i as int]@));
                    i += 1;
                }
                assert(s.take(i as int) == s);
                v += 1;
            }
            proof { lemma_repeat_fits(s, nv as nat, col@.dtype); }
            let c = Series::from_cells(col.name(), col.dtype(), acc);
            out.push(c);
            p += 1;
        }
        let mut names: Vec<Cell> = Vec::new();
        let mut values: Vec<Cell> = Vec::new();
        let mut v: usize = 0;
        while v < nv
            invariant
                v <= nv,
                self.wf(),
                rectangular(t),
                t == self@,
                h == height_of(t),
                nv == vv.len(),
                vv == idx_view(vals@),
                forall|q: int| 0 <= q < vals@.len() ==> (#[trigger] vals@[q]) < t.len(),
                forall|q: int| 0 <= q < t.len() ==> all_fit((#[trigger] t[q]).values, t[q].dtype),
                same == same_dtypes(t, vv),
                same ==> forall|q: int| 0 <= q < vv.len() ==> (#[trigger] t[vv[q]]).dtype == dt,
                !same ==> dt == DataType::Utf8,
                cells_view(names@) == melt_names(t, vv, v as nat),
                cells_view(values@) == melt_values(t, vv, v as nat, same),
            decreases nv - v,
        {
            let col = self.series_at(vals[v]);
            let name = col.name();
            let cells = col.to_cells();
            let ghost s = t[vv[v as int]].values;
            let ghost nb = cells_view(names@);
            let ghost vb = cells_view(values@);
            let ghost ns = Seq::new(h as nat, |i: int| Value::Str(t[vv[v as int]].name));
            let ghost cs = melt_cast(s, same);
            let mut i: usize = 0;
            while i < h
                invariant
                    i <= h,
                    cells@.len() == h,
                    cells_view(cells@) == s,
                    name@ == t[vv[v as int]].name,
                    ns == Seq::new(h as nat, |i: int| Value::Str(t[vv[v as int]].name)),
                    cells_view(names@) == nb + ns.take(i as int),
                    cs == melt_cast(s, same),
                    cells_view(values@) == vb + cs.take(i as int),
                decreases h - i,
            {
                let c = if same {
                    cells[i].duplicate()
                } else {
                    text_cell(&cells[i])
                };
                proof {
                    lemma_cells_view_push(values@, c);
                    lemma_cells_view_push(names@, Cell::Str(name));
                }
                values.push(c);
                names.push(Cell::Str(name.clone()));
                assert(cs.take(i + 1) == cs.take(i as int).push(c@));
                assert(ns.take(i + 1) == ns.take(i as int).push(Value::Str(name@)));
                i += 1;
            }
            assert(cs.take(i as int) == cs);
            assert(ns.take(i as int) == ns);
            v += 1;
        }
        let ghost hs = Seq::new(h as nat, |i: int| Value::Null);
        proof {
            lemma_melt_lens(t, vv, hs, nv as nat, same);
            lemma_melt_fits(t, vv, nv as nat, same, dt);
            reveal_strlit("variable");
            reveal_strlit("value");
        }
        out.push(Series::from_cells("variable".to_owned(), DataType::Utf8, names));
        out.push(Series::from_cells("value".to_owned(), dt, values));
        let ghost ov = out@.map_values(|s: Series| s@);
        assert forall|q: int| 0 <= q < ids@.len() implies (#[trigger] ov[q]).values.len()
            == repeat(hs, nv as nat).len() by {
            lemma_repeat_len(t[iv[q]].values, hs, nv as nat);
        }
        assert(ov =~= goal);
        Ok(PyDataFrame::from_series(out))
    }
}

proof fn lemma_repeat_len(a: Seq<Value>, b: Seq<Value>, c: nat)
    requires
        a.len() == b.len(),
    ensures
        repeat(a, c).len() == repeat(b, c).len(),
    decreases c,
{
    if c > 0 {
        lemma_repeat_len(a, b, (c - 1) as nat);
    }
}

/// The rows of `rows` whose pivot value is `v`, in order.
pub open spec fn rows_with(rows: Seq<int>, pv: Seq<Value>, v: Value) -> Seq<int>
    decreases rows.len(),
{
    if rows.len() == 0 {
        Seq::empty()
    } else if pv[rows.last()] == v {
        rows_with(rows.drop_last(), pv, v).push(rows.last())
    } else {
        rows_with(rows.drop_last(), pv, v)
    }
}

/// The cell of group `g` in the column of pivot value `v`: the reduction of
/// the values of the group's rows that have that pivot value; null where
/// there are none.
pub open spec fn pivot_cell(t: Seq<SeriesV>, ks: Seq<int>, p: int, vc: int, a: Agg, v: Value, g: int) -> Value {
    let gid = grouping(key_cols(t, ks), height_of(t)).1;
    let rs = rows_with(members(gid, g), t[p].values, v);
    if rs.len() == 0 {
        Value::Null
    } else {
        reduce(a, t[vc].values, rs)
    }
}

/// Whether the reduction behind a pivot cell fits in its type.
pub open spec fn pivot_fits_at(t: Seq<SeriesV>, ks: Seq<int>, p: int, vc: int, a: Agg, v: Value, g: int) -> bool {
    let gid = grouping(key_cols(t, ks), height_of(t)).1;
    agg_fits(a, t[vc].values, rows_with(members(gid, g), t[p].values, v))
}

/// The distinct pivot values, by the row where each is first met.
pub open spec fn pivot_firsts(t: Seq<SeriesV>, p: int) -> Seq<int> {
    grouping(seq![t[p].values], height_of(t)).0
}

/// Whether every pivot cell's reduction fits.
pub open spec fn pivot_fits(t: Seq<SeriesV>, ks: Seq<int>, p: int, vc: int, a: Agg) -> bool {
    let n = grouping(key_cols(t, ks), height_of(t)).0.len();
    let pf = pivot_firsts(t, p);
    forall|k: int, g: int| 0 <= k < pf.len() && 0 <= g < n ==> #[trigger] pivot_fits_for(t, ks, p, vc, a, k, g)
}

/// Whether the pivot cell of the `k`-th distinct pivot value in group `g`
/// fits in its type.
pub open spec fn pivot_fits_for(t: Seq<SeriesV>, ks: Seq<int>, p: int, vc: int, a: Agg, k: int, g: int) -> bool {
    pivot_fits_at(t, ks, p, vc, a, t[p].values[pivot_firsts(t, p)[k]], g)
}

/// The pivoted table: the key columns of `ks` with one row per group (as in
/// grouping), then one column per distinct value of column `p`, in the
/// order values are first met, holding the pivot cells.
pub open spec fn pivot_spec(t: Seq<SeriesV>, ks: Seq<int>, p: int, vc: int, a: Agg) -> Seq<SeriesV> {
    let f = grouping(key_cols(t, ks), height_of(t)).0;
    ks.map_values(|j: int| SeriesV { values: f.map_values(|r: int| t[j].values[r]), ..t[j] })
        + pivot_firsts(t, p).map_values(
        |r0: int|
            SeriesV {
                name: value_name(t[p].values[r0]),
                dtype: agg_dtype(a, t[vc].dtype),
                values: Seq::new(f.len(), |g: int| pivot_cell(t, ks, p, vc, a, t[p].values[r0], g)),
            },
    )
}

/// The rows of `rows` whose pivot cell equals the one at row `at`.
fn select_rows(rows: &Vec<usize>, pc: &Vec<Cell>, at: usize) -> (r: Vec<usize>)
    requires
        forall|k: int| 0 <= k < rows@.len() ==> (#[trigger] rows@[k]) < pc@.len(),
        at < pc@.len(),
    ensures
        idx_view(r@) == rows_with(idx_view(rows@), cells_view(pc@), cells_view(pc@)[at as int]),
        forall|k: int| 0 <= k < r@.len() ==> (#[trigger] r@[k]) < pc@.len(),
        r@.len() <= rows@.len(),
{
    let ghost rv = idx_view(rows@);
    let ghost pv = cells_view(pc@);
    let mut out: Vec<usize> = Vec::new();
    let mut k: usize = 0;
    while k < rows.len()
        invariant
            k <= rows.len(),
            rv == idx_view(rows@),
            pv == cells_view(pc@),
            at < pc@.len(),
            forall|q: int| 0 <= q < rows@.len() ==> (#[trigger] rows@[q]) < pc@.len(),
            idx_view(out@) == rows_with(rv.take(k as int), pv, pv[at as int]),
            forall|q: int| 0 <= q < out@.len() ==> (#[trigger] out@[q]) < pc@.len(),
            out@.len() <= k,
        decreases rows.len() - k,
    {
        assert(rv.take(k + 1).drop_last() == rv.take(k as int));
        assert(rv.take(k + 1).last() == rows@[k as int] as int);
        if pc[rows[k]].same(&pc[at]) {
            let ghost before = out@;
            out.push(rows[k]);
            assert(idx_view(out@) =~= idx_view(before).push(rows@[k as int] as int));
        }
        k += 1;
    }
    assert(rv.take(k as int) == rv);
    out
}

impl PyDataFrame {
    /// Groups by the columns named in `by` and spreads the values of
    /// `values_column` over one column per distinct value of
    /// `pivot_column`, reduced with the reduction called `agg`. Fails with
    /// `UnknownAggregation` for an unknown reduction name, and otherwise as
    /// `pivot_with` does.
    pub fn pivot(&self, by: &Vec<String>, pivot_column: &String, values_column: &String, agg: &str) -> (r:
        Result<PyDataFrame, TableError>)
        requires
            self.wf(),
            height_of(self@) <= i64::MAX,
        ensures
            match r {
                Ok(t) => exists|a: Agg|
                    agg_name(a) == agg@ && pivot_ok(self@, by@, pivot_column@, values_column@, a)
                        && t.wf() && t@ == pivot_spec(
                        self@,
                        resolve(self@, names_view(by@)),
                        lookup(self@, pivot_column@),
                        lookup(self@, values_column@),
                        a,
                    ),
                Err(e) => (e is UnknownAggregation && forall|a: Agg| agg_name(a) != agg@) || exists|
                    a: Agg,
                | agg_name(a) == agg@ && pivot_err(self@, by@, pivot_column@, values_column@, a, e),
            },
    {
        match Agg::from_name(agg) {
            Ok(a) => self.pivot_with(by, pivot_column, values_column, a),
            Err(e) => Err(e),
        }
    }

    /// See `pivot_spec`. Fails with `ColumnNotFound` when a name is not
    /// found, else with `TypeMismatch` when the pivot column is not a string
    /// column or the values column does not take the reduction, else with
    /// `InvalidArgument` when a sum does not fit in 64 bits.
    pub fn pivot_with(&self, by: &Vec<String>, pivot_column: &String, values_column: &String, a: Agg) -> (r:
        Result<PyDataFrame, TableError>)
        requires
            self.wf(),
            height_of(self@) <= i64::MAX,
        ensures
            match r {
                Ok(t) => pivot_ok(self@, by@, pivot_column@, values_column@, a) && t.wf() && t@
                    == pivot_spec(
                    self@,
                    resolve(self@, names_view(by@)),
                    lookup(self@, pivot_column@),
                    lookup(self@, values_column@),
                    a,
                ),
                Err(e) => pivot_err(self@, by@, pivot_column@, values_column@, a, e),
            },
    {
        let ghost t = self@;
        proof {
            self.lemma_wf();
            lemma_lookup(t, pivot_column@);
            lemma_lookup(t, values_column@);
        }
        let ks = match self.resolve_names(by) {
            Ok(ks) => ks,
            Err(e) => return Err(e),
        };
        let p = match self.find_idx_by_name(pivot_column) {
            Some(p) => p,
            None => return Err(TableError::ColumnNotFound(pivot_column.clone())),
        };
        let vc = match self.find_idx_by_name(values_column) {
            Some(v) => v,
            None => return Err(TableError::ColumnNotFound(values_column.clone())),
        };
        if !a.accepts(self.series_at(vc).dtype()) {
            return Err(TableError::TypeMismatch);
        }
        let ghost kv = idx_view(ks@);
        let kc = self.key_cells(&ks);
        let h = self.height();
        let (firsts, gid) = group_index(&kc, h);
        let ghost gv = idx_view(gid@);
        let pcells = self.series_at(p).to_cells();
        let vcells = self.series_at(vc).to_cells();
        let mut pcols: Vec<Vec<Cell>> = Vec::new();
        pcols.push(self.series_at(p).to_cells());
        assert(cols_view(pcols@) =~= seq![t[p as int].values]);
        let (pf, _pg) = group_index(&pcols, h);
        let ghost pfv = idx_view(pf@);
        let mut out = self.key_part(&ks, &firsts);
        let ghost goal = pivot_spec(t, kv, p as int, vc as int, a);
        assert forall|q: int| 0 <= q < ks@.len() implies (#[trigger] out@[q])@ == goal[q] by {
            assert(out@[q]@.values =~= goal[q].values);
        }
        let mut k: usize = 0;
        while k < pf.len()
            invariant
                k <= pf.len(),
                self.wf(),
                t == self@,
                rectangular(t),
                h == height_of(t),
                h <= i64::MAX,
                p < t.len(),
                vc < t.len(),
                p as int == lookup(t, pivot_column@),
                vc as int == lookup(t, values_column@),
                agg_accepts(a, t[vc as int].dtype),
                kv == idx_view(ks@),
                kv == resolve(t, names_view(by@)),
                all_found(kv),
                pfv == idx_view(pf@),
                pfv == pivot_firsts(t, p as int),
                forall|q: int| 0 <= q < pf@.len() ==> (#[trigger] pf@[q]) < h,
                idx_view(firsts@) == grouping(key_cols(t, kv), h as nat).0,
                gv == idx_view(gid@),
                gv == grouping(key_cols(t, kv), h as nat).1,
                gid@.len() == h,
                forall|q: int| 0 <= q < t.len() ==> all_fit((#[trigger] t[q]).values, t[q].dtype),
                cells_view(pcells@) == t[p as int].values,
                cells_view(vcells@) == t[vc as int].values,
                goal == pivot_spec(t, kv, p as int, vc as int, a),
                out@.len() == ks@.len() + k,
                forall|q: int|
                    0 <= q < ks@.len() + k ==> (#[trigger] out@[q]).wf() && out@[q]@ == goal[q]
                        && out@[q]@.values.len() == firsts@.len(),
                forall|q: int, g: int|
                    0 <= q < k && 0 <= g < firsts@.len() ==> #[trigger] pivot_fits_for(
                        t,
                        kv,
                        p as int,
                        vc as int,
                        a,
                        q,
                        g,
                    ),
            decreases pf.len() - k,
        {
            let at = pf[k];
            let ghost pvv = t[p as int].values[at as int];
            let name = cell_text(&pcells[at]);
            let mut vals: Vec<Cell> = Vec::new();
            let mut g: usize = 0;
            while g < firsts.len()
                invariant
                    g <= firsts.len(),
                    t == self@,
                    h == height_of(t),
                    p < t.len(),
                    vc < t.len(),
                    p as int == lookup(t, pivot_column@),
                    vc as int == lookup(t, values_column@),
                        agg_accepts(a, t[vc as int].dtype),
                    kv == resolve(t, names_view(by@)),
                    all_found(kv),
                    k < pf@.len(),
                    at == pf@[k as int],
                    pfv == idx_view(pf@),
                    pfv == pivot_firsts(t, p as int),
                    pvv == t[p as int].values[at as int],
                    idx_view(firsts@) == grouping(key_cols(t, kv), h as nat).0,
                    h == pcells@.len(),
                    h == vcells@.len(),
                    h <= i64::MAX,
                    at < h,
                    gid@.len() == h,
                    gv == idx_view(gid@),
                    gv == grouping(key_cols(t, kv), h as nat).1,
                    pvv == cells_view(pcells@)[at as int],
                    cells_view(pcells@) == t[p as int].values,
                    cells_view(vcells@) == t[vc as int].values,
                    all_fit(t[vc as int].values, t[vc as int].dtype),
                    all_fit(cells_view(vals@), agg_dtype(a, t[vc as int].dtype)),
                    vals@.len() == g,
                    forall|q: int|
                        0 <= q < g ==> (#[trigger] vals@[q])@ == pivot_cell(t, kv, p as int, vc as int, a, pvv, q),
                    forall|q: int|
                        0 <= q < g ==> #[trigger] pivot_fits_at(t, kv, p as int, vc as int, a, pvv, q),
                decreases firsts.len() - g,
            {
                let rows = group_members(&gid, g);
                let sel = select_rows(&rows, &pcells, at);
                proof {
                    lemma_reduce_fits(a, cells_view(vcells@), idx_view(sel@), t[vc as int].dtype);
                }
                let c = if sel.len() == 0 {
                    Cell::Null
                } else {
                    match reduce_rows(a, &vcells, &sel) {
                        Some(c) => c,
                        None => {
                            assert(!pivot_fits_at(t, kv, p as int, vc as int, a, pvv, g as int));
                            assert(pfv[k as int] == at as int);
                            assert(!pivot_fits_for(t, kv, p as int, vc as int, a, k as int, g as int));
                            assert(!pivot_fits(t, kv, p as int, vc as int, a));
                            return Err(TableError::InvalidArgument);
                        },
                    }
                };
                proof { lemma_cells_view_push(vals@, c); }
                vals.push(c);
                g += 1;
            }
            assert forall|g2: int| 0 <= g2 < firsts@.len() implies #[trigger] pivot_fits_for(
                t,
                kv,
                p as int,
                vc as int,
                a,
                k as int,
                g2,
            ) by {
                assert(pfv[k as int] == at as int);
                assert(pivot_fits_at(t, kv, p as int, vc as int, a, pvv, g2));
            }
            let s = Series::from_cells(name, a.output_dtype(self.series_at(vc).dtype()), vals);
            assert(s@.values =~= goal[ks@.len() + k].values);
            assert(s@ == goal[ks@.len() + k]);
            out.push(s);
            k += 1;
        }
        let ghost ov = out@.map_values(|s: Series| s@);
        assert(ov =~= goal);
        assert(pivot_fits(t, kv, p as int, vc as int, a));
        Ok(PyDataFrame::from_series(out))
    }
}

/// The conditions under which pivoting succeeds.
pub open spec fn pivot_ok(t: Seq<SeriesV>, by: Seq<String>, pn: Seq<char>, vn: Seq<char>, a: Agg) -> bool {
    let ks = resolve(t, names_view(by));
    let p = lookup(t, pn);
    let vc = lookup(t, vn);
    all_found(ks) && p >= 0 && vc >= 0 && agg_accepts(a, t[vc].dtype)
        && pivot_fits(t, ks, p, vc, a)
}

/// The error that pivoting reports, and the inputs on which it comes.
pub open spec fn pivot_err(t: Seq<SeriesV>, by: Seq<String>, pn: Seq<char>, vn: Seq<char>, a: Agg, e: TableError) -> bool {
    let ks = resolve(t, names_view(by));
    let p = lookup(t, pn);
    let vc = lookup(t, vn);
    let found = all_found(ks) && p >= 0 && vc >= 0;
    ||| e is ColumnNotFound && !found
    ||| e is TypeMismatch && found && !agg_accepts(a, t[vc].dtype)
    ||| e is InvalidArgument && found && agg_accepts(a, t[vc].dtype)
        && !pivot_fits(t, ks, p, vc, a)
}

/// The indicator columns of a column: one per distinct value, in the order
/// values are first met, named `<column>_<value>`, holding for each row
/// whether it has that value.
pub open spec fn dummies_of(c: SeriesV) -> Seq<SeriesV> {
    grouping(seq![c.values], c.values.len()).0.map_values(
        |r: int|
            SeriesV {
                name: c.name + "_"@ + value_name(c.values[r]),
                dtype: DataType::Bool,
                values: c.values.map_values(|v: Value| Value::Bool(v == c.values[r])),
            },
    )
}

/// The columns that stand for column `c` after dummy encoding: an integer
/// column itself, any other its indicator columns.
pub open spec fn encoded(c: SeriesV) -> Seq<SeriesV> {
    if c.dtype == DataType::Int64 {
        seq![c]
    } else {
        dummies_of(c)
    }
}

/// The dummy encoding of a table: the encoded columns of each column, in
/// order.
pub open spec fn dummies_spec(t: Seq<SeriesV>) -> Seq<SeriesV> {
    t.map_values(|c: SeriesV| encoded(c)).flatten()
}

/// The indicator columns of one column.
fn column_dummies(col: &Series) -> (r: Vec<Series>)
    requires
        col.wf(),
    ensures
        series_views(r@) == dummies_of(col@),
        forall|i: int| 0 <= i < r@.len() ==> (#[trigger] r@[i]).wf() && r@[i]@.values.len()
            == col@.values.len(),
{
    let cells = col.to_cells();
    let ghost v = col@.values;
    let n = cells.len();
    let mut pc: Vec<Vec<Cell>> = Vec::new();
    pc.push(col.to_cells());
    assert(cols_view(pc@) =~= seq![v]);
    assert(cells_view(pc@[0]@).len() == pc@[0]@.len());
    let (firsts, _g) = group_index(&pc, n);
    let ghost fv = idx_view(firsts@);
    let ghost goal = dummies_of(col@);
    let prefix = concat(&col.name(), "_");
    let mut out: Vec<Series> = Vec::new();
    let mut k: usize = 0;
    while k < firsts.len()
        invariant
            k <= firsts.len(),
            n == cells@.len(),
            cells_view(cells@) == v,
            v == col@.values,
            prefix@ == col@.name + "_"@,
            fv == idx_view(firsts@),
            fv == grouping(seq![v], n as nat).0,
            forall|q: int| 0 <= q < firsts@.len() ==> (#[trigger] firsts@[q]) < n,
            goal == dummies_of(col@),
            out@.len() == k,
            forall|q: int| 0 <= q < k ==> (#[trigger] out@[q]).wf() && out@[q]@ == goal[q],
        decreases firsts.len() - k,
    {
        let at = firsts[k];
        let vname = cell_text(&cells[at]);
        assert(vname@ == value_name(v[at as int]));
        let name = concat(&prefix, vname.as_str());
        let mut flags: Vec<Cell> = Vec::new();
        let mut i: usize = 0;
        while i < n
            invariant
                i <= n,
                n == cells@.len(),
                at < n,
                cells_view(cells@) == v,
                flags@.len() == i,
                forall|q: int| 0 <= q < i ==> (#[trigger] cells_view(flags@)[q]) == Value::Bool(v[q] == v[at as int]),
            decreases n - i,
        {
            let c = Cell::Bool(cells[i].same(&cells[at]));
            proof { lemma_cells_view_push(flags@, c); }
            flags.push(c);
            i += 1;
        }
        let s = Series::from_cells(name, DataType::Bool, flags);
        assert(s@.values =~= goal[k as int].values);
        assert(s@ == goal[k as int]);
        out.push(s);
        k += 1;
    }
    assert(series_views(out@) =~= goal);
    out
}

impl PyDataFrame {
    /// Dummy encoding: integer columns stay as they are; every other column
    /// is replaced by one boolean indicator column per distinct value (see
    /// `dummies_of`).
    pub fn to_dummies(&self) -> (r: PyDataFrame)
        requires
            self.wf(),
        ensures
            r.wf(),
            r@ == dummies_spec(self@),
    {
        proof { self.lemma_wf(); }
        let ghost t = self@;
        let ghost parts = t.map_values(|c: SeriesV| encoded(c));
        let mut out: Vec<Series> = Vec::new();
        let mut j: usize = 0;
        while j < self.width()
            invariant
                j <= t.len(),
                self.wf(),
                rectangular(t),
                t == self@,
                parts == t.map_values(|c: SeriesV| encoded(c)),
                series_views(out@) == parts.take(j as int).flatten(),
                forall|i: int| 0 <= i < out@.len() ==> (#[trigger] out@[i]).wf() && out@[i]@.values.len()
                    == height_of(t),
            decreases t.len() - j,
        {
            let col = self.series_at(j);
            let ghost before = series_views(out@);
            if col.dtype() == DataType::Int64 {
                out.push(col.duplicate());
                assert(series_views(out@) =~= before + seq![t[j as int]]);
            } else {
                let mut d = column_dummies(col);
                let ghost dv = series_views(d@);
                let ghost bo = out@;
                let ghost dd = d@;
                out.append(&mut d);
                assert(out@ == bo + dd);
                assert(series_views(out@) =~= before + dv);
                assert forall|i: int| 0 <= i < out@.len() implies (#[trigger] out@[i]).wf() && out@[i]@.values.len()
                    == height_of(t) by {
                    if i >= bo.len() {
                        assert(out@[i] == dd[i - bo.len()]);
                    } else {
                        assert(out@[i] == bo[i]);
                    }
                }
            }
            proof {
                assert(parts.take(j + 1) == parts.take(j as int).push(parts[j as int]));
                parts.take(j as int).lemma_flatten_push(parts[j as int]);
            }
            j += 1;
        }
        assert(parts.take(j as int) == parts);
        assert(rectangular(series_views(out@))) by {
            if out@.len() > 0 {
                assert(series_views(out@)[0].values.len() == height_of(t));
            }
        }
        PyDataFrame::from_series(out)
    }
}

} // verus!
