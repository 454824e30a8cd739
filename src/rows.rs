//! Row-wise operators: dropping nulls and duplicates, uniqueness masks and
//! shifting.

use vstd::prelude::*;

use crate::cell::{cells_view, lemma_cells_view_push, Cell, DataType, Value};
use crate::error::TableError;
use crate::frame::{height_of, idx_view, rectangular, take_spec, PyDataFrame};
use crate::groupby::{
    all_found, cols_view, group_index, grouping, key_cols, keys_equal, names_view, resolve, row_key,
};
use crate::series::{Series, SeriesV};

verus! {

/// Whether row `i` has a null in one of the columns `kc`.
pub open spec fn has_null(kc: Seq<Seq<Value>>, i: int) -> bool {
    exists|c: int| 0 <= c < kc.len() && (#[trigger] kc[c])[i] is Null
}

/// The rows below `n` without a null in the columns `kc`, in order.
pub open spec fn rows_without_null(kc: Seq<Seq<Value>>, n: nat) -> Seq<int>
    decreases n,
{
    if n == 0 {
        Seq::empty()
    } else if has_null(kc, n - 1) {
        rows_without_null(kc, (n - 1) as nat)
    } else {
        rows_without_null(kc, (n - 1) as nat).push(n - 1)
    }
}

/// Every position of a table, in order.
pub open spec fn all_positions(t: Seq<SeriesV>) -> Seq<int> {
    Seq::new(t.len(), |j: int| j)
}

/// The columns named in `subset`, or all columns when it is `None`.
pub open spec fn subset_positions(t: Seq<SeriesV>, subset: Option<Vec<String>>) -> Seq<int> {
    match subset {
        Some(names) => resolve(t, names_view(names@)),
        None => all_positions(t),
    }
}

/// Whether no other row below `n` has the key of row `i`.
pub open spec fn key_unique(kc: Seq<Seq<Value>>, n: nat, i: int) -> bool {
    forall|k: int| 0 <= k < n && k != i ==> row_key(kc, k) != row_key(kc, i)
}

/// The value `periods` rows above row `i` (below, for a negative count), or
/// null where that row lies outside the column.
pub open spec fn shifted(v: Seq<Value>, periods: int, i: int) -> Value {
    if 0 <= i - periods < v.len() {
        v[i - periods]
    } else {
        Value::Null
    }
}

/// Whether row `i` has a null in one of the columns `kc`.
fn row_has_null(kc: &Vec<Vec<Cell>>, i: usize) -> (r: bool)
    requires
        forall|c: int| 0 <= c < kc@.len() ==> i < (#[trigger] kc@[c])@.len(),
    ensures
        r == has_null(cols_view(kc@), i as int),
{
    let ghost v = cols_view(kc@);
    let mut c: usize = 0;
    while c < kc.len()
        invariant
            c <= kc.len(),
            v == cols_view(kc@),
            forall|d: int| 0 <= d < kc@.len() ==> i < (#[trigger] kc@[d])@.len(),
            forall|d: int| 0 <= d < c ==> !((#[trigger] v[d])[i as int] is Null),
        decreases kc.len() - c,
    {
        if kc[c][i].is_null() {
            assert(v[c as int][i as int] is Null);
            return true;
        }
        c += 1;
    }
    false
}

impl PyDataFrame {
    /// The positions of the columns named in `subset`, or of all columns.
    fn subset_cols(&self, subset: &Option<Vec<String>>) -> (r: Result<Vec<usize>, TableError>)
        ensures
            match r {
                Ok(ks) => all_found(subset_positions(self@, *subset)) && idx_view(ks@)
                    == subset_positions(self@, *subset) && forall|p: int|
                    0 <= p < ks@.len() ==> (#[trigger] ks@[p]) < self@.len(),
                Err(e) => e is ColumnNotFound && !all_found(subset_positions(self@, *subset)),
            },
    {
        match subset {
            Some(names) => self.resolve_names(names),
            None => {
                let mut ks: Vec<usize> = Vec::new();
                let mut j: usize = 0;
                while j < self.width()
                    invariant
                        j <= self@.len(),
                        idx_view(ks@) == all_positions(self@).take(j as int),
                        forall|p: int| 0 <= p < ks@.len() ==> (#[trigger] ks@[p]) < self@.len(),
                    decreases self@.len() - j,
                {
                    let ghost before = ks@;
                    ks.push(j);
                    assert(idx_view(ks@) =~= idx_view(before).push(j as int));
                    assert(all_positions(self@).take(j + 1) =~= all_positions(self@).take(j as int).push(
                        j as int,
                    ));
                    j += 1;
                }
                assert(all_positions(self@).take(j as int) == all_positions(self@));
                Ok(ks)
            },
        }
    }

    /// The rows without a null in the columns named in `subset` (in any
    /// column when it is `None`), in order. Fails with `ColumnNotFound` when
    /// a name is not found.
    pub fn drop_nulls(&self, subset: Option<Vec<String>>) -> (r: Result<PyDataFrame, TableError>)
        requires
            self.wf(),
        ensures
            ({
                let ks = subset_positions(self@, subset);
                match r {
                    Ok(t) => all_found(ks) && t.wf() && t@ == take_spec(
                        self@,
                        rows_without_null(key_cols(self@, ks), height_of(self@)),
                    ),
                    Err(e) => e is ColumnNotFound && !all_found(ks),
                }
            }),
    {
        let ks = match self.subset_cols(&subset) {
            Ok(ks) => ks,
            Err(e) => return Err(e),
        };
        let kc = self.key_cells(&ks);
        let ghost v = cols_view(kc@);
        let h = self.height();
        let mut rows: Vec<usize> = Vec::new();
        let mut i: usize = 0;
        while i < h
            invariant
                i <= h,
                v == cols_view(kc@),
                forall|c: int| 0 <= c < kc@.len() ==> (#[trigger] kc@[c])@.len() == h,
                idx_view(rows@) == rows_without_null(v, i as nat),
                forall|k: int| 0 <= k < rows@.len() ==> (#[trigger] rows@[k]) < i,
            decreases h - i,
        {
            if !row_has_null(&kc, i) {
                rows.push(i);
                assert(idx_view(rows@) =~= rows_without_null(v, i as nat).push(i as int));
            }
            i += 1;
        }
        assert forall|k: int| 0 <= k < idx_view(rows@).len() implies 0 <= #[trigger] idx_view(rows@)[k]
            < height_of(self@) by {
            assert(idx_view(rows@)[k] == rows@[k] as int);
        }
        Ok(self.take_unchecked(&rows))
    }

    /// The first row of each distinct key of the columns named in `subset`
    /// (of all columns when it is `None`), in the order in which keys are
    /// first met. Fails with `ColumnNotFound` when a name is not found.
    pub fn drop_duplicates(&self, maintain_order: bool, subset: Option<Vec<String>>) -> (r: Result<
        PyDataFrame,
        TableError,
    >)
        requires
            self.wf(),
        ensures
            ({
                let ks = subset_positions(self@, subset);
                match r {
                    Ok(t) => all_found(ks) && t.wf() && t@ == take_spec(
                        self@,
                        grouping(key_cols(self@, ks), height_of(self@)).0,
                    ),
                    Err(e) => e is ColumnNotFound && !all_found(ks),
                }
            }),
    {
        let ks = match self.subset_cols(&subset) {
            Ok(ks) => ks,
            Err(e) => return Err(e),
        };
        let kc = self.key_cells(&ks);
        let h = self.height();
        let (firsts, _gid) = group_index(&kc, h);
        assert forall|k: int| 0 <= k < idx_view(firsts@).len() implies 0 <= #[trigger] idx_view(
            firsts@,
        )[k] < height_of(self@) by {
            assert(idx_view(firsts@)[k] == firsts@[k] as int);
        }
        Ok(self.take_unchecked(&firsts))
    }

    /// A boolean column that holds, for each row, whether no other row is
    /// equal to it in every column.
    pub fn is_unique(&self) -> (r: Series)
        requires
            self.wf(),
        ensures
            r.wf(),
            r@.dtype == DataType::Bool,
            r@.values.len() == height_of(self@),
            forall|i: int|
                0 <= i < height_of(self@) ==> (#[trigger] r@.values[i]) == Value::Bool(
                    key_unique(key_cols(self@, all_positions(self@)), height_of(self@), i),
                ),
    {
        self.uniqueness(true)
    }

    /// A boolean column that holds, for each row, whether another row is
    /// equal to it in every column.
    pub fn is_duplicated(&self) -> (r: Series)
        requires
            self.wf(),
        ensures
            r.wf(),
            r@.dtype == DataType::Bool,
            r@.values.len() == height_of(self@),
            forall|i: int|
                0 <= i < height_of(self@) ==> (#[trigger] r@.values[i]) == Value::Bool(
                    !key_unique(key_cols(self@, all_positions(self@)), height_of(self@), i),
                ),
    {
        self.uniqueness(false)
    }

    fn uniqueness(&self, unique: bool) -> (r: Series)
        requires
            self.wf(),
        ensures
            r.wf(),
            r@.dtype == DataType::Bool,
            r@.values.len() == height_of(self@),
            forall|i: int|
                0 <= i < height_of(self@) ==> (#[trigger] r@.values[i]) == Value::Bool(
                    key_unique(key_cols(self@, all_positions(self@)), height_of(self@), i) == unique,
                ),
    {
        let ks = match self.subset_cols(&None) {
            Ok(ks) => ks,
            Err(_) => Vec::new(),
        };
        let kc = self.key_cells(&ks);
        let ghost v = cols_view(kc@);
        let h = self.height();
        assert(v == key_cols(self@, all_positions(self@)));
        let mut out: Vec<Cell> = Vec::new();
        let mut i: usize = 0;
        while i < h
            invariant
                i <= h,
                h == height_of(self@),
                v == cols_view(kc@),
                v == key_cols(self@, all_positions(self@)),
                forall|c: int| 0 <= c < kc@.len() ==> (#[trigger] kc@[c])@.len() == h,
                out@.len() == i,
                forall|q: int|
                    0 <= q < i ==> (#[trigger] cells_view(out@)[q]) == Value::Bool(
                        key_unique(v, h as nat, q) == unique,
                    ),
            decreases h - i,
        {
            let mut alone = true;
            let mut k: usize = 0;
            while k < h
                invariant
                    k <= h,
                    i < h,
                    v == cols_view(kc@),
                    forall|c: int| 0 <= c < kc@.len() ==> (#[trigger] kc@[c])@.len() == h,
                    alone == forall|q: int| 0 <= q < k && q != i ==> row_key(v, q) != row_key(v, i as int),
                decreases h - k,
            {
                if k != i && keys_equal(&kc, k, i) {
                    alone = false;
                }
                k += 1;
            }
            proof { lemma_cells_view_push(out@, Cell::Bool(alone == unique)); }
            out.push(Cell::Bool(alone == unique));
            i += 1;
        }
        Series::from_cells(String::new(), DataType::Bool, out)
    }

    /// Every column moved down by `periods` rows (up, for a negative count);
    /// the rows left empty hold null.
    pub fn shift(&self, periods: i64) -> (r: PyDataFrame)
        requires
            self.wf(),
        ensures
            r.wf(),
            r@.len() == self@.len(),
            forall|j: int|
                0 <= j < self@.len() ==> (#[trigger] r@[j]) == (SeriesV {
                    values: Seq::new(
                        self@[j].values.len(),
                        |i: int| shifted(self@[j].values, periods as int, i),
                    ),
                    ..self@[j]
                }),
    {
        proof { self.lemma_wf(); }
        let ghost t = self@;
        let mut out: Vec<Series> = Vec::new();
        let mut j: usize = 0;
        while j < self.width()
            invariant
                j <= t.len(),
                self.wf(),
                rectangular(t),
                t == self@,
                out@.len() == j,
                forall|q: int|
                    0 <= q < j ==> (#[trigger] out@[q]).wf() && out@[q]@ == (SeriesV {
                        values: Seq::new(
                            t[q].values.len(),
                            |i: int| shifted(t[q].values, periods as int, i),
                        ),
                        ..t[q]
                    }),
            decreases t.len() - j,
        {
            let col = self.series_at(j);
            let cells = col.to_cells();
            let ghost s = t[j as int].values;
            let n = cells.len();
            let mut vals: Vec<Cell> = Vec::new();
            let mut i: usize = 0;
            while i < n
                invariant
                    i <= n,
                    n == cells@.len(),
                    cells_view(cells@) == s,
                    vals@.len() == i,
                    forall|q: int| 0 <= q < i ==> (#[trigger] cells_view(vals@)[q]) == shifted(s, periods as int, q),
                decreases n - i,
            {
                let src: i128 = i as i128 - periods as i128;
                let c = if 0 <= src && src < n as i128 {
                    cells[src as usize].duplicate()
                } else {
                    Cell::Null
                };
                proof { lemma_cells_view_push(vals@, c); }
                vals.push(c);
                i += 1;
            }
            proof { col.lemma_wf(); }
            assert forall|q: int| 0 <= q < cells_view(vals@).len() implies crate::cell::fits(
                #[trigger] cells_view(vals@)[q],
                col@.dtype,
            ) by {
                let src = q - periods as int;
                if 0 <= src < s.len() {
                    assert(crate::cell::fits(s[src], col@.dtype));
                }
            }
            let c = Series::from_cells(col.name(), col.dtype(), vals);
            assert(c@.values =~= Seq::new(s.len(), |i: int| shifted(s, periods as int, i)));
            out.push(c);
            j += 1;
        }
        let ghost ov = out@.map_values(|s: Series| s@);
        assert(rectangular(ov)) by {
            assert forall|q: int| 0 <= q < ov.len() implies (#[trigger] ov[q]).values.len() == height_of(ov) by {
                assert(ov[q].values.len() == t[q].values.len());
                assert(ov[0].values.len() == t[0].values.len());
            }
        }
        PyDataFrame::from_series(out)
    }
}

} // verus!
